//! Literary music notation: parse LilyPond-style note text embedded in
//! Markdown scores, render pitch sparklines, generate `.ly` sources and MIDI
//! event streams.

pub mod audio;
pub mod ly_gen;
pub mod midi_file;
pub mod note;
pub mod parser;
pub mod score;
pub mod sparkline;
pub mod text;
pub mod tui;

use vstd::prelude::*;

verus! {

/// Default MIDI resolution: ticks per quarter note.
pub const TICKS_PER_BEAT: u32 = 480;

} // verus!
