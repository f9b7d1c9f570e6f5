//! Pitch sparklines: a piano-roll grid of a track, one row per pitch and one
//! column per sixteenth note, with bar-line columns, hover and playhead.

use vstd::prelude::*;

use crate::note::{try_parse_notes_relative, copy_note, notes_view, parse_relative, Note, NoteView, ParsedTrack, ParsedTrackView};
use crate::score::{Score, Track};
use crate::text::{
    all_digits, digit_char, digits_value, lemma_dec2_value, ascii_lower, is_ws, lemma_lines_line_then, lemma_lines_one, lemma_trim_end_at_bounds, lines, no_newline,
    trim_end_at, chars_eq_str, chars_of, dec, dec2, join, lemma_join_push, lemma_trim_end_ws_suffix, is_ascii_seq, lowercase, push_chars, push_dec, push_dec2, trim_end, trim_end_chars,
    replace_all, replace_chars, split_whitespace, string_from, to_lowercase, trim, trim_chars,
    words, find_char, find_char_exec, parse_u32, parse_u32_chars, push_str, slice_chars,
};
use crate::audio::{is_lx, played_tracks, parse_track};
use crate::TICKS_PER_BEAT;

verus! {

// ───────────────────────── themes and colors ─────────────────────────

/// A color theme for sparkline backgrounds and foregrounds.
#[derive(Debug, Clone, Copy, PartialEq, Eq, Structural)]
pub enum Theme {
    /// Black & white: white keys = white bg, black keys = black bg.
    Mono,
    /// Soft pastel rainbow (the first theme).
    Macaron,
    /// Piano-style: white keys = light gray, black keys = dark gray.
    Piano,
}

impl Default for Theme {
    fn default() -> (r: Self)
        ensures
            r == Theme::Mono,
    {
        Theme::Mono
    }
}

pub open spec fn theme_name(t: Theme) -> Seq<char> {
    match t {
        Theme::Mono => "Mono"@,
        Theme::Macaron => "Macaron"@,
        Theme::Piano => "Piano"@,
    }
}

/// The theme whose lowercase name is `lower`.
pub open spec fn theme_of_lower(lower: Seq<char>) -> Option<Theme> {
    if lower == "mono"@ {
        Some(Theme::Mono)
    } else if lower == "macaron"@ {
        Some(Theme::Macaron)
    } else if lower == "piano"@ {
        Some(Theme::Piano)
    } else {
        None
    }
}

pub open spec fn theme_next(t: Theme) -> Theme {
    match t {
        Theme::Mono => Theme::Macaron,
        Theme::Macaron => Theme::Piano,
        Theme::Piano => Theme::Mono,
    }
}

impl Theme {
    /// Names of all themes, in cycle order.
    pub fn all() -> (r: Vec<&'static str>)
        ensures
            r@.len() == 3,
            r@[0]@ == theme_name(Theme::Mono),
            r@[1]@ == theme_name(Theme::Macaron),
            r@[2]@ == theme_name(Theme::Piano),
    {
        let mut v: Vec<&'static str> = Vec::new();
        v.push("Mono");
        v.push("Macaron");
        v.push("Piano");
        v
    }

    /// The theme named `name`, ignoring case.
    pub fn from_name(name: &str) -> (r: Option<Self>)
        ensures
            r == theme_of_lower(lowercase(name@)),
    {
        let l = to_lowercase(name);
        let v = chars_of(l.as_str());
        if chars_eq_str(v.as_slice(), "mono") {
            Some(Theme::Mono)
        } else if chars_eq_str(v.as_slice(), "macaron") {
            Some(Theme::Macaron)
        } else if chars_eq_str(v.as_slice(), "piano") {
            Some(Theme::Piano)
        } else {
            None
        }
    }

    pub fn name(self) -> (r: &'static str)
        ensures
            r@ == theme_name(self),
    {
        match self {
            Theme::Mono => "Mono",
            Theme::Macaron => "Macaron",
            Theme::Piano => "Piano",
        }
    }

    /// Cycle to the next theme (for click-to-toggle in the settings popup).
    pub fn next(self) -> (r: Self)
        ensures
            r == theme_next(self),
    {
        match self {
            Theme::Mono => Theme::Macaron,
            Theme::Macaron => Theme::Piano,
            Theme::Piano => Theme::Mono,
        }
    }
}

/// Cycling through the themes returns to the start after three steps, and
/// every step changes the theme.
pub proof fn law_theme_cycle(t: Theme)
    ensures
        theme_next(theme_next(theme_next(t))) == t,
        theme_next(t) != t,
{
}

/// A theme's name is ASCII and names it again, in any case (`from_name` of
/// `name` gives the theme back).
pub proof fn law_theme_name_roundtrip(t: Theme)
    ensures
        is_ascii_seq(theme_name(t)),
        theme_of_lower(theme_name(t).map_values(|c: char| ascii_lower(c))) == Some(t),
{
    reveal_strlit("Mono");
    reveal_strlit("Macaron");
    reveal_strlit("Piano");
    reveal_strlit("mono");
    reveal_strlit("macaron");
    reveal_strlit("piano");
    let n = theme_name(t);
    let l = n.map_values(|c: char| ascii_lower(c));
    match t {
        Theme::Mono => {
            assert(l =~= "mono"@);
        },
        Theme::Macaron => {
            assert(l =~= "macaron"@);
            assert(l != "mono"@);
        },
        Theme::Piano => {
            assert(l =~= "piano"@);
            assert(l != "mono"@);
            assert(l != "macaron"@);
        },
    }
}

/// A terminal color.
#[derive(Debug, Clone, Copy, PartialEq, Eq, Structural)]
pub enum Color {
    /// The terminal's default.
    Reset,
    Black,
    Blue,
    Yellow,
    DarkGray,
    White,
    Rgb(u8, u8, u8),
}

/// Whether a pitch class is a white piano key (C D E F G A B).
pub open spec fn is_white_key(pc: int) -> bool {
    pc == 0 || pc == 2 || pc == 4 || pc == 5 || pc == 7 || pc == 9 || pc == 11
}

pub open spec fn bg_color_spec(midi: u8, theme: Theme) -> Color {
    let pc = midi as int % 12;
    match theme {
        Theme::Mono => if is_white_key(pc) {
            Color::Rgb(230, 230, 230)
        } else {
            Color::Rgb(40, 40, 40)
        },
        Theme::Piano => if is_white_key(pc) {
            Color::Rgb(200, 200, 205)
        } else {
            Color::Rgb(80, 80, 85)
        },
        Theme::Macaron => if pc == 0 {
            Color::Rgb(120, 140, 180)
        } else if pc == 2 {
            Color::Rgb(180, 130, 144)
        } else if pc == 4 {
            Color::Rgb(140, 172, 124)
        } else if pc == 5 {
            Color::Rgb(176, 148, 104)
        } else if pc == 7 {
            Color::Rgb(124, 160, 168)
        } else if pc == 9 {
            Color::Rgb(160, 128, 176)
        } else if pc == 11 {
            Color::Rgb(140, 140, 148)
        } else {
            Color::Reset
        },
    }
}

/// Background color for a pitch, based on the active theme.
pub fn bg_color(midi: u8, theme: Theme) -> (r: Color)
    ensures
        r == bg_color_spec(midi, theme),
{
    let pc = midi % 12;
    let white = pc == 0 || pc == 2 || pc == 4 || pc == 5 || pc == 7 || pc == 9 || pc == 11;
    match theme {
        Theme::Mono => if white {
            Color::Rgb(230, 230, 230)
        } else {
            Color::Rgb(40, 40, 40)
        },
        Theme::Piano => if white {
            Color::Rgb(200, 200, 205)
        } else {
            Color::Rgb(80, 80, 85)
        },
        Theme::Macaron => if pc == 0 {
            Color::Rgb(120, 140, 180)
        } else if pc == 2 {
            Color::Rgb(180, 130, 144)
        } else if pc == 4 {
            Color::Rgb(140, 172, 124)
        } else if pc == 5 {
            Color::Rgb(176, 148, 104)
        } else if pc == 7 {
            Color::Rgb(124, 160, 168)
        } else if pc == 9 {
            Color::Rgb(160, 128, 176)
        } else if pc == 11 {
            Color::Rgb(140, 140, 148)
        } else {
            Color::Reset
        },
    }
}

// ───────────────────────── scales ─────────────────────────

/// Which pitch rows to show in the sparkline.
#[derive(Debug, Clone, Copy, PartialEq, Eq, Structural)]
pub enum ScaleMode {
    /// Show only notes of the given scale (major/minor).  The tonic + mode
    /// are encoded as a bitmask of 7 pitch classes.
    Diatonic(u16),
    /// Show all semitone rows.
    Chromatic,
}

impl Default for ScaleMode {
    fn default() -> (r: Self)
        ensures
            r == ScaleMode::Chromatic,
    {
        ScaleMode::Chromatic
    }
}

/// Major scale interval pattern (semitone offsets from tonic): W W H W W W H
/// → 0, 2, 4, 5, 7, 9, 11
pub const MAJOR_PITCHES: [u8; 7] = [0, 2, 4, 5, 7, 9, 11];

/// Natural minor: 0, 2, 3, 5, 7, 8, 10
pub const MINOR_PITCHES: [u8; 7] = [0, 2, 3, 5, 7, 8, 10];

pub open spec fn major_seq() -> Seq<u8> {
    seq![0u8, 2, 4, 5, 7, 9, 11]
}

pub open spec fn minor_seq() -> Seq<u8> {
    seq![0u8, 2, 3, 5, 7, 8, 10]
}

/// The bit of a pitch class.
pub open spec fn pc_bit(pc: u8) -> u16 {
    1u16 << pc
}

/// The bits of `(tonic + p) % 12` for the pitches `ps`, or-ed together.
pub open spec fn mask_of(tonic: u8, ps: Seq<u8>) -> u16
    decreases ps.len(),
{
    if ps.len() == 0 {
        0
    } else {
        mask_of(tonic, ps.drop_last()) | pc_bit(((tonic + ps.last()) % 12) as u8)
    }
}

/// Build a 12-bit pitch-class mask for a scale starting at `tonic`.
pub fn scale_mask(tonic: u8, pitches: &[u8; 7]) -> (r: u16)
    requires
        forall|k: int| 0 <= k < 7 ==> tonic + #[trigger] pitches@[k] <= u8::MAX,
    ensures
        r == mask_of(tonic, pitches@),
{
    let mut m: u16 = 0;
    let mut k: usize = 0;
    while k < 7
        invariant
            k <= 7,
            pitches@.len() == 7,
            forall|j: int| 0 <= j < 7 ==> tonic + #[trigger] pitches@[j] <= u8::MAX,
            m == mask_of(tonic, pitches@.take(k as int)),
        decreases 7 - k,
    {
        let pc: u8 = (tonic + pitches[k]) % 12;
        m = m | (1u16 << pc);
        proof {
            assert(pitches@.take(k + 1).drop_last() == pitches@.take(k as int));
            assert(pitches@.take(k + 1).last() == pitches@[k as int]);
        }
        k = k + 1;
    }
    assert(pitches@.take(7) == pitches@);
    m
}

/// Set bits of `x`, one term per bit.
spec fn bits_sum(x: u16) -> int {
    ((x >> 0u16) & 1) + ((x >> 1u16) & 1) + ((x >> 2u16) & 1) + ((x >> 3u16) & 1) + ((x >> 4u16) & 1)
        + ((x >> 5u16) & 1) + ((x >> 6u16) & 1) + ((x >> 7u16) & 1) + ((x >> 8u16) & 1) + ((x >> 9u16)
        & 1) + ((x >> 10u16) & 1) + ((x >> 11u16) & 1) + ((x >> 12u16) & 1) + ((x >> 13u16) & 1) + ((x
        >> 14u16) & 1) + ((x >> 15u16) & 1)
}

proof fn lemma_popcount_sum(x: u16)
    ensures
        popcount(x) == bits_sum(x),
{
    reveal_with_fuel(count_bits_from, 17);
}

proof fn lemma_mask_push(t: u8, s: Seq<u8>, x: u8)
    ensures
        mask_of(t, s.push(x)) == mask_of(t, s) | pc_bit(((t + x) % 12) as u8),
{
    assert(s.push(x).drop_last() == s);
}

/// A major or minor scale on any tonic holds exactly seven pitch classes,
/// all below 12, and holds its tonic.
pub proof fn law_scale_mask_seven(tonic: u8, major: bool)
    requires
        tonic < 12,
    ensures
        popcount(mask_of(tonic, if major { major_seq() } else { minor_seq() })) == 7,
        mask_of(tonic, if major { major_seq() } else { minor_seq() }) < 4096,
        mask_of(tonic, if major { major_seq() } else { minor_seq() }) & pc_bit(tonic) != 0,
{
    let t = tonic;
    let m = mask_of(tonic, if major { major_seq() } else { minor_seq() });
    lemma_popcount_sum(m);
    assert(mask_of(t, Seq::<u8>::empty()) == 0);
    if major {
        lemma_mask_push(t, Seq::<u8>::empty(), 0u8);
        lemma_mask_push(t, Seq::<u8>::empty().push(0u8), 2u8);
        lemma_mask_push(t, Seq::<u8>::empty().push(0u8).push(2u8), 4u8);
        lemma_mask_push(t, Seq::<u8>::empty().push(0u8).push(2u8).push(4u8), 5u8);
        lemma_mask_push(t, Seq::<u8>::empty().push(0u8).push(2u8).push(4u8).push(5u8), 7u8);
        lemma_mask_push(t, Seq::<u8>::empty().push(0u8).push(2u8).push(4u8).push(5u8).push(7u8), 9u8);
        lemma_mask_push(t, Seq::<u8>::empty().push(0u8).push(2u8).push(4u8).push(5u8).push(7u8).push(9u8), 11u8);
        assert(Seq::<u8>::empty().push(0u8).push(2u8).push(4u8).push(5u8).push(7u8).push(9u8).push(11u8) =~= major_seq());
        assert(m == 0 | pc_bit(((t + 0) % 12) as u8) | pc_bit(((t + 2) % 12) as u8) | pc_bit(((t + 4) % 12) as u8) | pc_bit(((t + 5) % 12) as u8) | pc_bit(((t + 7) % 12) as u8) | pc_bit(((t + 9) % 12) as u8) | pc_bit(((t + 11) % 12) as u8));
        assert(bits_sum(m) == 7 && m < 4096 && m & pc_bit(t) != 0) by (bit_vector)
            requires
                t < 12,
                m == 0 | pc_bit(((t + 0) % 12) as u8) | pc_bit(((t + 2) % 12) as u8) | pc_bit(((t + 4) % 12) as u8) | pc_bit(((t + 5) % 12) as u8) | pc_bit(((t + 7) % 12) as u8) | pc_bit(((t + 9) % 12) as u8) | pc_bit(((t + 11) % 12) as u8),
        ;
    } else {
        lemma_mask_push(t, Seq::<u8>::empty(), 0u8);
        lemma_mask_push(t, Seq::<u8>::empty().push(0u8), 2u8);
        lemma_mask_push(t, Seq::<u8>::empty().push(0u8).push(2u8), 3u8);
        lemma_mask_push(t, Seq::<u8>::empty().push(0u8).push(2u8).push(3u8), 5u8);
        lemma_mask_push(t, Seq::<u8>::empty().push(0u8).push(2u8).push(3u8).push(5u8), 7u8);
        lemma_mask_push(t, Seq::<u8>::empty().push(0u8).push(2u8).push(3u8).push(5u8).push(7u8), 8u8);
        lemma_mask_push(t, Seq::<u8>::empty().push(0u8).push(2u8).push(3u8).push(5u8).push(7u8).push(8u8), 10u8);
        assert(Seq::<u8>::empty().push(0u8).push(2u8).push(3u8).push(5u8).push(7u8).push(8u8).push(10u8) =~= minor_seq());
        assert(m == 0 | pc_bit(((t + 0) % 12) as u8) | pc_bit(((t + 2) % 12) as u8) | pc_bit(((t + 3) % 12) as u8) | pc_bit(((t + 5) % 12) as u8) | pc_bit(((t + 7) % 12) as u8) | pc_bit(((t + 8) % 12) as u8) | pc_bit(((t + 10) % 12) as u8));
        assert(bits_sum(m) == 7 && m < 4096 && m & pc_bit(t) != 0) by (bit_vector)
            requires
                t < 12,
                m == 0 | pc_bit(((t + 0) % 12) as u8) | pc_bit(((t + 2) % 12) as u8) | pc_bit(((t + 3) % 12) as u8) | pc_bit(((t + 5) % 12) as u8) | pc_bit(((t + 7) % 12) as u8) | pc_bit(((t + 8) % 12) as u8) | pc_bit(((t + 10) % 12) as u8),
        ;
    }
}

/// Number of set bits among bits `b..16`.
pub open spec fn count_bits_from(x: u16, b: int) -> nat
    decreases 16 - b,
{
    if b < 0 || b >= 16 {
        0
    } else {
        (((x >> (b as u16)) & 1) as nat) + count_bits_from(x, b + 1)
    }
}

/// Number of set bits (`u16::count_ones`).
pub open spec fn popcount(x: u16) -> nat {
    count_bits_from(x, 0)
}

fn popcount_exec(x: u16) -> (r: u32)
    ensures
        r == popcount(x),
{
    let mut n: u32 = 0;
    let mut b: u16 = 0;
    while b < 16
        invariant
            b <= 16,
            n <= b,
            n + count_bits_from(x, b as int) == popcount(x),
        decreases 16 - b,
    {
        let bit = (x >> b) & 1;
        assert(bit <= 1) by (bit_vector)
            requires
                bit == (x >> b) & 1,
        ;
        n = n + bit as u32;
        b = b + 1;
    }
    n
}

/// Pitch-class bits of all pitches in `ps`.
pub open spec fn used_mask(ps: Seq<u8>) -> u16
    decreases ps.len(),
{
    if ps.len() == 0 {
        0
    } else {
        used_mask(ps.drop_last()) | pc_bit(ps.last() % 12)
    }
}

/// All pitches of the notes, in order.
pub open spec fn all_pitches(notes: Seq<NoteView>) -> Seq<u8>
    decreases notes.len(),
{
    if notes.len() == 0 {
        seq![]
    } else {
        all_pitches(notes.drop_last()) + notes.last().pitches
    }
}

/// The candidate scales in the order they are tried: every tonic, major then
/// minor.
pub open spec fn candidate(k: int) -> (u8, bool) {
    ((k / 2) as u8, k % 2 == 0)
}

pub open spec fn candidate_mask(k: int) -> u16 {
    let (t, major) = candidate(k);
    mask_of(t, if major {
        major_seq()
    } else {
        minor_seq()
    })
}

/// The mask contains every used pitch class.
pub open spec fn covers(mask: u16, used: u16) -> bool {
    used & !mask == 0
}

pub open spec fn extra(mask: u16, used: u16) -> nat {
    popcount(mask & !used)
}

/// Scan of candidates from `k`, keeping the first covering candidate with
/// strictly fewest extra pitch classes.
pub open spec fn best_scale_from(used: u16, k: int, best: Option<(u8, u16, bool, nat)>) -> Option<
    (u8, u16, bool, nat),
>
    decreases 24 - k,
{
    if k < 0 || k >= 24 {
        best
    } else {
        let m = candidate_mask(k);
        let (t, major) = candidate(k);
        let e = extra(m, used);
        let better = match best {
            None => true,
            Some(b) => e < b.3,
        };
        if covers(m, used) && better {
            best_scale_from(used, k + 1, Some((t, m, major, e)))
        } else {
            best_scale_from(used, k + 1, best)
        }
    }
}

proof fn lemma_best_scale_from(used: u16, k: int, best: Option<(u8, u16, bool, nat)>)
    requires
        0 <= k <= 24,
        best matches Some(b) ==> covers(b.1, used) && b.3 == extra(b.1, used) && exists|j: int|
            0 <= j < k && candidate(j) == (b.0, b.2) && #[trigger] candidate_mask(j) == b.1,
        best matches Some(b) ==> forall|j: int|
            0 <= j < k && covers(#[trigger] candidate_mask(j), used) ==> b.3 <= extra(candidate_mask(j), used),
        best is None ==> forall|j: int| 0 <= j < k ==> !covers(#[trigger] candidate_mask(j), used),
    ensures
        best_scale_from(used, k, best) matches Some(b) ==> covers(b.1, used) && b.3 == extra(b.1, used)
            && exists|j: int| 0 <= j < 24 && candidate(j) == (b.0, b.2) && #[trigger] candidate_mask(j)
            == b.1,
        best_scale_from(used, k, best) matches Some(b) ==> forall|j: int|
            0 <= j < 24 && covers(#[trigger] candidate_mask(j), used) ==> b.3 <= extra(candidate_mask(j), used),
        best_scale_from(used, k, best) is None ==> forall|j: int|
            0 <= j < 24 ==> !covers(#[trigger] candidate_mask(j), used),
    decreases 24 - k,
{
    if k < 24 {
        let m = candidate_mask(k);
        let (t, major) = candidate(k);
        let e = extra(m, used);
        let better = match best {
            None => true,
            Some(b) => e < b.3,
        };
        if covers(m, used) && better {
            lemma_best_scale_from(used, k + 1, Some((t, m, major, e)));
        } else {
            lemma_best_scale_from(used, k + 1, best);
        }
    }
}

/// The detected scale holds every pitch class the track uses, is one of
/// the 24 major and minor scales, and no such scale holding them all has
/// fewer pitch classes the track does not use; `None` exactly when none
/// holds them all.
pub proof fn law_detect_scale(t: ParsedTrackView)
    ensures
        detected_scale(t) matches Some((tonic, mask, major)) ==> {
            let used = used_mask(all_pitches(t.notes));
            &&& covers(mask, used)
            &&& exists|j: int| 0 <= j < 24 && candidate(j) == (tonic, major) && #[trigger] candidate_mask(j) == mask
            &&& forall|j: int|
                0 <= j < 24 && covers(#[trigger] candidate_mask(j), used) ==> extra(mask, used) <= extra(
                    candidate_mask(j),
                    used,
                )
        },
        detected_scale(t) is None ==> forall|j: int|
            0 <= j < 24 ==> !covers(#[trigger] candidate_mask(j), used_mask(all_pitches(t.notes))),
{
    lemma_best_scale_from(used_mask(all_pitches(t.notes)), 0, None);
}

pub open spec fn detected_scale(t: ParsedTrackView) -> Option<(u8, u16, bool)> {
    match best_scale_from(used_mask(all_pitches(t.notes)), 0, None) {
        None => None,
        Some((t, m, major, _)) => Some((t, m, major)),
    }
}

fn used_mask_of_track(track: &ParsedTrack) -> (r: u16)
    ensures
        r == used_mask(all_pitches(track@.notes)),
{
    let mut used: u16 = 0;
    let mut i: usize = 0;
    let ghost mut ps: Seq<u8> = seq![];
    while i < track.notes.len()
        invariant
            i <= track.notes@.len(),
            ps == all_pitches(track@.notes.take(i as int)),
            used == used_mask(ps),
        decreases track.notes@.len() - i,
    {
        let n = &track.notes[i];
        let mut j: usize = 0;
        let ghost ps0 = ps;
        while j < n.pitches.len()
            invariant
                j <= n.pitches@.len(),
                ps == ps0 + n.pitches@.take(j as int),
                used == used_mask(ps),
            decreases n.pitches@.len() - j,
        {
            let p = n.pitches[j];
            used = used | (1u16 << (p % 12));
            proof {
                assert(n.pitches@.take(j + 1) == n.pitches@.take(j as int).push(p));
                ps = ps.push(p);
                assert(ps.drop_last() == ps0 + n.pitches@.take(j as int));
            }
            j = j + 1;
        }
        proof {
            assert(n.pitches@.take(n.pitches@.len() as int) == n.pitches@);
            assert(track@.notes.take(i + 1).drop_last() == track@.notes.take(i as int));
            assert(track@.notes.take(i + 1).last() == n@);
        }
        i = i + 1;
    }
    assert(track@.notes.take(track.notes@.len() as int) == track@.notes);
    used
}

/// Detect a scale that contains every pitch class used in `track`.
/// Returns `(tonic, mask, is_major)` for the best-fitting major or minor scale.
pub fn detect_scale(track: &ParsedTrack) -> (r: Option<(u8, u16, bool)>)
    ensures
        r == detected_scale(track@),
{
    let used = used_mask_of_track(track);
    let mut best: Option<(u8, u16, bool, u32)> = None;
    let ghost mut gbest: Option<(u8, u16, bool, nat)> = None;
    let mut tonic: u8 = 0;
    while tonic < 12
        invariant
            tonic <= 12,
            best_scale_from(used, 2 * tonic as int, gbest) == best_scale_from(used, 0, None),
            gbest == match best {
                None => None,
                Some((t, m, maj, e)) => Some((t, m, maj, e as nat)),
            },
        decreases 12 - tonic,
    {
        let mut pass: usize = 0;
        while pass < 2
            invariant
                pass <= 2,
                tonic < 12,
                best_scale_from(used, 2 * tonic as int + pass as int, gbest) == best_scale_from(
                    used,
                    0,
                    None,
                ),
                gbest == match best {
                    None => None,
                    Some((t, m, maj, e)) => Some((t, m, maj, e as nat)),
                },
            decreases 2 - pass,
        {
            let is_major = pass == 0;
            let mask = if is_major {
                scale_mask(tonic, &MAJOR_PITCHES)
            } else {
                scale_mask(tonic, &MINOR_PITCHES)
            };
            proof {
                let k = 2 * tonic as int + pass as int;
                assert(candidate(k) == (tonic, is_major));
                assert(MAJOR_PITCHES@ == major_seq());
                assert(MINOR_PITCHES@ == minor_seq());
                assert(mask == candidate_mask(k));
            }
            if used & !mask == 0 {
                let e = popcount_exec(mask & !used);
                let better = match best {
                    None => true,
                    Some((_, _, _, be)) => e < be,
                };
                if better {
                    best = Some((tonic, mask, is_major, e));
                    proof {
                        gbest = Some((tonic, mask, is_major, e as nat));
                    }
                }
            }
            pass = pass + 1;
        }
        tonic = tonic + 1;
    }
    match best {
        None => None,
        Some((t, m, maj, _)) => Some((t, m, maj)),
    }
}

/// Tonic of a lowercase LilyPond note name.
pub open spec fn tonic_of(w: Seq<char>) -> Option<u8> {
    if w == "c"@ {
        Some(0u8)
    } else if w == "cis"@ {
        Some(1u8)
    } else if w == "d"@ {
        Some(2u8)
    } else if w == "dis"@ {
        Some(3u8)
    } else if w == "e"@ {
        Some(4u8)
    } else if w == "f"@ {
        Some(5u8)
    } else if w == "fis"@ {
        Some(6u8)
    } else if w == "g"@ {
        Some(7u8)
    } else if w == "gis"@ {
        Some(8u8)
    } else if w == "a"@ {
        Some(9u8)
    } else if w == "ais"@ {
        Some(10u8)
    } else if w == "b"@ {
        Some(11u8)
    } else {
        None
    }
}

/// Whether the last `major`/`minor` word is `major` (`true` without any).
pub open spec fn last_mode_major(ws: Seq<Seq<char>>) -> bool
    decreases ws.len(),
{
    if ws.len() == 0 {
        true
    } else if ws.last() == "major"@ {
        true
    } else if ws.last() == "minor"@ {
        false
    } else {
        last_mode_major(ws.drop_last())
    }
}

/// The words of a key string: lowercase, backslashes as spaces, and `major`
/// / `minor` split off what precedes them.
pub open spec fn key_words(key: Seq<char>) -> Seq<Seq<char>> {
    words(
        replace_all(
            replace_all(replace_all(lowercase(key), "\\"@, " "@), "major"@, " major"@),
            "minor"@,
            " minor"@,
        ),
    )
}

/// The diatonic mask named by a key string such as `c \major` or `a \minor`.
pub open spec fn key_mask(key: Seq<char>) -> Option<u16> {
    let ws = key_words(key);
    if ws.len() == 0 {
        None
    } else {
        match tonic_of(ws[0]) {
            None => None,
            Some(t) => Some(
                mask_of(
                    t,
                    if last_mode_major(ws) {
                        major_seq()
                    } else {
                        minor_seq()
                    },
                ),
            ),
        }
    }
}

fn tonic_of_exec(w: &Vec<char>) -> (r: Option<u8>)
    ensures
        r == tonic_of(w@),
{
    let s = w.as_slice();
    if chars_eq_str(s, "c") {
        Some(0)
    } else if chars_eq_str(s, "cis") {
        Some(1)
    } else if chars_eq_str(s, "d") {
        Some(2)
    } else if chars_eq_str(s, "dis") {
        Some(3)
    } else if chars_eq_str(s, "e") {
        Some(4)
    } else if chars_eq_str(s, "f") {
        Some(5)
    } else if chars_eq_str(s, "fis") {
        Some(6)
    } else if chars_eq_str(s, "g") {
        Some(7)
    } else if chars_eq_str(s, "gis") {
        Some(8)
    } else if chars_eq_str(s, "a") {
        Some(9)
    } else if chars_eq_str(s, "ais") {
        Some(10)
    } else if chars_eq_str(s, "b") {
        Some(11)
    } else {
        None
    }
}

/// Parse a LilyPond-style key string like `c \major` or `a \minor` into a
/// `ScaleMode::Diatonic` with the corresponding pitch-class mask.
pub fn parse_key(key_str: &str) -> (r: Option<ScaleMode>)
    ensures
        r == match key_mask(key_str@) {
            None => None,
            Some(m) => Some(ScaleMode::Diatonic(m)),
        },
{
    let l = to_lowercase(key_str);
    let v0 = chars_of(l.as_str());
    proof {
        reveal_strlit("\\");
        reveal_strlit("major");
        reveal_strlit("minor");
    }
    let v1 = replace_chars(v0.as_slice(), "\\", " ");
    let v2 = replace_chars(v1.as_slice(), "major", " major");
    let v3 = replace_chars(v2.as_slice(), "minor", " minor");
    let parts = split_whitespace(v3.as_slice());
    let ghost ws = parts@.map_values(|w: Vec<char>| w@);
    assert(ws == key_words(key_str@));
    if parts.len() == 0 {
        return None;
    }
    assert(ws[0] == parts@[0]@);
    let tonic = match tonic_of_exec(&parts[0]) {
        Some(t) => t,
        None => {
            return None;
        },
    };
    let mut i = parts.len();
    let mut major = true;
    let mut decided = false;
    assert(ws.take(i as int) == ws);
    while i > 0 && !decided
        invariant
            i <= parts@.len(),
            ws == parts@.map_values(|w: Vec<char>| w@),
            decided ==> major == last_mode_major(ws),
            !decided ==> major,
            !decided ==> last_mode_major(ws.take(i as int)) == last_mode_major(ws),
        decreases i + if decided {
            0int
        } else {
            1int
        },
    {
        proof {
            assert(ws.take(i as int).last() == parts@[i - 1]@);
            assert(ws.take(i as int).drop_last() == ws.take(i - 1));
        }
        if chars_eq_str(parts[i - 1].as_slice(), "major") {
            major = true;
            decided = true;
        } else if chars_eq_str(parts[i - 1].as_slice(), "minor") {
            major = false;
            decided = true;
        } else {
            i = i - 1;
        }
    }
    proof {
        if !decided {
            assert(i == 0);
            assert(ws.take(0) == Seq::<Seq<char>>::empty());
            assert(last_mode_major(ws.take(0)));
            assert(major);
        }
    }
    assert(MAJOR_PITCHES@ == major_seq());
    assert(MINOR_PITCHES@ == minor_seq());
    assert(key_words(key_str@) == ws);
    assert(ws.len() > 0);
    assert(tonic_of(ws[0]) == Some(tonic));
    assert(major == last_mode_major(ws));
    let mask = if major {
        scale_mask(tonic, &MAJOR_PITCHES)
    } else {
        scale_mask(tonic, &MINOR_PITCHES)
    };
    Some(ScaleMode::Diatonic(mask))
}

// ───────────────────────── choosing the rows ─────────────────────────

/// The scale mode named by a key string.
pub open spec fn key_mode(key: Seq<char>) -> Option<ScaleMode> {
    match key_mask(key) {
        None => None,
        Some(m) => Some(ScaleMode::Diatonic(m)),
    }
}

/// Every track's notes parsed (relative mode, 480 ticks a beat); `None` if
/// one of them cannot be.
pub open spec fn parse_all(tracks: Seq<Track>) -> Option<Seq<ParsedTrackView>>
    decreases tracks.len(),
{
    if tracks.len() == 0 {
        Some(seq![])
    } else {
        match parse_all(tracks.drop_last()) {
            None => None,
            Some(ps) => match parse_relative(tracks.last().notes@, tracks.last().relative@, 480) {
                None => None,
                Some(p) => Some(ps.push(p)),
            },
        }
    }
}

/// The notes of all parsed tracks, one track after the other.
pub open spec fn all_notes(ps: Seq<ParsedTrackView>) -> Seq<NoteView>
    decreases ps.len(),
{
    if ps.len() == 0 {
        seq![]
    } else {
        all_notes(ps.drop_last()) + ps.last().notes
    }
}

/// The longest of the parsed tracks.
pub open spec fn max_total(ps: Seq<ParsedTrackView>) -> u64
    decreases ps.len(),
{
    if ps.len() == 0 {
        0
    } else if ps.last().total_ticks > max_total(ps.drop_last()) {
        ps.last().total_ticks
    } else {
        max_total(ps.drop_last())
    }
}

/// The key of the frontmatter, when it names a scale.
pub open spec fn metadata_mode(score: Score) -> Option<ScaleMode> {
    match score.metadata.key {
        Some(k) => key_mode(k@),
        None => None,
    }
}

/// Choosing the mode from the score needs its tracks parsed.
pub open spec fn needs_tracks(score: Score, arg: Seq<char>) -> bool {
    trim(arg) == "auto"@ && metadata_mode(score) is None
}

/// The scale mode of a `--scale` argument: `chromatic`, `auto` (the
/// frontmatter key, else the scale detected from all tracks' pitches,
/// else chromatic), or a key string (chromatic when it names none).
pub open spec fn resolved_scale(score: Score, arg: Seq<char>) -> ScaleMode {
    let a = trim(arg);
    if a == "chromatic"@ {
        ScaleMode::Chromatic
    } else if a == "auto"@ {
        match metadata_mode(score) {
            Some(m) => m,
            None => match parse_all(score.tracks@) {
                Some(ps) => match detected_scale(
                    ParsedTrackView { notes: all_notes(ps), total_ticks: max_total(ps) },
                ) {
                    Some((_, mask, _)) => ScaleMode::Diatonic(mask),
                    None => ScaleMode::Chromatic,
                },
                None => ScaleMode::Chromatic,
            },
        }
    } else {
        match key_mode(a) {
            Some(m) => m,
            None => ScaleMode::Chromatic,
        }
    }
}

/// Resolve a `--scale` argument (or `auto`) into a `ScaleMode`.
pub fn resolve_scale_mode(score: &Score, arg: &str) -> (r: ScaleMode)
    requires
        needs_tracks(*score, arg@) ==> parse_all(score.tracks@) is Some,
    ensures
        r == resolved_scale(*score, arg@),
{
    match try_resolve_scale_mode(score, arg) {
        Some(m) => m,
        None => ScaleMode::Chromatic,
    }
}

/// Resolve a `--scale` argument as `resolve_scale_mode` does; `None` when
/// the mode has to be detected from the tracks and one of them does not
/// parse.
pub fn try_resolve_scale_mode(score: &Score, arg: &str) -> (r: Option<ScaleMode>)
    ensures
        r is None <==> (needs_tracks(*score, arg@) && parse_all(score.tracks@) is None),
        r is Some ==> r->0 == resolved_scale(*score, arg@),
{
    let av = chars_of(arg);
    let a = trim_chars(av.as_slice());
    if chars_eq_str(a.as_slice(), "chromatic") {
        proof {
            reveal_strlit("chromatic");
            reveal_strlit("auto");
            assert("chromatic"@.len() != "auto"@.len());
        }
        return Some(ScaleMode::Chromatic);
    }
    if !chars_eq_str(a.as_slice(), "auto") {
        let key = string_from(a.as_slice());
        return Some(
            match parse_key(key.as_str()) {
                Some(m) => m,
                None => ScaleMode::Chromatic,
            },
        );
    }
    match &score.metadata.key {
        Some(k) => match parse_key(k.as_str()) {
            Some(m) => {
                return Some(m);
            },
            None => {},
        },
        None => {},
    }
    let ghost tracks = score.tracks@;
    let ghost mut ps: Seq<ParsedTrackView> = seq![];
    let mut notes: Vec<Note> = Vec::new();
    let mut total: u64 = 0;
    let mut i: usize = 0;
    proof {
        assert(tracks.take(0) =~= Seq::<Track>::empty());
        assert(notes_view(notes@) =~= Seq::<NoteView>::empty());
    }
    while i < score.tracks.len()
        invariant
            tracks == score.tracks@,
            needs_tracks(*score, arg@),
            i <= tracks.len(),
            parse_all(tracks.take(i as int)) == Some(ps),
            notes_view(notes@) == all_notes(ps),
            total == max_total(ps),
        decreases tracks.len() - i,
    {
        proof {
            assert(tracks.take(i + 1).drop_last() == tracks.take(i as int));
            assert(tracks.take(i + 1).last() == tracks[i as int]);
        }
        let t = &score.tracks[i];
        let p = match try_parse_notes_relative(t.notes.as_str(), t.relative.as_str(), TICKS_PER_BEAT) {
            Some(p) => p,
            None => {
                proof {
                    assert(parse_all(tracks.take(i + 1)) is None);
                    if parse_all(tracks) is Some {
                        lemma_parse_all_prefix(tracks, i + 1);
                    }
                }
                return None;
            },
        };
        let ghost n0 = notes_view(notes@);
        let mut j: usize = 0;
        while j < p.notes.len()
            invariant
                j <= p.notes@.len(),
                notes_view(notes@) == n0 + p@.notes.take(j as int),
            decreases p.notes@.len() - j,
        {
            let ghost before = notes@;
            let c = copy_note(&p.notes[j]);
            notes.push(c);
            assert(p@.notes[j as int] == p.notes@[j as int]@);
            assert(notes_view(notes@) =~= notes_view(before).push(c@));
            assert(p@.notes.take(j + 1) =~= p@.notes.take(j as int).push(p@.notes[j as int]));
            assert(notes_view(notes@) =~= n0 + p@.notes.take(j + 1));
            j = j + 1;
        }
        assert(p@.notes.take(p.notes@.len() as int) == p@.notes);
        proof {
            let ps1 = ps.push(p@);
            assert(ps1.drop_last() == ps);
            assert(ps1.last() == p@);
            ps = ps1;
        }
        if p.total_ticks > total {
            total = p.total_ticks;
        }
        i = i + 1;
    }
    assert(tracks.take(tracks.len() as int) == tracks);
    let combined = ParsedTrack { notes, total_ticks: total };
    match detect_scale(&combined) {
        Some((_, mask, _)) => Some(ScaleMode::Diatonic(mask)),
        None => Some(ScaleMode::Chromatic),
    }
}

/// A prefix of tracks that all parse parses to the prefix of the results.
proof fn lemma_parse_all_prefix(tracks: Seq<Track>, i: int)
    requires
        parse_all(tracks) is Some,
        0 <= i <= tracks.len(),
    ensures
        parse_all(tracks.take(i)) == Some(parse_all(tracks)->0.take(i)),
        parse_all(tracks)->0.len() == tracks.len(),
    decreases tracks.len(),
{
    let all = parse_all(tracks)->0;
    if tracks.len() > 0 {
        let d = tracks.drop_last();
        lemma_parse_all_prefix(d, if i < tracks.len() {
            i
        } else {
            d.len() as int
        });
        let pd = parse_all(d)->0;
        assert(all == pd.push(parse_relative(tracks.last().notes@, tracks.last().relative@, 480)->0));
        if i < tracks.len() {
            assert(tracks.take(i) == d.take(i));
            assert(all.take(i) == pd.take(i));
        } else {
            assert(tracks.take(i) == tracks);
            assert(all.take(i) == all);
        }
    } else {
        assert(tracks.take(i) == tracks);
        assert(all.take(i) == all);
    }
}

// ───────────────────────── grid geometry ─────────────────────────

/// Playback progress as the fraction `numer / denom`, clamped to `[0, 1]`;
/// with `denom == 0` it is 1 when `numer > 0` and 0 otherwise.
#[derive(Debug, Clone, Copy, PartialEq, Eq, Structural)]
pub struct Progress {
    pub numer: u64,
    pub denom: u64,
}

pub open spec fn frac_num(p: Progress) -> nat {
    if p.denom == 0 {
        if p.numer > 0 {
            1
        } else {
            0
        }
    } else if p.numer > p.denom {
        p.denom as nat
    } else {
        p.numer as nat
    }
}

pub open spec fn frac_den(p: Progress) -> nat {
    if p.denom == 0 {
        1
    } else {
        p.denom as nat
    }
}

/// `p * x`, rounded down.
pub open spec fn frac_floor(p: Progress, x: nat) -> nat {
    (frac_num(p) * x) / frac_den(p)
}

/// `p * x`, rounded to nearest (halves up).
pub open spec fn frac_round(p: Progress, x: nat) -> nat {
    (2 * frac_num(p) * x + frac_den(p)) / (2 * frac_den(p))
}

/// Configuration for sparkline rendering.
pub struct SparklineConfig {
    /// Override the total timeline length (in ticks). When rendering multiple
    /// voices, pass the max total_ticks so every voice shares one time axis.
    pub total_ticks_override: Option<u64>,
    /// Playback progress (drives the playhead and the bottom progress bar).
    pub progress: Option<Progress>,
    /// Beats per bar (from time signature, e.g. 4 for 4/4). Draws bar lines.
    pub beats_per_bar: Option<u32>,
    /// Column index to highlight (mouse hover). Vertical `|` through rows.
    pub hover_col: Option<usize>,
    /// Draw the progress bar below the grid (only one voice should set this).
    pub show_progress_bar: bool,
    /// Which pitch rows to show.
    pub scale_mode: ScaleMode,
    /// Color theme.
    pub theme: Theme,
}

pub open spec fn is_default_config(c: SparklineConfig) -> bool {
    &&& c.total_ticks_override is None
    &&& c.progress is None
    &&& c.beats_per_bar is None
    &&& c.hover_col is None
    &&& !c.show_progress_bar
    &&& c.scale_mode == ScaleMode::Chromatic
    &&& c.theme == Theme::Mono
}

impl Default for SparklineConfig {
    fn default() -> (r: Self)
        ensures
            is_default_config(r),
    {
        SparklineConfig {
            total_ticks_override: None,
            progress: None,
            beats_per_bar: None,
            hover_col: None,
            show_progress_bar: false,
            scale_mode: ScaleMode::Chromatic,
            theme: Theme::Mono,
        }
    }
}

/// Smallest element (of a non-empty sequence).
pub open spec fn seq_min(s: Seq<u8>) -> u8
    decreases s.len(),
{
    if s.len() <= 1 {
        s[0]
    } else if s.last() < seq_min(s.drop_last()) {
        s.last()
    } else {
        seq_min(s.drop_last())
    }
}

/// Largest element (of a non-empty sequence).
pub open spec fn seq_max(s: Seq<u8>) -> u8
    decreases s.len(),
{
    if s.len() <= 1 {
        s[0]
    } else if s.last() > seq_max(s.drop_last()) {
        s.last()
    } else {
        seq_max(s.drop_last())
    }
}

/// Lowest row pitch: one below the lowest pitch (saturating).
pub open spec fn low_row(ps: Seq<u8>) -> int {
    if seq_min(ps) > 0 {
        seq_min(ps) - 1
    } else {
        0
    }
}

/// Highest row pitch: one above the highest pitch (saturating).
pub open spec fn high_row(ps: Seq<u8>) -> int {
    if seq_max(ps) < 255 {
        seq_max(ps) + 1
    } else {
        255
    }
}

/// A pitch gets a row if it is in the scale or its pitch class is used.
pub open spec fn row_shown(p: int, mode: ScaleMode, used: u16) -> bool {
    let b = pc_bit((p % 12) as u8);
    let in_scale = match mode {
        ScaleMode::Chromatic => true,
        ScaleMode::Diatonic(m) => m & b != 0,
    };
    in_scale || used & b != 0
}

/// The shown pitches from `p` down to `lo`.
pub open spec fn labels_down(p: int, lo: int, mode: ScaleMode, used: u16) -> Seq<u8>
    decreases p - lo + 1,
{
    if p < lo {
        seq![]
    } else {
        (if row_shown(p, mode, used) {
            seq![p as u8]
        } else {
            seq![]
        }) + labels_down(p - 1, lo, mode, used)
    }
}

/// Row pitches, highest first.
pub open spec fn grid_labels(ps: Seq<u8>, mode: ScaleMode) -> Seq<u8> {
    labels_down(high_row(ps), low_row(ps), mode, used_mask(ps))
}

/// First index from `k` on whose label is closest to `pitch`, against the
/// best so far.
pub open spec fn argmin_from(labels: Seq<u8>, pitch: u8, k: int, best: int) -> int
    decreases labels.len() - k,
{
    if k < 0 || k >= labels.len() {
        best
    } else if dist_u8(labels[k], pitch) < dist_u8(labels[best], pitch) {
        argmin_from(labels, pitch, k + 1, k)
    } else {
        argmin_from(labels, pitch, k + 1, best)
    }
}

pub open spec fn dist_u8(a: u8, b: u8) -> int {
    if a >= b {
        a - b
    } else {
        b - a
    }
}

/// The row of a pitch: the first row whose pitch is closest.
pub open spec fn row_of(labels: Seq<u8>, pitch: u8) -> int {
    argmin_from(labels, pitch, 1, 0)
}

/// Length of a bar in ticks (0 without bar lines).
pub open spec fn bar_len(bpb: Option<u32>) -> nat {
    match bpb {
        Some(b) => if b > 0 {
            (b * 480) as nat
        } else {
            0
        },
        None => 0,
    }
}

/// Number of bar lines: bar boundaries strictly inside `0..total`.
pub open spec fn bar_count(bl: nat, total: nat) -> nat {
    if bl == 0 || total == 0 {
        0
    } else {
        ((total - 1) as nat) / bl
    }
}

/// Bar lines at or before tick `x`.
pub open spec fn bars_le(x: nat, bl: nat, nb: nat) -> nat {
    if bl == 0 {
        0
    } else if x / bl < nb {
        x / bl
    } else {
        nb
    }
}

/// Bar lines strictly before tick `x`.
pub open spec fn bars_lt(x: nat, bl: nat, nb: nat) -> nat {
    if bl == 0 || x == 0 {
        0
    } else if ((x - 1) as nat) / bl < nb {
        ((x - 1) as nat) / bl
    } else {
        nb
    }
}

/// The column of a tick: one column per sixteenth note (120 ticks), plus
/// one inserted column per bar line at or before it.
pub open spec fn tick_col(x: nat, bl: nat, nb: nat) -> nat {
    x / 120 + bars_le(x, bl, nb)
}

/// Column of the `k`-th bar line (from 1): the column of its tick, shifted
/// by the `k - 1` bar-line columns before it.
pub open spec fn bar_col(k: nat, bl: nat) -> nat {
    ((k * bl) / 120 + k - 1) as nat
}

/// `c` is the column of one of the first `k` bar lines.
pub open spec fn bar_upto(c: nat, bl: nat, k: nat) -> bool
    decreases k,
{
    k > 0 && (bar_upto(c, bl, (k - 1) as nat) || c == bar_col(k, bl))
}

/// `c` is a bar-line column.
pub open spec fn is_bar_col(c: nat, bl: nat, nb: nat) -> bool {
    bl > 0 && bar_upto(c, bl, nb)
}

/// The fixed quantities of a sparkline grid.
pub ghost struct Geo {
    pub labels: Seq<u8>,
    pub total: nat,
    pub bl: nat,
    pub nb: nat,
    pub cols: nat,
}

pub open spec fn timeline_total(t: ParsedTrackView, c: SparklineConfig) -> nat {
    let tt = match c.total_ticks_override {
        Some(o) => o,
        None => t.total_ticks,
    };
    if tt >= 1 {
        tt as nat
    } else {
        1
    }
}

pub open spec fn geo_of(t: ParsedTrackView, c: SparklineConfig) -> Geo {
    let total = timeline_total(t, c);
    let bl = bar_len(c.beats_per_bar);
    let nb = bar_count(bl, total);
    let tc = tick_col(total, bl, nb);
    Geo {
        labels: grid_labels(all_pitches(t.notes), c.scale_mode),
        total,
        bl,
        nb,
        cols: if tc >= 1 {
            tc
        } else {
            1
        },
    }
}

/// Start column of a note (kept inside the grid).
pub open spec fn note_start_col(n: NoteView, g: Geo) -> nat {
    let sc = tick_col(n.start_tick as nat, g.bl, g.nb);
    if sc < g.cols - 1 {
        sc
    } else {
        (g.cols - 1) as nat
    }
}

/// End column (exclusive) of a note: at least one column after its start,
/// not past a bar line at its end tick, not past the grid.
pub open spec fn note_end_col(n: NoteView, g: Geo) -> nat {
    let end = n.start_tick + n.duration;
    let e0 = (end as nat) / 120 + bars_lt(end as nat, g.bl, g.nb);
    let sc = tick_col(n.start_tick as nat, g.bl, g.nb);
    let e1 = if e0 > sc + 1 {
        e0
    } else {
        sc + 1
    };
    if e1 < g.cols {
        e1
    } else {
        g.cols
    }
}

/// Some pitch of `ps` falls on row `r`.
pub open spec fn hits_row(ps: Seq<u8>, labels: Seq<u8>, r: int) -> bool
    decreases ps.len(),
{
    ps.len() > 0 && (hits_row(ps.drop_last(), labels, r) || row_of(labels, ps.last()) == r)
}

/// A note draws cell `(r, c)`.
pub open spec fn note_covers(n: NoteView, g: Geo, r: int, c: int) -> bool {
    note_start_col(n, g) <= c < note_end_col(n, g) && hits_row(n.pitches, g.labels, r)
}

/// One of the notes draws cell `(r, c)`.
pub open spec fn covered(notes: Seq<NoteView>, g: Geo, r: int, c: int) -> bool
    decreases notes.len(),
{
    notes.len() > 0 && (covered(notes.drop_last(), g, r, c) || note_covers(notes.last(), g, r, c))
}

/// A cell with bar lines only.
pub open spec fn bar_cell(g: Geo, c: int) -> char {
    if is_bar_col(c as nat, g.bl, g.nb) {
        '┊'
    } else {
        ' '
    }
}

/// A cell before hovering: a note, else a bar line, else blank.
pub open spec fn base_cell(notes: Seq<NoteView>, g: Geo, r: int, c: int) -> char {
    if covered(notes, g, r, c) {
        '━'
    } else {
        bar_cell(g, c)
    }
}

/// A cell of the grid: the hovered column marks blanks and bar lines.
pub open spec fn grid_cell(notes: Seq<NoteView>, g: Geo, hover: Option<usize>, r: int, c: int) -> char {
    let b = base_cell(notes, g, r, c);
    match hover {
        Some(h) => if h < g.cols && c == h && (b == ' ' || b == '┊') {
            '|'
        } else {
            b
        },
        None => b,
    }
}

pub open spec fn grid_rows(t: ParsedTrackView, c: SparklineConfig) -> Seq<Seq<char>> {
    let g = geo_of(t, c);
    Seq::new(
        g.labels.len(),
        |r: int| Seq::new(g.cols, |col: int| grid_cell(t.notes, g, c.hover_col, r, col)),
    )
}

/// The track has something to draw: notes, with at least one pitch.
pub open spec fn has_grid(t: ParsedTrackView) -> bool {
    t.notes.len() > 0 && all_pitches(t.notes).len() > 0
}

/// The tick arithmetic of the grid stays within `u64` (note ends and bar
/// ticks), and a row of the grid fits in memory.
pub open spec fn grid_ok(t: ParsedTrackView, c: SparklineConfig) -> bool {
    let g = geo_of(t, c);
    &&& forall|i: int|
        0 <= i < t.notes.len() ==> #[trigger] t.notes[i].start_tick + t.notes[i].duration
            <= u64::MAX
    &&& (g.nb == 0 || (g.nb + 1) * g.bl <= u64::MAX)
    &&& g.cols <= usize::MAX
}

/// The playback tick of a progress: `p * total`, rounded.
pub open spec fn current_tick(p: Progress, total: nat) -> nat {
    frac_round(p, total)
}

pub open spec fn is_pitched(n: NoteView) -> bool {
    n.pitches.len() > 0
}

pub open spec fn note_end(n: NoteView) -> nat {
    (n.start_tick + n.duration) as nat
}

/// Where the head goes inside a sounding note: its tick's column, unless
/// that lies before the note's start or on a bar line.
pub open spec fn snap_in_note(n: NoteView, cur: nat, g: Geo) -> nat {
    let nsc = tick_col(n.start_tick as nat, g.bl, g.nb);
    let col = tick_col(cur, g.bl, g.nb);
    if col < nsc || is_bar_col(col, g.bl, g.nb) {
        nsc
    } else {
        col
    }
}

/// Scan from note `k`: the first note still sounding at `cur` decides (a
/// pitched one snaps inside it, a rest gives nothing); returns that and the
/// start column of the last pitched note scanned.
pub open spec fn scan_sounding(notes: Seq<NoteView>, k: int, cur: nat, g: Geo, last: Option<nat>) -> (
    Option<nat>,
    Option<nat>,
)
    decreases notes.len() - k,
{
    if k < 0 || k >= notes.len() {
        (None, last)
    } else {
        let n = notes[k];
        let last2 = if is_pitched(n) {
            Some(tick_col(n.start_tick as nat, g.bl, g.nb))
        } else {
            last
        };
        if cur < note_end(n) {
            if is_pitched(n) {
                (Some(snap_in_note(n, cur, g)), last2)
            } else {
                (None, last2)
            }
        } else {
            scan_sounding(notes, k + 1, cur, g, last2)
        }
    }
}

/// The first pitched note from `k` on that starts at or after `cur`.
pub open spec fn next_onset(notes: Seq<NoteView>, k: int, cur: nat, g: Geo) -> Option<nat>
    decreases notes.len() - k,
{
    if k < 0 || k >= notes.len() {
        None
    } else if cur <= notes[k].start_tick && is_pitched(notes[k]) {
        Some(tick_col(notes[k].start_tick as nat, g.bl, g.nb))
    } else {
        next_onset(notes, k + 1, cur, g)
    }
}

/// The playhead column for a progress.
pub open spec fn playhead_of(notes: Seq<NoteView>, g: Geo, p: Progress) -> Option<nat> {
    let cur = current_tick(p, g.total);
    let (s1, last) = scan_sounding(notes, 0, cur, g, None);
    let s2 = if s1 is None && cur >= g.total {
        Some((g.cols - 1) as nat)
    } else {
        s1
    };
    let s3 = if s2 is None {
        next_onset(notes, 0, cur, g)
    } else {
        s2
    };
    let s4 = if s3 is Some {
        s3
    } else {
        last
    };
    match s4 {
        Some(col) => if col < g.cols {
            Some(col)
        } else {
            None
        },
        None => None,
    }
}

pub open spec fn playhead(t: ParsedTrackView, c: SparklineConfig) -> Option<nat> {
    match c.progress {
        Some(p) => playhead_of(t.notes, geo_of(t, c), p),
        None => None,
    }
}

// ───────────────────────── geometry, executable ─────────────────────────

fn collect_pitches(track: &ParsedTrack) -> (r: Vec<u8>)
    ensures
        r@ == all_pitches(track@.notes),
{
    let mut out: Vec<u8> = Vec::new();
    let mut i: usize = 0;
    while i < track.notes.len()
        invariant
            i <= track.notes@.len(),
            out@ == all_pitches(track@.notes.take(i as int)),
        decreases track.notes@.len() - i,
    {
        let n = &track.notes[i];
        let ghost o = out@;
        let mut j: usize = 0;
        while j < n.pitches.len()
            invariant
                j <= n.pitches@.len(),
                out@ == o + n.pitches@.take(j as int),
            decreases n.pitches@.len() - j,
        {
            out.push(n.pitches[j]);
            j = j + 1;
            assert(out@ == o + n.pitches@.take(j as int));
        }
        proof {
            assert(n.pitches@.take(n.pitches@.len() as int) == n.pitches@);
            assert(track@.notes.take(i + 1).drop_last() == track@.notes.take(i as int));
            assert(track@.notes.take(i + 1).last() == n@);
        }
        i = i + 1;
    }
    assert(track@.notes.take(track.notes@.len() as int) == track@.notes);
    out
}

fn min_max(ps: &Vec<u8>) -> (r: (u8, u8))
    requires
        ps@.len() > 0,
    ensures
        r.0 == seq_min(ps@),
        r.1 == seq_max(ps@),
{
    let mut lo = ps[0];
    let mut hi = ps[0];
    let mut i: usize = 1;
    assert(ps@.take(1) == seq![ps@[0]]);
    while i < ps.len()
        invariant
            1 <= i <= ps@.len(),
            lo == seq_min(ps@.take(i as int)),
            hi == seq_max(ps@.take(i as int)),
        decreases ps@.len() - i,
    {
        proof {
            assert(ps@.take(i + 1).drop_last() == ps@.take(i as int));
            assert(ps@.take(i + 1).last() == ps@[i as int]);
        }
        if ps[i] < lo {
            lo = ps[i];
        }
        if ps[i] > hi {
            hi = ps[i];
        }
        i = i + 1;
    }
    assert(ps@.take(ps@.len() as int) == ps@);
    (lo, hi)
}

fn used_mask_exec(ps: &Vec<u8>) -> (r: u16)
    ensures
        r == used_mask(ps@),
{
    let mut m: u16 = 0;
    let mut i: usize = 0;
    while i < ps.len()
        invariant
            i <= ps@.len(),
            m == used_mask(ps@.take(i as int)),
        decreases ps@.len() - i,
    {
        proof {
            assert(ps@.take(i + 1).drop_last() == ps@.take(i as int));
            assert(ps@.take(i + 1).last() == ps@[i as int]);
        }
        m = m | (1u16 << (ps[i] % 12));
        i = i + 1;
    }
    assert(ps@.take(ps@.len() as int) == ps@);
    m
}

fn row_shown_exec(p: u8, mode: ScaleMode, used: u16) -> (r: bool)
    ensures
        r == row_shown(p as int, mode, used),
{
    let b: u16 = 1u16 << (p % 12);
    let in_scale = match mode {
        ScaleMode::Chromatic => true,
        ScaleMode::Diatonic(m) => m & b != 0,
    };
    in_scale || used & b != 0
}

/// Row pitches between `lo` and `hi`, highest first.
fn labels_exec(lo: u8, hi: u8, mode: ScaleMode, used: u16) -> (r: Vec<u8>)
    requires
        lo <= hi,
    ensures
        r@ == labels_down(hi as int, lo as int, mode, used),
{
    let mut out: Vec<u8> = Vec::new();
    let mut p: i32 = hi as i32;
    while p >= lo as i32
        invariant
            lo as int - 1 <= p <= hi,
            out@ + labels_down(p as int, lo as int, mode, used) == labels_down(
                hi as int,
                lo as int,
                mode,
                used,
            ),
        decreases p - lo + 1,
    {
        let ghost o = out@;
        if row_shown_exec(p as u8, mode, used) {
            out.push(p as u8);
        }
        proof {
            let head = if row_shown(p as int, mode, used) {
                seq![p as u8]
            } else {
                Seq::<u8>::empty()
            };
            assert(out@ == o + head);
            assert(o + (head + labels_down(p - 1, lo as int, mode, used)) == out@ + labels_down(
                p - 1,
                lo as int,
                mode,
                used,
            ));
        }
        p = p - 1;
    }
    assert(labels_down(p as int, lo as int, mode, used) == Seq::<u8>::empty());
    assert(out@ + Seq::<u8>::empty() == out@);
    out
}

fn row_of_exec(labels: &Vec<u8>, pitch: u8) -> (r: usize)
    requires
        labels@.len() > 0,
    ensures
        r == row_of(labels@, pitch),
        r < labels@.len(),
{
    let mut best: usize = 0;
    let mut k: usize = 1;
    let mut best_d: u32 = dist_u8_exec(labels[0], pitch);
    while k < labels.len()
        invariant
            1 <= k <= labels@.len(),
            best < labels@.len(),
            best_d == dist_u8(labels@[best as int], pitch),
            argmin_from(labels@, pitch, k as int, best as int) == row_of(labels@, pitch),
        decreases labels@.len() - k,
    {
        let d = dist_u8_exec(labels[k], pitch);
        if d < best_d {
            best = k;
            best_d = d;
        }
        k = k + 1;
    }
    best
}

fn dist_u8_exec(a: u8, b: u8) -> (r: u32)
    ensures
        r == dist_u8(a, b),
{
    if a >= b {
        (a - b) as u32
    } else {
        (b - a) as u32
    }
}

/// Column of a tick.
fn tick_col_exec(x: u64, bl: u64, nb: u64) -> (r: u64)
    requires
        nb <= 0x00ff_ffff_ffff_ffff,
    ensures
        r == tick_col(x as nat, bl as nat, nb as nat),
{
    let bars: u64 = if bl == 0 {
        0
    } else if x / bl < nb {
        x / bl
    } else {
        nb
    };
    x / 120 + bars
}

/// Bar lines strictly before tick `x`.
fn bars_lt_exec(x: u64, bl: u64, nb: u64) -> (r: u64)
    ensures
        r == bars_lt(x as nat, bl as nat, nb as nat),
        r <= nb,
{
    if bl == 0 || x == 0 {
        0
    } else if (x - 1) / bl < nb {
        (x - 1) / bl
    } else {
        nb
    }
}

/// The arithmetic facts that hold of every grid's geometry.
pub open spec fn geo_sane(g: Geo) -> bool {
    &&& 1 <= g.total <= u64::MAX
    &&& (g.bl == 0 ==> g.nb == 0)
    &&& (g.bl > 0 ==> g.bl >= 480 && g.nb == ((g.total - 1) as nat) / g.bl)
    &&& g.nb <= 0x00ff_ffff_ffff_ffff
    &&& (g.nb == 0 || (g.nb + 1) * g.bl <= u64::MAX)
    &&& g.cols == (if tick_col(g.total, g.bl, g.nb) >= 1 {
        tick_col(g.total, g.bl, g.nb)
    } else {
        1
    })
    &&& 1 <= g.cols <= usize::MAX
}

proof fn lemma_geo_sane(t: ParsedTrackView, c: SparklineConfig)
    requires
        grid_ok(t, c),
    ensures
        geo_sane(geo_of(t, c)),
{
    let g = geo_of(t, c);
    if g.bl > 0 {
        assert(g.total - 1 >= 0);
        vstd::arithmetic::div_mod::lemma_div_is_ordered_by_denominator(
            (g.total - 1) as int,
            480,
            g.bl as int,
        );
    }
}

/// Bar line `k` lies at a tick before the end of the timeline, and its
/// column inside the grid.
proof fn lemma_bar_col_inside(g: Geo, k: nat)
    requires
        geo_sane(g),
        g.bl > 0,
        1 <= k <= g.nb,
    ensures
        k * g.bl <= g.total - 1,
        bar_col(k, g.bl) < g.cols,
{
    let t1 = (g.total - 1) as int;
    vstd::arithmetic::div_mod::lemma_fundamental_div_mod(t1, g.bl as int);
    vstd::arithmetic::mul::lemma_mul_inequality(k as int, g.nb as int, g.bl as int);
    assert(g.bl * g.nb == g.nb * g.bl) by (nonlinear_arith);
    assert(t1 % (g.bl as int) >= 0) by (nonlinear_arith)
        requires
            g.bl > 0,
    ;
    vstd::arithmetic::div_mod::lemma_div_is_ordered((k * g.bl) as int, t1, 120);
    vstd::arithmetic::div_mod::lemma_div_is_ordered(t1, g.total as int, 120);
    vstd::arithmetic::div_mod::lemma_div_is_ordered(t1, g.total as int, g.bl as int);
}

/// A tick's column is never a bar line's: the bar-line columns are the
/// inserted ones.
proof fn lemma_tick_col_not_bar_col(x: nat, b: nat, nb: nat, k: nat)
    requires
        b >= 1,
        1 <= k <= nb,
    ensures
        tick_col(x, 480 * b, nb) != bar_col(k, 480 * b),
{
    let bl = 480 * b;
    let m = bars_le(x, bl, nb);
    let ki = k as int;
    let bi = b as int;
    let q = 4 * bi * ki;
    assert(ki * (480 * bi) == 120 * q) by (nonlinear_arith)
        requires
            q == 4 * bi * ki,
    ;
    vstd::arithmetic::div_mod::lemma_div_multiples_vanish(q, 120);
    assert((k * bl) / 120 == 4 * b * k);
    if m >= k {
        assert(x / bl >= k);
        assert(x >= k * bl) by (nonlinear_arith)
            requires
                x / bl >= k,
                bl > 0,
        {
            vstd::arithmetic::div_mod::lemma_fundamental_div_mod(x as int, bl as int);
            vstd::arithmetic::mul::lemma_mul_inequality(k as int, (x / bl) as int, bl as int);
            vstd::arithmetic::div_mod::lemma_mod_pos_bound(x as int, bl as int);
        }
        vstd::arithmetic::div_mod::lemma_div_is_ordered((k * bl) as int, x as int, 120);
    } else {
        assert(m == x / bl);
        assert(x < k * bl) by (nonlinear_arith)
            requires
                x / bl == m,
                m < k,
                bl > 0,
        {
            vstd::arithmetic::div_mod::lemma_fundamental_div_mod(x as int, bl as int);
            vstd::arithmetic::div_mod::lemma_mod_pos_bound(x as int, bl as int);
            vstd::arithmetic::mul::lemma_mul_inequality((m + 1) as int, k as int, bl as int);
        }
        vstd::arithmetic::div_mod::lemma_div_is_ordered(x as int, (k * bl - 1) as int, 120);
        assert(k * bl - 1 == (q - 1) * 120 + 119);
        vstd::arithmetic::div_mod::lemma_fundamental_div_mod_converse_div(
            (k * bl - 1) as int,
            120,
            q - 1,
            119,
        );
        assert((k * bl - 1) / 120 == 4 * b * k - 1);
    }
}

proof fn lemma_tick_col_not_bar(x: nat, b: nat, nb: nat, upto: nat)
    requires
        b >= 1,
        upto <= nb,
    ensures
        !bar_upto(tick_col(x, 480 * b, nb), 480 * b, upto),
    decreases upto,
{
    if upto > 0 {
        lemma_tick_col_not_bar(x, b, nb, (upto - 1) as nat);
        lemma_tick_col_not_bar_col(x, b, nb, upto);
    }
}

/// The bar length of a grid is a whole number of beats.
proof fn lemma_geo_beats(t: ParsedTrackView, c: SparklineConfig)
    ensures
        geo_of(t, c).bl == 0 || (geo_of(t, c).bl % 480 == 0 && geo_of(t, c).bl >= 480),
{
}

proof fn lemma_scan_not_bar(notes: Seq<NoteView>, k: int, cur: nat, g: Geo, last: Option<nat>)
    requires
        g.bl > 0 ==> g.bl % 480 == 0 && g.bl >= 480,
        last matches Some(c) ==> !is_bar_col(c, g.bl, g.nb),
    ensures
        scan_sounding(notes, k, cur, g, last).0 matches Some(c) ==> !is_bar_col(c, g.bl, g.nb),
        scan_sounding(notes, k, cur, g, last).1 matches Some(c) ==> !is_bar_col(c, g.bl, g.nb),
    decreases notes.len() - k,
{
    if 0 <= k < notes.len() {
        let n = notes[k];
        if g.bl > 0 {
            lemma_tick_col_not_bar(n.start_tick as nat, g.bl / 480, g.nb, g.nb);
            assert(480 * (g.bl / 480) == g.bl);
        }
        let last2 = if is_pitched(n) {
            Some(tick_col(n.start_tick as nat, g.bl, g.nb))
        } else {
            last
        };
        if cur >= note_end(n) {
            lemma_scan_not_bar(notes, k + 1, cur, g, last2);
        }
    }
}

proof fn lemma_onset_not_bar(notes: Seq<NoteView>, k: int, cur: nat, g: Geo)
    requires
        g.bl > 0 ==> g.bl % 480 == 0 && g.bl >= 480,
    ensures
        next_onset(notes, k, cur, g) matches Some(c) ==> !is_bar_col(c, g.bl, g.nb),
    decreases notes.len() - k,
{
    if 0 <= k < notes.len() {
        if g.bl > 0 {
            lemma_tick_col_not_bar(notes[k].start_tick as nat, g.bl / 480, g.nb, g.nb);
            assert(480 * (g.bl / 480) == g.bl);
        }
        lemma_onset_not_bar(notes, k + 1, cur, g);
    }
}

/// The playhead never sits on a bar-line column while the piece is still
/// playing (a head past the end holds at the last column, which can be a
/// bar line's).
pub proof fn law_playhead_off_bar_lines(t: ParsedTrackView, c: SparklineConfig)
    requires
        c.progress matches Some(p) && current_tick(p, geo_of(t, c).total) < geo_of(t, c).total,
    ensures
        playhead(t, c) matches Some(col) ==> !is_bar_col(col, geo_of(t, c).bl, geo_of(t, c).nb),
{
    let g = geo_of(t, c);
    let p = c.progress->0;
    let cur = current_tick(p, g.total);
    lemma_geo_beats(t, c);
    lemma_scan_not_bar(t.notes, 0, cur, g, None);
    lemma_onset_not_bar(t.notes, 0, cur, g);
}

/// `total_cols` gives the width of a grid drawn over the same timeline
/// (at least one column).
pub proof fn law_total_cols_is_grid_width(t: ParsedTrackView, c: SparklineConfig, total: u64)
    requires
        c.total_ticks_override == Some(total),
        total >= 1,
    ensures
        geo_of(t, c).cols == if timeline_cols(total, c.beats_per_bar) >= 1 {
            timeline_cols(total, c.beats_per_bar)
        } else {
            1
        },
{
    let g = geo_of(t, c);
    if g.bl > 0 {
        vstd::arithmetic::div_mod::lemma_div_is_ordered((total - 1) as int, total as int, g.bl as int);
    }
}

/// `row_count_with_scale` counts the pitch rows the sparkline draws.
pub proof fn law_row_count_is_rows(t: ParsedTrackView, c: SparklineConfig)
    requires
        has_grid(t),
    ensures
        rows_with_scale(t, c.scale_mode) == grid_rows(t, c).len(),
{
}

proof fn lemma_dec_no_newline(n: nat)
    ensures
        no_newline(dec(n)),
    decreases n,
{
    if n >= 10 {
        lemma_dec_no_newline(n / 10);
    }
}

/// A row line before its newline: label, gutter and cells.
proof fn lemma_row_head(label: u8, cells: Seq<char>)
    requires
        no_newline(cells),
    ensures
        row_line(label, cells) == (pitch_label_text(label) + seq![' ', '│'] + cells).push('\n'),
        no_newline(pitch_label_text(label) + seq![' ', '│'] + cells),
        pitch_label_text(label).len() >= 3,
        (pitch_label_text(label) + seq![' ', '│'] + cells)[pitch_label_text(label).len() as int + 1] == '│',
{
    let l = pitch_label_text(label);
    if label >= 12 {
        lemma_dec_no_newline((label as int / 12 - 1) as nat);
    }
    assert(row_line(label, cells) =~= (l + seq![' ', '│'] + cells).push('\n'));
}

/// Rows of text before more text: one line each.
proof fn lemma_rows_text_lines(labels: Seq<u8>, rows: Seq<Seq<char>>, k: int, rest: Seq<char>)
    requires
        0 <= k <= labels.len(),
        k <= rows.len(),
        forall|r: int| 0 <= r < k ==> no_newline(#[trigger] rows[r]),
    ensures
        lines(rows_text(labels, rows, k) + rest).len() == k + lines(rest).len(),
    decreases k,
{
    if k > 0 {
        let line = row_line(labels[k - 1], rows[k - 1]);
        assert(no_newline(rows[k - 1]));
        lemma_row_head(labels[k - 1], rows[k - 1]);
        assert(rows_text(labels, rows, k) + rest =~= rows_text(labels, rows, k - 1) + (line + rest));
        lemma_rows_text_lines(labels, rows, k - 1, line + rest);
        let x = pitch_label_text(labels[k - 1]) + seq![' ', '│'] + rows[k - 1];
        assert(line + rest == x.push('\n') + rest);
        lemma_lines_line_then(x, rest);
    } else {
        assert(rows_text(labels, rows, 0) + rest =~= rest);
    }
}

/// Without the progress bar, the plain sparkline has one line per pitch row:
/// as many as `row_count_with_scale` counts.
pub proof fn law_rows_are_text_lines(t: ParsedTrackView, c: SparklineConfig)
    requires
        has_grid(t),
        !(c.progress is Some && c.show_progress_bar),
    ensures
        lines(sparkline_text(t, c)).len() == rows_with_scale(t, c.scale_mode),
{
    let g = geo_of(t, c);
    let rows = grid_rows(t, c);
    let n = g.labels.len() as int;
    law_row_count_is_rows(t, c);
    assert forall|r: int| 0 <= r < n implies no_newline(#[trigger] rows[r]) by {
        assert forall|k: int| 0 <= k < rows[r].len() implies rows[r][k] != '\n' by {
            assert(rows[r][k] == grid_cell(t.notes, g, c.hover_col, r, k));
        }
    }
    let whole = rows_text(g.labels, rows, n);
    assert(progress_part(t, c) == Seq::<char>::empty());
    assert(whole + progress_part(t, c) =~= whole);
    if n == 0 {
        assert(whole == Seq::<char>::empty());
        assert(trim_end(whole) =~= Seq::<char>::empty());
    } else {
        let p = rows_text(g.labels, rows, n - 1);
        let x = pitch_label_text(g.labels[n - 1]) + seq![' ', '│'] + rows[n - 1];
        lemma_row_head(g.labels[n - 1], rows[n - 1]);
        assert(whole == p + x.push('\n'));
        let bar: int = p.len() as int + pitch_label_text(g.labels[n - 1]).len() as int + 1;
        assert(whole[bar] == '│');
        assert(!is_ws('│'));
        assert(is_ws('\n'));
        lemma_trim_end_at_bounds(whole, whole.len() as int);
        let e = trim_end_at(whole, whole.len() as int);
        assert(e > bar) by {
            if e <= bar {
                assert(is_ws(whole[bar]));
            }
        }
        assert(e < whole.len()) by {
            if e == whole.len() {
                assert(whole[e - 1] == '\n');
            }
        }
        let q = x.take(e - p.len());
        assert(trim_end(whole) =~= p + q);
        assert(no_newline(q));
        lemma_lines_one(q);
        lemma_rows_text_lines(g.labels, rows, n - 1, q);
    }
}

/// The executable quantities of a grid.
struct GridGeo {
    bl: u64,
    nb: u64,
    total: u64,
    cols: usize,
}

spec fn geo_is(gg: GridGeo, g: Geo) -> bool {
    &&& gg.bl == g.bl
    &&& gg.nb == g.nb
    &&& gg.total == g.total
    &&& gg.cols == g.cols
    &&& geo_sane(g)
}

fn grid_geo(track: &ParsedTrack, config: &SparklineConfig) -> (gg: GridGeo)
    requires
        grid_ok(track@, *config),
    ensures
        geo_is(gg, geo_of(track@, *config)),
{
    proof {
        lemma_geo_sane(track@, *config);
    }
    let tt = match config.total_ticks_override {
        Some(o) => o,
        None => track.total_ticks,
    };
    let total: u64 = if tt >= 1 {
        tt
    } else {
        1
    };
    let bl: u64 = match config.beats_per_bar {
        Some(b) => if b > 0 {
            b as u64 * 480
        } else {
            0
        },
        None => 0,
    };
    let nb: u64 = if bl == 0 {
        0
    } else {
        (total - 1) / bl
    };
    let tc = tick_col_exec(total, bl, nb);
    let cols: u64 = if tc >= 1 {
        tc
    } else {
        1
    };
    GridGeo { bl, nb, total, cols: cols as usize }
}

/// Cell `(r, c)` of a grid of rows.
spec fn at(grid: Seq<Vec<char>>, r: int, c: int) -> char {
    grid[r]@[c]
}

/// Every row of the grid has `cols` cells.
spec fn shaped(grid: Seq<Vec<char>>, rows: nat, cols: nat) -> bool {
    &&& grid.len() == rows
    &&& forall|r: int| 0 <= r < rows ==> (#[trigger] grid[r])@.len() == cols
}

fn blank_grid(rows: usize, cols: usize) -> (grid: Vec<Vec<char>>)
    ensures
        shaped(grid@, rows as nat, cols as nat),
        forall|r: int, c: int| 0 <= r < rows && 0 <= c < cols ==> #[trigger] at(grid@, r, c) == ' ',
{
    let mut grid: Vec<Vec<char>> = Vec::new();
    let mut r: usize = 0;
    while r < rows
        invariant
            r <= rows,
            shaped(grid@, r as nat, cols as nat),
            forall|i: int, c: int| 0 <= i < r && 0 <= c < cols ==> #[trigger] at(grid@, i, c) == ' ',
        decreases rows - r,
    {
        let mut row: Vec<char> = Vec::new();
        let mut c: usize = 0;
        while c < cols
            invariant
                c <= cols,
                row@.len() == c,
                forall|j: int| 0 <= j < c ==> row@[j] == ' ',
            decreases cols - c,
        {
            row.push(' ');
            c = c + 1;
        }
        let ghost g0 = grid@;
        let ghost rv = row@;
        grid.push(row);
        assert(grid@[r as int]@ == rv);
        assert forall|i: int| 0 <= i < r + 1 implies (#[trigger] grid@[i])@.len() == cols by {
            if i < r {
                assert(grid@[i] == g0[i]);
            }
        }
        assert forall|i: int, c: int| 0 <= i < r + 1 && 0 <= c < cols implies #[trigger] at(grid@, i, c) == ' ' by {
            if i < r {
                assert(grid@[i] == g0[i]);
                assert(at(g0, i, c) == ' ');
            } else {
                assert(rv[c] == ' ');
            }
        }
        r = r + 1;
    }
    grid
}

/// Sets cell `(r, c)`.
fn put(grid: &mut Vec<Vec<char>>, r: usize, c: usize, ch: char)
    requires
        r < old(grid)@.len(),
        c < old(grid)@[r as int]@.len(),
    ensures
        final(grid)@.len() == old(grid)@.len(),
        forall|i: int| 0 <= i < old(grid)@.len() ==> (#[trigger] final(grid)@[i])@.len() == old(grid)@[i]@.len(),
        forall|i: int, j: int|
            0 <= i < old(grid)@.len() && 0 <= j < old(grid)@[i]@.len() ==> #[trigger] at(final(grid)@, i, j) == if i == r && j == c {
                ch
            } else {
                at(old(grid)@, i, j)
            },
{
    grid[r].set(c, ch);
}

fn draw_bar_lines(grid: &mut Vec<Vec<char>>, gg: &GridGeo, Ghost(g): Ghost<Geo>)
    requires
        geo_is(*gg, g),
        shaped(old(grid)@, old(grid)@.len(), g.cols),
        forall|r: int, c: int|
            0 <= r < old(grid)@.len() && 0 <= c < g.cols ==> #[trigger] at(old(grid)@, r, c) == ' ',
    ensures
        shaped(final(grid)@, old(grid)@.len(), g.cols),
        forall|r: int, c: int|
            0 <= r < old(grid)@.len() && 0 <= c < g.cols ==> #[trigger] at(final(grid)@, r, c) == bar_cell(g, c),
{
    let rows = grid.len();
    let mut k: u64 = 1;
    while k <= gg.nb
        invariant
            geo_is(*gg, g),
            1 <= k <= gg.nb + 1,
            grid@.len() == rows,
            shaped(grid@, rows as nat, g.cols),
            forall|r: int, c: int|
                0 <= r < rows && 0 <= c < g.cols ==> #[trigger] at(grid@, r, c) == if g.bl > 0
                    && bar_upto(c as nat, g.bl, (k - 1) as nat) {
                    '┊'
                } else {
                    ' '
                },
        decreases gg.nb + 1 - k,
    {
        proof {
            lemma_bar_col_inside(g, k as nat);
            vstd::arithmetic::div_mod::lemma_div_is_ordered((k * g.bl) as int, u64::MAX as int, 120);
        }
        let col = ((k * gg.bl) / 120 + k - 1) as usize;
        assert(col == bar_col(k as nat, g.bl));
        let ghost before = grid@;
        let mut r: usize = 0;
        while r < rows
            invariant
                geo_is(*gg, g),
                1 <= k <= gg.nb,
                col < g.cols,
                col == bar_col(k as nat, g.bl),
                r <= rows,
                grid@.len() == rows,
                shaped(grid@, rows as nat, g.cols),
                forall|i: int, c: int|
                    0 <= i < rows && 0 <= c < g.cols ==> #[trigger] at(grid@, i, c) == if i < r && c == col {
                        '┊'
                    } else {
                        at(before, i, c)
                    },
            decreases rows - r,
        {
            put(grid, r, col, '┊');
            r = r + 1;
        }
        k = k + 1;
    }
    assert forall|r: int, c: int| 0 <= r < rows && 0 <= c < g.cols implies #[trigger] at(grid@, r, c) == bar_cell(g, c) by {
        if g.bl == 0 {
        }
    }
}

/// Start and end columns of a note, as drawn.
fn note_cols(n: &Note, gg: &GridGeo, Ghost(g): Ghost<Geo>) -> (r: (usize, usize))
    requires
        geo_is(*gg, g),
        n.start_tick + n.duration <= u64::MAX,
    ensures
        r.0 == note_start_col(n@, g),
        r.1 == note_end_col(n@, g),
        r.0 < g.cols,
        r.1 <= g.cols,
{
    let sc = tick_col_exec(n.start_tick, gg.bl, gg.nb);
    let end: u64 = n.start_tick + n.duration as u64;
    let e0: u64 = end / 120 + bars_lt_exec(end, gg.bl, gg.nb);
    let e1: u64 = if e0 > sc + 1 {
        e0
    } else {
        sc + 1
    };
    let cols: u64 = gg.cols as u64;
    let ec: u64 = if e1 < cols {
        e1
    } else {
        cols
    };
    let st: u64 = if sc < cols - 1 {
        sc
    } else {
        cols - 1
    };
    (st as usize, ec as usize)
}

proof fn lemma_covered_step(notes: Seq<NoteView>, i: int, g: Geo, r: int, c: int)
    requires
        0 <= i < notes.len(),
    ensures
        covered(notes.take(i + 1), g, r, c) == (covered(notes.take(i), g, r, c) || note_covers(
            notes[i],
            g,
            r,
            c,
        )),
{
    assert(notes.take(i + 1).drop_last() == notes.take(i));
}

proof fn lemma_hits_step(ps: Seq<u8>, j: int, labels: Seq<u8>, r: int)
    requires
        0 <= j < ps.len(),
    ensures
        hits_row(ps.take(j + 1), labels, r) == (hits_row(ps.take(j), labels, r) || row_of(labels, ps[j])
            == r),
{
    assert(ps.take(j + 1).drop_last() == ps.take(j));
}

fn draw_notes(
    grid: &mut Vec<Vec<char>>,
    notes: &Vec<Note>,
    labels: &Vec<u8>,
    gg: &GridGeo,
    Ghost(g): Ghost<Geo>,
)
    requires
        geo_is(*gg, g),
        g.labels == labels@,
        labels@.len() > 0,
        shaped(old(grid)@, labels@.len(), g.cols),
        forall|r: int, c: int|
            0 <= r < labels@.len() && 0 <= c < g.cols ==> #[trigger] at(old(grid)@, r, c) == bar_cell(g, c),
        forall|i: int| 0 <= i < notes@.len() ==> #[trigger] notes@[i].start_tick + notes@[i].duration <= u64::MAX,
    ensures
        shaped(final(grid)@, labels@.len(), g.cols),
        forall|r: int, c: int|
            0 <= r < labels@.len() && 0 <= c < g.cols ==> #[trigger] at(final(grid)@, r, c) == base_cell(
                notes_view(notes@),
                g,
                r,
                c,
            ),
{
    let ghost ns = notes_view(notes@);
    let rows = labels.len();
    let mut i: usize = 0;
    while i < notes.len()
        invariant
            geo_is(*gg, g),
            g.labels == labels@,
            rows == labels@.len(),
            rows > 0,
            ns == notes_view(notes@),
            i <= notes@.len(),
            forall|k: int| 0 <= k < notes@.len() ==> #[trigger] notes@[k].start_tick + notes@[k].duration <= u64::MAX,
            shaped(grid@, rows as nat, g.cols),
            forall|r: int, c: int|
                0 <= r < rows && 0 <= c < g.cols ==> #[trigger] at(grid@, r, c) == base_cell(ns.take(i as int), g, r, c),
        decreases notes@.len() - i,
    {
        let n = &notes[i];
        assert(ns[i as int] == n@);
        let (sc, ec) = note_cols(n, gg, Ghost(g));
        let ghost before = grid@;
        let mut j: usize = 0;
        while j < n.pitches.len()
            invariant
                geo_is(*gg, g),
                g.labels == labels@,
                rows == labels@.len(),
                rows > 0,
                i < notes@.len(),
                n@ == ns[i as int],
                sc == note_start_col(n@, g),
                ec == note_end_col(n@, g),
                sc < g.cols,
                ec <= g.cols,
                j <= n.pitches@.len(),
                shaped(grid@, rows as nat, g.cols),
                forall|r: int, c: int|
                    0 <= r < rows && 0 <= c < g.cols ==> #[trigger] at(grid@, r, c) == if covered(ns.take(i as int), g, r, c)
                        || (sc <= c < ec && hits_row(n.pitches@.take(j as int), labels@, r)) {
                        '━'
                    } else {
                        bar_cell(g, c)
                    },
            decreases n.pitches@.len() - j,
        {
            let row = row_of_exec(labels, n.pitches[j]);
            let ghost mid = grid@;
            let mut cc: usize = sc;
            while cc < ec
                invariant
                    rows == labels@.len(),
                    row < rows,
                    sc <= cc,
                    ec <= g.cols,
                    cc <= ec || cc == sc,
                    shaped(grid@, rows as nat, g.cols),
                    forall|r: int, c: int|
                        0 <= r < rows && 0 <= c < g.cols ==> #[trigger] at(grid@, r, c) == if r == row && sc <= c < cc {
                            '━'
                        } else {
                            at(mid, r, c)
                        },
                decreases ec - cc,
            {
                put(grid, row, cc, '━');
                cc = cc + 1;
            }
            proof {
                lemma_hits_step(n.pitches@, j as int, labels@, row as int);
                assert forall|r: int, c: int| 0 <= r < rows && 0 <= c < g.cols implies #[trigger] at(grid@, r, c) == if covered(
                    ns.take(i as int),
                    g,
                    r,
                    c,
                ) || (sc <= c < ec && hits_row(n.pitches@.take(j + 1), labels@, r)) {
                    '━'
                } else {
                    bar_cell(g, c)
                } by {
                    lemma_hits_step(n.pitches@, j as int, labels@, r);
                    assert(at(mid, r, c) == at(mid, r, c));
                }
            }
            j = j + 1;
        }
        proof {
            assert(n.pitches@.take(n.pitches@.len() as int) == n.pitches@);
            assert forall|r: int, c: int| 0 <= r < rows && 0 <= c < g.cols implies #[trigger] at(grid@, r, c)
                == base_cell(ns.take(i + 1), g, r, c) by {
                lemma_covered_step(ns, i as int, g, r, c);
            }
        }
        i = i + 1;
    }
    assert(ns.take(notes@.len() as int) == ns);
}

/// Marks blanks and bar lines of the hovered column.
fn draw_hover(grid: &mut Vec<Vec<char>>, hover: Option<usize>, cols: usize)
    requires
        shaped(old(grid)@, old(grid)@.len(), cols as nat),
    ensures
        shaped(final(grid)@, old(grid)@.len(), cols as nat),
        forall|r: int, c: int|
            0 <= r < old(grid)@.len() && 0 <= c < cols ==> #[trigger] at(final(grid)@, r, c) == {
                let b = at(old(grid)@, r, c);
                match hover {
                    Some(h) => if h < cols && c == h && (b == ' ' || b == '┊') {
                        '|'
                    } else {
                        b
                    },
                    None => b,
                }
            },
{
    match hover {
        Some(hc) => {
            if hc < cols {
                let ghost before = grid@;
                let rows = grid.len();
                let mut r: usize = 0;
                while r < rows
                    invariant
                        hc < cols,
                        r <= rows,
                        rows == before.len(),
                        shaped(grid@, rows as nat, cols as nat),
                        forall|i: int, c: int|
                            0 <= i < rows && 0 <= c < cols ==> #[trigger] at(grid@, i, c) == if i < r && c
                                == hc && (at(before, i, c) == ' ' || at(before, i, c) == '┊') {
                                '|'
                            } else {
                                at(before, i, c)
                            },
                    decreases rows - r,
                {
                    assert(at(grid@, r as int, hc as int) == at(before, r as int, hc as int));
                    let ch = grid[r][hc];
                    if ch == ' ' || ch == '┊' {
                        put(grid, r, hc, '|');
                    }
                    r = r + 1;
                }
            }
        },
        None => {},
    }
}

proof fn lemma_min_max_bounds(s: Seq<u8>, k: int)
    requires
        0 <= k < s.len(),
    ensures
        seq_min(s) <= s[k] <= seq_max(s),
    decreases s.len(),
{
    if s.len() > 1 && k < s.len() - 1 {
        lemma_min_max_bounds(s.drop_last(), k);
    }
}

proof fn lemma_used_bit(s: Seq<u8>, k: int)
    requires
        0 <= k < s.len(),
    ensures
        used_mask(s) & pc_bit(s[k] % 12) != 0,
    decreases s.len(),
{
    let m = used_mask(s.drop_last());
    let pc = s.last() % 12;
    if k == s.len() - 1 {
        assert((m | (1u16 << pc)) & (1u16 << pc) != 0) by (bit_vector)
            requires
                pc < 12,
        ;
    } else {
        lemma_used_bit(s.drop_last(), k);
        let pk = s[k] % 12;
        assert(s.drop_last()[k] == s[k]);
        assert(m & (1u16 << pk) != 0 ==> (m | (1u16 << pc)) & (1u16 << pk) != 0) by (bit_vector);
    }
}

proof fn lemma_labels_down_nonempty(p: int, hi: int, lo: int, mode: ScaleMode, used: u16)
    requires
        lo <= p <= hi,
        row_shown(p, mode, used),
    ensures
        labels_down(hi, lo, mode, used).len() > 0,
    decreases hi - lo,
{
    if p < hi {
        lemma_labels_down_nonempty(p, hi - 1, lo, mode, used);
    }
}

/// A track with pitches gets at least one row.
proof fn lemma_grid_labels_nonempty(ps: Seq<u8>, mode: ScaleMode)
    requires
        ps.len() > 0,
    ensures
        grid_labels(ps, mode).len() > 0,
{
    lemma_min_max_bounds(ps, 0);
    lemma_used_bit(ps, 0);
    let p = ps[0];
    assert(((p as int) % 12) as u8 == p % 12);
    lemma_labels_down_nonempty(p as int, high_row(ps), low_row(ps), mode, used_mask(ps));
}

/// An optional column as a natural number.
pub open spec fn ov(o: Option<u64>) -> Option<nat> {
    match o {
        Some(x) => Some(x as nat),
        None => None,
    }
}

fn frac_parts(p: Progress) -> (r: (u64, u64))
    ensures
        r.0 == frac_num(p),
        r.1 == frac_den(p),
        r.0 <= r.1,
        r.1 >= 1,
{
    if p.denom == 0 {
        (if p.numer > 0 {
            1
        } else {
            0
        }, 1)
    } else if p.numer > p.denom {
        (p.denom, p.denom)
    } else {
        (p.numer, p.denom)
    }
}

/// The playback tick of a progress.
pub fn current_tick_of(p: Progress, total: u64) -> (r: u64)
    ensures
        r == current_tick(p, total as nat),
        r <= total,
{
    let (n, d) = frac_parts(p);
    assert((n as int) * (total as int) <= u128::MAX) by (nonlinear_arith)
        requires
            n <= u64::MAX,
            total <= u64::MAX,
    ;
    let x: u128 = n as u128 * total as u128;
    let q: u128 = x / (d as u128);
    let rem: u128 = x % (d as u128);
    let up: bool = 2 * rem >= d as u128;
    let ghost e: int = if up {
        1
    } else {
        0
    };
    proof {
        let xi = x as int;
        let di = d as int;
        vstd::arithmetic::div_mod::lemma_fundamental_div_mod(xi, di);
        assert(xi == di * (q as int) + rem as int);
        assert(0 <= rem < d);
        assert(2 * xi + di == (q as int + e) * (2 * di) + (2 * rem + di - 2 * di * e)) by (nonlinear_arith)
            requires
                xi == di * (q as int) + rem as int,
        ;
        vstd::arithmetic::div_mod::lemma_fundamental_div_mod_converse_div(
            2 * xi + di,
            2 * di,
            q as int + e,
            2 * rem + di - 2 * di * e,
        );
        assert(2 * (n as int) * (total as int) == 2 * xi) by (nonlinear_arith)
            requires
                xi == (n as int) * (total as int),
        ;
        assert(q as int + e <= total) by (nonlinear_arith)
            requires
                xi == di * (q as int) + rem as int,
                xi == (n as int) * (total as int),
                0 <= rem < di,
                n <= di,
                e == (if 2 * rem >= di {
                    1int
                } else {
                    0
                }),
                0 <= total,
        {
            assert(xi <= di * (total as int));
            if q as int > total as int {
                assert(di * (q as int) >= di * (total as int + 1));
            }
            if q as int == total as int {
                assert(rem == 0);
            }
        }
    }
    if up {
        (q + 1) as u64
    } else {
        q as u64
    }
}

fn bar_col_exec(k: u64, gg: &GridGeo, Ghost(g): Ghost<Geo>) -> (r: u64)
    requires
        geo_is(*gg, g),
        g.bl > 0,
        1 <= k <= g.nb,
    ensures
        r == bar_col(k as nat, g.bl),
        r < g.cols,
{
    proof {
        lemma_bar_col_inside(g, k as nat);
        vstd::arithmetic::div_mod::lemma_div_is_ordered((k * g.bl) as int, u64::MAX as int, 120);
    }
    (k * gg.bl) / 120 + k - 1
}

fn is_bar_col_exec(c: u64, gg: &GridGeo, Ghost(g): Ghost<Geo>) -> (r: bool)
    requires
        geo_is(*gg, g),
    ensures
        r == is_bar_col(c as nat, g.bl, g.nb),
{
    if gg.bl == 0 {
        return false;
    }
    let mut found = false;
    let mut k: u64 = 1;
    while k <= gg.nb
        invariant
            geo_is(*gg, g),
            g.bl > 0,
            1 <= k <= gg.nb + 1,
            found == bar_upto(c as nat, g.bl, (k - 1) as nat),
        decreases gg.nb + 1 - k,
    {
        let bc = bar_col_exec(k, gg, Ghost(g));
        found = found || c == bc;
        k = k + 1;
    }
    found
}

fn snap_in_note_exec(n: &Note, cur: u64, gg: &GridGeo, Ghost(g): Ghost<Geo>) -> (r: u64)
    requires
        geo_is(*gg, g),
    ensures
        r == snap_in_note(n@, cur as nat, g),
{
    let nsc = tick_col_exec(n.start_tick, gg.bl, gg.nb);
    let col = tick_col_exec(cur, gg.bl, gg.nb);
    if col < nsc || is_bar_col_exec(col, gg, Ghost(g)) {
        nsc
    } else {
        col
    }
}

fn playhead_exec(notes: &Vec<Note>, gg: &GridGeo, Ghost(g): Ghost<Geo>, p: Progress) -> (r: Option<usize>)
    requires
        geo_is(*gg, g),
        forall|i: int| 0 <= i < notes@.len() ==> #[trigger] notes@[i].start_tick + notes@[i].duration <= u64::MAX,
    ensures
        ov_usize(r) == playhead_of(notes_view(notes@), g, p),
{
    let ghost ns = notes_view(notes@);
    let cur = current_tick_of(p, gg.total);
    let ghost target = scan_sounding(ns, 0, cur as nat, g, None);
    let mut k: usize = 0;
    let mut last: Option<u64> = None;
    let mut s1: Option<u64> = None;
    while k < notes.len()
        invariant_except_break
            s1 is None,
            scan_sounding(ns, k as int, cur as nat, g, ov(last)) == target,
        invariant
            geo_is(*gg, g),
            ns == notes_view(notes@),
            k <= notes@.len(),
            forall|i: int| 0 <= i < notes@.len() ==> #[trigger] notes@[i].start_tick + notes@[i].duration <= u64::MAX,
        ensures
            (ov(s1), ov(last)) == target,
        decreases notes@.len() - k,
    {
        let n = &notes[k];
        assert(ns[k as int] == n@);
        if n.pitches.len() > 0 {
            last = Some(tick_col_exec(n.start_tick, gg.bl, gg.nb));
        }
        let end: u64 = n.start_tick + n.duration as u64;
        if cur < end {
            if n.pitches.len() > 0 {
                s1 = Some(snap_in_note_exec(n, cur, gg, Ghost(g)));
            }
            break;
        }
        k = k + 1;
    }
    let s2: Option<u64> = if s1.is_none() && cur >= gg.total {
        Some(gg.cols as u64 - 1)
    } else {
        s1
    };
    let s3: Option<u64> = if s2.is_none() {
        let ghost target2 = next_onset(ns, 0, cur as nat, g);
        let mut j: usize = 0;
        let mut found: Option<u64> = None;
        while j < notes.len()
            invariant_except_break
                found is None,
                next_onset(ns, j as int, cur as nat, g) == target2,
            invariant
                geo_is(*gg, g),
                ns == notes_view(notes@),
                j <= notes@.len(),
            ensures
                ov(found) == target2,
            decreases notes@.len() - j,
        {
            let n = &notes[j];
            assert(ns[j as int] == n@);
            if cur <= n.start_tick && n.pitches.len() > 0 {
                found = Some(tick_col_exec(n.start_tick, gg.bl, gg.nb));
                break;
            }
            j = j + 1;
        }
        found
    } else {
        s2
    };
    let s4: Option<u64> = if s3.is_some() {
        s3
    } else {
        last
    };
    match s4 {
        Some(col) => if col < gg.cols as u64 {
            Some(col as usize)
        } else {
            None
        },
        None => None,
    }
}

/// An optional column as a natural number.
pub open spec fn ov_usize(o: Option<usize>) -> Option<nat> {
    match o {
        Some(x) => Some(x as nat),
        None => None,
    }
}

/// The rows of a grid as character sequences.
pub open spec fn rows_view(rows: Seq<Vec<char>>) -> Seq<Seq<char>> {
    rows.map_values(|v: Vec<char>| v@)
}

/// Built grid and metadata, shared by both renderers.
struct GridData {
    /// One row of cells per pitch: ` `, `━`, `┊`, `|`.
    rows: Vec<Vec<char>>,
    /// Pitch (MIDI) for each row, highest first.
    label_pitches: Vec<u8>,
    total_cols: usize,
    total_ticks: u64,
    /// Column of the playback head, if progress is set.
    playhead_col: Option<usize>,
}

spec fn grid_data_is(d: GridData, t: ParsedTrackView, c: SparklineConfig) -> bool {
    let g = geo_of(t, c);
    &&& d.label_pitches@ == g.labels
    &&& d.total_cols == g.cols
    &&& d.total_ticks == g.total
    &&& rows_view(d.rows@) == grid_rows(t, c)
    &&& ov_usize(d.playhead_col) == playhead(t, c)
    &&& geo_sane(g)
}

fn build_grid(track: &ParsedTrack, config: &SparklineConfig) -> (r: Option<GridData>)
    requires
        grid_ok(track@, *config),
    ensures
        r is Some <==> has_grid(track@),
        r matches Some(d) ==> grid_data_is(d, track@, *config),
{
    if track.notes.len() == 0 {
        return None;
    }
    let ps = collect_pitches(track);
    if ps.len() == 0 {
        return None;
    }
    let ghost t = track@;
    let ghost g = geo_of(t, *config);
    let gg = grid_geo(track, config);
    let (mn, mx) = min_max(&ps);
    let lo: u8 = if mn > 0 {
        mn - 1
    } else {
        0
    };
    let hi: u8 = if mx < 255 {
        mx + 1
    } else {
        255
    };
    proof {
        lemma_min_max_bounds(ps@, 0);
    }
    let used = used_mask_exec(&ps);
    let labels = labels_exec(lo, hi, config.scale_mode, used);
    proof {
        lemma_grid_labels_nonempty(ps@, config.scale_mode);
    }
    assert(labels@ == g.labels);
    assert forall|i: int| 0 <= i < track.notes@.len() implies #[trigger] track.notes@[i].start_tick
        + track.notes@[i].duration <= u64::MAX by {
        assert(t.notes[i] == track.notes@[i]@);
        assert(t.notes[i].start_tick + t.notes[i].duration <= u64::MAX);
    }
    let mut grid = blank_grid(labels.len(), gg.cols);
    draw_bar_lines(&mut grid, &gg, Ghost(g));
    draw_notes(&mut grid, &track.notes, &labels, &gg, Ghost(g));
    draw_hover(&mut grid, config.hover_col, gg.cols);
    let playhead_col = match config.progress {
        Some(p) => playhead_exec(&track.notes, &gg, Ghost(g), p),
        None => None,
    };
    proof {
        let want = grid_rows(t, *config);
        let have = rows_view(grid@);
        assert(have.len() == want.len());
        assert forall|r: int| 0 <= r < want.len() implies have[r] == want[r] by {
            assert(have[r] == grid@[r]@);
            assert forall|c: int| 0 <= c < g.cols implies #[trigger] have[r][c] == want[r][c] by {
                assert(have[r][c] == at(grid@, r, c));
            }
            assert(have[r] =~= want[r]);
        }
        assert(have =~= want);
    }
    Some(GridData { rows: grid, label_pitches: labels, total_cols: gg.cols, total_ticks: gg.total, playhead_col })
}

// ───────────────────────── plain-text rendering ─────────────────────────

/// Text of one grid row: label, gutter, cells, newline.
pub open spec fn row_line(label: u8, cells: Seq<char>) -> Seq<char> {
    pitch_label_text(label) + seq![' ', '│'] + cells + seq!['\n']
}

/// The first `k` row lines.
pub open spec fn rows_text(labels: Seq<u8>, rows: Seq<Seq<char>>, k: int) -> Seq<char>
    decreases k,
{
    if k <= 0 {
        seq![]
    } else {
        rows_text(labels, rows, k - 1) + row_line(labels[k - 1], rows[k - 1])
    }
}

/// A cell of the progress bar: the marker, played, or still to play.
pub open spec fn bar_char(col: int, marker: int) -> char {
    if col == marker {
        '▶'
    } else if col < marker {
        '━'
    } else {
        '─'
    }
}

pub open spec fn bar_chars(marker: nat, from: nat, to: nat) -> Seq<char> {
    Seq::new((to - from) as nat, |i: int| bar_char(from + i, marker as int))
}

/// `x` capped at `u32::MAX` (a float-to-`u32` conversion saturates).
pub open spec fn sat_u32(x: nat) -> nat {
    if x <= u32::MAX {
        x
    } else {
        u32::MAX as nat
    }
}

/// Whole seconds of `total` ticks at 120 beats per minute (960 ticks a
/// second).
pub open spec fn total_seconds(total: nat) -> nat {
    sat_u32(total / 960)
}

/// Whole seconds played at progress `p` of `total` ticks.
pub open spec fn played_seconds(p: Progress, total: nat) -> nat {
    sat_u32((frac_num(p) * total) / (960 * frac_den(p)))
}

/// `  MM:SS / MM:SS  P%`.
pub open spec fn clock_text(p: Progress, total: nat) -> Seq<char> {
    let cur = played_seconds(p, total);
    let tot = total_seconds(total);
    seq![' ', ' '] + mm_ss(cur) + seq![' ', '/', ' '] + mm_ss(tot) + seq![' ', ' '] + dec(
        frac_floor(p, 100),
    ) + seq!['%']
}

/// The marker column of the progress bar.
pub open spec fn marker_col(p: Progress, cols: nat) -> nat {
    frac_floor(p, (cols - 1) as nat)
}

/// The progress bar line (after a newline), over all columns.
pub open spec fn progress_text(p: Progress, g: Geo) -> Seq<char> {
    seq!['\n', ' ', ' ', ' '] + bar_chars(marker_col(p, g.cols), 0, g.cols) + clock_text(p, g.total)
}

pub open spec fn progress_part(t: ParsedTrackView, c: SparklineConfig) -> Seq<char> {
    match c.progress {
        Some(p) => if c.show_progress_bar {
            progress_text(p, geo_of(t, c))
        } else {
            seq![]
        },
        None => seq![],
    }
}

/// What `render_sparkline` gives.
pub open spec fn sparkline_text(t: ParsedTrackView, c: SparklineConfig) -> Seq<char> {
    if t.notes.len() == 0 {
        seq![]
    } else if !has_grid(t) {
        "(no pitched notes)\n"@
    } else {
        let g = geo_of(t, c);
        trim_end(rows_text(g.labels, grid_rows(t, c), g.labels.len() as int) + progress_part(t, c))
    }
}

/// `p * x`, rounded down.
fn frac_floor_exec(p: Progress, x: u64) -> (r: u64)
    ensures
        r == frac_floor(p, x as nat),
        r <= x,
{
    let (n, d) = frac_parts(p);
    assert((n as int) * (x as int) <= u128::MAX && (n as int) * (x as int) <= (d as int) * (x as int)) by (nonlinear_arith)
        requires
            n <= d,
            d <= u64::MAX,
            x <= u64::MAX,
    ;
    let q: u128 = (n as u128 * x as u128) / (d as u128);
    proof {
        vstd::arithmetic::div_mod::lemma_div_is_ordered((n * x) as int, (d * x) as int, d as int);
        vstd::arithmetic::div_mod::lemma_div_multiples_vanish(x as int, d as int);
        assert((d * x) as int == (d as int) * (x as int));
    }
    q as u64
}

fn sat_u32_exec(x: u128) -> (r: u64)
    ensures
        r == sat_u32(x as nat),
{
    if x <= 0xffff_ffff {
        x as u64
    } else {
        0xffff_ffff
    }
}

/// `MM:SS` of a number of seconds.
pub open spec fn mm_ss(secs: nat) -> Seq<char> {
    dec2(secs / 60) + seq![':'] + dec2(secs % 60)
}

/// A clock field `MM:SS` is minutes, `:`, and two digits of seconds below
/// 60; the minutes times 60 plus the seconds are the whole seconds (65 s
/// show as `01:05`).
pub proof fn law_clock_fields(secs: nat)
    ensures
        exists|a: Seq<char>, b: Seq<char>|
            #![trigger a + seq![':'] + b]
            mm_ss(secs) == a + seq![':'] + b && all_digits(a) && a.len() >= 2 && all_digits(b) && b.len() == 2
                && digits_value(b) < 60 && digits_value(a) * 60 + digits_value(b) == secs,
{
    let a = dec2(secs / 60);
    let b = dec2(secs % 60);
    lemma_dec2_value(secs / 60);
    lemma_dec2_value(secs % 60);
    assert(b.len() == 2) by {
        if secs % 60 >= 10 {
            assert(b == dec(secs % 60));
            assert(dec(secs % 60) == dec((secs % 60) / 10).push(digit_char((secs % 60) % 10)));
            assert((secs % 60) / 10 < 10);
        }
    }
    assert(mm_ss(secs) == a + seq![':'] + b);
}

fn push_mm_ss(out: &mut Vec<char>, secs: u64)
    ensures
        final(out)@ == old(out)@ + mm_ss(secs as nat),
{
    let ghost o = old(out)@;
    push_dec2(out, secs / 60);
    out.push(':');
    push_dec2(out, secs % 60);
    assert(out@ == o + mm_ss(secs as nat));
}

fn push_clock(out: &mut Vec<char>, p: Progress, total: u64)
    ensures
        final(out)@ == old(out)@ + clock_text(p, total as nat),
{
    let (n, d) = frac_parts(p);
    assert((n as int) * (total as int) <= u128::MAX && 960 * (d as int) <= u128::MAX) by (nonlinear_arith)
        requires
            n <= u64::MAX,
            d <= u64::MAX,
            total <= u64::MAX,
    ;
    let cur = sat_u32_exec((n as u128 * total as u128) / (960 * d as u128));
    let tot = sat_u32_exec((total / 960) as u128);
    let pct = frac_floor_exec(p, 100);
    let ghost o = old(out)@;
    out.push(' ');
    out.push(' ');
    push_mm_ss(out, cur);
    let ghost o1 = out@;
    out.push(' ');
    out.push('/');
    out.push(' ');
    push_mm_ss(out, tot);
    let ghost o2 = out@;
    out.push(' ');
    out.push(' ');
    push_dec(out, pct);
    out.push('%');
    assert(o1 == o + seq![' ', ' '] + mm_ss(cur as nat));
    assert(o2 == o1 + seq![' ', '/', ' '] + mm_ss(tot as nat));
    assert(out@ == o2 + seq![' ', ' '] + dec(pct as nat) + seq!['%']);
}

/// Progress-bar cells of columns `from..to`.
fn push_bar_chars(out: &mut Vec<char>, marker: u64, from: usize, to: usize)
    requires
        from <= to,
    ensures
        final(out)@ == old(out)@ + bar_chars(marker as nat, from as nat, to as nat),
{
    let ghost o = old(out)@;
    let mut col: usize = from;
    while col < to
        invariant
            from <= col <= to,
            out@ == o + bar_chars(marker as nat, from as nat, col as nat),
        decreases to - col,
    {
        let ch = if col as u64 == marker {
            '▶'
        } else if (col as u64) < marker {
            '━'
        } else {
            '─'
        };
        out.push(ch);
        assert(bar_chars(marker as nat, from as nat, (col + 1) as nat) == bar_chars(
            marker as nat,
            from as nat,
            col as nat,
        ).push(ch));
        col = col + 1;
    }
}

fn append_progress_bar(out: &mut Vec<char>, d: &GridData, config: &SparklineConfig, Ghost(t): Ghost<ParsedTrackView>)
    requires
        grid_data_is(*d, t, *config),
    ensures
        final(out)@ == old(out)@ + progress_part(t, *config),
{
    if !config.show_progress_bar {
        return;
    }
    match config.progress {
        None => {},
        Some(p) => {
            let marker = frac_floor_exec(p, (d.total_cols - 1) as u64);
            out.push('\n');
            out.push(' ');
            out.push(' ');
            out.push(' ');
            push_bar_chars(out, marker, 0, d.total_cols);
            push_clock(out, p, d.total_ticks);
        },
    }
}

/// Whether a track can be drawn with a configuration: no note ends past
/// the last tick, the bar ticks stay within `u64`, and a grid row fits in
/// memory.
pub fn sparkline_fits(track: &ParsedTrack, config: &SparklineConfig) -> (r: bool)
    ensures
        r == grid_ok(track@, *config),
{
    let ghost t = track@;
    let mut i: usize = 0;
    while i < track.notes.len()
        invariant
            t == track@,
            i <= t.notes.len(),
            forall|k: int| 0 <= k < i ==> #[trigger] t.notes[k].start_tick + t.notes[k].duration <= u64::MAX,
        decreases t.notes.len() - i,
    {
        assert(t.notes[i as int] == track.notes@[i as int]@);
        if track.notes[i].start_tick > u64::MAX - track.notes[i].duration as u64 {
            assert(t.notes[i as int].start_tick + t.notes[i as int].duration > u64::MAX);
            return false;
        }
        i = i + 1;
    }
    let tt = match config.total_ticks_override {
        Some(o) => o,
        None => track.total_ticks,
    };
    let total: u64 = if tt >= 1 {
        tt
    } else {
        1
    };
    let bl: u64 = match config.beats_per_bar {
        Some(b) => if b > 0 {
            b as u64 * 480
        } else {
            0
        },
        None => 0,
    };
    let nb: u64 = if bl == 0 {
        0
    } else {
        (total - 1) / bl
    };
    proof {
        if bl > 0 {
            vstd::arithmetic::div_mod::lemma_div_is_ordered_by_denominator((total - 1) as int, 480, bl as int);
        }
    }
    if nb > 0 {
        assert((nb as int + 1) * (bl as int) <= u128::MAX) by (nonlinear_arith)
            requires
                nb <= u64::MAX,
                bl <= u64::MAX,
        ;
        if (nb as u128 + 1) * (bl as u128) > u64::MAX as u128 {
            return false;
        }
    }
    let tc = tick_col_exec(total, bl, nb);
    let cols: u64 = if tc >= 1 {
        tc
    } else {
        1
    };
    cols as u128 <= usize::MAX as u128
}

/// Render a sparkline as plain text (no styling). For `dump` and tests.
pub fn render_sparkline(track: &ParsedTrack, config: &SparklineConfig) -> (r: String)
    requires
        grid_ok(track@, *config),
    ensures
        r@ == sparkline_text(track@, *config),
{
    match build_grid(track, config) {
        None => {
            if track.notes.len() == 0 {
                String::new()
            } else {
                "(no pitched notes)\n".to_owned()
            }
        },
        Some(d) => {
            let ghost t = track@;
            let ghost rows = grid_rows(t, *config);
            let mut out: Vec<char> = Vec::new();
            let mut k: usize = 0;
            assert(rows_view(d.rows@).len() == d.rows@.len());
            while k < d.rows.len()
                invariant
                    grid_data_is(d, t, *config),
                    rows == grid_rows(t, *config),
                    d.rows@.len() == d.label_pitches@.len(),
                    k <= d.rows@.len(),
                    out@ == rows_text(d.label_pitches@, rows, k as int),
                decreases d.rows@.len() - k,
            {
                push_pitch_label(&mut out, d.label_pitches[k]);
                out.push(' ');
                out.push('│');
                assert(rows[k as int] == d.rows@[k as int]@);
                push_chars(&mut out, &d.rows[k]);
                out.push('\n');
                assert(out@ == rows_text(d.label_pitches@, rows, k + 1));
                k = k + 1;
            }
            append_progress_bar(&mut out, &d, config, Ghost(t));
            let trimmed = trim_end_chars(out.as_slice());
            string_from(trimmed.as_slice())
        },
    }
}

// ───────────────────────── mapping columns and ticks ─────────────────────────

/// Number of the first `k` bar lines whose column lies left of `c`.
pub open spec fn bars_left_of(c: nat, bl: nat, k: nat) -> nat
    decreases k,
{
    if k == 0 {
        0
    } else {
        bars_left_of(c, bl, (k - 1) as nat) + if bar_col(k, bl) < c {
            1nat
        } else {
            0nat
        }
    }
}

/// The tick where column `c` of a timeline starts: the tick of the bar line
/// drawn there, else the first tick of its sixteenth (the note columns left
/// of it times 120), at most the end of the timeline.
pub open spec fn col_tick(c: nat, bl: nat, nb: nat, total: nat) -> nat {
    let m = bars_left_of(c, bl, nb);
    if is_bar_col(c, bl, nb) {
        if (m + 1) * bl > total {
            total
        } else {
            (m + 1) * bl
        }
    } else {
        let t: int = if c >= m {
            (c - m) * 120
        } else {
            0
        };
        if t > total {
            total
        } else {
            t as nat
        }
    }
}

/// The bar geometry of a timeline of `total_ticks` (at least one tick).
pub open spec fn timeline_bars(total_ticks: u64, beats_per_bar: Option<u32>) -> (nat, nat) {
    let t1: nat = if total_ticks >= 1 {
        total_ticks as nat
    } else {
        1
    };
    let bl = bar_len(beats_per_bar);
    (bl, bar_count(bl, t1))
}

/// The grid column of a tick of a timeline (one column per sixteenth,
/// plus one per bar line at or before the tick).
pub fn timeline_col(tick: u64, beats_per_bar: Option<u32>, total_ticks: u64) -> (r: u64)
    ensures
        ({
            let (bl, nb) = timeline_bars(total_ticks, beats_per_bar);
            r == tick_col(tick as nat, bl, nb)
        }),
{
    let t1: u64 = if total_ticks >= 1 {
        total_ticks
    } else {
        1
    };
    let bl: u64 = match beats_per_bar {
        Some(b) => if b > 0 {
            b as u64 * 480
        } else {
            0
        },
        None => 0,
    };
    let nb: u64 = if bl == 0 {
        0
    } else {
        (t1 - 1) / bl
    };
    proof {
        if bl > 0 {
            vstd::arithmetic::div_mod::lemma_div_is_ordered_by_denominator((t1 - 1) as int, 480, bl as int);
        }
    }
    tick_col_exec(tick, bl, nb)
}

/// The columns of a timeline's bar lines, in order.
pub fn bar_columns(total_ticks: u64, beats_per_bar: Option<u32>) -> (r: Vec<u64>)
    ensures
        ({
            let (bl, nb) = timeline_bars(total_ticks, beats_per_bar);
            &&& r@.len() == nb
            &&& forall|k: int| 0 <= k < nb ==> #[trigger] r@[k] == bar_col((k + 1) as nat, bl)
        }),
{
    let t1: u64 = if total_ticks >= 1 {
        total_ticks
    } else {
        1
    };
    let bl: u64 = match beats_per_bar {
        Some(b) => if b > 0 {
            b as u64 * 480
        } else {
            0
        },
        None => 0,
    };
    let nb: u64 = if bl == 0 {
        0
    } else {
        (t1 - 1) / bl
    };
    let mut out: Vec<u64> = Vec::new();
    let mut k: u64 = 1;
    proof {
        if bl > 0 {
            vstd::arithmetic::div_mod::lemma_div_is_ordered_by_denominator((t1 - 1) as int, 480, bl as int);
        }
    }
    while k <= nb
        invariant
            bl > 0 ==> nb == (t1 - 1) / (bl as int),
            bl == 0 ==> nb == 0,
            t1 >= 1,
            1 <= k <= nb + 1,
            nb <= u64::MAX / 480,
            out@.len() == k - 1,
            forall|j: int| 0 <= j < k - 1 ==> #[trigger] out@[j] == bar_col((j + 1) as nat, bl as nat),
        decreases nb + 1 - k,
    {
        proof {
            let x = (t1 - 1) as int;
            let d = bl as int;
            vstd::arithmetic::div_mod::lemma_fundamental_div_mod(x, d);
            vstd::arithmetic::div_mod::lemma_mod_pos_bound(x, d);
            vstd::arithmetic::mul::lemma_mul_inequality(k as int, nb as int, d);
            assert(d * (x / d) == (x / d) * d) by (nonlinear_arith);
            vstd::arithmetic::div_mod::lemma_div_is_ordered((k * bl) as int, u64::MAX as int, 120);
        }
        out.push((k * bl) / 120 + k - 1);
        k = k + 1;
    }
    out
}

/// The column of bar line `k` of a bar of `b` beats.
proof fn lemma_bar_col_value(k: nat, b: nat)
    requires
        k >= 1,
    ensures
        bar_col(k, 480 * b) == 4 * b * k + k - 1,
{
    let q = 4 * (b as int) * (k as int);
    assert((k as int) * (480 * (b as int)) == 120 * q) by (nonlinear_arith)
        requires
            q == 4 * (b as int) * (k as int),
    ;
    vstd::arithmetic::div_mod::lemma_div_multiples_vanish(q, 120);
}

/// The bar lines left of column `c` are the first ones: bar line `k` lies
/// left of `c` exactly when `k` is at most their number.
proof fn lemma_bars_left_of(c: nat, b: nat, kk: nat)
    requires
        b >= 1,
    ensures
        bars_left_of(c, 480 * b, kk) <= kk,
        forall|k: nat|
            1 <= k <= kk ==> (#[trigger] bar_col(k, 480 * b) < c <==> k <= bars_left_of(c, 480 * b, kk)),
    decreases kk,
{
    if kk > 0 {
        let bl = 480 * b;
        let k1 = (kk - 1) as nat;
        lemma_bars_left_of(c, b, k1);
        lemma_bar_col_value(kk, b);
        if bar_col(kk, bl) < c {
            assert forall|k: nat| 1 <= k <= k1 implies #[trigger] bar_col(k, bl) < c by {
                lemma_bar_col_value(k, b);
                assert(4 * b * k <= 4 * b * kk) by (nonlinear_arith)
                    requires
                        k <= kk,
                ;
            }
            if k1 >= 1 {
                assert(bar_col(k1, bl) < c);
            }
        }
    }
}

/// A column that is none of the first `kk` bar lines differs from each.
proof fn lemma_not_bar_upto(c: nat, bl: nat, kk: nat, k: nat)
    requires
        !bar_upto(c, bl, kk),
        1 <= k <= kk,
    ensures
        bar_col(k, bl) != c,
    decreases kk,
{
    if k < kk {
        lemma_not_bar_upto(c, bl, (kk - 1) as nat, k);
    }
}

/// A click on a grid column that is not a bar line seeks to a tick that
/// the playhead is drawn at in that same column.
pub proof fn law_click_column_round_trip(c: u64, beats_per_bar: Option<u32>, total_ticks: u64)
    requires
        c < timeline_cols(total_ticks, beats_per_bar),
        !is_bar_col(
            c as nat,
            timeline_bars(total_ticks, beats_per_bar).0,
            timeline_bars(total_ticks, beats_per_bar).1,
        ),
    ensures
        ({
            let (bl, nb) = timeline_bars(total_ticks, beats_per_bar);
            tick_col(col_tick(c as nat, bl, nb, total_ticks as nat), bl, nb) == c
        }),
{
    let (bl, nb) = timeline_bars(total_ticks, beats_per_bar);
    let t1: nat = if total_ticks >= 1 {
        total_ticks as nat
    } else {
        1
    };
    let cn = c as nat;
    let m = bars_left_of(cn, bl, nb);
    let total = total_ticks as nat;
    assert(timeline_cols(total_ticks, beats_per_bar) == t1 / 120 + nb);
    vstd::arithmetic::div_mod::lemma_fundamental_div_mod(t1 as int, 120);
    if bl == 0 {
        assert(nb == 0);
        assert(m == 0);
        assert(cn * 120 < t1) by (nonlinear_arith)
            requires
                cn < t1 / 120,
                t1 == 120 * (t1 / 120) + t1 % 120,
                t1 % 120 >= 0,
        ;
        assert(total_ticks >= 1);
        assert(col_tick(cn, bl, nb, total) == cn * 120);
        vstd::arithmetic::div_mod::lemma_div_multiples_vanish(cn as int, 120);
        assert((120 * cn) / 120 == cn);
    } else {
        let b: nat = match beats_per_bar {
            Some(x) => x as nat,
            None => 0,
        };
        assert(b >= 1 && bl == 480 * b);
        assert(nb == ((t1 - 1) as nat) / bl);
        vstd::arithmetic::div_mod::lemma_fundamental_div_mod((t1 - 1) as int, bl as int);
        vstd::arithmetic::div_mod::lemma_mod_pos_bound((t1 - 1) as int, bl as int);
        assert(nb * bl <= t1 - 1) by (nonlinear_arith)
            requires
                (t1 - 1) == bl * (((t1 - 1) as nat) / bl) + ((t1 - 1) as nat) % bl,
                ((t1 - 1) as nat) % bl >= 0,
                nb == ((t1 - 1) as nat) / bl,
        ;
        lemma_bars_left_of(cn, b, nb);
        // The bar lines left of the column, and the tick's bounds.
        if m >= 1 {
            assert(bar_col(m, bl) < cn);
            lemma_bar_col_value(m, b);
        }
        assert(cn >= m);
        let x: nat = ((cn - m) * 120) as nat;
        assert(m * bl <= x) by (nonlinear_arith)
            requires
                m >= 1 ==> 4 * b * m + m - 1 < cn,
                bl == 480 * b,
                x == (cn - m) * 120,
                cn >= m,
        ;
        if m < nb {
            let k = (m + 1) as nat;
            assert(!(k <= m));
            assert(!(bar_col(k, bl) < cn));
            lemma_not_bar_upto(cn, bl, nb, k);
            lemma_bar_col_value(k, b);
            assert(x < k * bl) by (nonlinear_arith)
                requires
                    4 * b * k + k - 1 > cn,
                    k == m + 1,
                    bl == 480 * b,
                    x == (cn - m) * 120,
            ;
            assert(k * bl <= nb * bl) by (nonlinear_arith)
                requires
                    k <= nb,
            ;
            assert(total_ticks >= 1);
            assert(x / bl == m) by (nonlinear_arith)
                requires
                    m * bl <= x,
                    x < (m + 1) * bl,
                    bl > 0,
            {
                vstd::arithmetic::div_mod::lemma_fundamental_div_mod(x as int, bl as int);
                vstd::arithmetic::div_mod::lemma_mod_pos_bound(x as int, bl as int);
            }
        } else {
            assert(m == nb);
            assert(x < t1) by (nonlinear_arith)
                requires
                    cn < t1 / 120 + nb,
                    m == nb,
                    x == (cn - m) * 120,
                    t1 == 120 * (t1 / 120) + t1 % 120,
                    t1 % 120 >= 0,
            ;
            assert(total_ticks >= 1);
            vstd::arithmetic::div_mod::lemma_div_is_ordered((m * bl) as int, x as int, bl as int);
            vstd::arithmetic::div_mod::lemma_div_multiples_vanish(m as int, bl as int);
            assert((bl * m) / bl == m);
            assert(m * bl == bl * m) by (nonlinear_arith);
        }
        assert(bars_le(x, bl, nb) == m);
        assert(col_tick(cn, bl, nb, total) == x);
        vstd::arithmetic::div_mod::lemma_div_multiples_vanish((cn - m) as int, 120);
        assert(x / 120 == cn - m);
    }
}

/// The tick a click on grid column `col` seeks to.
pub fn col_to_tick(col: u64, beats_per_bar: Option<u32>, total_ticks: u64) -> (r: u64)
    ensures
        ({
            let (bl, nb) = timeline_bars(total_ticks, beats_per_bar);
            r == col_tick(col as nat, bl, nb, total_ticks as nat)
        }),
{
    let t1: u64 = if total_ticks >= 1 {
        total_ticks
    } else {
        1
    };
    let bl: u64 = match beats_per_bar {
        Some(b) => if b > 0 {
            b as u64 * 480
        } else {
            0
        },
        None => 0,
    };
    let nb: u64 = if bl == 0 {
        0
    } else {
        (t1 - 1) / bl
    };
    let ghost g = Geo { labels: seq![], total: t1 as nat, bl: bl as nat, nb: nb as nat, cols: 0 };
    let mut m: u64 = 0;
    let mut on_bar = false;
    let mut k: u64 = 1;
    proof {
        if bl > 0 {
            vstd::arithmetic::div_mod::lemma_div_is_ordered_by_denominator((t1 - 1) as int, 480, bl as int);
        }
    }
    while k <= nb
        invariant
            bl > 0 ==> nb == (t1 - 1) / (bl as int),
            bl == 0 ==> nb == 0,
            t1 >= 1,
            1 <= k <= nb + 1,
            nb <= u64::MAX / 480,
            m == bars_left_of(col as nat, bl as nat, (k - 1) as nat),
            m < k,
            on_bar == bar_upto(col as nat, bl as nat, (k - 1) as nat),
        decreases nb + 1 - k,
    {
        assert(bl > 0);
        proof {
            let x = (t1 - 1) as int;
            let d = bl as int;
            vstd::arithmetic::div_mod::lemma_fundamental_div_mod(x, d);
            vstd::arithmetic::div_mod::lemma_mod_pos_bound(x, d);
            vstd::arithmetic::mul::lemma_mul_inequality(k as int, nb as int, d);
            assert(d * (x / d) == (x / d) * d) by (nonlinear_arith);
        }
        assert(k * bl <= t1 - 1);
        proof {
            vstd::arithmetic::div_mod::lemma_div_is_ordered((k * bl) as int, u64::MAX as int, 120);
        }
        let bc = (k * bl) / 120 + k - 1;
        if bc < col {
            m = m + 1;
        }
        if bc == col {
            on_bar = true;
        }
        k = k + 1;
    }
    proof {
        if bl > 0 {
            vstd::arithmetic::div_mod::lemma_div_is_ordered_by_denominator((t1 - 1) as int, 480, bl as int);
        }
    }
    if bl > 0 && on_bar {
        assert((m as int + 1) * (bl as int) <= u128::MAX) by (nonlinear_arith)
            requires
                m <= u64::MAX,
                bl <= u64::MAX,
        ;
        let t: u128 = (m as u128 + 1) * bl as u128;
        if t > total_ticks as u128 {
            total_ticks
        } else {
            t as u64
        }
    } else {
        let c: u64 = if m > col {
            0
        } else {
            col - m
        };
        let t: u128 = c as u128 * 120;
        if t > total_ticks as u128 {
            total_ticks
        } else {
            t as u64
        }
    }
}

// ───────────────────────── dumping a score ─────────────────────────

/// Beats per bar of a time signature: the number before `/` (`4/4`: 4).
pub open spec fn time_beats(time: Option<Seq<char>>) -> Option<u32> {
    match time {
        Some(t) => parse_u32(trim(t.take(find_char(t, '/', 0)))),
        None => None,
    }
}

/// The `lilypondx` tracks of a score, parsed.
pub open spec fn dump_parsed(lx: Seq<Track>) -> Seq<ParsedTrackView> {
    lx.map_values(|t: Track| parse_track(t, 480)->0)
}

/// The configuration of the `k`-th of `n` dumped tracks: one time axis for
/// all, the bar lines of the time signature, the progress bar under the
/// last.
pub open spec fn dump_config(score: Score, mode: ScaleMode, k: int, n: int) -> SparklineConfig {
    let lx = played_tracks(score.tracks@, false);
    SparklineConfig {
        total_ticks_override: Some(max_total(dump_parsed(lx))),
        progress: None,
        beats_per_bar: time_beats(
            match score.metadata.time {
                Some(t) => Some(t@),
                None => None,
            },
        ),
        hover_col: None,
        show_progress_bar: k == n - 1,
        scale_mode: mode,
        theme: Theme::Mono,
    }
}

/// Every `lilypondx` track parses and can be drawn.
pub open spec fn dump_ok(score: Score, mode: ScaleMode) -> bool {
    let lx = played_tracks(score.tracks@, false);
    forall|k: int|
        0 <= k < lx.len() ==> parse_track(#[trigger] lx[k], 480) is Some && grid_ok(
            parse_track(lx[k], 480)->0,
            dump_config(score, mode, k, lx.len() as int),
        )
}

/// The dump of the first `k` `lilypondx` tracks: a heading, the sparkline,
/// a blank line.
pub open spec fn dump_blocks(score: Score, mode: ScaleMode, k: int) -> Seq<char>
    decreases k,
{
    let lx = played_tracks(score.tracks@, false);
    if k <= 0 || k > lx.len() {
        seq![]
    } else {
        let t = lx[k - 1];
        dump_blocks(score, mode, k - 1) + "=== "@ + t.name@ + " ("@ + t.clef@ + ") ===\n"@
            + sparkline_text(parse_track(t, 480)->0, dump_config(score, mode, k - 1, lx.len() as int))
            + "\n\n"@
    }
}

/// The text `dump` prints for a score.
pub open spec fn dump_text(score: Score, mode: ScaleMode) -> Seq<char> {
    let n = played_tracks(score.tracks@, false).len();
    if n == 0 {
        "(no lilypondx tracks to display)\n"@
    } else {
        dump_blocks(score, mode, n as int)
    }
}

/// Beats per bar of a time signature such as `3/4`: the number before `/`.
pub fn beats_per_bar_of(time: &Option<String>) -> (r: Option<u32>)
    ensures
        r == time_beats(match *time {
            Some(t) => Some(t@),
            None => None,
        }),
{
    match time {
        None => None,
        Some(t) => {
            let tv = chars_of(t.as_str());
            let i = find_char_exec(tv.as_slice(), '/', 0);
            let head = slice_chars(tv.as_slice(), 0, i);
            let h = trim_chars(head.as_slice());
            parse_u32_chars(h.as_slice())
        },
    }
}

/// The sparklines of a score's `lilypondx` tracks, each under a heading
/// with its name and clef, over one time axis; `None` when one of them does
/// not parse or cannot be drawn.
pub fn dump_sparklines(score: &Score, mode: ScaleMode) -> (r: Option<String>)
    ensures
        match r {
            Some(text) => dump_ok(*score, mode) && text@ == dump_text(*score, mode),
            None => !dump_ok(*score, mode),
        },
{
    let ghost ts = score.tracks@;
    let ghost lx = played_tracks(ts, false);
    // Parse the lilypondx tracks.
    let mut names: Vec<&Track> = Vec::new();
    let mut parsed: Vec<ParsedTrack> = Vec::new();
    let mut i: usize = 0;
    while i < score.tracks.len()
        invariant
            ts == score.tracks@,
            lx == played_tracks(ts, false),
            i <= ts.len(),
            names@.len() == parsed@.len(),
            names@.len() <= i,
            played_tracks(ts.take(i as int), false) == names@.map_values(|t: &Track| *t),
            forall|k: int| 0 <= k < parsed@.len() ==> parse_track(*names@[k], 480) == Some(#[trigger] parsed@[k]@),
        decreases ts.len() - i,
    {
        let t = &score.tracks[i];
        proof {
            assert(ts.take(i + 1).drop_last() == ts.take(i as int));
            assert(ts.take(i + 1).last() == ts[i as int]);
        }
        if chars_eq_str(chars_of(t.syntax.as_str()).as_slice(), "lilypondx") {
            match try_parse_notes_relative(t.notes.as_str(), t.relative.as_str(), TICKS_PER_BEAT) {
                None => {
                    proof {
                        lemma_played_prefix(ts, i as int);
                        assert(lx[names@.len() as int] == ts[i as int]);
                    }
                    return None;
                },
                Some(p) => {
                    let ghost n0 = names@;
                    names.push(t);
                    parsed.push(p);
                    assert(names@.map_values(|t: &Track| *t) =~= n0.map_values(|t: &Track| *t).push(*t));
                },
            }
        } else {
            assert(played_tracks(ts.take(i + 1), false) =~= played_tracks(ts.take(i as int), false));
        }
        i = i + 1;
    }
    assert(ts.take(ts.len() as int) == ts);
    let n = parsed.len();
    if n == 0 {
        return Some("(no lilypondx tracks to display)\n".to_owned());
    }
    let ghost pv = dump_parsed(lx);
    assert forall|k: int| 0 <= k < n implies #[trigger] pv[k] == parsed@[k]@ by {
        assert(lx[k] == *names@[k]);
    }
    // The shared time axis.
    let mut total: u64 = 0;
    let mut k: usize = 0;
    while k < n
        invariant
            n == parsed@.len(),
            n == pv.len(),
            k <= n,
            forall|j: int| 0 <= j < n ==> #[trigger] pv[j] == parsed@[j]@,
            total == max_total(pv.take(k as int)),
        decreases n - k,
    {
        proof {
            assert(pv.take(k + 1).drop_last() == pv.take(k as int));
            assert(pv.take(k + 1).last() == parsed@[k as int]@);
        }
        if parsed[k].total_ticks > total {
            total = parsed[k].total_ticks;
        }
        k = k + 1;
    }
    assert(pv.take(n as int) == pv);
    let bpb = beats_per_bar_of(&score.metadata.time);
    let mut out: Vec<char> = Vec::new();
    let mut k: usize = 0;
    while k < n
        invariant
            ts == score.tracks@,
            lx == played_tracks(ts, false),
            n == parsed@.len(),
            n == names@.len(),
            n == lx.len(),
            pv == dump_parsed(lx),
            k <= n,
            forall|j: int| 0 <= j < n ==> #[trigger] pv[j] == parsed@[j]@,
            forall|j: int| 0 <= j < n ==> lx[j] == *#[trigger] names@[j],
            total == max_total(pv),
            bpb == time_beats(match score.metadata.time {
                Some(t) => Some(t@),
                None => None,
            }),
            forall|j: int| 0 <= j < k ==> grid_ok(#[trigger] parsed@[j]@, dump_config(*score, mode, j, n as int)),
            out@ == dump_blocks(*score, mode, k as int),
        decreases n - k,
    {
        let cfg = SparklineConfig {
            total_ticks_override: Some(total),
            progress: None,
            beats_per_bar: bpb,
            hover_col: None,
            show_progress_bar: k == n - 1,
            scale_mode: mode,
            theme: Theme::Mono,
        };
        assert(cfg == dump_config(*score, mode, k as int, n as int));
        if !sparkline_fits(&parsed[k], &cfg) {
            proof {
                assert(pv[k as int] == parse_track(lx[k as int], 480)->0);
            }
            return None;
        }
        let spark = render_sparkline(&parsed[k], &cfg);
        let t = names[k];
        let ghost o = out@;
        push_str(&mut out, "=== ");
        push_str(&mut out, t.name.as_str());
        push_str(&mut out, " (");
        push_str(&mut out, t.clef.as_str());
        push_str(&mut out, ") ===\n");
        push_str(&mut out, spark.as_str());
        push_str(&mut out, "\n\n");
        proof {
            assert(pv[k as int] == parse_track(lx[k as int], 480)->0);
        }
        assert(out@ == dump_blocks(*score, mode, k + 1));
        k = k + 1;
    }
    proof {
        assert forall|j: int| 0 <= j < lx.len() implies parse_track(#[trigger] lx[j], 480) is Some && grid_ok(
            parse_track(lx[j], 480)->0,
            dump_config(*score, mode, j, lx.len() as int),
        ) by {
            assert(pv[j] == parse_track(lx[j], 480)->0);
        }
    }
    Some(string_from(out.as_slice()))
}

proof fn lemma_played_prefix(ts: Seq<Track>, i: int)
    requires
        0 <= i < ts.len(),
        is_lx(ts[i]),
    ensures
        played_tracks(ts, false).len() > played_tracks(ts.take(i), false).len(),
        played_tracks(ts, false)[played_tracks(ts.take(i), false).len() as int] == ts[i],
    decreases ts.len(),
{
    if i < ts.len() - 1 {
        lemma_played_prefix(ts.drop_last(), i);
        assert(ts.drop_last().take(i) == ts.take(i));
    } else {
        assert(ts.drop_last() == ts.take(i));
    }
}

// ───────────────────────── styled rendering ─────────────────────────

/// Width of the left gutter before grid content: pitch label (3) + " │" (2) = 5.
pub const GRID_X_OFFSET: u16 = 5;

/// Foreground and background of a span; `None` keeps the terminal's own.
#[derive(Debug, Clone, Copy, PartialEq, Eq)]
pub struct Style {
    pub fg: Option<Color>,
    pub bg: Option<Color>,
}

/// A run of text with one style.
#[derive(Debug)]
pub struct Span {
    pub content: String,
    pub style: Style,
}

/// One line of styled spans.
#[derive(Debug)]
pub struct Line {
    pub spans: Vec<Span>,
}

/// Lines of styled text.
#[derive(Debug)]
pub struct Text {
    pub lines: Vec<Line>,
}

pub ghost struct SpanView {
    pub content: Seq<char>,
    pub style: Style,
}

impl View for Span {
    type V = SpanView;

    open spec fn view(&self) -> SpanView {
        SpanView { content: self.content@, style: self.style }
    }
}

impl View for Line {
    type V = Seq<SpanView>;

    open spec fn view(&self) -> Seq<SpanView> {
        self.spans@.map_values(|s: Span| s@)
    }
}

impl View for Text {
    type V = Seq<Seq<SpanView>>;

    open spec fn view(&self) -> Seq<Seq<SpanView>> {
        self.lines@.map_values(|l: Line| l@)
    }
}

pub open spec fn plain() -> Style {
    Style { fg: None, bg: None }
}

pub open spec fn raw_span(s: Seq<char>) -> SpanView {
    SpanView { content: s, style: plain() }
}

/// Style of a grid cell in the styled renderer.
pub open spec fn cell_style(ch: char, col: nat, head: Option<nat>, pitch: u8, theme: Theme) -> Style {
    let bg = bg_color_spec(pitch, theme);
    if head == Some(col) {
        Style { fg: Some(Color::Black), bg: Some(Color::Yellow) }
    } else if ch == '|' || ch == '▌' {
        Style { fg: Some(Color::White), bg: Some(Color::DarkGray) }
    } else if ch == '━' {
        Style {
            fg: Some(
                if theme == Theme::Mono {
                    Color::Blue
                } else {
                    Color::Black
                },
            ),
            bg: Some(bg),
        }
    } else {
        Style { fg: None, bg: Some(bg) }
    }
}

/// The visible columns `(start, end)` of a grid of `cols` columns scrolled
/// by `scroll` in a view `width` wide (`width == 0`: everything).
pub open spec fn window(cols: nat, scroll: nat, width: nat) -> (nat, nat) {
    if width > 0 {
        let max_start: nat = if cols >= width {
            (cols - width) as nat
        } else {
            0
        };
        let start = if scroll < max_start {
            scroll
        } else {
            max_start
        };
        (start, if start + width < cols {
            start + width
        } else {
            cols
        })
    } else {
        (0, cols)
    }
}

/// Styled line of one grid row, columns `from..to`.
pub open spec fn row_spans(
    pitch: u8,
    cells: Seq<char>,
    from: nat,
    to: nat,
    head: Option<nat>,
    theme: Theme,
) -> Seq<SpanView> {
    seq![raw_span(pitch_label_text(pitch) + seq![' ', '│'])] + Seq::new(
        (to - from) as nat,
        |i: int|
            SpanView {
                content: seq![cells[from + i]],
                style: cell_style(cells[from + i], (from + i) as nat, head, pitch, theme),
            },
    )
}

/// What `render_sparkline_widget` gives: the styled lines.
pub open spec fn widget_lines(t: ParsedTrackView, c: SparklineConfig, scroll: nat, width: nat) -> Seq<
    Seq<SpanView>,
> {
    if !has_grid(t) {
        seq![
            seq![raw_span(
                if t.notes.len() == 0 {
                    seq![]
                } else {
                    "(no pitched notes)"@
                },
            )],
        ]
    } else {
        let g = geo_of(t, c);
        let (from, to) = window(g.cols, scroll, width);
        let rows = grid_rows(t, c);
        let head = playhead(t, c);
        let body = Seq::new(
            g.labels.len(),
            |r: int| row_spans(g.labels[r], rows[r], from, to, head, c.theme),
        );
        match c.progress {
            Some(p) => if c.show_progress_bar {
                body.push(
                    seq![raw_span(
                        seq![' ', ' ', ' '] + bar_chars(marker_col(p, g.cols), from, to) + clock_text(
                            p,
                            g.total,
                        ),
                    )],
                )
            } else {
                body
            },
            None => body,
        }
    }
}

/// The column count `render_sparkline_widget` gives with its lines.
pub open spec fn widget_cols(t: ParsedTrackView, c: SparklineConfig) -> nat {
    if has_grid(t) {
        geo_of(t, c).cols
    } else {
        0
    }
}

/// The text of a line: its spans' contents, one after another.
pub open spec fn line_text(spans: Seq<SpanView>) -> Seq<char>
    decreases spans.len(),
{
    if spans.len() == 0 {
        seq![]
    } else {
        line_text(spans.drop_last()) + spans.last().content
    }
}

/// The text of styled lines, one per line.
pub open spec fn plain_text(lines: Seq<Seq<SpanView>>) -> Seq<char> {
    join(lines.map_values(|l: Seq<SpanView>| line_text(l)), "\n"@)
}

proof fn lemma_row_spans_text(pitch: u8, cells: Seq<char>, k: nat, head: Option<nat>, theme: Theme)
    requires
        k <= cells.len(),
    ensures
        line_text(row_spans(pitch, cells, 0, k, head, theme)) == pitch_label_text(pitch) + seq![' ', '│']
            + cells.take(k as int),
    decreases k,
{
    let sp = row_spans(pitch, cells, 0, k, head, theme);
    let label = pitch_label_text(pitch) + seq![' ', '│'];
    if k == 0 {
        assert(sp =~= seq![raw_span(label)]);
        assert(sp.drop_last() =~= Seq::<SpanView>::empty());
        assert(line_text(sp.drop_last()) == Seq::<char>::empty());
        assert(line_text(sp) == line_text(sp.drop_last()) + label);
        assert(cells.take(0) =~= Seq::<char>::empty());
        assert(label + cells.take(0) =~= label);
        assert(Seq::<char>::empty() + label =~= label);
    } else {
        lemma_row_spans_text(pitch, cells, (k - 1) as nat, head, theme);
        assert(sp.drop_last() =~= row_spans(pitch, cells, 0, (k - 1) as nat, head, theme));
        assert(sp.last().content == seq![cells[k - 1]]);
        assert(line_text(sp) == line_text(sp.drop_last()) + seq![cells[k - 1]]);
        assert(cells.take(k as int) =~= cells.take(k - 1).push(cells[k - 1]));
        assert(label + cells.take(k - 1) + seq![cells[k - 1]] =~= label + cells.take(k as int));
    }
}

proof fn lemma_rows_joined(labels: Seq<u8>, rows: Seq<Seq<char>>, texts: Seq<Seq<char>>, k: int)
    requires
        1 <= k <= texts.len(),
        labels.len() >= texts.len(),
        rows.len() >= texts.len(),
        forall|i: int| 0 <= i < texts.len() ==> #[trigger] texts[i] == pitch_label_text(labels[i]) + seq![' ', '│'] + rows[i],
    ensures
        join(texts.take(k), seq!['\n']).push('\n') == rows_text(labels, rows, k),
    decreases k,
{
    lemma_join_push(texts, seq!['\n'], k - 1);
    if k == 1 {
        assert(rows_text(labels, rows, 0) == Seq::<char>::empty());
        assert(join(texts.take(1), seq!['\n']).push('\n') =~= rows_text(labels, rows, 1));
    } else {
        lemma_rows_joined(labels, rows, texts, k - 1);
        assert(join(texts.take(k), seq!['\n']).push('\n') =~= join(texts.take(k - 1), seq!['\n']).push('\n')
            + texts[k - 1] + seq!['\n']);
    }
}

/// Without a progress bar and without clipping, the styled rendering shows
/// the same text as the plain one: the lines' span contents joined by
/// newlines, trailing whitespace trimmed, are `render_sparkline`'s output
/// (for any track with notes all rests, the plain text keeps a final
/// newline that the styled line lacks).
pub proof fn law_widget_matches_plain(t: ParsedTrackView, c: SparklineConfig, scroll: nat)
    requires
        t.notes.len() == 0 || has_grid(t),
        !(c.show_progress_bar && c.progress is Some),
    ensures
        trim_end(plain_text(widget_lines(t, c, scroll, 0))) == sparkline_text(t, c),
{
    reveal_strlit("\n");
    if t.notes.len() == 0 {
        let ls = widget_lines(t, c, scroll, 0);
        let l0: Seq<SpanView> = seq![raw_span(Seq::<char>::empty())];
        assert(!has_grid(t));
        assert(ls =~= seq![l0]);
        assert(l0.drop_last() =~= Seq::<SpanView>::empty());
        assert(line_text(l0.drop_last()) == Seq::<char>::empty());
        assert(line_text(l0) =~= Seq::<char>::empty());
        let texts = ls.map_values(|l: Seq<SpanView>| line_text(l));
        assert(texts =~= seq![Seq::<char>::empty()]);
        assert(join(texts, "\n"@) == texts[0]);
        assert(trim_end(Seq::<char>::empty()) =~= Seq::<char>::empty());
    } else {
        let g = geo_of(t, c);
        let rows = grid_rows(t, c);
        let head = playhead(t, c);
        let ls = widget_lines(t, c, scroll, 0);
        lemma_grid_labels_nonempty(all_pitches(t.notes), c.scale_mode);
        let n = g.labels.len();
        assert(ls.len() == n);
        let texts = ls.map_values(|l: Seq<SpanView>| line_text(l));
        assert forall|i: int| 0 <= i < texts.len() implies #[trigger] texts[i] == pitch_label_text(g.labels[i])
            + seq![' ', '│'] + rows[i] by {
            lemma_row_spans_text(g.labels[i], rows[i], g.cols, head, c.theme);
            assert(rows[i].take(g.cols as int) =~= rows[i]);
        }
        lemma_rows_joined(g.labels, rows, texts, n as int);
        assert(texts.take(n as int) =~= texts);
        lemma_trim_end_ws_suffix(join(texts, seq!['\n']), '\n');
        assert(progress_part(t, c) =~= Seq::<char>::empty());
        assert(rows_text(g.labels, rows, n as int) + progress_part(t, c) =~= rows_text(g.labels, rows, n as int));
        assert("\n"@ =~= seq!['\n']);
        assert(plain_text(ls) == join(texts, seq!['\n']));
        assert(join(texts, seq!['\n']).push('\n') == rows_text(g.labels, rows, n as int));
        assert(trim_end(plain_text(ls)) == trim_end(rows_text(g.labels, rows, n as int)));
        assert(sparkline_text(t, c) == trim_end(rows_text(g.labels, rows, n as int) + progress_part(t, c)));
    }
}

fn raw_span_exec(content: String) -> (r: Span)
    ensures
        r@ == raw_span(content@),
{
    Span { content, style: Style { fg: None, bg: None } }
}

fn cell_style_exec(ch: char, col: usize, head: Option<usize>, pitch: u8, theme: Theme) -> (r: Style)
    ensures
        r == cell_style(ch, col as nat, ov_usize(head), pitch, theme),
{
    let bg = bg_color(pitch, theme);
    let on_head = match head {
        Some(h) => h == col,
        None => false,
    };
    if on_head {
        Style { fg: Some(Color::Black), bg: Some(Color::Yellow) }
    } else if ch == '|' || ch == '▌' {
        Style { fg: Some(Color::White), bg: Some(Color::DarkGray) }
    } else if ch == '━' {
        let fg = match theme {
            Theme::Mono => Color::Blue,
            _ => Color::Black,
        };
        Style { fg: Some(fg), bg: Some(bg) }
    } else {
        Style { fg: None, bg: Some(bg) }
    }
}

fn window_exec(cols: usize, scroll: usize, width: usize) -> (r: (usize, usize))
    ensures
        (r.0 as nat, r.1 as nat) == window(cols as nat, scroll as nat, width as nat),
        r.0 <= r.1 <= cols,
{
    if width > 0 {
        let max_start: usize = if cols >= width {
            cols - width
        } else {
            0
        };
        let start = if scroll < max_start {
            scroll
        } else {
            max_start
        };
        let end = if start as u128 + (width as u128) < cols as u128 {
            start + width
        } else {
            cols
        };
        (start, end)
    } else {
        (0, cols)
    }
}

fn row_line_exec(
    pitch: u8,
    cells: &Vec<char>,
    from: usize,
    to: usize,
    head: Option<usize>,
    theme: Theme,
) -> (r: Line)
    requires
        from <= to <= cells@.len(),
    ensures
        r@ == row_spans(pitch, cells@, from as nat, to as nat, ov_usize(head), theme),
{
    let mut label: Vec<char> = Vec::new();
    push_pitch_label(&mut label, pitch);
    label.push(' ');
    label.push('│');
    let mut spans: Vec<Span> = Vec::new();
    spans.push(raw_span_exec(string_from(label.as_slice())));
    let ghost want = row_spans(pitch, cells@, from as nat, to as nat, ov_usize(head), theme);
    assert(label@ =~= pitch_label_text(pitch) + seq![' ', '│']);
    assert(spans@[0]@ == want[0]);
    let mut col: usize = from;
    while col < to
        invariant
            want == row_spans(pitch, cells@, from as nat, to as nat, ov_usize(head), theme),
            from <= col <= to <= cells@.len(),
            spans@.len() == col - from + 1,
            forall|i: int| 0 <= i < spans@.len() ==> (#[trigger] spans@[i])@ == want[i],
        decreases to - col,
    {
        let ch = cells[col];
        let mut one: Vec<char> = Vec::new();
        one.push(ch);
        let style = cell_style_exec(ch, col, head, pitch, theme);
        assert(one@ =~= seq![ch]);
        spans.push(Span { content: string_from(one.as_slice()), style });
        assert(spans@[col - from + 1]@ == want[col - from + 1]);
        col = col + 1;
    }
    let line = Line { spans };
    assert(line@ =~= want);
    line
}

/// Render a sparkline as styled lines (per-pitch backgrounds, hover and
/// playhead highlights). Returns `(text, total_cols)` so a caller can map
/// screen X to a grid column; `scroll_offset` and `visible_width` clip the
/// columns (`visible_width == 0`: no clipping).
pub fn render_sparkline_widget(
    track: &ParsedTrack,
    config: &SparklineConfig,
    scroll_offset: usize,
    visible_width: usize,
) -> (r: (Text, usize))
    requires
        grid_ok(track@, *config),
    ensures
        r.0@ == widget_lines(track@, *config, scroll_offset as nat, visible_width as nat),
        r.1 == widget_cols(track@, *config),
{
    match build_grid(track, config) {
        None => {
            let content = if track.notes.len() == 0 {
                String::new()
            } else {
                "(no pitched notes)".to_owned()
            };
            let mut spans: Vec<Span> = Vec::new();
            spans.push(raw_span_exec(content));
            let mut lines: Vec<Line> = Vec::new();
            let line = Line { spans };
            assert(line@ =~= seq![raw_span(content@)]);
            lines.push(line);
            let text = Text { lines };
            assert(text@ =~= widget_lines(track@, *config, scroll_offset as nat, visible_width as nat));
            (text, 0)
        },
        Some(d) => {
            let ghost t = track@;
            let ghost g = geo_of(t, *config);
            let ghost want = widget_lines(t, *config, scroll_offset as nat, visible_width as nat);
            let ghost rows = grid_rows(t, *config);
            let (from, to) = window_exec(d.total_cols, scroll_offset, visible_width);
            let mut lines: Vec<Line> = Vec::new();
            let mut k: usize = 0;
            assert(rows_view(d.rows@).len() == d.rows@.len());
            while k < d.rows.len()
                invariant
                    grid_data_is(d, t, *config),
                    g == geo_of(t, *config),
                    rows == grid_rows(t, *config),
                    want == widget_lines(t, *config, scroll_offset as nat, visible_width as nat),
                    (from as nat, to as nat) == window(g.cols, scroll_offset as nat, visible_width as nat),
                    from <= to <= d.total_cols,
                    has_grid(t),
                    d.rows@.len() == d.label_pitches@.len(),
                    k <= d.rows@.len(),
                    lines@.len() == k,
                    forall|i: int| 0 <= i < k ==> (#[trigger] lines@[i])@ == want[i],
                decreases d.rows@.len() - k,
            {
                assert(rows[k as int] == d.rows@[k as int]@);
                let line = row_line_exec(d.label_pitches[k], &d.rows[k], from, to, d.playhead_col, config.theme);
                lines.push(line);
                k = k + 1;
            }
            let ghost body = lines@;
            assert(want.len() >= d.rows@.len());
            if config.show_progress_bar {
                match config.progress {
                    Some(p) => {
                        let marker = frac_floor_exec(p, (d.total_cols - 1) as u64);
                        let mut s: Vec<char> = Vec::new();
                        s.push(' ');
                        s.push(' ');
                        s.push(' ');
                        push_bar_chars(&mut s, marker, from, to);
                        push_clock(&mut s, p, d.total_ticks);
                        let mut spans: Vec<Span> = Vec::new();
                        spans.push(raw_span_exec(string_from(s.as_slice())));
                        let line = Line { spans };
                        assert(s@ =~= seq![' ', ' ', ' '] + bar_chars(marker_col(p, g.cols), from as nat, to as nat)
                            + clock_text(p, g.total));
                        assert(line@ =~= seq![raw_span(s@)]);
                        lines.push(line);
                        assert(lines@[body.len() as int]@ == want[body.len() as int]);
                    },
                    None => {},
                }
            }
            let text = Text { lines };
            assert forall|i: int| 0 <= i < body.len() implies #[trigger] text@[i] == want[i] by {
                assert(lines@[i] == body[i]);
            }
            assert(text@.len() == want.len());
            assert(text@ =~= want);
            (text, d.total_cols)
        },
    }
}

/// How many rows (lines) a track's sparkline will occupy in a scale mode
/// (pitch rows only, without the progress bar).
pub open spec fn rows_with_scale(t: ParsedTrackView, mode: ScaleMode) -> nat {
    if t.notes.len() == 0 {
        0
    } else if all_pitches(t.notes).len() == 0 {
        1
    } else {
        grid_labels(all_pitches(t.notes), mode).len()
    }
}

proof fn lemma_labels_down_at_most_chromatic(p: int, lo: int, mode: ScaleMode, used: u16)
    ensures
        labels_down(p, lo, mode, used).len() <= labels_down(p, lo, ScaleMode::Chromatic, used).len(),
    decreases p - lo + 1,
{
    if p >= lo {
        lemma_labels_down_at_most_chromatic(p - 1, lo, mode, used);
    }
}

/// A scale never shows more pitch rows than the chromatic view of the same
/// track.
pub proof fn law_scale_rows_at_most_chromatic(t: ParsedTrackView, mode: ScaleMode)
    ensures
        rows_with_scale(t, mode) <= rows_with_scale(t, ScaleMode::Chromatic),
{
    let ps = all_pitches(t.notes);
    lemma_labels_down_at_most_chromatic(high_row(ps), low_row(ps), mode, used_mask(ps));
}

/// How many rows (lines) a track's sparkline will occupy (pitch rows only),
/// excluding the optional progress bar. For TUI height allocation per voice.
pub fn row_count(track: &ParsedTrack) -> (r: usize)
    ensures
        r == rows_with_scale(track@, ScaleMode::Chromatic),
{
    row_count_with_scale(track, ScaleMode::Chromatic)
}

/// Same as `row_count` but honoring a scale mode (diatonic rows only).
pub fn row_count_with_scale(track: &ParsedTrack, mode: ScaleMode) -> (r: usize)
    ensures
        r == rows_with_scale(track@, mode),
{
    if track.notes.len() == 0 {
        return 0;
    }
    let ps = collect_pitches(track);
    if ps.len() == 0 {
        return 1;
    }
    let (mn, mx) = min_max(&ps);
    let lo: u8 = if mn > 0 {
        mn - 1
    } else {
        0
    };
    let hi: u8 = if mx < 255 {
        mx + 1
    } else {
        255
    };
    let used = used_mask_exec(&ps);
    let labels = labels_exec(lo, hi, mode, used);
    labels.len()
}

/// Grid columns of a timeline of `total_ticks` (at least one tick), with one
/// inserted column per bar line strictly inside the timeline.
pub open spec fn timeline_cols(total_ticks: u64, beats_per_bar: Option<u32>) -> nat {
    let t1: nat = if total_ticks >= 1 {
        total_ticks as nat
    } else {
        1
    };
    let bl = bar_len(beats_per_bar);
    t1 / 120 + bar_count(bl, total_ticks as nat)
}

/// Count grid columns for a timeline, including inserted bar-line columns.
pub fn total_cols(total_ticks: u64, beats_per_bar: Option<u32>) -> (r: usize)
    requires
        timeline_cols(total_ticks, beats_per_bar) <= usize::MAX,
    ensures
        r == timeline_cols(total_ticks, beats_per_bar),
{
    let t1: u64 = if total_ticks >= 1 {
        total_ticks
    } else {
        1
    };
    let bars: u64 = match beats_per_bar {
        Some(b) => if b > 0 {
            let bl: u64 = b as u64 * 480;
            if total_ticks == 0 {
                0
            } else {
                (total_ticks - 1) / bl
            }
        } else {
            0
        },
        None => 0,
    };
    proof {
        if bars > 0 {
            let bl = bar_len(beats_per_bar);
            vstd::arithmetic::div_mod::lemma_div_is_ordered_by_denominator(
                (total_ticks - 1) as int,
                480,
                bl as int,
            );
        }
    }
    (t1 / 120 + bars) as usize
}

/// The note letter of a pitch class (sharps spelled on the letter below).
pub open spec fn label_letter(pc: int) -> char {
    if pc <= 1 {
        'C'
    } else if pc <= 3 {
        'D'
    } else if pc == 4 {
        'E'
    } else if pc <= 6 {
        'F'
    } else if pc <= 8 {
        'G'
    } else if pc <= 10 {
        'A'
    } else {
        'B'
    }
}

pub open spec fn label_accidental(pc: int) -> char {
    if pc == 1 || pc == 3 || pc == 6 || pc == 8 || pc == 10 {
        '#'
    } else {
        ' '
    }
}

/// The octave of a label: its number, `-` for octave -1 (MIDI 0–11); one
/// character for every MIDI pitch (0–127).
pub open spec fn octave_text(midi: u8) -> Seq<char> {
    if midi < 12 {
        seq!['-']
    } else {
        dec((midi as int / 12 - 1) as nat)
    }
}

/// `[accidental][note][octave]`, e.g. ` C4`, `#F4`, ` C-` (octave -1).
pub open spec fn pitch_label_text(midi: u8) -> Seq<char> {
    let pc = midi as int % 12;
    seq![label_accidental(pc), label_letter(pc)] + octave_text(midi)
}

fn push_pitch_label(out: &mut Vec<char>, midi: u8)
    ensures
        final(out)@ == old(out)@ + pitch_label_text(midi),
{
    let pc = midi % 12;
    let letter = if pc <= 1 {
        'C'
    } else if pc <= 3 {
        'D'
    } else if pc == 4 {
        'E'
    } else if pc <= 6 {
        'F'
    } else if pc <= 8 {
        'G'
    } else if pc <= 10 {
        'A'
    } else {
        'B'
    };
    let acc = if pc == 1 || pc == 3 || pc == 6 || pc == 8 || pc == 10 {
        '#'
    } else {
        ' '
    };
    out.push(acc);
    out.push(letter);
    if midi < 12 {
        out.push('-');
    } else {
        push_dec(out, (midi / 12 - 1) as u64);
    }
}

/// Fixed-width 3-char label: [accidental][note][octave]. ` C4`, `#F4`.
pub fn pitch_label(midi: u8) -> (r: String)
    ensures
        r@ == pitch_label_text(midi),
        midi <= 127 ==> r@.len() == 3,
{
    let mut v: Vec<char> = Vec::new();
    push_pitch_label(&mut v, midi);
    string_from(v.as_slice())
}

} // verus!
