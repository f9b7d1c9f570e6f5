//! The note-text parser: LilyPond relative-mode pitch syntax into absolute
//! MIDI notes with tick positions.
//!
//! The parser is specified as a small-step machine over the characters of the
//! input (`step`, iterated by `parse_from`). Every arithmetic fault of the
//! step (a zero note value, a `u32`/`u64`/`i32` overflow) makes the whole
//! parse `None`; the executable parser does not panic on those inputs but
//! reports them through `try_parse_notes_relative`.

use vstd::prelude::*;

use crate::audio::MidiEvent;
use crate::text::{
    dec, join, lemma_join_push, push_dec, string_from, all_digits, alphabetic, chars_of, digits_to_u32, digits_value, is_alphabetic, is_ascii_digit,
    is_digit, is_whitespace, is_ws, skip_ws, skip_ws_exec, slice_chars,
};

verus! {

/// A parsed musical note with absolute pitch(es) and duration.
#[derive(Debug, Clone, PartialEq, Eq)]
pub struct Note {
    /// Absolute pitches as MIDI note numbers (C4 = 60, each semitone ±1).
    /// Empty for rests. Multiple entries = chord (simultaneous notes).
    pub pitches: Vec<u8>,
    /// Duration in ticks. Quarter note = `ticks_per_beat`.
    pub duration: u32,
    /// Whether a tie starts from this note (glues to next note).
    pub tie: bool,
    /// Absolute start tick (when this note begins).
    pub start_tick: u64,
    /// Staccato articulation (shorten note-off to ~50% of duration).
    pub staccato: bool,
}

/// Mathematical value of a `Note`.
pub ghost struct NoteView {
    pub pitches: Seq<u8>,
    pub duration: u32,
    pub tie: bool,
    pub start_tick: u64,
    pub staccato: bool,
}

impl View for Note {
    type V = NoteView;

    open spec fn view(&self) -> NoteView {
        NoteView {
            pitches: self.pitches@,
            duration: self.duration,
            tie: self.tie,
            start_tick: self.start_tick,
            staccato: self.staccato,
        }
    }
}

/// Result of parsing a single track's notes.
#[derive(Debug, Clone)]
pub struct ParsedTrack {
    pub notes: Vec<Note>,
    /// Total duration in ticks.
    pub total_ticks: u64,
}

pub ghost struct ParsedTrackView {
    pub notes: Seq<NoteView>,
    pub total_ticks: u64,
}

pub open spec fn notes_view(v: Seq<Note>) -> Seq<NoteView> {
    v.map_values(|n: Note| n@)
}

impl View for ParsedTrack {
    type V = ParsedTrackView;

    open spec fn view(&self) -> ParsedTrackView {
        ParsedTrackView { notes: notes_view(self.notes@), total_ticks: self.total_ticks }
    }
}

/// A copy of a note with the same value.
pub fn copy_note(n: &Note) -> (r: Note)
    ensures
        r@ == n@,
{
    Note {
        pitches: n.pitches.clone(),
        duration: n.duration,
        tie: n.tie,
        start_tick: n.start_tick,
        staccato: n.staccato,
    }
}

// ───────────────────────── lexical pieces ─────────────────────────

pub open spec fn is_note_letter(c: char) -> bool {
    'a' <= c && c <= 'g'
}

/// Semitone of a note letter above C (`c`=0 … `b`=11); other letters 0.
pub open spec fn letter_base(c: char) -> int {
    if c == 'c' {
        0
    } else if c == 'd' {
        2
    } else if c == 'e' {
        4
    } else if c == 'f' {
        5
    } else if c == 'g' {
        7
    } else if c == 'a' {
        9
    } else if c == 'b' {
        11
    } else {
        0
    }
}

/// Clamp an integer to the MIDI range `0..=127`.
pub open spec fn clamp_midi(x: int) -> u8 {
    if x < 0 {
        0
    } else if x > 127 {
        127
    } else {
        x as u8
    }
}

pub open spec fn fits_i32(x: int) -> bool {
    i32::MIN <= x <= i32::MAX
}

/// Position just past the first newline at or after `i` (or the end).
pub open spec fn skip_line(s: Seq<char>, i: int) -> int
    decreases s.len() - i,
{
    if i < 0 || i >= s.len() {
        i
    } else if s[i] == '\n' {
        i + 1
    } else {
        skip_line(s, i + 1)
    }
}

/// `s` or `r` at `i` starts a rest: it is followed by whitespace, a digit,
/// `~`, `|`, or the end of the input.
pub open spec fn is_rest_start(s: Seq<char>, i: int) -> bool {
    i + 1 >= s.len() || {
        let n = s[i + 1];
        is_ws(n) || is_digit(n) || n == '~' || n == '|'
    }
}

/// End of the run of alphabetic characters starting at `i`.
pub open spec fn alpha_end(s: Seq<char>, i: int) -> int
    decreases s.len() - i,
{
    if 0 <= i < s.len() && alphabetic(s[i]) {
        alpha_end(s, i + 1)
    } else {
        i
    }
}

/// Accidental at `i`: the whole alphabetic run must be `isis` (+2), `eses`
/// (-2), `is` (+1), or `es`/`as` (-1); anything else is no accidental.
/// Returns (semitones, position after the accidental).
pub open spec fn accidental(s: Seq<char>, i: int) -> (int, int) {
    let w = s.subrange(i, alpha_end(s, i));
    if w == seq!['i', 's', 'i', 's'] {
        (2, i + 4)
    } else if w == seq!['e', 's', 'e', 's'] {
        (-2, i + 4)
    } else if w == seq!['i', 's'] {
        (1, i + 2)
    } else if w == seq!['e', 's'] || w == seq!['a', 's'] {
        (-1, i + 2)
    } else {
        (0, i)
    }
}

/// Octave marks from `i` (`'` up, `,` down) added to `acc`.
/// Returns (shift, end position, whether the `i32` counter overflowed).
pub open spec fn octave_marks(s: Seq<char>, i: int, acc: int) -> (int, int, bool)
    decreases s.len() - i,
{
    if 0 <= i < s.len() && s[i] == '\'' {
        if acc + 1 > i32::MAX {
            (acc, i, true)
        } else {
            octave_marks(s, i + 1, acc + 1)
        }
    } else if 0 <= i < s.len() && s[i] == ',' {
        if acc - 1 < i32::MIN {
            (acc, i, true)
        } else {
            octave_marks(s, i + 1, acc - 1)
        }
    } else {
        (acc, i, false)
    }
}

/// A pitch (letter, accidental, octave marks) starting at `i`.
/// Returns (pitch, octave shift, end). In relative mode the pitch is in the
/// octave of C3 (48) and the marks are returned for `relative_pitch`; in
/// absolute mode the marks move the pitch by octaves from C3.
pub open spec fn pitch_at(s: Seq<char>, i: int, relative: bool) -> Option<(u8, int, int)> {
    let base = letter_base(s[i]);
    let (acc, j) = accidental(s, i + 1);
    let semi = base + acc;
    let (shift, k, overflow) = octave_marks(s, j, 0);
    if overflow {
        None
    } else if relative {
        Some((clamp_midi(48 + semi), shift, k))
    } else if !fits_i32(shift * 12) || !fits_i32(48 + shift * 12) || !fits_i32(
        48 + shift * 12 + semi,
    ) {
        None
    } else {
        Some((clamp_midi(48 + shift * 12 + semi), shift, k))
    }
}

/// The octave offsets tried around the previous pitch.
pub open spec fn octave_offset(k: int) -> int {
    if k == 0 {
        -48
    } else if k == 1 {
        -36
    } else if k == 2 {
        -24
    } else if k == 3 {
        -12
    } else if k == 4 {
        12
    } else if k == 5 {
        24
    } else if k == 6 {
        36
    } else {
        48
    }
}

pub open spec fn dist(a: int, b: int) -> int {
    if a >= b {
        a - b
    } else {
        b - a
    }
}

/// Scan of the candidates `raw + octave_offset(k)` (clamped) from `k` on,
/// keeping the first one strictly closer to `prev` than `best`.
pub open spec fn closest_from(raw: u8, prev: u8, k: int, best: u8) -> u8
    decreases 8 - k,
{
    if k < 0 || k >= 8 {
        best
    } else {
        let cand = clamp_midi(raw + octave_offset(k));
        if dist(cand as int, prev as int) < dist(best as int, prev as int) {
            closest_from(raw, prev, k + 1, cand)
        } else {
            closest_from(raw, prev, k + 1, best)
        }
    }
}

/// The octave of `raw` closest to `prev` (ties keep the earliest candidate).
pub open spec fn closest_octave(raw: u8, prev: u8) -> u8 {
    closest_from(raw, prev, 0, raw)
}

/// Relative mode: the octave of `raw` closest to `prev`, then moved by
/// `shift` octaves, clamped to `0..=127`. `None` when `i32` arithmetic
/// overflows.
pub open spec fn relative_pitch(raw: u8, shift: int, prev: u8) -> Option<u8> {
    let best = closest_octave(raw, prev);
    if !fits_i32(shift * 12) || !fits_i32(best + shift * 12) {
        None
    } else {
        Some(clamp_midi(best + shift * 12))
    }
}

/// End of the run of ASCII digits starting at `i`.
pub open spec fn digits_end(s: Seq<char>, i: int) -> int
    decreases s.len() - i,
{
    if 0 <= i < s.len() && is_digit(s[i]) {
        digits_end(s, i + 1)
    } else {
        i
    }
}

/// Augmentation dots from `i`: each adds `dv` and halves it.
pub open spec fn dots(s: Seq<char>, i: int, dur: int, dv: int) -> Option<(u32, int)>
    decreases s.len() - i,
{
    if 0 <= i < s.len() && s[i] == '.' {
        if dur + dv > u32::MAX {
            None
        } else {
            dots(s, i + 1, dur + dv, dv / 2)
        }
    } else {
        Some((dur as u32, i))
    }
}

/// A duration (note value number and dots) at `i`. Without a number the
/// previous duration is kept; a number `n` gives `ticks_per_beat * 4 / n`
/// (a number too large for `u32` counts as 4). `None` when `n` is 0 or the
/// arithmetic overflows `u32`.
pub open spec fn duration_at(s: Seq<char>, i: int, default: u32, tpb: u32) -> Option<(u32, int)> {
    let j = digits_end(s, i);
    if j == i {
        dots(s, j, default as int, default as int / 2)
    } else {
        let v = digits_value(s.subrange(i, j));
        let n = if v <= u32::MAX {
            v as int
        } else {
            4
        };
        if tpb * 4 > u32::MAX || n == 0 {
            None
        } else {
            let base = (tpb * 4) / n;
            dots(s, j, base, base / 2)
        }
    }
}

/// A tie `~` at `i`.
pub open spec fn tie_at(s: Seq<char>, i: int) -> (bool, int) {
    if 0 <= i < s.len() && s[i] == '~' {
        (true, i + 1)
    } else {
        (false, i)
    }
}

/// A staccato `-.` at `i`.
pub open spec fn staccato_at(s: Seq<char>, i: int) -> (bool, int) {
    if 0 <= i && i + 1 < s.len() && s[i] == '-' && s[i + 1] == '.' {
        (true, i + 2)
    } else {
        (false, i)
    }
}

/// Inside `{ … }` of a command: skip to just past the matching `}`.
pub open spec fn skip_braces(s: Seq<char>, j: int, depth: int) -> Option<int>
    decreases s.len() - j,
{
    if j < 0 || j >= s.len() {
        Some(j)
    } else if s[j] == '{' {
        if depth + 1 > i32::MAX {
            None
        } else {
            skip_braces(s, j + 1, depth + 1)
        }
    } else if s[j] == '}' {
        if depth - 1 == 0 {
            Some(j + 1)
        } else {
            skip_braces(s, j + 1, depth - 1)
        }
    } else {
        skip_braces(s, j + 1, depth)
    }
}

/// A command after its backslash, at `j`: up to and including the first
/// whitespace character, or a balanced `{ … }` group.
pub open spec fn skip_command(s: Seq<char>, j: int) -> Option<int>
    decreases s.len() - j,
{
    if j < 0 || j >= s.len() {
        Some(j)
    } else if is_ws(s[j]) {
        Some(j + 1)
    } else if s[j] == '{' {
        skip_braces(s, j + 1, 1)
    } else {
        skip_command(s, j + 1)
    }
}

/// The pitches of a chord from `j` up to and including `>`: each pitch is
/// relative to the previous pitch inside the chord; other characters are
/// skipped.
pub open spec fn chord_from(s: Seq<char>, j: int, relative: bool, cprev: u8, acc: Seq<u8>) -> Option<
    (Seq<u8>, int),
>
    decreases s.len() - j,
{
    if j < 0 || j >= s.len() {
        Some((acc, j))
    } else if s[j] == '>' {
        Some((acc, j + 1))
    } else if is_note_letter(s[j]) {
        match pitch_at(s, j, relative) {
            None => None,
            Some((raw, shift, k)) => {
                let p = if relative {
                    relative_pitch(raw, shift, cprev)
                } else {
                    Some(raw)
                };
                match p {
                    None => None,
                    Some(p) => if k <= j || k > s.len() {
                        None
                    } else {
                        chord_from(s, k, relative, p, acc.push(p))
                    },
                }
            },
        }
    } else {
        chord_from(s, j + 1, relative, cprev, acc)
    }
}

// ───────────────────────── the machine ─────────────────────────

/// Parser state: notes so far, the previous pitch (relative reference),
/// the current tick, and the duration used when a note gives none.
pub ghost struct PState {
    pub notes: Seq<NoteView>,
    pub prev: u8,
    pub tick: int,
    pub default: u32,
}

/// Append a note of duration `d` at the current tick.
pub open spec fn add_note(
    st: PState,
    pitches: Seq<u8>,
    d: u32,
    tie: bool,
    staccato: bool,
    prev: u8,
) -> Option<PState> {
    if st.tick + d > u64::MAX {
        None
    } else {
        Some(
            PState {
                notes: st.notes.push(
                    NoteView {
                        pitches,
                        duration: d,
                        tie,
                        start_tick: st.tick as u64,
                        staccato,
                    },
                ),
                prev,
                tick: st.tick + d,
                default: d,
            },
        )
    }
}

/// Whether a note or chord of `pitches` continues the previous note: that
/// one is tied and sounds the same pitches.
pub open spec fn continues_tie(st: PState, pitches: Seq<u8>) -> bool {
    st.notes.len() > 0 && st.notes.last().tie && st.notes.last().pitches == pitches
}

/// A sounding note of duration `d`: a tie from the previous note of the
/// same pitches lengthens that note (which then takes this note's tie and
/// staccato), otherwise a new note is appended.
pub open spec fn add_sound(
    st: PState,
    pitches: Seq<u8>,
    d: u32,
    tie: bool,
    staccato: bool,
    prev: u8,
) -> Option<PState> {
    if continues_tie(st, pitches) {
        let last = st.notes.last();
        if st.tick + d > u64::MAX || last.duration + d > u32::MAX {
            None
        } else {
            Some(
                PState {
                    notes: st.notes.update(
                        st.notes.len() - 1,
                        NoteView { duration: (last.duration + d) as u32, tie, staccato, ..last },
                    ),
                    prev,
                    tick: st.tick + d,
                    default: d,
                },
            )
        }
    } else {
        add_note(st, pitches, d, tie, staccato, prev)
    }
}

/// Duration, tie and staccato after a note or chord at `j`, then the note.
pub open spec fn finish_note(
    s: Seq<char>,
    j: int,
    st: PState,
    pitches: Seq<u8>,
    prev: u8,
    tpb: u32,
) -> Option<(int, PState)> {
    match duration_at(s, j, st.default, tpb) {
        None => None,
        Some((d, k)) => {
            let (tie, k2) = tie_at(s, k);
            let (stac, k3) = staccato_at(s, k2);
            match add_sound(st, pitches, d, tie, stac, prev) {
                None => None,
                Some(st2) => Some((k3, st2)),
            }
        },
    }
}

/// One step of the parser at position `i` (which holds a character).
pub open spec fn step(s: Seq<char>, i: int, st: PState, tpb: u32, relative: bool) -> Option<
    (int, PState),
> {
    let c = s[i];
    if c == '|' {
        Some((i + 1, st))
    } else if c == '%' || c == '/' {
        Some((skip_line(s, i), st))
    } else if c == ';' {
        // Doubled, a line comment; alone, ignored.
        if i + 1 < s.len() && s[i + 1] == ';' {
            Some((skip_line(s, i), st))
        } else {
            Some((i + 1, st))
        }
    } else if c == '\\' {
        match skip_command(s, i + 1) {
            None => None,
            Some(j) => Some((j, st)),
        }
    } else if (c == 's' || c == 'r') && is_rest_start(s, i) {
        match duration_at(s, i + 1, st.default, tpb) {
            None => None,
            Some((d, j)) => match add_note(st, seq![], d, false, false, st.prev) {
                None => None,
                Some(st2) => Some((j, st2)),
            },
        }
    } else if c == '<' {
        match chord_from(s, i + 1, relative, st.prev, seq![]) {
            None => None,
            Some((ps0, j)) => {
                let ps = if ps0.len() == 0 {
                    seq![st.prev]
                } else {
                    ps0
                };
                finish_note(s, j, st, ps, ps[0], tpb)
            },
        }
    } else if is_note_letter(c) {
        match pitch_at(s, i, relative) {
            None => None,
            Some((raw, shift, j)) => {
                let p = if relative {
                    relative_pitch(raw, shift, st.prev)
                } else {
                    Some(raw)
                };
                match p {
                    None => None,
                    Some(p) => finish_note(s, j, st, seq![p], p, tpb),
                }
            },
        }
    } else {
        Some((i + 1, st))
    }
}

/// Run the machine from `i`: a step, then skip whitespace, until the end.
pub open spec fn parse_from(s: Seq<char>, i: int, st: PState, tpb: u32, relative: bool) -> Option<
    PState,
>
    decreases s.len() - i,
{
    if i < 0 || i >= s.len() {
        Some(st)
    } else {
        match step(s, i, st, tpb, relative) {
            None => None,
            Some((j, st2)) => {
                let k = skip_ws(s, j);
                if k <= i || k > s.len() {
                    None
                } else {
                    parse_from(s, k, st2, tpb, relative)
                }
            },
        }
    }
}

/// The parser before the first note: at the anchor, tick 0, and an eighth
/// note (`tpb / 2`) as the length of a note written without one.
pub open spec fn initial_state(anchor_pitch: u8, tpb: u32) -> PState {
    PState { notes: seq![], prev: anchor_pitch, tick: 0, default: (tpb / 2) as u32 }
}

/// The parsed track of note text `s`, or `None` where parsing faults.
pub open spec fn parse_notes(s: Seq<char>, anchor_pitch: u8, tpb: u32, relative: bool) -> Option<
    ParsedTrackView,
> {
    match parse_from(s, 0, initial_state(anchor_pitch, tpb), tpb, relative) {
        None => None,
        Some(st) => Some(ParsedTrackView { notes: st.notes, total_ticks: st.tick as u64 }),
    }
}

// ───────────────────────── laws of the parser ─────────────────────────

/// Sum of the durations of the first `k` notes.
pub open spec fn dur_sum(ns: Seq<NoteView>, k: int) -> int
    decreases k,
{
    if k <= 0 || k > ns.len() {
        0
    } else {
        dur_sum(ns, k - 1) + ns[k - 1].duration
    }
}

/// Each note starts where the notes before it end.
pub open spec fn contiguous(ns: Seq<NoteView>) -> bool {
    forall|i: int| 0 <= i < ns.len() ==> (#[trigger] ns[i]).start_tick == dur_sum(ns, i)
}

spec fn timeline_ok(st: PState) -> bool {
    contiguous(st.notes) && st.tick == dur_sum(st.notes, st.notes.len() as int)
}

proof fn lemma_dur_sum_push(ns: Seq<NoteView>, x: NoteView, k: int)
    requires
        0 <= k <= ns.len(),
    ensures
        dur_sum(ns.push(x), k) == dur_sum(ns, k),
    decreases k,
{
    if k > 0 {
        lemma_dur_sum_push(ns, x, k - 1);
    }
}

proof fn lemma_add_note_timeline(st: PState, pitches: Seq<u8>, d: u32, tie: bool, stac: bool, prev: u8)
    requires
        timeline_ok(st),
    ensures
        add_note(st, pitches, d, tie, stac, prev) matches Some(st2) ==> timeline_ok(st2),
{
    if let Some(st2) = add_note(st, pitches, d, tie, stac, prev) {
        let x = st2.notes.last();
        assert forall|i: int| 0 <= i < st2.notes.len() implies (#[trigger] st2.notes[i]).start_tick
            == dur_sum(st2.notes, i) by {
            lemma_dur_sum_push(st.notes, x, i);
            if i < st.notes.len() {
                assert(st2.notes[i] == st.notes[i]);
            }
        }
        lemma_dur_sum_push(st.notes, x, st.notes.len() as int);
    }
}

proof fn lemma_dur_sum_update(ns: Seq<NoteView>, j: int, x: NoteView, k: int)
    requires
        0 <= k <= j < ns.len(),
    ensures
        dur_sum(ns.update(j, x), k) == dur_sum(ns, k),
    decreases k,
{
    if k > 0 {
        lemma_dur_sum_update(ns, j, x, k - 1);
    }
}

proof fn lemma_add_sound_timeline(st: PState, pitches: Seq<u8>, d: u32, tie: bool, stac: bool, prev: u8)
    requires
        timeline_ok(st),
    ensures
        add_sound(st, pitches, d, tie, stac, prev) matches Some(st2) ==> timeline_ok(st2),
{
    if continues_tie(st, pitches) {
        if let Some(st2) = add_sound(st, pitches, d, tie, stac, prev) {
            let len = st.notes.len() as int;
            let last = st.notes.last();
            let x = st2.notes[len - 1];
            assert(st2.notes == st.notes.update(len - 1, x));
            assert forall|i: int| 0 <= i < st2.notes.len() implies (#[trigger] st2.notes[i]).start_tick
                == dur_sum(st2.notes, i) by {
                lemma_dur_sum_update(st.notes, len - 1, x, i);
                if i < len - 1 {
                    assert(st2.notes[i] == st.notes[i]);
                } else {
                    assert(st.notes[len - 1] == last);
                }
            }
            lemma_dur_sum_update(st.notes, len - 1, x, len - 1);
            assert(dur_sum(st.notes, len) == dur_sum(st.notes, len - 1) + last.duration);
            assert(dur_sum(st2.notes, len) == dur_sum(st2.notes, len - 1) + x.duration);
        }
    } else {
        lemma_add_note_timeline(st, pitches, d, tie, stac, prev);
    }
}

proof fn lemma_step_timeline(s: Seq<char>, i: int, st: PState, tpb: u32, relative: bool)
    requires
        0 <= i < s.len(),
        timeline_ok(st),
    ensures
        step(s, i, st, tpb, relative) matches Some((_, st2)) ==> timeline_ok(st2),
{
    let c = s[i];
    if (c == 's' || c == 'r') && is_rest_start(s, i) {
        if let Some((d, j)) = duration_at(s, i + 1, st.default, tpb) {
            lemma_add_note_timeline(st, seq![], d, false, false, st.prev);
        }
    }
    if c == '<' {
        if let Some((ps0, j)) = chord_from(s, i + 1, relative, st.prev, seq![]) {
            let ps = if ps0.len() == 0 {
                seq![st.prev]
            } else {
                ps0
            };
            if let Some((d, k)) = duration_at(s, j, st.default, tpb) {
                let (tie, k2) = tie_at(s, k);
                let (stac, k3) = staccato_at(s, k2);
                lemma_add_sound_timeline(st, ps, d, tie, stac, ps[0]);
            }
        }
    }
    if is_note_letter(c) {
        if let Some((raw, shift, j)) = pitch_at(s, i, relative) {
            let p = if relative {
                relative_pitch(raw, shift, st.prev)
            } else {
                Some(raw)
            };
            if let Some(p) = p {
                if let Some((d, k)) = duration_at(s, j, st.default, tpb) {
                    let (tie, k2) = tie_at(s, k);
                    let (stac, k3) = staccato_at(s, k2);
                    lemma_add_sound_timeline(st, seq![p], d, tie, stac, p);
                }
            }
        }
    }
}

proof fn lemma_parse_from_timeline(s: Seq<char>, i: int, st: PState, tpb: u32, relative: bool)
    requires
        timeline_ok(st),
    ensures
        parse_from(s, i, st, tpb, relative) matches Some(st2) ==> timeline_ok(st2),
    decreases s.len() - i,
{
    if 0 <= i < s.len() {
        lemma_step_timeline(s, i, st, tpb, relative);
        if let Some((j, st2)) = step(s, i, st, tpb, relative) {
            let k = skip_ws(s, j);
            if i < k <= s.len() {
                lemma_parse_from_timeline(s, k, st2, tpb, relative);
            }
        }
    }
}

/// The parsed notes lie end to end: each starts where the ones before it
/// end (rests included), and the track lasts exactly as long as its notes.
pub proof fn law_parse_timeline(input: Seq<char>, anchor: Seq<char>, tpb: u32)
    requires
        parse_relative(input, anchor, tpb) is Some,
    ensures
        contiguous(parse_relative(input, anchor, tpb)->0.notes),
        parse_relative(input, anchor, tpb)->0.total_ticks == dur_sum(
            parse_relative(input, anchor, tpb)->0.notes,
            parse_relative(input, anchor, tpb)->0.notes.len() as int,
        ),
{
    let a = anchor_pitch(anchor)->0;
    let st0 = initial_state(a, tpb);
    assert(timeline_ok(st0));
    lemma_parse_from_timeline(input, 0, st0, tpb, true);
    let st = parse_from(input, 0, st0, tpb, true)->0;
    assert(st.tick <= u64::MAX) by {
        lemma_parse_from_tick(input, 0, st0, tpb, true);
    }
}

proof fn lemma_parse_from_tick(s: Seq<char>, i: int, st: PState, tpb: u32, relative: bool)
    requires
        0 <= st.tick <= u64::MAX,
    ensures
        parse_from(s, i, st, tpb, relative) matches Some(st2) ==> 0 <= st2.tick <= u64::MAX,
    decreases s.len() - i,
{
    if 0 <= i < s.len() {
        if let Some((j, st2)) = step(s, i, st, tpb, relative) {
            assert(0 <= st2.tick <= u64::MAX);
            let k = skip_ws(s, j);
            if i < k <= s.len() {
                lemma_parse_from_tick(s, k, st2, tpb, relative);
            }
        }
    }
}

proof fn lemma_closest_from(raw: u8, prev: u8, k: int, best: u8)
    requires
        0 <= k <= 8,
    ensures
        dist(closest_from(raw, prev, k, best) as int, prev as int) <= dist(best as int, prev as int),
        forall|m: int|
            k <= m < 8 ==> dist(closest_from(raw, prev, k, best) as int, prev as int) <= dist(
                #[trigger] clamp_midi(raw + octave_offset(m)) as int,
                prev as int,
            ),
    decreases 8 - k,
{
    if k < 8 {
        let cand = clamp_midi(raw + octave_offset(k));
        if dist(cand as int, prev as int) < dist(best as int, prev as int) {
            lemma_closest_from(raw, prev, k + 1, cand);
        } else {
            lemma_closest_from(raw, prev, k + 1, best);
        }
    }
}

proof fn lemma_add_sound_last(st: PState, pitches: Seq<u8>, d: u32, tie: bool, stac: bool, prev: u8)
    requires
        add_sound(st, pitches, d, tie, stac, prev) is Some,
    ensures
        ({
            let st2 = add_sound(st, pitches, d, tie, stac, prev)->0;
            &&& st2.prev == prev
            &&& st2.notes.len() > 0
            &&& st2.notes.last().pitches == pitches
        }),
{
}

/// The reference pitch for the next note in relative mode is the first
/// pitch of the note or chord just read: after `<c e g>` it is the `c`.
pub proof fn law_reference_is_first_pitch(s: Seq<char>, i: int, st: PState, tpb: u32, relative: bool)
    requires
        0 <= i < s.len(),
        s[i] == '<' || is_note_letter(s[i]),
        step(s, i, st, tpb, relative) is Some,
    ensures
        ({
            let r = step(s, i, st, tpb, relative)->0;
            let st2 = r.1;
            &&& st2.notes.len() > 0
            &&& st2.notes.last().pitches.len() > 0
            &&& st2.prev == st2.notes.last().pitches[0]
        }),
{
    let c = s[i];
    if c == '<' {
        let (ps0, j) = chord_from(s, i + 1, relative, st.prev, seq![])->0;
        let ps = if ps0.len() == 0 {
            seq![st.prev]
        } else {
            ps0
        };
        let (d, k) = duration_at(s, j, st.default, tpb)->0;
        let (tie, k2) = tie_at(s, k);
        let (stac, k3) = staccato_at(s, k2);
        lemma_add_sound_last(st, ps, d, tie, stac, ps[0]);
    } else {
        let (raw, shift, j) = pitch_at(s, i, relative)->0;
        let p = if relative {
            relative_pitch(raw, shift, st.prev)->0
        } else {
            raw
        };
        let (d, k) = duration_at(s, j, st.default, tpb)->0;
        let (tie, k2) = tie_at(s, k);
        let (stac, k3) = staccato_at(s, k2);
        lemma_add_sound_last(st, seq![p], d, tie, stac, p);
    }
}

/// In relative mode a single note takes the octave of its letter closest to
/// the reference pitch, moved by its octave marks: its pitch is the
/// relative pitch of what it spells against the reference before it.
pub proof fn law_note_relative_to_reference(s: Seq<char>, i: int, st: PState, tpb: u32)
    requires
        0 <= i < s.len(),
        is_note_letter(s[i]),
        step(s, i, st, tpb, true) is Some,
    ensures
        ({
            let r = step(s, i, st, tpb, true)->0;
            let st2 = r.1;
            let pa = pitch_at(s, i, true)->0;
            &&& pitch_at(s, i, true) is Some
            &&& st2.notes.last().pitches == seq![
                relative_pitch(pa.0, pa.1, st.prev)->0,
            ]
        }),
{
    let (raw, shift, j) = pitch_at(s, i, true)->0;
    let p = relative_pitch(raw, shift, st.prev)->0;
    let (d, k) = duration_at(s, j, st.default, tpb)->0;
    let (tie, k2) = tie_at(s, k);
    let (stac, k3) = staccato_at(s, k2);
    lemma_add_sound_last(st, seq![p], d, tie, stac, p);
}

/// Relative mode picks, for a note, the octave closest to the previous
/// pitch: no candidate octave (up to four either way, clamped to MIDI's
/// range) is closer than the one chosen.
pub proof fn law_closest_octave(raw: u8, prev: u8, m: int)
    requires
        0 <= m < 8,
    ensures
        dist(closest_octave(raw, prev) as int, prev as int) <= dist(raw as int, prev as int),
        dist(closest_octave(raw, prev) as int, prev as int) <= dist(
            clamp_midi(raw + octave_offset(m)) as int,
            prev as int,
        ),
{
    lemma_closest_from(raw, prev, 0, raw);
}

/// The pitch of an anchor such as `c'''`, `c,` or `cis'` (absolute mode);
/// `None` for an empty anchor or an overflowing octave count.
pub open spec fn anchor_pitch(a: Seq<char>) -> Option<u8> {
    if a.len() == 0 {
        None
    } else {
        match pitch_at(a, 0, false) {
            None => None,
            Some((p, _, _)) => Some(p),
        }
    }
}

/// The parsed track of `input` in relative mode from `anchor`.
pub open spec fn parse_relative(input: Seq<char>, anchor: Seq<char>, tpb: u32) -> Option<
    ParsedTrackView,
> {
    match anchor_pitch(anchor) {
        None => None,
        Some(a) => parse_notes(input, a, tpb, true),
    }
}

// ───────────────────────── executable pieces ─────────────────────────

fn skip_line_exec(s: &[char], i: usize) -> (r: usize)
    requires
        i <= s@.len(),
    ensures
        r == skip_line(s@, i as int),
        i <= r <= s@.len(),
        i < s@.len() ==> r > i,
{
    let mut j = i;
    while j < s.len() && s[j] != '\n'
        invariant
            i <= j <= s@.len(),
            skip_line(s@, j as int) == skip_line(s@, i as int),
        decreases s@.len() - j,
    {
        j = j + 1;
    }
    if j < s.len() {
        j + 1
    } else {
        j
    }
}

fn is_rest_start_exec(s: &[char], i: usize) -> (r: bool)
    requires
        i < s@.len(),
    ensures
        r == is_rest_start(s@, i as int),
{
    if i >= s.len() - 1 {
        true
    } else {
        let n = s[i + 1];
        is_whitespace(n) || is_ascii_digit(n) || n == '~' || n == '|'
    }
}

proof fn lemma_alpha_end_bounds(s: Seq<char>, i: int)
    requires
        0 <= i <= s.len(),
    ensures
        i <= alpha_end(s, i) <= s.len(),
    decreases s.len() - i,
{
    if i < s.len() && alphabetic(s[i]) {
        lemma_alpha_end_bounds(s, i + 1);
    }
}

fn accidental_exec(s: &[char], i: usize) -> (r: (i32, usize))
    requires
        i <= s@.len(),
    ensures
        r.0 as int == accidental(s@, i as int).0,
        r.1 as int == accidental(s@, i as int).1,
        i <= r.1 <= s@.len(),
{
    let mut j = i;
    proof {
        lemma_alpha_end_bounds(s@, i as int);
    }
    while j < s.len() && is_alphabetic(s[j])
        invariant
            i <= j <= s@.len(),
            alpha_end(s@, j as int) == alpha_end(s@, i as int),
        decreases s@.len() - j,
    {
        j = j + 1;
    }
    let ghost w = s@.subrange(i as int, j as int);
    let n = j - i;
    assert(w.len() == n);
    assert(n >= 1 ==> w[0] == s@[i as int]);
    assert(n >= 2 ==> w[1] == s@[i + 1]);
    if n == 4 && s[i] == 'i' && s[i + 1] == 's' && s[i + 2] == 'i' && s[i + 3] == 's' {
        assert(w == seq!['i', 's', 'i', 's']);
        (2, i + 4)
    } else if n == 4 && s[i] == 'e' && s[i + 1] == 's' && s[i + 2] == 'e' && s[i + 3] == 's' {
        assert(w == seq!['e', 's', 'e', 's']);
        assert(w != seq!['i', 's', 'i', 's']);
        (-2, i + 4)
    } else if n == 2 && s[i] == 'i' && s[i + 1] == 's' {
        assert(w == seq!['i', 's']);
        (1, i + 2)
    } else if n == 2 && ((s[i] == 'e' && s[i + 1] == 's') || (s[i] == 'a' && s[i + 1] == 's')) {
        assert(w == seq!['e', 's'] || w == seq!['a', 's']);
        assert(w != seq!['i', 's']);
        (-1, i + 2)
    } else {
        assert(w != seq!['i', 's', 'i', 's'] && w != seq!['e', 's', 'e', 's']) by {
            if w == seq!['i', 's', 'i', 's'] {
                assert(w[0] == 'i' && w[1] == 's' && w[2] == 'i' && w[3] == 's');
            }
            if w == seq!['e', 's', 'e', 's'] {
                assert(w[0] == 'e' && w[1] == 's' && w[2] == 'e' && w[3] == 's');
            }
        }
        assert(w != seq!['i', 's'] && w != seq!['e', 's'] && w != seq!['a', 's']) by {
            if w == seq!['i', 's'] {
                assert(w[0] == 'i' && w[1] == 's');
            }
            if w == seq!['e', 's'] {
                assert(w[0] == 'e' && w[1] == 's');
            }
            if w == seq!['a', 's'] {
                assert(w[0] == 'a' && w[1] == 's');
            }
        }
        (0, i)
    }
}

fn octave_marks_exec(s: &[char], i: usize) -> (r: Option<(i32, usize)>)
    requires
        i <= s@.len(),
    ensures
        octave_marks(s@, i as int, 0).2 <==> r is None,
        r matches Some((sh, k)) ==> sh as int == octave_marks(s@, i as int, 0).0 && k as int
            == octave_marks(s@, i as int, 0).1 && i <= k <= s@.len(),
{
    let mut j = i;
    let mut acc: i32 = 0;
    while j < s.len() && (s[j] == '\'' || s[j] == ',')
        invariant
            i <= j <= s@.len(),
            octave_marks(s@, j as int, acc as int) == octave_marks(s@, i as int, 0),
        decreases s@.len() - j,
    {
        if s[j] == '\'' {
            if acc == i32::MAX {
                return None;
            }
            acc = acc + 1;
        } else {
            if acc == i32::MIN {
                return None;
            }
            acc = acc - 1;
        }
        j = j + 1;
    }
    Some((acc, j))
}

fn letter_base_exec(c: char) -> (r: i32)
    ensures
        r as int == letter_base(c),
{
    if c == 'c' {
        0
    } else if c == 'd' {
        2
    } else if c == 'e' {
        4
    } else if c == 'f' {
        5
    } else if c == 'g' {
        7
    } else if c == 'a' {
        9
    } else if c == 'b' {
        11
    } else {
        0
    }
}

fn clamp_midi_i64(x: i64) -> (r: u8)
    ensures
        r == clamp_midi(x as int),
{
    if x < 0 {
        0
    } else if x > 127 {
        127
    } else {
        x as u8
    }
}

fn pitch_at_exec(s: &[char], i: usize, relative: bool) -> (r: Option<(u8, i32, usize)>)
    requires
        i < s@.len(),
    ensures
        r matches Some((p, sh, k)) ==> pitch_at(s@, i as int, relative) == Some(
            (p, sh as int, k as int),
        ) && i < k <= s@.len(),
        r is None ==> pitch_at(s@, i as int, relative) is None,
{
    let base = letter_base_exec(s[i]);
    let (acc, j) = accidental_exec(s, i + 1);
    let semi: i64 = base as i64 + acc as i64;
    match octave_marks_exec(s, j) {
        None => None,
        Some((shift, k)) => {
            if relative {
                Some((clamp_midi_i64(48 + semi), shift, k))
            } else {
                let m: i64 = shift as i64 * 12;
                if m < i32::MIN as i64 || m > i32::MAX as i64 {
                    return None;
                }
                let b: i64 = 48 + m;
                if b < i32::MIN as i64 || b > i32::MAX as i64 {
                    return None;
                }
                let p: i64 = b + semi;
                if p < i32::MIN as i64 || p > i32::MAX as i64 {
                    return None;
                }
                Some((clamp_midi_i64(p), shift, k))
            }
        },
    }
}

fn octave_offset_exec(k: usize) -> (r: i64)
    requires
        k < 8,
    ensures
        r as int == octave_offset(k as int),
{
    if k == 0 {
        -48
    } else if k == 1 {
        -36
    } else if k == 2 {
        -24
    } else if k == 3 {
        -12
    } else if k == 4 {
        12
    } else if k == 5 {
        24
    } else if k == 6 {
        36
    } else {
        48
    }
}

fn dist_exec(a: u8, b: u8) -> (r: u32)
    ensures
        r as int == dist(a as int, b as int),
{
    if a >= b {
        (a - b) as u32
    } else {
        (b - a) as u32
    }
}

fn closest_octave_exec(raw: u8, prev: u8) -> (r: u8)
    ensures
        r == closest_octave(raw, prev),
{
    let mut best = raw;
    let mut best_dist = dist_exec(raw, prev);
    let mut k: usize = 0;
    while k < 8
        invariant
            k <= 8,
            best_dist as int == dist(best as int, prev as int),
            closest_from(raw, prev, k as int, best) == closest_octave(raw, prev),
        decreases 8 - k,
    {
        let cand = clamp_midi_i64(raw as i64 + octave_offset_exec(k));
        let d = dist_exec(cand, prev);
        if d < best_dist {
            best = cand;
            best_dist = d;
        }
        k = k + 1;
    }
    best
}

fn relative_pitch_exec(raw: u8, shift: i32, prev: u8) -> (r: Option<u8>)
    ensures
        r == relative_pitch(raw, shift as int, prev),
{
    let best = closest_octave_exec(raw, prev);
    let m: i64 = shift as i64 * 12;
    if m < i32::MIN as i64 || m > i32::MAX as i64 {
        return None;
    }
    let t: i64 = best as i64 + m;
    if t < i32::MIN as i64 || t > i32::MAX as i64 {
        return None;
    }
    Some(clamp_midi_i64(t))
}

proof fn lemma_digits_end_bounds(s: Seq<char>, i: int)
    requires
        0 <= i <= s.len(),
    ensures
        i <= digits_end(s, i) <= s.len(),
        all_digits(s.subrange(i, digits_end(s, i))),
    decreases s.len() - i,
{
    if i < s.len() && is_digit(s[i]) {
        lemma_digits_end_bounds(s, i + 1);
        let e = digits_end(s, i);
        assert forall|k: int| 0 <= k < e - i implies is_digit(#[trigger] s.subrange(i, e)[k]) by {
            if k > 0 {
                assert(s.subrange(i, e)[k] == s.subrange(i + 1, e)[k - 1]);
            }
        }
    }
}

fn dots_exec(s: &[char], i: usize, dur: u32) -> (r: Option<(u32, usize)>)
    requires
        i <= s@.len(),
    ensures
        r matches Some((d, k)) ==> dots(s@, i as int, dur as int, dur as int / 2) == Some(
            (d, k as int),
        ) && i <= k <= s@.len(),
        r is None ==> dots(s@, i as int, dur as int, dur as int / 2) is None,
{
    let mut j = i;
    let mut d: u32 = dur;
    let mut dv: u32 = dur / 2;
    while j < s.len() && s[j] == '.'
        invariant
            i <= j <= s@.len(),
            dots(s@, j as int, d as int, dv as int) == dots(s@, i as int, dur as int, dur as int / 2),
        decreases s@.len() - j,
    {
        if d > u32::MAX - dv {
            return None;
        }
        d = d + dv;
        dv = dv / 2;
        j = j + 1;
    }
    Some((d, j))
}

fn duration_at_exec(s: &[char], i: usize, default: u32, tpb: u32) -> (r: Option<(u32, usize)>)
    requires
        i <= s@.len(),
    ensures
        r matches Some((d, k)) ==> duration_at(s@, i as int, default, tpb) == Some((d, k as int))
            && i <= k <= s@.len(),
        r is None ==> duration_at(s@, i as int, default, tpb) is None,
{
    let mut j = i;
    proof {
        lemma_digits_end_bounds(s@, i as int);
    }
    while j < s.len() && is_ascii_digit(s[j])
        invariant
            i <= j <= s@.len(),
            digits_end(s@, j as int) == digits_end(s@, i as int),
        decreases s@.len() - j,
    {
        j = j + 1;
    }
    if j == i {
        dots_exec(s, j, default)
    } else {
        let d = slice_chars(s, i, j);
        let n: u32 = match digits_to_u32(d.as_slice()) {
            Some(v) => v,
            None => 4,
        };
        if tpb > u32::MAX / 4 || n == 0 {
            return None;
        }
        let base = (tpb * 4) / n;
        dots_exec(s, j, base)
    }
}

fn tie_at_exec(s: &[char], i: usize) -> (r: (bool, usize))
    requires
        i <= s@.len(),
    ensures
        (r.0, r.1 as int) == tie_at(s@, i as int),
        i <= r.1 <= s@.len(),
{
    if i < s.len() && s[i] == '~' {
        (true, i + 1)
    } else {
        (false, i)
    }
}

fn staccato_at_exec(s: &[char], i: usize) -> (r: (bool, usize))
    requires
        i <= s@.len(),
    ensures
        (r.0, r.1 as int) == staccato_at(s@, i as int),
        i <= r.1 <= s@.len(),
{
    if s.len() >= 2 && i < s.len() - 1 && s[i] == '-' && s[i + 1] == '.' {
        (true, i + 2)
    } else {
        (false, i)
    }
}

fn skip_command_exec(s: &[char], i: usize) -> (r: Option<usize>)
    requires
        i <= s@.len(),
    ensures
        r matches Some(k) ==> skip_command(s@, i as int) == Some(k as int) && i <= k <= s@.len(),
        r is None ==> skip_command(s@, i as int) is None,
{
    let mut j = i;
    while j < s.len() && !is_whitespace(s[j]) && s[j] != '{'
        invariant
            i <= j <= s@.len(),
            skip_command(s@, j as int) == skip_command(s@, i as int),
        decreases s@.len() - j,
    {
        j = j + 1;
    }
    if j >= s.len() {
        return Some(j);
    }
    if is_whitespace(s[j]) {
        return Some(j + 1);
    }
    j = j + 1;
    let mut depth: i32 = 1;
    while j < s.len()
        invariant
            i < j <= s@.len(),
            depth >= 1,
            skip_braces(s@, j as int, depth as int) == skip_command(s@, i as int),
        decreases s@.len() - j,
    {
        let c = s[j];
        if c == '{' {
            if depth == i32::MAX {
                return None;
            }
            depth = depth + 1;
        } else if c == '}' {
            if depth - 1 == 0 {
                return Some(j + 1);
            }
            depth = depth - 1;
        }
        j = j + 1;
    }
    Some(j)
}

fn chord_exec(s: &[char], j0: usize, relative: bool, prev: u8) -> (r: Option<(Vec<u8>, usize)>)
    requires
        j0 <= s@.len(),
    ensures
        r matches Some((ps, k)) ==> chord_from(s@, j0 as int, relative, prev, seq![]) == Some(
            (ps@, k as int),
        ) && j0 <= k <= s@.len(),
        r is None ==> chord_from(s@, j0 as int, relative, prev, seq![]) is None,
{
    let mut ps: Vec<u8> = Vec::new();
    let mut cprev = prev;
    let mut j = j0;
    while j < s.len()
        invariant
            j0 <= j <= s@.len(),
            chord_from(s@, j as int, relative, cprev, ps@) == chord_from(
                s@,
                j0 as int,
                relative,
                prev,
                seq![],
            ),
        decreases s@.len() - j,
    {
        let c = s[j];
        if c == '>' {
            return Some((ps, j + 1));
        }
        if 'a' <= c && c <= 'g' {
            match pitch_at_exec(s, j, relative) {
                None => {
                    return None;
                },
                Some((raw, shift, k)) => {
                    let p = if relative {
                        relative_pitch_exec(raw, shift, cprev)
                    } else {
                        Some(raw)
                    };
                    match p {
                        None => {
                            return None;
                        },
                        Some(p) => {
                            ps.push(p);
                            cprev = p;
                            j = k;
                        },
                    }
                },
            }
        } else {
            j = j + 1;
        }
    }
    Some((ps, j))
}

/// Executable parser state.
struct ExecState {
    notes: Vec<Note>,
    prev: u8,
    tick: u64,
    default: u32,
}

spec fn state_view(st: ExecState) -> PState {
    PState {
        notes: notes_view(st.notes@),
        prev: st.prev,
        tick: st.tick as int,
        default: st.default,
    }
}

fn add_note_exec(
    st: ExecState,
    pitches: Vec<u8>,
    d: u32,
    tie: bool,
    staccato: bool,
    prev: u8,
) -> (r: Option<ExecState>)
    ensures
        r matches Some(st2) ==> add_note(state_view(st), pitches@, d, tie, staccato, prev) == Some(
            state_view(st2),
        ),
        r is None ==> add_note(state_view(st), pitches@, d, tie, staccato, prev) is None,
{
    if st.tick > u64::MAX - d as u64 {
        return None;
    }
    let ExecState { mut notes, prev: _, tick, default: _ } = st;
    let ghost old_notes = notes@;
    let n = Note { pitches, duration: d, tie, start_tick: tick, staccato };
    notes.push(n);
    assert(notes_view(notes@) == notes_view(old_notes).push(n@));
    Some(ExecState { notes, prev, tick: tick + d as u64, default: d })
}

fn same_pitches(a: &Vec<u8>, b: &Vec<u8>) -> (r: bool)
    ensures
        r == (a@ == b@),
{
    if a.len() != b.len() {
        return false;
    }
    let mut i: usize = 0;
    while i < a.len()
        invariant
            a@.len() == b@.len(),
            i <= a@.len(),
            forall|k: int| 0 <= k < i ==> a@[k] == b@[k],
        decreases a@.len() - i,
    {
        if a[i] != b[i] {
            return false;
        }
        i = i + 1;
    }
    assert(a@ =~= b@);
    true
}

fn add_sound_exec(
    st: ExecState,
    pitches: Vec<u8>,
    d: u32,
    tie: bool,
    staccato: bool,
    prev: u8,
) -> (r: Option<ExecState>)
    ensures
        r matches Some(st2) ==> add_sound(state_view(st), pitches@, d, tie, staccato, prev) == Some(
            state_view(st2),
        ),
        r is None ==> add_sound(state_view(st), pitches@, d, tie, staccato, prev) is None,
{
    let len = st.notes.len();
    let continues = len > 0 && st.notes[len - 1].tie && same_pitches(&st.notes[len - 1].pitches, &pitches);
    proof {
        if len > 0 {
            assert(state_view(st).notes.last() == st.notes@[len - 1]@);
        }
    }
    if !continues {
        return add_note_exec(st, pitches, d, tie, staccato, prev);
    }
    let last_duration = st.notes[len - 1].duration;
    if st.tick > u64::MAX - d as u64 || last_duration > u32::MAX - d {
        return None;
    }
    let ExecState { mut notes, prev: _, tick, default: _ } = st;
    let ghost old_notes = notes@;
    let last = &notes[len - 1];
    let merged = Note {
        pitches: last.pitches.clone(),
        duration: last_duration + d,
        tie,
        start_tick: last.start_tick,
        staccato,
    };
    proof {
        assert(merged.pitches@ == old_notes[len - 1].pitches@);
    }
    notes.set(len - 1, merged);
    assert(notes_view(notes@) =~= notes_view(old_notes).update(len - 1, merged@));
    Some(ExecState { notes, prev, tick: tick + d as u64, default: d })
}

fn finish_note_exec(s: &[char], j: usize, st: ExecState, pitches: Vec<u8>, prev: u8, tpb: u32) -> (r:
    Option<(usize, ExecState)>)
    requires
        j <= s@.len(),
    ensures
        r matches Some((k, st2)) ==> finish_note(s@, j as int, state_view(st), pitches@, prev, tpb)
            == Some((k as int, state_view(st2))) && j <= k <= s@.len(),
        r is None ==> finish_note(s@, j as int, state_view(st), pitches@, prev, tpb) is None,
{
    match duration_at_exec(s, j, st.default, tpb) {
        None => None,
        Some((d, k)) => {
            let (tie, k2) = tie_at_exec(s, k);
            let (stac, k3) = staccato_at_exec(s, k2);
            match add_sound_exec(st, pitches, d, tie, stac, prev) {
                None => None,
                Some(st2) => Some((k3, st2)),
            }
        },
    }
}

fn step_exec(s: &[char], i: usize, st: ExecState, tpb: u32, relative: bool) -> (r: Option<
    (usize, ExecState),
>)
    requires
        i < s@.len(),
    ensures
        r matches Some((j, st2)) ==> step(s@, i as int, state_view(st), tpb, relative) == Some(
            (j as int, state_view(st2)),
        ) && i < j <= s@.len(),
        r is None ==> step(s@, i as int, state_view(st), tpb, relative) is None,
{
    let c = s[i];
    if c == '|' {
        Some((i + 1, st))
    } else if c == '%' || c == '/' {
        Some((skip_line_exec(s, i), st))
    } else if c == ';' {
        if i + 1 < s.len() && s[i + 1] == ';' {
            Some((skip_line_exec(s, i), st))
        } else {
            Some((i + 1, st))
        }
    } else if c == '\\' {
        match skip_command_exec(s, i + 1) {
            None => None,
            Some(j) => Some((j, st)),
        }
    } else if (c == 's' || c == 'r') && is_rest_start_exec(s, i) {
        match duration_at_exec(s, i + 1, st.default, tpb) {
            None => None,
            Some((d, j)) => {
                let prev = st.prev;
                let empty: Vec<u8> = Vec::new();
                assert(empty@ == Seq::<u8>::empty());
                match add_note_exec(st, empty, d, false, false, prev) {
                    None => None,
                    Some(st2) => Some((j, st2)),
                }
            },
        }
    } else if c == '<' {
        match chord_exec(s, i + 1, relative, st.prev) {
            None => None,
            Some((ps0, j)) => {
                let ps = if ps0.len() == 0 {
                    let mut v: Vec<u8> = Vec::new();
                    v.push(st.prev);
                    v
                } else {
                    ps0
                };
                let first = ps[0];
                finish_note_exec(s, j, st, ps, first, tpb)
            },
        }
    } else if 'a' <= c && c <= 'g' {
        match pitch_at_exec(s, i, relative) {
            None => None,
            Some((raw, shift, j)) => {
                let p = if relative {
                    relative_pitch_exec(raw, shift, st.prev)
                } else {
                    Some(raw)
                };
                match p {
                    None => None,
                    Some(p) => {
                        let mut v: Vec<u8> = Vec::new();
                        v.push(p);
                        finish_note_exec(s, j, st, v, p, tpb)
                    },
                }
            },
        }
    } else {
        Some((i + 1, st))
    }
}

fn parse_notes_exec(s: &[char], anchor_pitch: u8, tpb: u32, relative: bool) -> (r: Option<
    ParsedTrack,
>)
    ensures
        r matches Some(t) ==> parse_notes(s@, anchor_pitch, tpb, relative) == Some(t@),
        r is None ==> parse_notes(s@, anchor_pitch, tpb, relative) is None,
{
    let mut st = ExecState { notes: Vec::new(), prev: anchor_pitch, tick: 0, default: tpb / 2 };
    assert(notes_view(st.notes@) =~= Seq::<NoteView>::empty());
    assert(state_view(st) == initial_state(anchor_pitch, tpb));
    let mut i: usize = 0;
    while i < s.len()
        invariant
            i <= s@.len(),
            parse_from(s@, i as int, state_view(st), tpb, relative) == parse_from(
                s@,
                0,
                initial_state(anchor_pitch, tpb),
                tpb,
                relative,
            ),
        decreases s@.len() - i,
    {
        match step_exec(s, i, st, tpb, relative) {
            None => {
                return None;
            },
            Some((j, st2)) => {
                let k = skip_ws_exec(s, j);
                st = st2;
                i = k;
            },
        }
    }
    let ExecState { notes, prev: _, tick, default: _ } = st;
    Some(ParsedTrack { notes, total_ticks: tick })
}

// ───────────────────────── public parser ─────────────────────────

/// The pitch of an anchor string (e.g. `"c'''"`, `"c,"`, `"cis'"`) in
/// absolute mode, where `c` is C3 (48) and each `'`/`,` moves an octave.
pub fn parse_anchor(anchor: &str) -> (r: u8)
    requires
        anchor_pitch(anchor@) is Some,
    ensures
        Some(r) == anchor_pitch(anchor@),
{
    let a = chars_of(anchor);
    match pitch_at_exec(a.as_slice(), 0, false) {
        Some((p, _, _)) => p,
        None => 0,
    }
}

/// `parse_anchor` for any string: `None` where the anchor has no pitch.
pub fn try_parse_anchor(anchor: &str) -> (r: Option<u8>)
    ensures
        r == anchor_pitch(anchor@),
{
    let a = chars_of(anchor);
    if a.len() == 0 {
        return None;
    }
    match pitch_at_exec(a.as_slice(), 0, false) {
        Some((p, _, _)) => Some(p),
        None => None,
    }
}

/// Parse LilyPond note syntax in relative mode.
///
/// `input` — raw note string, e.g. `"a8 ais c4 d c |"`
/// `anchor` — the relative anchor, e.g. `"c'''"` or `"c,"`
/// `ticks_per_beat` — resolution (e.g. 480 ticks per quarter note)
pub fn parse_notes_relative(input: &str, anchor: &str, ticks_per_beat: u32) -> (r: ParsedTrack)
    requires
        parse_relative(input@, anchor@, ticks_per_beat) is Some,
    ensures
        Some(r@) == parse_relative(input@, anchor@, ticks_per_beat),
{
    let a = parse_anchor(anchor);
    let s = chars_of(input);
    match parse_notes_exec(s.as_slice(), a, ticks_per_beat, true) {
        Some(t) => t,
        None => ParsedTrack { notes: Vec::new(), total_ticks: 0 },
    }
}

/// `parse_notes_relative` for any input: `None` exactly where the note text
/// or anchor cannot be parsed (empty anchor, a zero note value, or an
/// arithmetic overflow).
pub fn try_parse_notes_relative(input: &str, anchor: &str, ticks_per_beat: u32) -> (r: Option<
    ParsedTrack,
>)
    ensures
        r matches Some(t) ==> parse_relative(input@, anchor@, ticks_per_beat) == Some(t@),
        r is None ==> parse_relative(input@, anchor@, ticks_per_beat) is None,
{
    match try_parse_anchor(anchor) {
        None => None,
        Some(a) => {
            let s = chars_of(input);
            parse_notes_exec(s.as_slice(), a, ticks_per_beat, true)
        },
    }
}

// ───────────────────────── serialization ─────────────────────────

/// Text of a note's pitches: `R` for a rest, the MIDI number for a single
/// pitch, `[p1+p2+…]` for a chord.
pub open spec fn pitch_text(p: Seq<u8>) -> Seq<char> {
    if p.len() == 0 {
        seq!['R']
    } else if p.len() == 1 {
        dec(p[0] as nat)
    } else {
        seq!['['] + join(p.map_values(|x: u8| dec(x as nat)), seq!['+']) + seq![']']
    }
}

/// `PITCH,DURATION` with a `~` suffix for a tie.
pub open spec fn note_text(n: NoteView) -> Seq<char> {
    pitch_text(n.pitches) + seq![','] + dec(n.duration as nat) + if n.tie {
        seq!['~']
    } else {
        seq![]
    }
}

/// The notes of a track as space-separated `note_text`s.
pub open spec fn serialized(t: ParsedTrackView) -> Seq<char> {
    join(t.notes.map_values(|n: NoteView| note_text(n)), seq![' '])
}

fn push_pitch_text(out: &mut Vec<char>, p: &Vec<u8>)
    ensures
        final(out)@ == old(out)@ + pitch_text(p@),
{
    if p.len() == 0 {
        out.push('R');
    } else if p.len() == 1 {
        push_dec(out, p[0] as u64);
    } else {
        out.push('[');
        let ghost parts = p@.map_values(|x: u8| dec(x as nat));
        let ghost start = out@;
        let mut i: usize = 0;
        while i < p.len()
            invariant
                i <= p@.len(),
                p@.len() > 1,
                parts == p@.map_values(|x: u8| dec(x as nat)),
                out@ == start + join(parts.take(i as int), seq!['+']),
            decreases p@.len() - i,
        {
            proof {
                lemma_join_push(parts, seq!['+'], i as int);
            }
            if i > 0 {
                out.push('+');
            }
            push_dec(out, p[i] as u64);
            proof {
                if i == 0 {
                    assert(join(parts.take(0), seq!['+']) == Seq::<char>::empty());
                    assert(out@ == start + parts[0]);
                } else {
                    assert(out@ == start + join(parts.take(i as int), seq!['+']) + seq!['+']
                        + parts[i as int]);
                }
            }
            i = i + 1;
        }
        assert(parts.take(p@.len() as int) == parts);
        out.push(']');
    }
}

/// `PITCH,DURATION` per note, space-separated. `R` for rests, `~` suffix for ties.
/// Chords are serialized as `[p1+p2+p3],DURATION`.
pub fn serialize_notes(track: &ParsedTrack) -> (r: String)
    ensures
        r@ == serialized(track@),
{
    let mut out: Vec<char> = Vec::new();
    let ghost parts = track@.notes.map_values(|n: NoteView| note_text(n));
    let mut i: usize = 0;
    while i < track.notes.len()
        invariant
            i <= track.notes@.len(),
            parts == track@.notes.map_values(|n: NoteView| note_text(n)),
            out@ == join(parts.take(i as int), seq![' ']),
        decreases track.notes@.len() - i,
    {
        proof {
            lemma_join_push(parts, seq![' '], i as int);
        }
        let ghost before = out@;
        if i > 0 {
            out.push(' ');
        }
        let ghost mid = out@;
        let n = &track.notes[i];
        push_pitch_text(&mut out, &n.pitches);
        out.push(',');
        push_dec(&mut out, n.duration as u64);
        if n.tie {
            out.push('~');
        }
        proof {
            assert(track@.notes[i as int] == n@);
            assert(out@ == mid + note_text(n@));
            if i == 0 {
                assert(join(parts.take(0), seq![' ']) == Seq::<char>::empty());
            }
        }
        i = i + 1;
    }
    assert(parts.take(track.notes@.len() as int) == parts);
    string_from(out.as_slice())
}

// ───────────────────────── MIDI events to notes ─────────────────────────

/// A sounding note recovered from MIDI events: (pitch, start tick, end tick).
pub type Span = (u8, u64, u64);

pub open spec fn is_note_on(e: MidiEvent) -> bool {
    e.command == 0x90 && e.data2 > 0
}

pub open spec fn is_note_off(e: MidiEvent) -> bool {
    e.command == 0x80 || (e.command == 0x90 && e.data2 == 0)
}

/// Pair note-ons with note-offs per (channel, pitch), from event `k` on.
/// `active` maps a sounding (channel, pitch) to its start tick; a later
/// note-on restarts it. Spans come out in note-off order.
pub open spec fn spans_from(
    events: Seq<MidiEvent>,
    k: int,
    active: Map<(u8, u8), u64>,
    acc: Seq<Span>,
) -> Seq<Span>
    decreases events.len() - k,
{
    if k < 0 || k >= events.len() {
        acc
    } else {
        let e = events[k];
        let key = (e.channel, e.data1);
        if is_note_on(e) {
            spans_from(events, k + 1, active.insert(key, e.tick), acc)
        } else if is_note_off(e) && active.contains_key(key) {
            spans_from(events, k + 1, active.remove(key), acc.push((e.data1, active[key], e.tick)))
        } else {
            spans_from(events, k + 1, active, acc)
        }
    }
}

pub open spec fn note_spans(events: Seq<MidiEvent>) -> Seq<Span> {
    spans_from(events, 0, Map::empty(), seq![])
}

/// Stable insertion of `x` into `sorted` by start tick: after every element
/// whose start is not later.
pub open spec fn insert_by_start(sorted: Seq<Span>, x: Span) -> Seq<Span>
    decreases sorted.len(),
{
    if sorted.len() == 0 {
        seq![x]
    } else if sorted.last().1 <= x.1 {
        sorted.push(x)
    } else {
        insert_by_start(sorted.drop_last(), x).push(sorted.last())
    }
}

/// Stable sort by start tick (`sort_by_key` on the start).
pub open spec fn sort_by_start(s: Seq<Span>) -> Seq<Span>
    decreases s.len(),
{
    if s.len() == 0 {
        seq![]
    } else {
        insert_by_start(sort_by_start(s.drop_last()), s.last())
    }
}

/// Where `insert_by_start` puts `x`.
pub open spec fn insert_pos(sorted: Seq<Span>, x: Span) -> int
    decreases sorted.len(),
{
    if sorted.len() == 0 {
        0
    } else if sorted.last().1 <= x.1 {
        sorted.len() as int
    } else {
        insert_pos(sorted.drop_last(), x)
    }
}

proof fn lemma_insert_by_start(sorted: Seq<Span>, x: Span)
    ensures
        0 <= insert_pos(sorted, x) <= sorted.len(),
        insert_by_start(sorted, x) == sorted.insert(insert_pos(sorted, x), x),
    decreases sorted.len(),
{
    if sorted.len() > 0 && sorted.last().1 > x.1 {
        lemma_insert_by_start(sorted.drop_last(), x);
        let p = insert_pos(sorted.drop_last(), x);
        assert(sorted.drop_last().insert(p, x).push(sorted.last()) == sorted.insert(p, x));
    } else if sorted.len() > 0 {
        assert(sorted.push(x) == sorted.insert(sorted.len() as int, x));
    }
}

/// End of the run of spans from `i` that start at `start`.
pub open spec fn run_end(s: Seq<Span>, i: int, start: u64) -> int
    decreases s.len() - i,
{
    if 0 <= i < s.len() && s[i].1 == start {
        run_end(s, i + 1, start)
    } else {
        i
    }
}

/// Largest end tick of `s[i..j]`, or `m` if larger.
pub open spec fn max_end(s: Seq<Span>, i: int, j: int, m: u64) -> u64
    decreases j - i,
{
    if i >= j {
        m
    } else {
        let m2 = if s[i].2 > m {
            s[i].2
        } else {
            m
        };
        max_end(s, i + 1, j, m2)
    }
}

/// Chords: sorted spans grouped by equal start tick, from index `i`. Each
/// group becomes one note lasting until its latest end (at least one tick).
/// `None` when a group ends before it starts.
pub open spec fn group_from(s: Seq<Span>, i: int) -> Option<Seq<NoteView>>
    decreases s.len() - i,
{
    if i < 0 || i >= s.len() {
        Some(seq![])
    } else {
        let start = s[i].1;
        let j = run_end(s, i, start);
        let me = max_end(s, i, j, 0);
        if j <= i || j > s.len() || me < start {
            None
        } else {
            let d = me - start;
            let note = NoteView {
                pitches: s.subrange(i, j).map_values(|x: Span| x.0),
                duration: (if d >= 1 {
                    d
                } else {
                    1
                }) as u32,
                tie: false,
                start_tick: start,
                staccato: false,
            };
            match group_from(s, j) {
                None => None,
                Some(rest) => Some(seq![note] + rest),
            }
        }
    }
}

/// Notes recovered from note-on/note-off pairs; `total_ticks` is the latest
/// note-off tick (0 without notes).
pub open spec fn events_to_track(events: Seq<MidiEvent>) -> Option<ParsedTrackView> {
    let spans = note_spans(events);
    let sorted = sort_by_start(spans);
    match group_from(sorted, 0) {
        None => None,
        Some(notes) => Some(
            ParsedTrackView { notes, total_ticks: max_end(spans, 0, spans.len() as int, 0) },
        ),
    }
}

pub open spec fn starts_sorted(s: Seq<Span>) -> bool {
    forall|i: int, j: int| 0 <= i <= j < s.len() ==> s[i].1 <= s[j].1
}

/// Every span starts and ends at most at tick `b`.
pub open spec fn spans_within(s: Seq<Span>, b: int) -> bool {
    forall|i: int| 0 <= i < s.len() ==> #[trigger] s[i].1 <= b && s[i].2 <= b
}

proof fn lemma_insert_by_start_props(sorted: Seq<Span>, x: Span, b: int)
    requires
        starts_sorted(sorted),
    ensures
        starts_sorted(insert_by_start(sorted, x)),
        insert_by_start(sorted, x).len() == sorted.len() + 1,
        spans_within(sorted, b) && x.1 <= b && x.2 <= b ==> spans_within(insert_by_start(sorted, x), b),
    decreases sorted.len(),
{
    lemma_insert_by_start(sorted, x);
    let p = insert_pos(sorted, x);
    let r = insert_by_start(sorted, x);
    assert forall|k: int| 0 <= k < r.len() implies #[trigger] r[k] == (if k < p {
        sorted[k]
    } else if k == p {
        x
    } else {
        sorted[k - 1]
    }) by {}
    if sorted.len() > 0 && sorted.last().1 > x.1 {
        let d = sorted.drop_last();
        lemma_insert_by_start_props(d, x, b);
        let m = insert_by_start(d, x);
        lemma_insert_by_start(d, x);
        let q = insert_pos(d, x);
        assert forall|k: int| 0 <= k < m.len() implies #[trigger] m[k].1 <= sorted.last().1 by {
            if k < q {
                assert(m[k] == d[k]);
            } else if k == q {
                assert(m[k] == x);
            } else {
                assert(m[k] == d[k - 1]);
            }
        }
        assert(r == m.push(sorted.last()));
        if spans_within(sorted, b) && x.1 <= b && x.2 <= b {
            assert(spans_within(d, b)) by {
                assert forall|i: int| 0 <= i < d.len() implies #[trigger] d[i].1 <= b && d[i].2 <= b by {
                    assert(d[i] == sorted[i]);
                }
            }
            assert(sorted.last() == sorted[sorted.len() - 1]);
        }
    }
}

proof fn lemma_sort_by_start_props(s: Seq<Span>, b: int)
    ensures
        starts_sorted(sort_by_start(s)),
        sort_by_start(s).len() == s.len(),
        spans_within(s, b) ==> spans_within(sort_by_start(s), b),
    decreases s.len(),
{
    if s.len() > 0 {
        let d = s.drop_last();
        lemma_sort_by_start_props(d, b);
        lemma_insert_by_start_props(sort_by_start(d), s.last(), b);
        if spans_within(s, b) {
            assert(spans_within(d, b)) by {
                assert forall|i: int| 0 <= i < d.len() implies #[trigger] d[i].1 <= b && d[i].2 <= b by {
                    assert(d[i] == s[i]);
                }
            }
            assert(s.last() == s[s.len() - 1]);
        }
    }
}

proof fn lemma_spans_within(events: Seq<MidiEvent>, k: int, active: Map<(u8, u8), u64>, acc: Seq<Span>, b: int)
    requires
        forall|i: int| 0 <= i < events.len() ==> #[trigger] events[i].tick <= b,
        forall|key: (u8, u8)| active.contains_key(key) ==> #[trigger] active[key] <= b,
        spans_within(acc, b),
    ensures
        spans_within(spans_from(events, k, active, acc), b),
    decreases events.len() - k,
{
    if 0 <= k < events.len() {
        let e = events[k];
        let key = (e.channel, e.data1);
        if is_note_on(e) {
            let a2 = active.insert(key, e.tick);
            assert forall|kk: (u8, u8)| a2.contains_key(kk) implies #[trigger] a2[kk] <= b by {
                if kk != key {
                    assert(active.contains_key(kk));
                }
            }
            lemma_spans_within(events, k + 1, a2, acc, b);
        } else if is_note_off(e) && active.contains_key(key) {
            let a2 = active.remove(key);
            let acc2 = acc.push((e.data1, active[key], e.tick));
            assert forall|kk: (u8, u8)| a2.contains_key(kk) implies #[trigger] a2[kk] <= b by {
                assert(active.contains_key(kk));
            }
            assert forall|i: int| 0 <= i < acc2.len() implies #[trigger] acc2[i].1 <= b && acc2[i].2 <= b by {
                if i < acc.len() {
                    assert(acc2[i] == acc[i]);
                }
            }
            lemma_spans_within(events, k + 1, a2, acc2, b);
        } else {
            lemma_spans_within(events, k + 1, active, acc, b);
        }
    }
}

proof fn lemma_run_end(s: Seq<Span>, i: int, start: u64)
    requires
        0 <= i <= s.len(),
    ensures
        i <= run_end(s, i, start) <= s.len(),
        forall|k: int| i <= k < run_end(s, i, start) ==> #[trigger] s[k].1 == start,
        run_end(s, i, start) < s.len() ==> s[run_end(s, i, start)].1 != start,
    decreases s.len() - i,
{
    if i < s.len() && s[i].1 == start {
        lemma_run_end(s, i + 1, start);
    }
}

proof fn lemma_max_end_within(s: Seq<Span>, i: int, j: int, m: u64, b: int)
    requires
        0 <= i,
        j <= s.len(),
        m <= b,
        spans_within(s, b),
    ensures
        max_end(s, i, j, m) <= b,
    decreases j - i,
{
    if i < j {
        assert(s[i].1 <= b && s[i].2 <= b);
        let m2 = if s[i].2 > m {
            s[i].2
        } else {
            m
        };
        lemma_max_end_within(s, i + 1, j, m2, b);
    }
}

/// The notes grouped from sorted spans: each holds a pitch, later notes start
/// later, all start at or after span `i`, and with every tick within
/// `u32::MAX` each lasts at least one tick.
proof fn lemma_group_from_props(s: Seq<Span>, i: int)
    requires
        starts_sorted(s),
        0 <= i <= s.len(),
        group_from(s, i) is Some,
    ensures
        ({
            let ns = group_from(s, i)->0;
            &&& forall|k: int| 0 <= k < ns.len() ==> (#[trigger] ns[k]).pitches.len() >= 1
            &&& forall|k: int| 0 <= k < ns.len() ==> i < s.len() && (#[trigger] ns[k]).start_tick >= s[i].1
            &&& forall|a: int, c: int| 0 <= a < c < ns.len() ==> ns[a].start_tick < ns[c].start_tick
            &&& spans_within(s, u32::MAX as int) ==> forall|k: int|
                0 <= k < ns.len() ==> (#[trigger] ns[k]).duration >= 1
        }),
    decreases s.len() - i,
{
    if i < s.len() {
        let start = s[i].1;
        let j = run_end(s, i, start);
        lemma_run_end(s, i, start);
        let me = max_end(s, i, j, 0);
        let rest = group_from(s, j)->0;
        lemma_group_from_props(s, j);
        let ns = group_from(s, i)->0;
        let note = ns[0];
        assert(ns == seq![note] + rest);
        if j < s.len() {
            assert(s[i].1 <= s[j].1);
        }
        if spans_within(s, u32::MAX as int) {
            lemma_max_end_within(s, i, j, 0, u32::MAX as int);
        }
        assert forall|k: int| 0 <= k < ns.len() implies (#[trigger] ns[k]).start_tick >= s[i].1 by {
            if k > 0 {
                assert(ns[k] == rest[k - 1]);
            }
        }
        assert forall|a: int, c: int| 0 <= a < c < ns.len() implies ns[a].start_tick < ns[c].start_tick by {
            assert(ns[c] == rest[c - 1]);
            if a > 0 {
                assert(ns[a] == rest[a - 1]);
            }
        }
        assert forall|k: int| 0 <= k < ns.len() implies (#[trigger] ns[k]).pitches.len() >= 1 by {
            if k > 0 {
                assert(ns[k] == rest[k - 1]);
            }
        }
        if spans_within(s, u32::MAX as int) {
            assert forall|k: int| 0 <= k < ns.len() implies (#[trigger] ns[k]).duration >= 1 by {
                if k > 0 {
                    assert(ns[k] == rest[k - 1]);
                }
            }
        }
    }
}

/// A note read back from MIDI events lasts until the latest note-off of the
/// notes that start at its tick: it ends at or after every one of them, and
/// at the latest one when that is more than a tick after its start (ticks
/// within `u32::MAX`).
pub proof fn law_midi_note_lasts_to_latest_end(events: Seq<MidiEvent>)
    requires
        events_to_track(events) is Some,
        forall|i: int| 0 <= i < events.len() ==> #[trigger] events[i].tick <= u32::MAX,
    ensures
        ({
            let ns = events_to_track(events)->0.notes;
            let spans = note_spans(events);
            &&& forall|k: int, x: Span|
                #![trigger ns[k], spans.contains(x)]
                0 <= k < ns.len() && spans.contains(x) && x.1 == ns[k].start_tick ==> x.2
                    <= ns[k].start_tick + ns[k].duration
            &&& forall|k: int|
                0 <= k < ns.len() && (#[trigger] ns[k]).duration > 1 ==> exists|x: Span|
                    #![trigger spans.contains(x)]
                    spans.contains(x) && x.1 == ns[k].start_tick && x.2 == ns[k].start_tick + ns[k].duration
        }),
{
    let spans = note_spans(events);
    let sorted = sort_by_start(spans);
    let b = u32::MAX as int;
    lemma_sort_by_start_props(spans, b);
    lemma_spans_within(events, 0, Map::empty(), seq![], b);
    lemma_group_from_durations(sorted, 0);
    let ns = events_to_track(events)->0.notes;
    assert forall|k: int, x: Span|
        #![trigger ns[k], spans.contains(x)]
        0 <= k < ns.len() && spans.contains(x) && x.1 == ns[k].start_tick implies x.2
            <= ns[k].start_tick + ns[k].duration by {
        lemma_sort_contains(spans, x);
        let m = choose|m: int| 0 <= m < sorted.len() && sorted[m] == x;
        assert(sorted[m].1 == ns[k].start_tick);
    }
    assert forall|k: int| 0 <= k < ns.len() && (#[trigger] ns[k]).duration > 1 implies exists|x: Span|
        #![trigger spans.contains(x)]
        spans.contains(x) && x.1 == ns[k].start_tick && x.2 == ns[k].start_tick + ns[k].duration by {
        let m = choose|m: int|
            0 <= m < sorted.len() && (#[trigger] sorted[m]).1 == ns[k].start_tick && sorted[m].2
                == ns[k].start_tick + ns[k].duration;
        let x = sorted[m];
        assert(sorted.contains(x));
        lemma_sort_contains(spans, x);
    }
}

/// The notes read back from MIDI events hold at least one pitch each and
/// start strictly one after another; when every tick is within `u32::MAX`,
/// each lasts at least one tick.
pub proof fn law_midi_notes_ordered(events: Seq<MidiEvent>)
    requires
        events_to_track(events) is Some,
    ensures
        ({
            let ns = events_to_track(events)->0.notes;
            &&& forall|k: int| 0 <= k < ns.len() ==> (#[trigger] ns[k]).pitches.len() >= 1
            &&& forall|a: int, c: int| 0 <= a < c < ns.len() ==> ns[a].start_tick < ns[c].start_tick
            &&& (forall|i: int| 0 <= i < events.len() ==> #[trigger] events[i].tick <= u32::MAX) ==> forall|k: int|
                0 <= k < ns.len() ==> (#[trigger] ns[k]).duration >= 1
        }),
{
    let spans = note_spans(events);
    let b = u32::MAX as int;
    lemma_sort_by_start_props(spans, b);
    lemma_group_from_props(sort_by_start(spans), 0);
    if forall|i: int| 0 <= i < events.len() ==> #[trigger] events[i].tick <= u32::MAX {
        lemma_spans_within(events, 0, Map::empty(), seq![], b);
    }
}

proof fn lemma_insert_contains(sorted: Seq<Span>, x: Span, y: Span)
    ensures
        insert_by_start(sorted, x).contains(y) <==> (y == x || sorted.contains(y)),
{
    lemma_insert_by_start(sorted, x);
    let p = insert_pos(sorted, x);
    let r = sorted.insert(p, x);
    if r.contains(y) {
        let k = choose|k: int| 0 <= k < r.len() && r[k] == y;
        if k < p {
            assert(sorted[k] == y);
        } else if k > p {
            assert(sorted[k - 1] == y);
        }
    }
    if y == x {
        assert(r[p] == x);
    } else if sorted.contains(y) {
        let k = choose|k: int| 0 <= k < sorted.len() && sorted[k] == y;
        if k < p {
            assert(r[k] == y);
        } else {
            assert(r[k + 1] == y);
        }
    }
}

/// Sorting keeps every span.
proof fn lemma_sort_contains(s: Seq<Span>, y: Span)
    ensures
        sort_by_start(s).contains(y) <==> s.contains(y),
    decreases s.len(),
{
    if s.len() > 0 {
        let d = s.drop_last();
        lemma_sort_contains(d, y);
        lemma_insert_contains(sort_by_start(d), s.last(), y);
        if s.contains(y) && y != s.last() {
            let k = choose|k: int| 0 <= k < s.len() && s[k] == y;
            assert(k < d.len());
            assert(d[k] == y);
        }
        if d.contains(y) {
            let k = choose|k: int| 0 <= k < d.len() && d[k] == y;
            assert(s[k] == y);
        }
        if y == s.last() {
            assert(s[s.len() - 1] == y);
        }
    }
}

/// The latest end of a run is at least every end in it, and is either the
/// starting value or one of them.
proof fn lemma_max_end_props(s: Seq<Span>, i: int, j: int, m: u64)
    requires
        0 <= i,
        j <= s.len(),
    ensures
        max_end(s, i, j, m) >= m,
        forall|k: int| i <= k < j ==> max_end(s, i, j, m) >= (#[trigger] s[k]).2,
        max_end(s, i, j, m) == m || exists|k: int| i <= k < j && max_end(s, i, j, m) == (#[trigger] s[k]).2,
    decreases j - i,
{
    if i < j {
        let m2 = if s[i].2 > m {
            s[i].2
        } else {
            m
        };
        lemma_max_end_props(s, i + 1, j, m2);
        if max_end(s, i, j, m) != m && max_end(s, i + 1, j, m2) == m2 {
            assert(max_end(s, i, j, m) == s[i].2);
        }
    }
}

/// The notes grouped from sorted spans, from span `i` on (every span before
/// `i` starting earlier): each lasts until the latest end of the spans
/// starting at its tick, at least one tick.
proof fn lemma_group_from_durations(s: Seq<Span>, i: int)
    requires
        starts_sorted(s),
        0 <= i <= s.len(),
        group_from(s, i) is Some,
        spans_within(s, u32::MAX as int),
        i < s.len() ==> forall|m: int| 0 <= m < i ==> #[trigger] s[m].1 < s[i].1,
    ensures
        ({
            let ns = group_from(s, i)->0;
            forall|k: int, m: int|
                0 <= k < ns.len() && 0 <= m < s.len() && (#[trigger] s[m]).1 == (#[trigger] ns[k]).start_tick
                    ==> s[m].2 <= ns[k].start_tick + ns[k].duration
        }),
        ({
            let ns = group_from(s, i)->0;
            forall|k: int|
                0 <= k < ns.len() && (#[trigger] ns[k]).duration > 1 ==> exists|m: int|
                    0 <= m < s.len() && (#[trigger] s[m]).1 == ns[k].start_tick && s[m].2 == ns[k].start_tick
                        + ns[k].duration
        }),
    decreases s.len() - i,
{
    if i < s.len() {
        let start = s[i].1;
        let j = run_end(s, i, start);
        lemma_run_end(s, i, start);
        let latest = max_end(s, i, j, 0);
        lemma_max_end_props(s, i, j, 0);
        lemma_max_end_within(s, i, j, 0, u32::MAX as int);
        let ns = group_from(s, i)->0;
        let rest = group_from(s, j)->0;
        if j < s.len() {
            assert(s[i].1 <= s[j].1);
            assert forall|m: int| 0 <= m < j implies #[trigger] s[m].1 < s[j].1 by {
                if m < i {
                    assert(s[m].1 < s[i].1);
                } else {
                    assert(s[m].1 == start);
                }
            }
        }
        lemma_group_from_durations(s, j);
        lemma_group_from_props(s, j);
        assert(ns == seq![ns[0]] + rest);
        assert(ns[0].start_tick == start);
        assert(ns[0].start_tick + ns[0].duration >= latest);
        assert forall|k: int, m: int|
            0 <= k < ns.len() && 0 <= m < s.len() && (#[trigger] s[m]).1 == (#[trigger] ns[k]).start_tick implies s[m].2
                <= ns[k].start_tick + ns[k].duration by {
            if k == 0 {
                if m < i {
                    assert(s[m].1 < s[i].1);
                } else if m >= j {
                    assert(s[j].1 <= s[m].1);
                } else {
                    assert(latest >= s[m].2);
                }
            } else {
                assert(ns[k] == rest[k - 1]);
            }
        }
        assert forall|k: int| 0 <= k < ns.len() && (#[trigger] ns[k]).duration > 1 implies exists|m: int|
            0 <= m < s.len() && (#[trigger] s[m]).1 == ns[k].start_tick && s[m].2 == ns[k].start_tick
                + ns[k].duration by {
            if k == 0 {
                assert(latest != 0);
                let w = choose|w: int| i <= w < j && latest == (#[trigger] s[w]).2;
                assert(s[w].1 == start);
            } else {
                assert(ns[k] == rest[k - 1]);
            }
        }
    }
}

spec fn key_index(ch: u8, key: u8) -> int {
    ch as int * 256 + key as int
}

/// Spans of `events`, in note-off order.
fn collect_spans(events: &[MidiEvent]) -> (r: Vec<Span>)
    ensures
        r@ == note_spans(events@),
{
    let mut active: Vec<Option<u64>> = Vec::new();
    let mut n: usize = 0;
    while n < 65536
        invariant
            n <= 65536,
            active@.len() == n,
            forall|k: int| 0 <= k < n ==> active@[k] is None,
        decreases 65536 - n,
    {
        active.push(None);
        n = n + 1;
    }
    let ghost mut amap: Map<(u8, u8), u64> = Map::empty();
    let mut acc: Vec<Span> = Vec::new();
    let mut k: usize = 0;
    while k < events.len()
        invariant
            k <= events@.len(),
            active@.len() == 65536,
            forall|ch: u8, key: u8| #[trigger] active@[key_index(ch, key)] == (if amap.contains_key(
                (ch, key),
            ) {
                Some(amap[(ch, key)])
            } else {
                None::<u64>
            }),
            spans_from(events@, k as int, amap, acc@) == note_spans(events@),
        decreases events@.len() - k,
    {
        let e = events[k];
        let idx: usize = e.channel as usize * 256 + e.data1 as usize;
        assert(idx == key_index(e.channel, e.data1));
        if e.command == 0x90 && e.data2 > 0 {
            active.set(idx, Some(e.tick));
            proof {
                let m2 = amap.insert((e.channel, e.data1), e.tick);
                assert forall|ch: u8, key: u8| #[trigger] active@[key_index(ch, key)] == (if m2.contains_key(
                    (ch, key),
                ) {
                    Some(m2[(ch, key)])
                } else {
                    None::<u64>
                }) by {
                    if (ch, key) != (e.channel, e.data1) {
                        assert(key_index(ch, key) != key_index(e.channel, e.data1));
                    }
                }
                amap = m2;
            }
        } else if e.command == 0x80 || (e.command == 0x90 && e.data2 == 0) {
            match active[idx] {
                Some(start) => {
                    acc.push((e.data1, start, e.tick));
                    active.set(idx, None);
                    proof {
                        let m2 = amap.remove((e.channel, e.data1));
                        assert forall|ch: u8, key: u8| #[trigger] active@[key_index(ch, key)] == (if m2.contains_key(
                            (ch, key),
                        ) {
                            Some(m2[(ch, key)])
                        } else {
                            None::<u64>
                        }) by {
                            if (ch, key) != (e.channel, e.data1) {
                                assert(key_index(ch, key) != key_index(e.channel, e.data1));
                            }
                        }
                        amap = m2;
                    }
                },
                None => {},
            }
        }
        k = k + 1;
    }
    acc
}

/// Stable sort of spans by start tick.
fn sort_spans(s: &Vec<Span>) -> (r: Vec<Span>)
    ensures
        r@ == sort_by_start(s@),
{
    let mut out: Vec<Span> = Vec::new();
    let mut i: usize = 0;
    while i < s.len()
        invariant
            i <= s@.len(),
            out@ == sort_by_start(s@.take(i as int)),
        decreases s@.len() - i,
    {
        let x = s[i];
        let mut j = out.len();
        proof {
            lemma_insert_by_start(out@, x);
            assert(out@.take(j as int) == out@);
        }
        while j > 0 && out[j - 1].1 > x.1
            invariant
                j <= out@.len(),
                insert_pos(out@.take(j as int), x) == insert_pos(out@, x),
                insert_pos(out@.take(j as int), x) <= j,
                j < out@.len() ==> out@[j as int].1 > x.1,
            decreases j,
        {
            assert(out@.take(j as int).drop_last() == out@.take(j - 1));
            assert(out@.take(j as int).last() == out@[j - 1]);
            proof {
                lemma_insert_by_start(out@.take(j - 1), x);
            }
            j = j - 1;
        }
        proof {
            if j > 0 {
                assert(out@.take(j as int).last() == out@[j - 1]);
            }
            assert(insert_pos(out@.take(j as int), x) == j);
        }
        out.insert(j, x);
        proof {
            assert(s@.take(i + 1).drop_last() == s@.take(i as int));
            assert(s@.take(i + 1).last() == x);
        }
        i = i + 1;
    }
    assert(s@.take(s@.len() as int) == s@);
    out
}

fn max_end_exec(s: &Vec<Span>, i: usize, j: usize, m: u64) -> (r: u64)
    requires
        i <= j <= s@.len(),
    ensures
        r == max_end(s@, i as int, j as int, m),
{
    let mut k = i;
    let mut best = m;
    while k < j
        invariant
            i <= k <= j <= s@.len(),
            max_end(s@, k as int, j as int, best) == max_end(s@, i as int, j as int, m),
        decreases j - k,
    {
        if s[k].2 > best {
            best = s[k].2;
        }
        k = k + 1;
    }
    best
}

/// Notes of grouped, sorted spans; `None` when a group ends before it starts.
fn group_spans(s: &Vec<Span>) -> (r: Option<Vec<Note>>)
    ensures
        r matches Some(v) ==> group_from(s@, 0) == Some(notes_view(v@)),
        r is None ==> group_from(s@, 0) is None,
{
    let mut notes: Vec<Note> = Vec::new();
    let mut i: usize = 0;
    while i < s.len()
        invariant
            i <= s@.len(),
            group_from(s@, 0) == match group_from(s@, i as int) {
                None => None,
                Some(rest) => Some(notes_view(notes@) + rest),
            },
        decreases s@.len() - i,
    {
        let start = s[i].1;
        let mut j = i;
        let mut pitches: Vec<u8> = Vec::new();
        while j < s.len() && s[j].1 == start
            invariant
                i <= j <= s@.len(),
                run_end(s@, j as int, start) == run_end(s@, i as int, start),
                pitches@ == s@.subrange(i as int, j as int).map_values(|x: Span| x.0),
            decreases s@.len() - j,
        {
            pitches.push(s[j].0);
            j = j + 1;
            assert(pitches@ == s@.subrange(i as int, j as int).map_values(|x: Span| x.0));
        }
        let me = max_end_exec(s, i, j, 0);
        if me < start {
            return None;
        }
        let d = me - start;
        let dur: u64 = if d >= 1 {
            d
        } else {
            1
        };
        let note = Note {
            pitches,
            duration: dur as u32,
            tie: false,
            start_tick: start,
            staccato: false,
        };
        let ghost old_notes = notes@;
        notes.push(note);
        proof {
            assert(notes_view(notes@) == notes_view(old_notes).push(note@));
            match group_from(s@, j as int) {
                None => {},
                Some(rest) => {
                    assert(notes_view(old_notes) + (seq![note@] + rest) == notes_view(notes@)
                        + rest);
                },
            }
        }
        i = j;
    }
    assert(notes_view(notes@) + Seq::<NoteView>::empty() == notes_view(notes@));
    Some(notes)
}

/// Convert raw MIDI events (note_on/note_off pairs) into a `ParsedTrack`.
/// Each note_on with velocity > 0 starts a note; the matching note_off ends it.
/// Multiple simultaneous notes become chords (same start_tick, grouped).
pub fn midi_events_to_parsed_track(events: &[MidiEvent]) -> (r: ParsedTrack)
    requires
        events_to_track(events@) is Some,
    ensures
        Some(r@) == events_to_track(events@),
{
    match try_midi_events_to_parsed_track(events) {
        Some(t) => t,
        None => ParsedTrack { notes: Vec::new(), total_ticks: 0 },
    }
}

/// `midi_events_to_parsed_track` for any events: `None` exactly when some
/// chord's latest note-off comes before its note-on tick.
pub fn try_midi_events_to_parsed_track(events: &[MidiEvent]) -> (r: Option<ParsedTrack>)
    ensures
        r matches Some(t) ==> events_to_track(events@) == Some(t@),
        r is None ==> events_to_track(events@) is None,
{
    let spans = collect_spans(events);
    let total = max_end_exec(&spans, 0, spans.len(), 0);
    let sorted = sort_spans(&spans);
    match group_spans(&sorted) {
        None => None,
        Some(notes) => Some(ParsedTrack { notes, total_ticks: total }),
    }
}

} // verus!
