//! MIDI event generation for scores, and the playback state of a player.

use vstd::prelude::*;

use crate::note::{parse_relative, try_parse_notes_relative, Note, NoteView, ParsedTrack, ParsedTrackView};
use crate::ly_gen::active_tracks;
use crate::score::{Score, Track};
use crate::sparkline::Progress;
use crate::text::{
    chars_eq_str, chars_of, lowercase, parse_u32, parse_u32_chars, second_piece, second_piece_chars,
    to_lowercase, trim, trim_chars,
};

verus! {

/// A parsed MIDI event ready for the synthesizer.
#[derive(Debug, Clone, Copy, PartialEq, Eq)]
pub struct MidiEvent {
    pub tick: u64,
    pub channel: u8,
    pub command: u8,
    pub data1: u8,
    pub data2: u8,
}

// ───────────────────────── instruments ─────────────────────────

/// General MIDI program of a lowercase instrument name (0 when unknown).
pub open spec fn program_of(name: Seq<char>) -> u8 {
    if name == "acoustic grand"@ {
        0u8
    } else if name == "piano"@ {
        0u8
    } else if name == "bright acoustic"@ {
        1u8
    } else if name == "electric grand"@ {
        2u8
    } else if name == "honky-tonk"@ {
        3u8
    } else if name == "electric piano 1"@ {
        4u8
    } else if name == "electric piano 2"@ {
        5u8
    } else if name == "harpsichord"@ {
        6u8
    } else if name == "clavinet"@ {
        7u8
    } else if name == "celesta"@ {
        8u8
    } else if name == "glockenspiel"@ {
        9u8
    } else if name == "music box"@ {
        10u8
    } else if name == "vibraphone"@ {
        11u8
    } else if name == "marimba"@ {
        12u8
    } else if name == "xylophone"@ {
        13u8
    } else if name == "tubular bells"@ {
        14u8
    } else if name == "dulcimer"@ {
        15u8
    } else if name == "drawbar organ"@ {
        16u8
    } else if name == "percussive organ"@ {
        17u8
    } else if name == "rock organ"@ {
        18u8
    } else if name == "church organ"@ {
        19u8
    } else if name == "reed organ"@ {
        20u8
    } else if name == "accordion"@ {
        21u8
    } else if name == "harmonica"@ {
        22u8
    } else if name == "tango accordion"@ {
        23u8
    } else if name == "acoustic guitar (nylon)"@ {
        24u8
    } else if name == "nylon guitar"@ {
        24u8
    } else if name == "acoustic guitar (steel)"@ {
        25u8
    } else if name == "steel guitar"@ {
        25u8
    } else if name == "electric guitar (jazz)"@ {
        26u8
    } else if name == "electric guitar (clean)"@ {
        27u8
    } else if name == "electric guitar (muted)"@ {
        28u8
    } else if name == "overdriven guitar"@ {
        29u8
    } else if name == "distorted guitar"@ {
        30u8
    } else if name == "guitar harmonics"@ {
        31u8
    } else if name == "acoustic bass"@ {
        32u8
    } else if name == "electric bass (finger)"@ {
        33u8
    } else if name == "electric bass (pick)"@ {
        34u8
    } else if name == "fretless bass"@ {
        35u8
    } else if name == "slap bass 1"@ {
        36u8
    } else if name == "slap bass 2"@ {
        37u8
    } else if name == "synth bass 1"@ {
        38u8
    } else if name == "synth bass 2"@ {
        39u8
    } else if name == "violin"@ {
        40u8
    } else if name == "viola"@ {
        41u8
    } else if name == "cello"@ {
        42u8
    } else if name == "contrabass"@ {
        43u8
    } else if name == "tremolo strings"@ {
        44u8
    } else if name == "pizzicato strings"@ {
        45u8
    } else if name == "orchestral harp"@ {
        46u8
    } else if name == "harp"@ {
        46u8
    } else if name == "timpani"@ {
        47u8
    } else if name == "string ensemble 1"@ {
        48u8
    } else if name == "string ensemble 2"@ {
        49u8
    } else if name == "synth strings 1"@ {
        50u8
    } else if name == "synth strings 2"@ {
        51u8
    } else if name == "choir aahs"@ {
        52u8
    } else if name == "voice oohs"@ {
        53u8
    } else if name == "synth voice"@ {
        54u8
    } else if name == "orchestra hit"@ {
        55u8
    } else if name == "trumpet"@ {
        56u8
    } else if name == "trombone"@ {
        57u8
    } else if name == "tuba"@ {
        58u8
    } else if name == "muted trumpet"@ {
        59u8
    } else if name == "french horn"@ {
        60u8
    } else if name == "brass section"@ {
        61u8
    } else if name == "synth brass 1"@ {
        62u8
    } else if name == "synth brass 2"@ {
        63u8
    } else if name == "soprano sax"@ {
        64u8
    } else if name == "alto sax"@ {
        65u8
    } else if name == "tenor sax"@ {
        66u8
    } else if name == "baritone sax"@ {
        67u8
    } else if name == "oboe"@ {
        68u8
    } else if name == "english horn"@ {
        69u8
    } else if name == "bassoon"@ {
        70u8
    } else if name == "clarinet"@ {
        71u8
    } else if name == "piccolo"@ {
        72u8
    } else if name == "flute"@ {
        73u8
    } else if name == "recorder"@ {
        74u8
    } else if name == "pan flute"@ {
        75u8
    } else if name == "blown bottle"@ {
        76u8
    } else if name == "shakuhachi"@ {
        77u8
    } else if name == "whistle"@ {
        78u8
    } else if name == "ocarina"@ {
        79u8
    } else if name == "lead 1 (square)"@ {
        80u8
    } else if name == "lead 2 (sawtooth)"@ {
        81u8
    } else {
        0u8
    }
}

/// Map instrument name to General MIDI program number.
fn midi_program(name: &str) -> (r: u8)
    ensures
        r == program_of(lowercase(name@)),
{
    let lower = to_lowercase(name);
    program_of_lowercase(lower.as_str())
}

/// The General MIDI program of an instrument name already in lower case
/// (0, acoustic grand piano, for an unknown one).
pub fn program_of_lowercase(lower: &str) -> (r: u8)
    ensures
        r == program_of(lower@),
{
    let lv = chars_of(lower);
    let l = lv.as_slice();
    if chars_eq_str(l, "acoustic grand") {
        0
    } else if chars_eq_str(l, "piano") {
        0
    } else if chars_eq_str(l, "bright acoustic") {
        1
    } else if chars_eq_str(l, "electric grand") {
        2
    } else if chars_eq_str(l, "honky-tonk") {
        3
    } else if chars_eq_str(l, "electric piano 1") {
        4
    } else if chars_eq_str(l, "electric piano 2") {
        5
    } else if chars_eq_str(l, "harpsichord") {
        6
    } else if chars_eq_str(l, "clavinet") {
        7
    } else if chars_eq_str(l, "celesta") {
        8
    } else if chars_eq_str(l, "glockenspiel") {
        9
    } else if chars_eq_str(l, "music box") {
        10
    } else if chars_eq_str(l, "vibraphone") {
        11
    } else if chars_eq_str(l, "marimba") {
        12
    } else if chars_eq_str(l, "xylophone") {
        13
    } else if chars_eq_str(l, "tubular bells") {
        14
    } else if chars_eq_str(l, "dulcimer") {
        15
    } else if chars_eq_str(l, "drawbar organ") {
        16
    } else if chars_eq_str(l, "percussive organ") {
        17
    } else if chars_eq_str(l, "rock organ") {
        18
    } else if chars_eq_str(l, "church organ") {
        19
    } else if chars_eq_str(l, "reed organ") {
        20
    } else if chars_eq_str(l, "accordion") {
        21
    } else if chars_eq_str(l, "harmonica") {
        22
    } else if chars_eq_str(l, "tango accordion") {
        23
    } else if chars_eq_str(l, "acoustic guitar (nylon)") {
        24
    } else if chars_eq_str(l, "nylon guitar") {
        24
    } else if chars_eq_str(l, "acoustic guitar (steel)") {
        25
    } else if chars_eq_str(l, "steel guitar") {
        25
    } else if chars_eq_str(l, "electric guitar (jazz)") {
        26
    } else if chars_eq_str(l, "electric guitar (clean)") {
        27
    } else if chars_eq_str(l, "electric guitar (muted)") {
        28
    } else if chars_eq_str(l, "overdriven guitar") {
        29
    } else if chars_eq_str(l, "distorted guitar") {
        30
    } else if chars_eq_str(l, "guitar harmonics") {
        31
    } else if chars_eq_str(l, "acoustic bass") {
        32
    } else if chars_eq_str(l, "electric bass (finger)") {
        33
    } else if chars_eq_str(l, "electric bass (pick)") {
        34
    } else if chars_eq_str(l, "fretless bass") {
        35
    } else if chars_eq_str(l, "slap bass 1") {
        36
    } else if chars_eq_str(l, "slap bass 2") {
        37
    } else if chars_eq_str(l, "synth bass 1") {
        38
    } else if chars_eq_str(l, "synth bass 2") {
        39
    } else if chars_eq_str(l, "violin") {
        40
    } else if chars_eq_str(l, "viola") {
        41
    } else if chars_eq_str(l, "cello") {
        42
    } else if chars_eq_str(l, "contrabass") {
        43
    } else if chars_eq_str(l, "tremolo strings") {
        44
    } else if chars_eq_str(l, "pizzicato strings") {
        45
    } else if chars_eq_str(l, "orchestral harp") {
        46
    } else if chars_eq_str(l, "harp") {
        46
    } else if chars_eq_str(l, "timpani") {
        47
    } else if chars_eq_str(l, "string ensemble 1") {
        48
    } else if chars_eq_str(l, "string ensemble 2") {
        49
    } else if chars_eq_str(l, "synth strings 1") {
        50
    } else if chars_eq_str(l, "synth strings 2") {
        51
    } else if chars_eq_str(l, "choir aahs") {
        52
    } else if chars_eq_str(l, "voice oohs") {
        53
    } else if chars_eq_str(l, "synth voice") {
        54
    } else if chars_eq_str(l, "orchestra hit") {
        55
    } else if chars_eq_str(l, "trumpet") {
        56
    } else if chars_eq_str(l, "trombone") {
        57
    } else if chars_eq_str(l, "tuba") {
        58
    } else if chars_eq_str(l, "muted trumpet") {
        59
    } else if chars_eq_str(l, "french horn") {
        60
    } else if chars_eq_str(l, "brass section") {
        61
    } else if chars_eq_str(l, "synth brass 1") {
        62
    } else if chars_eq_str(l, "synth brass 2") {
        63
    } else if chars_eq_str(l, "soprano sax") {
        64
    } else if chars_eq_str(l, "alto sax") {
        65
    } else if chars_eq_str(l, "tenor sax") {
        66
    } else if chars_eq_str(l, "baritone sax") {
        67
    } else if chars_eq_str(l, "oboe") {
        68
    } else if chars_eq_str(l, "english horn") {
        69
    } else if chars_eq_str(l, "bassoon") {
        70
    } else if chars_eq_str(l, "clarinet") {
        71
    } else if chars_eq_str(l, "piccolo") {
        72
    } else if chars_eq_str(l, "flute") {
        73
    } else if chars_eq_str(l, "recorder") {
        74
    } else if chars_eq_str(l, "pan flute") {
        75
    } else if chars_eq_str(l, "blown bottle") {
        76
    } else if chars_eq_str(l, "shakuhachi") {
        77
    } else if chars_eq_str(l, "whistle") {
        78
    } else if chars_eq_str(l, "ocarina") {
        79
    } else if chars_eq_str(l, "lead 1 (square)") {
        80
    } else if chars_eq_str(l, "lead 2 (sawtooth)") {
        81
    } else {
        0
    }
}

// ───────────────────────── events of a score ─────────────────────────

pub open spec fn is_lx(t: Track) -> bool {
    t.syntax@ == "lilypondx"@
}

pub open spec fn is_test(t: Track) -> bool {
    t.syntax@ == "test"@
}

/// Whether the internal parser plays a track: only `lilypondx` tracks, or
/// (`direct`, no LilyPond) every track but the expected-output blocks.
pub open spec fn plays(t: Track, direct: bool) -> bool {
    if direct {
        !is_test(t)
    } else {
        is_lx(t)
    }
}

pub open spec fn is_lp(t: Track) -> bool {
    t.syntax@ == "lilypond"@
}

/// The tracks the internal parser plays, in order.
pub open spec fn played_tracks(ts: Seq<Track>, direct: bool) -> Seq<Track>
    decreases ts.len(),
{
    if ts.len() == 0 {
        seq![]
    } else {
        played_tracks(ts.drop_last(), direct) + if plays(ts.last(), direct) {
            seq![ts.last()]
        } else {
            seq![]
        }
    }
}

/// Whether a track is compiled by LilyPond.
pub open spec fn has_lp(ts: Seq<Track>) -> bool {
    exists|i: int| 0 <= i < ts.len() && is_lp(#[trigger] ts[i])
}

/// A pitch moved by `tr` semitones, kept inside MIDI's `0..=127`.
pub open spec fn transpose_pitch(p: u8, tr: int) -> u8 {
    let q = p + tr;
    if q < 0 {
        0
    } else if q > 127 {
        127
    } else {
        q as u8
    }
}

/// Where a note stops sounding: at its end, or halfway for staccato.
pub open spec fn off_tick(n: NoteView) -> nat {
    let d: nat = if n.staccato {
        (n.duration / 2) as nat
    } else {
        n.duration as nat
    };
    (n.start_tick + d) as nat
}

/// Note-on (velocity 80) and note-off (velocity 64) events for the first
/// `k` pitches of a note.
pub open spec fn pitch_events(n: NoteView, ch: u8, tr: int, k: int) -> Seq<MidiEvent>
    decreases k,
{
    if k <= 0 {
        seq![]
    } else {
        let p = transpose_pitch(n.pitches[k - 1], tr);
        pitch_events(n, ch, tr, k - 1) + seq![
            MidiEvent { tick: n.start_tick, channel: ch, command: 0x90, data1: p, data2: 80 },
            MidiEvent { tick: off_tick(n) as u64, channel: ch, command: 0x80, data1: p, data2: 64 },
        ]
    }
}

pub open spec fn notes_events(ns: Seq<NoteView>, ch: u8, tr: int) -> Seq<MidiEvent>
    decreases ns.len(),
{
    if ns.len() == 0 {
        seq![]
    } else {
        notes_events(ns.drop_last(), ch, tr) + pitch_events(
            ns.last(),
            ch,
            tr,
            ns.last().pitches.len() as int,
        )
    }
}

/// Program change, then the notes.
pub open spec fn track_events(t: ParsedTrackView, ch: u8, program: u8, tr: int) -> Seq<MidiEvent> {
    seq![MidiEvent { tick: 0, channel: ch, command: 0xC0, data1: program, data2: 0 }] + notes_events(
        t.notes,
        ch,
        tr,
    )
}

pub open spec fn instrument_program(t: Track) -> u8 {
    program_of(
        lowercase(
            match t.midi_instrument {
                Some(s) => s@,
                None => "acoustic grand"@,
            },
        ),
    )
}

pub open spec fn parse_track(t: Track, tpb: u32) -> Option<ParsedTrackView> {
    parse_relative(t.notes@, t.relative@, tpb)
}

/// A track the internal parser can play: its notes parse and no note ends
/// past the last tick.
pub open spec fn playable(t: Track, tpb: u32) -> bool {
    match parse_track(t, tpb) {
        Some(p) => forall|i: int| 0 <= i < p.notes.len() ==> #[trigger] p.notes[i].start_tick + p.notes[i].duration <= u64::MAX,
        None => false,
    }
}

/// Events of the internal parser's tracks; track `i` plays on channel `i`
/// (modulo 256).
pub open spec fn lx_events(lx: Seq<Track>, tpb: u32, tr: int) -> Seq<MidiEvent>
    decreases lx.len(),
{
    if lx.len() == 0 {
        seq![]
    } else {
        lx_events(lx.drop_last(), tpb, tr) + track_events(
            parse_track(lx.last(), tpb)->0,
            ((lx.len() - 1) % 256) as u8,
            instrument_program(lx.last()),
            tr,
        )
    }
}

/// LilyPond's events moved past the internal parser's channels.
pub open spec fn offset_events(es: Seq<MidiEvent>, off: int) -> Seq<MidiEvent> {
    es.map_values(|e: MidiEvent| MidiEvent { channel: (e.channel + off) as u8, ..e })
}

/// Tempo of a `tempo` field such as `4 = 70`: the number after the first
/// `=`; 120 without one.
pub open spec fn metadata_bpm(tempo: Option<Seq<char>>) -> u32 {
    match tempo {
        Some(t) => match second_piece(t, '=') {
            Some(s) => match parse_u32(trim(s)) {
                Some(b) => b,
                None => 120,
            },
            None => 120,
        },
        None => 120,
    }
}

pub open spec fn opt_chars(o: Option<String>) -> Option<Seq<char>> {
    match o {
        Some(s) => Some(s@),
        None => None,
    }
}

/// Stable insertion of `e` by tick: after every event not later than it.
pub open spec fn insert_by_tick(sorted: Seq<MidiEvent>, e: MidiEvent) -> Seq<MidiEvent>
    decreases sorted.len(),
{
    if sorted.len() == 0 {
        seq![e]
    } else if sorted.last().tick <= e.tick {
        sorted.push(e)
    } else {
        insert_by_tick(sorted.drop_last(), e).push(sorted.last())
    }
}

/// Stable sort by tick (`sort_by_key` on the tick).
pub open spec fn sort_by_tick(s: Seq<MidiEvent>) -> Seq<MidiEvent>
    decreases s.len(),
{
    if s.len() == 0 {
        seq![]
    } else {
        insert_by_tick(sort_by_tick(s.drop_last()), s.last())
    }
}

pub open spec fn tick_sorted(s: Seq<MidiEvent>) -> bool {
    forall|i: int, j: int| 0 <= i <= j < s.len() ==> s[i].tick <= s[j].tick
}

/// What `generate_events` gives, before sorting: the internal parser's
/// tracks, then LilyPond's events when the score has LilyPond tracks.
pub open spec fn score_events(score: Score, tpb: u32, lilypond: Option<(Seq<MidiEvent>, u32)>) -> Seq<MidiEvent> {
    let lx = played_tracks(score.tracks@, false);
    let tr = match score.metadata.transpose {
        Some(t) => t as int,
        None => 0,
    };
    let own = lx_events(lx, tpb, tr);
    match lilypond {
        Some((es, _)) => if has_lp(score.tracks@) {
            own + offset_events(es, lx.len() as int % 256)
        } else {
            own
        },
        None => own,
    }
}

/// The tempo `generate_events` gives.
pub open spec fn score_bpm(score: Score, lilypond: Option<(Seq<MidiEvent>, u32)>) -> u32 {
    match lilypond {
        Some((_, bpm)) => if has_lp(score.tracks@) {
            bpm
        } else {
            metadata_bpm(opt_chars(score.metadata.tempo))
        },
        None => metadata_bpm(opt_chars(score.metadata.tempo)),
    }
}

/// What `generate_events` requires: every internal track plays, LilyPond's
/// output is there when the score has LilyPond tracks, and moving its
/// channels does not overflow.
pub open spec fn events_ok(score: Score, tpb: u32, lilypond: Option<(Seq<MidiEvent>, u32)>) -> bool {
    let lx = played_tracks(score.tracks@, false);
    &&& all_playable(score.tracks@, tpb, false)
    &&& has_lp(score.tracks@) ==> match lilypond {
        Some((es, _)) => channels_fit(es, lx.len() as int % 256),
        None => false,
    }
}

/// Moving every event's channel up by `off` stays within `u8`.
pub open spec fn channels_fit(es: Seq<MidiEvent>, off: int) -> bool {
    forall|i: int| 0 <= i < es.len() ==> #[trigger] es[i].channel + off <= 255
}

/// Every track the internal parser plays is playable.
pub open spec fn all_playable(ts: Seq<Track>, tpb: u32, direct: bool) -> bool {
    forall|i: int| 0 <= i < ts.len() && plays(ts[i], direct) ==> playable(#[trigger] ts[i], tpb)
}

/// What `generate_events_direct` gives, before sorting.
pub open spec fn direct_events(score: Score, tpb: u32) -> Seq<MidiEvent> {
    let tr = match score.metadata.transpose {
        Some(t) => t as int,
        None => 0,
    };
    lx_events(played_tracks(score.tracks@, true), tpb, tr)
}

pub open spec fn lilypond_view(l: Option<(Vec<MidiEvent>, u32)>) -> Option<(Seq<MidiEvent>, u32)> {
    match l {
        Some((es, b)) => Some((es@, b)),
        None => None,
    }
}

// ───────────────────────── executable ─────────────────────────

/// Tempo of a frontmatter `tempo` field: the number after the first `=`,
/// else 120.
pub fn tempo_of_metadata(tempo: &Option<String>) -> (r: u32)
    ensures
        r == metadata_bpm(opt_chars(*tempo)),
{
    match tempo {
        None => 120,
        Some(t) => {
            let tv = chars_of(t.as_str());
            match second_piece_chars(tv.as_slice(), '=') {
                None => 120,
                Some(p) => {
                    let q = trim_chars(p.as_slice());
                    match parse_u32_chars(q.as_slice()) {
                        Some(b) => b,
                        None => 120,
                    }
                },
            }
        },
    }
}

fn transpose_exec(p: u8, tr: i32) -> (r: u8)
    ensures
        r == transpose_pitch(p, tr as int),
{
    let q: i64 = p as i64 + tr as i64;
    if q < 0 {
        0
    } else if q > 127 {
        127
    } else {
        q as u8
    }
}

fn push_note_events(out: &mut Vec<MidiEvent>, n: &Note, ch: u8, tr: i32)
    requires
        n.start_tick + n.duration <= u64::MAX,
    ensures
        final(out)@ == old(out)@ + pitch_events(n@, ch, tr as int, n.pitches@.len() as int),
{
    let start = n.start_tick;
    let off: u64 = if n.staccato {
        start + (n.duration as u64 / 2)
    } else {
        start + n.duration as u64
    };
    assert(off == off_tick(n@));
    let ghost o = old(out)@;
    let mut k: usize = 0;
    while k < n.pitches.len()
        invariant
            k <= n.pitches@.len(),
            off == off_tick(n@),
            start == n.start_tick,
            out@ == o + pitch_events(n@, ch, tr as int, k as int),
        decreases n.pitches@.len() - k,
    {
        let tp = transpose_exec(n.pitches[k], tr);
        out.push(MidiEvent { tick: start, channel: ch, command: 0x90, data1: tp, data2: 80 });
        out.push(MidiEvent { tick: off, channel: ch, command: 0x80, data1: tp, data2: 64 });
        assert(out@ == o + pitch_events(n@, ch, tr as int, k + 1));
        k = k + 1;
    }
}

fn push_track_events(out: &mut Vec<MidiEvent>, parsed: &ParsedTrack, ch: u8, program: u8, tr: i32)
    requires
        forall|i: int| 0 <= i < parsed@.notes.len() ==> #[trigger] parsed@.notes[i].start_tick
            + parsed@.notes[i].duration <= u64::MAX,
    ensures
        final(out)@ == old(out)@ + track_events(parsed@, ch, program, tr as int),
{
    let ghost o = old(out)@;
    out.push(MidiEvent { tick: 0, channel: ch, command: 0xC0, data1: program, data2: 0 });
    let ghost o1 = out@;
    let ghost ns = parsed@.notes;
    let mut i: usize = 0;
    while i < parsed.notes.len()
        invariant
            ns == parsed@.notes,
            i <= parsed.notes@.len(),
            forall|k: int| 0 <= k < ns.len() ==> #[trigger] ns[k].start_tick + ns[k].duration <= u64::MAX,
            out@ == o1 + notes_events(ns.take(i as int), ch, tr as int),
        decreases parsed.notes@.len() - i,
    {
        let n = &parsed.notes[i];
        assert(ns[i as int] == n@);
        assert(ns[i as int].start_tick + ns[i as int].duration <= u64::MAX);
        push_note_events(out, n, ch, tr);
        assert(ns.take(i + 1).drop_last() == ns.take(i as int));
        i = i + 1;
    }
    assert(ns.take(ns.len() as int) == ns);
}

/// Whether the score has tracks for the LilyPond compiler.
pub fn has_lilypond_tracks(score: &Score) -> (r: bool)
    ensures
        r == has_lp(score.tracks@),
{
    let mut i: usize = 0;
    while i < score.tracks.len()
        invariant
            i <= score.tracks@.len(),
            forall|k: int| 0 <= k < i ==> !is_lp(#[trigger] score.tracks@[k]),
        decreases score.tracks@.len() - i,
    {
        if chars_eq_str(chars_of(score.tracks[i].syntax.as_str()).as_slice(), "lilypond") {
            return true;
        }
        i = i + 1;
    }
    false
}

fn plays_exec(t: &Track, direct: bool) -> (r: bool)
    ensures
        r == plays(*t, direct),
{
    let sv = chars_of(t.syntax.as_str());
    if direct {
        !chars_eq_str(sv.as_slice(), "test")
    } else {
        chars_eq_str(sv.as_slice(), "lilypondx")
    }
}

/// Events of the tracks the internal parser plays; returns how many tracks
/// it played.
fn played_events(out: &mut Vec<MidiEvent>, score: &Score, tpb: u32, direct: bool) -> (count: usize)
    requires
        all_playable(score.tracks@, tpb, direct),
    ensures
        final(out)@ == old(out)@ + lx_events(
            played_tracks(score.tracks@, direct),
            tpb,
            match score.metadata.transpose {
                Some(t) => t as int,
                None => 0,
            },
        ),
        count == played_tracks(score.tracks@, direct).len(),
{
    let tr: i32 = match score.metadata.transpose {
        Some(t) => t,
        None => 0,
    };
    let ghost ts = score.tracks@;
    let ghost o = old(out)@;
    let mut count: usize = 0;
    let mut i: usize = 0;
    while i < score.tracks.len()
        invariant
            ts == score.tracks@,
            all_playable(ts, tpb, direct),
            i <= ts.len(),
            count <= i,
            count == played_tracks(ts.take(i as int), direct).len(),
            out@ == o + lx_events(played_tracks(ts.take(i as int), direct), tpb, tr as int),
        decreases ts.len() - i,
    {
        let t = &score.tracks[i];
        proof {
            assert(ts.take(i + 1).drop_last() == ts.take(i as int));
            assert(ts.take(i + 1).last() == ts[i as int]);
        }
        if plays_exec(t, direct) {
            assert(playable(ts[i as int], tpb));
            let parsed = match try_parse_notes_relative(t.notes.as_str(), t.relative.as_str(), tpb) {
                Some(p) => p,
                None => {
                    assert(false);
                    return count;
                },
            };
            let program = match &t.midi_instrument {
                Some(name) => midi_program(name.as_str()),
                None => midi_program("acoustic grand"),
            };
            let ch: u8 = (count % 256) as u8;
            let ghost pt = played_tracks(ts.take(i as int), direct);
            assert(played_tracks(ts.take(i + 1), direct) == pt.push(*t));
            assert(pt.push(*t).drop_last() == pt);
            assert(parse_track(ts[i as int], tpb) == Some(parsed@));
            assert forall|k: int| 0 <= k < parsed@.notes.len() implies #[trigger] parsed@.notes[k].start_tick
                + parsed@.notes[k].duration <= u64::MAX by {
                let p = parse_track(ts[i as int], tpb)->0;
                assert(p.notes[k].start_tick + p.notes[k].duration <= u64::MAX);
            }
            push_track_events(out, &parsed, ch, program, tr);
            count = count + 1;
        } else {
            assert(played_tracks(ts.take(i + 1), direct) =~= played_tracks(ts.take(i as int), direct));
        }
        i = i + 1;
    }
    assert(ts.take(ts.len() as int) == ts);
    count
}

/// Whether every track the internal parser plays parses, with no note
/// ending past the last tick.
pub fn tracks_playable(score: &Score, tpb: u32, direct: bool) -> (r: bool)
    ensures
        r == all_playable(score.tracks@, tpb, direct),
{
    let ghost ts = score.tracks@;
    let mut i: usize = 0;
    while i < score.tracks.len()
        invariant
            ts == score.tracks@,
            i <= ts.len(),
            forall|k: int| 0 <= k < i && plays(ts[k], direct) ==> playable(#[trigger] ts[k], tpb),
        decreases ts.len() - i,
    {
        let t = &score.tracks[i];
        if plays_exec(t, direct) {
            match try_parse_notes_relative(t.notes.as_str(), t.relative.as_str(), tpb) {
                None => {
                    assert(!playable(ts[i as int], tpb));
                    assert(!all_playable(ts, tpb, direct));
                    return false;
                },
                Some(p) => {
                    assert(parse_track(ts[i as int], tpb) == Some(p@));
                    let mut j: usize = 0;
                    while j < p.notes.len()
                        invariant
                            ts == score.tracks@,
                            i < ts.len(),
                            parse_track(ts[i as int], tpb) == Some(p@),
                            plays(ts[i as int], direct),
                            j <= p@.notes.len(),
                            forall|k: int| 0 <= k < j ==> #[trigger] p@.notes[k].start_tick + p@.notes[k].duration <= u64::MAX,
                        decreases p@.notes.len() - j,
                    {
                        assert(p@.notes[j as int] == p.notes@[j as int]@);
                        if p.notes[j].start_tick > u64::MAX - p.notes[j].duration as u64 {
                            let ghost q = parse_track(ts[i as int], tpb)->0;
                            assert(q.notes[j as int].start_tick + q.notes[j as int].duration > u64::MAX);
                            assert(!playable(ts[i as int], tpb));
                            assert(!all_playable(ts, tpb, direct));
                            return false;
                        }
                        j = j + 1;
                    }
                    assert(playable(ts[i as int], tpb));
                },
            }
        }
        i = i + 1;
    }
    true
}

/// Whether `generate_events` accepts a score with LilyPond's output: every
/// internal track plays, LilyPond's events are there when the score has
/// LilyPond tracks, and their channels can be moved past the internal ones.
pub fn events_playable(score: &Score, tpb: u32, lilypond_midi: &Option<(Vec<MidiEvent>, u32)>) -> (r: bool)
    ensures
        r == events_ok(*score, tpb, lilypond_view(*lilypond_midi)),
{
    if !tracks_playable(score, tpb, false) {
        return false;
    }
    if !has_lilypond_tracks(score) {
        return true;
    }
    let mut count: usize = 0;
    let mut i: usize = 0;
    let ghost ts = score.tracks@;
    while i < score.tracks.len()
        invariant
            ts == score.tracks@,
            i <= ts.len(),
            count <= i,
            count == played_tracks(ts.take(i as int), false).len(),
        decreases ts.len() - i,
    {
        proof {
            assert(ts.take(i + 1).drop_last() == ts.take(i as int));
            assert(ts.take(i + 1).last() == ts[i as int]);
        }
        if plays_exec(&score.tracks[i], false) {
            count = count + 1;
        }
        i = i + 1;
    }
    assert(ts.take(ts.len() as int) == ts);
    let off: u8 = (count % 256) as u8;
    match lilypond_midi {
        None => false,
        Some((es, b)) => {
            assert(lilypond_view(*lilypond_midi) == Some((es@, *b)));
            let mut k: usize = 0;
            while k < es.len()
                invariant
                    k <= es@.len(),
                    off as int == played_tracks(score.tracks@, false).len() as int % 256,
                    has_lp(score.tracks@),
                    all_playable(score.tracks@, tpb, false),
                    lilypond_view(*lilypond_midi) == Some((es@, *b)),
                    forall|j: int| 0 <= j < k ==> #[trigger] es@[j].channel + off <= 255,
                decreases es@.len() - k,
            {
                if es[k].channel > 255 - off {
                    assert(!channels_fit(es@, off as int));
                    return false;
                }
                k = k + 1;
            }
            assert(channels_fit(es@, off as int));
            true
        },
    }
}

/// Where `insert_by_tick` puts `e`.
pub open spec fn tick_insert_pos(sorted: Seq<MidiEvent>, e: MidiEvent) -> int
    decreases sorted.len(),
{
    if sorted.len() == 0 {
        0
    } else if sorted.last().tick <= e.tick {
        sorted.len() as int
    } else {
        tick_insert_pos(sorted.drop_last(), e)
    }
}

proof fn lemma_insert_by_tick(sorted: Seq<MidiEvent>, e: MidiEvent)
    ensures
        0 <= tick_insert_pos(sorted, e) <= sorted.len(),
        insert_by_tick(sorted, e) == sorted.insert(tick_insert_pos(sorted, e), e),
    decreases sorted.len(),
{
    if sorted.len() > 0 && sorted.last().tick > e.tick {
        lemma_insert_by_tick(sorted.drop_last(), e);
        let p = tick_insert_pos(sorted.drop_last(), e);
        assert(sorted.drop_last().insert(p, e).push(sorted.last()) == sorted.insert(p, e));
    } else if sorted.len() > 0 {
        assert(sorted.push(e) == sorted.insert(sorted.len() as int, e));
    }
}

/// Inserting by tick into a sorted sequence keeps it sorted.
proof fn lemma_insert_keeps_sorted(sorted: Seq<MidiEvent>, e: MidiEvent)
    requires
        tick_sorted(sorted),
    ensures
        tick_sorted(insert_by_tick(sorted, e)),
        insert_by_tick(sorted, e).len() == sorted.len() + 1,
    decreases sorted.len(),
{
    if sorted.len() > 0 && sorted.last().tick > e.tick {
        let d = sorted.drop_last();
        lemma_insert_keeps_sorted(d, e);
        let m = insert_by_tick(d, e);
        lemma_insert_by_tick(d, e);
        let p = tick_insert_pos(d, e);
        assert forall|k: int| 0 <= k < m.len() implies #[trigger] m[k].tick <= sorted.last().tick by {
            if k < p {
                assert(m[k] == d[k]);
            } else if k == p {
                assert(m[k] == e);
            } else {
                assert(m[k] == d[k - 1]);
            }
        }
    }
}

/// The stable sort by tick gives a sorted sequence.
pub proof fn lemma_sort_by_tick_sorted(s: Seq<MidiEvent>)
    ensures
        tick_sorted(sort_by_tick(s)),
        sort_by_tick(s).len() == s.len(),
    decreases s.len(),
{
    if s.len() > 0 {
        lemma_sort_by_tick_sorted(s.drop_last());
        lemma_insert_keeps_sorted(sort_by_tick(s.drop_last()), s.last());
    }
}

/// Sorting by tick keeps every event, each as often as before, and keeps
/// events of equal tick in their order (the sort is stable: an event is
/// inserted after every earlier one that is not later).
pub proof fn law_sort_keeps_events(s: Seq<MidiEvent>)
    ensures
        sort_by_tick(s).to_multiset() == s.to_multiset(),
        tick_sorted(sort_by_tick(s)),
    decreases s.len(),
{
    lemma_sort_by_tick_sorted(s);
    if s.len() > 0 {
        law_sort_keeps_events(s.drop_last());
        let sd = sort_by_tick(s.drop_last());
        lemma_insert_by_tick(sd, s.last());
        vstd::seq_lib::to_multiset_insert(sd, tick_insert_pos(sd, s.last()), s.last());
        vstd::seq_lib::to_multiset_build(s.drop_last(), s.last());
        assert(s.drop_last().push(s.last()) == s);
    } else {
        assert(sort_by_tick(s) =~= s);
    }
}

/// The expected-output blocks (`lilypond-test`) are never played: neither
/// with LilyPond nor by the internal parser alone; with LilyPond, the
/// internal parser plays exactly the `lilypondx` tracks.
pub proof fn law_test_blocks_not_played(ts: Seq<Track>, direct: bool)
    ensures
        forall|i: int| 0 <= i < played_tracks(ts, direct).len() ==> !is_test(#[trigger] played_tracks(ts, direct)[i]),
        !direct ==> forall|i: int| 0 <= i < played_tracks(ts, direct).len() ==> is_lx(#[trigger] played_tracks(ts, direct)[i]),
    decreases ts.len(),
{
    reveal_strlit("test");
    reveal_strlit("lilypondx");
    if ts.len() > 0 {
        law_test_blocks_not_played(ts.drop_last(), direct);
        let p0 = played_tracks(ts.drop_last(), direct);
        let p = played_tracks(ts, direct);
        assert forall|i: int| 0 <= i < p.len() implies !is_test(#[trigger] p[i]) && (!direct ==> is_lx(p[i])) by {
            if i < p0.len() {
                assert(p[i] == p0[i]);
            } else {
                assert(plays(ts.last(), direct));
                assert(p[i] == ts.last());
                if !direct {
                    assert(ts.last().syntax@ == "lilypondx"@);
                    assert("lilypondx"@ != "test"@) by {
                        assert("lilypondx"@.len() != "test"@.len());
                    }
                }
            }
        }
    }
}

proof fn lemma_test_not_lx_lp()
    ensures
        "test"@ != "lilypondx"@,
        "test"@ != "lilypond"@,
{
    reveal_strlit("test");
    reveal_strlit("lilypondx");
    reveal_strlit("lilypond");
    assert("test"@.len() != "lilypondx"@.len());
    assert("test"@.len() != "lilypond"@.len());
}

/// The played tracks are those of the tracks apart from test blocks.
proof fn lemma_played_active(ts: Seq<Track>, direct: bool)
    ensures
        played_tracks(active_tracks(ts), direct) == played_tracks(ts, direct),
    decreases ts.len(),
{
    lemma_test_not_lx_lp();
    if ts.len() > 0 {
        lemma_played_active(ts.drop_last(), direct);
        let a0 = active_tracks(ts.drop_last());
        if ts.last().syntax@ != "test"@ {
            assert(active_tracks(ts).drop_last() == a0);
        }
    }
}

proof fn lemma_has_lp_last(ts: Seq<Track>)
    requires
        ts.len() > 0,
    ensures
        has_lp(ts) <==> (has_lp(ts.drop_last()) || is_lp(ts.last())),
{
    let d = ts.drop_last();
    if has_lp(ts) {
        let i = choose|i: int| 0 <= i < ts.len() && is_lp(#[trigger] ts[i]);
        if i < d.len() {
            assert(is_lp(d[i]));
        }
    }
    if has_lp(d) {
        let i = choose|i: int| 0 <= i < d.len() && is_lp(#[trigger] d[i]);
        assert(is_lp(ts[i]));
    }
    if is_lp(ts.last()) {
        assert(is_lp(ts[ts.len() - 1]));
    }
}

proof fn lemma_has_lp_active(ts: Seq<Track>)
    ensures
        has_lp(active_tracks(ts)) == has_lp(ts),
    decreases ts.len(),
{
    lemma_test_not_lx_lp();
    if ts.len() > 0 {
        lemma_has_lp_active(ts.drop_last());
        lemma_has_lp_last(ts);
        let a = active_tracks(ts);
        if ts.last().syntax@ != "test"@ {
            assert(a.drop_last() == active_tracks(ts.drop_last()));
            lemma_has_lp_last(a);
        }
    } else {
        assert(active_tracks(ts) == ts);
    }
}

proof fn lemma_all_playable_last(ts: Seq<Track>, tpb: u32, direct: bool)
    requires
        ts.len() > 0,
    ensures
        all_playable(ts, tpb, direct) <==> (all_playable(ts.drop_last(), tpb, direct) && (plays(
            ts.last(),
            direct,
        ) ==> playable(ts.last(), tpb))),
{
    let d = ts.drop_last();
    if all_playable(ts, tpb, direct) {
        assert forall|i: int| 0 <= i < d.len() && plays(d[i], direct) implies playable(#[trigger] d[i], tpb) by {
            assert(d[i] == ts[i]);
        }
        assert(ts[ts.len() - 1] == ts.last());
    }
    if all_playable(d, tpb, direct) && (plays(ts.last(), direct) ==> playable(ts.last(), tpb)) {
        assert forall|i: int| 0 <= i < ts.len() && plays(ts[i], direct) implies playable(#[trigger] ts[i], tpb) by {
            if i < d.len() {
                assert(ts[i] == d[i]);
            }
        }
    }
}

proof fn lemma_all_playable_active(ts: Seq<Track>, tpb: u32, direct: bool)
    ensures
        all_playable(active_tracks(ts), tpb, direct) == all_playable(ts, tpb, direct),
    decreases ts.len(),
{
    lemma_test_not_lx_lp();
    if ts.len() > 0 {
        lemma_all_playable_active(ts.drop_last(), tpb, direct);
        lemma_all_playable_last(ts, tpb, direct);
        let a = active_tracks(ts);
        if ts.last().syntax@ != "test"@ {
            assert(a.drop_last() == active_tracks(ts.drop_last()));
            lemma_all_playable_last(a, tpb, direct);
        } else {
            assert(!plays(ts.last(), direct));
        }
    } else {
        assert(active_tracks(ts) == ts);
    }
}

/// Expected-output blocks (`lilypond-test`) take no part in playback: two
/// scores with the same frontmatter and the same tracks apart from test
/// blocks give the same events, tempo and channels, and are playable alike.
pub proof fn law_test_blocks_change_no_events(
    s1: Score,
    s2: Score,
    tpb: u32,
    lilypond: Option<(Seq<MidiEvent>, u32)>,
)
    requires
        s1.metadata == s2.metadata,
        active_tracks(s1.tracks@) == active_tracks(s2.tracks@),
    ensures
        score_events(s1, tpb, lilypond) == score_events(s2, tpb, lilypond),
        score_bpm(s1, lilypond) == score_bpm(s2, lilypond),
        events_ok(s1, tpb, lilypond) == events_ok(s2, tpb, lilypond),
        events_result(s1, tpb, lilypond) == events_result(s2, tpb, lilypond),
        direct_events(s1, tpb) == direct_events(s2, tpb),
{
    let t1 = s1.tracks@;
    let t2 = s2.tracks@;
    lemma_played_active(t1, false);
    lemma_played_active(t2, false);
    lemma_played_active(t1, true);
    lemma_played_active(t2, true);
    lemma_has_lp_active(t1);
    lemma_has_lp_active(t2);
    lemma_all_playable_active(t1, tpb, false);
    lemma_all_playable_active(t2, tpb, false);
}

/// Every note-on is released: some note-off on the same channel names the
/// same key.
pub open spec fn note_ons_released(es: Seq<MidiEvent>) -> bool {
    forall|i: int|
        0 <= i < es.len() && (#[trigger] es[i]).command == 0x90 ==> exists|j: int|
            0 <= j < es.len() && (#[trigger] es[j]).command == 0x80 && es[j].channel == es[i].channel
                && es[j].data1 == es[i].data1
}

proof fn lemma_released_concat(a: Seq<MidiEvent>, b: Seq<MidiEvent>)
    requires
        note_ons_released(a),
        note_ons_released(b),
    ensures
        note_ons_released(a + b),
{
    let s = a + b;
    assert forall|i: int| 0 <= i < s.len() && (#[trigger] s[i]).command == 0x90 implies exists|j: int|
        0 <= j < s.len() && (#[trigger] s[j]).command == 0x80 && s[j].channel == s[i].channel && s[j].data1
            == s[i].data1 by {
        if i < a.len() {
            assert(a[i] == s[i]);
            let j = choose|j: int|
                0 <= j < a.len() && (#[trigger] a[j]).command == 0x80 && a[j].channel == a[i].channel
                    && a[j].data1 == a[i].data1;
            assert(s[j] == a[j]);
        } else {
            let ib = i - a.len();
            assert(b[ib] == s[i]);
            let j = choose|j: int|
                0 <= j < b.len() && (#[trigger] b[j]).command == 0x80 && b[j].channel == b[ib].channel
                    && b[j].data1 == b[ib].data1;
            assert(s[a.len() + j] == b[j]);
        }
    }
}

proof fn lemma_pitch_events_released(n: NoteView, ch: u8, tr: int, k: int)
    ensures
        note_ons_released(pitch_events(n, ch, tr, k)),
    decreases k,
{
    if k > 0 {
        lemma_pitch_events_released(n, ch, tr, k - 1);
        let key = transpose_pitch(n.pitches[k - 1], tr);
        let release = off_tick(n) as u64;
        let pair = seq![
            MidiEvent { tick: n.start_tick, channel: ch, command: 0x90, data1: key, data2: 80 },
            MidiEvent { tick: release, channel: ch, command: 0x80, data1: key, data2: 64 },
        ];
        assert forall|i: int| 0 <= i < pair.len() && (#[trigger] pair[i]).command == 0x90 implies exists|j: int|
            0 <= j < pair.len() && (#[trigger] pair[j]).command == 0x80 && pair[j].channel == pair[i].channel
                && pair[j].data1 == pair[i].data1 by {
            assert(pair[1].command == 0x80);
        }
        lemma_released_concat(pitch_events(n, ch, tr, k - 1), pair);
    } else {
        assert(pitch_events(n, ch, tr, k) == Seq::<MidiEvent>::empty());
    }
}

proof fn lemma_notes_events_released(ns: Seq<NoteView>, ch: u8, tr: int)
    ensures
        note_ons_released(notes_events(ns, ch, tr)),
    decreases ns.len(),
{
    if ns.len() > 0 {
        lemma_notes_events_released(ns.drop_last(), ch, tr);
        lemma_pitch_events_released(ns.last(), ch, tr, ns.last().pitches.len() as int);
        lemma_released_concat(
            notes_events(ns.drop_last(), ch, tr),
            pitch_events(ns.last(), ch, tr, ns.last().pitches.len() as int),
        );
    } else {
        assert(notes_events(ns, ch, tr) == Seq::<MidiEvent>::empty());
    }
}

proof fn lemma_lx_events_released(lx: Seq<Track>, tpb: u32, tr: int)
    ensures
        note_ons_released(lx_events(lx, tpb, tr)),
    decreases lx.len(),
{
    if lx.len() > 0 {
        lemma_lx_events_released(lx.drop_last(), tpb, tr);
        let t = parse_track(lx.last(), tpb)->0;
        let ch = ((lx.len() - 1) % 256) as u8;
        let head = seq![MidiEvent { tick: 0, channel: ch, command: 0xC0, data1: instrument_program(lx.last()), data2: 0 }];
        assert(note_ons_released(head));
        lemma_notes_events_released(t.notes, ch, tr);
        lemma_released_concat(head, notes_events(t.notes, ch, tr));
        lemma_released_concat(lx_events(lx.drop_last(), tpb, tr), track_events(t, ch, instrument_program(lx.last()), tr));
    } else {
        assert(lx_events(lx, tpb, tr) == Seq::<MidiEvent>::empty());
    }
}

/// Every note the internal parser plays is released: each note-on of its
/// events (every internal track, transposed or not) has a note-off on the
/// same channel for the same key.
pub proof fn law_notes_released(score: Score, tpb: u32)
    ensures
        note_ons_released(score_events(score, tpb, None)),
        note_ons_released(direct_events(score, tpb)),
{
    let tr = match score.metadata.transpose {
        Some(t) => t as int,
        None => 0,
    };
    lemma_lx_events_released(played_tracks(score.tracks@, false), tpb, tr);
    lemma_lx_events_released(played_tracks(score.tracks@, true), tpb, tr);
}

pub(crate) fn sort_events(s: &Vec<MidiEvent>) -> (r: Vec<MidiEvent>)
    ensures
        r@ == sort_by_tick(s@),
{
    let mut out: Vec<MidiEvent> = Vec::new();
    let mut i: usize = 0;
    while i < s.len()
        invariant
            i <= s@.len(),
            out@ == sort_by_tick(s@.take(i as int)),
        decreases s@.len() - i,
    {
        let x = s[i];
        let mut j = out.len();
        proof {
            lemma_insert_by_tick(out@, x);
            assert(out@.take(j as int) == out@);
        }
        while j > 0 && out[j - 1].tick > x.tick
            invariant
                j <= out@.len(),
                tick_insert_pos(out@.take(j as int), x) == tick_insert_pos(out@, x),
                tick_insert_pos(out@.take(j as int), x) <= j,
            decreases j,
        {
            assert(out@.take(j as int).drop_last() == out@.take(j - 1));
            assert(out@.take(j as int).last() == out@[j - 1]);
            proof {
                lemma_insert_by_tick(out@.take(j - 1), x);
            }
            j = j - 1;
        }
        proof {
            if j > 0 {
                assert(out@.take(j as int).last() == out@[j - 1]);
            }
            assert(tick_insert_pos(out@.take(j as int), x) == j);
        }
        out.insert(j, x);
        proof {
            assert(s@.take(i + 1).drop_last() == s@.take(i as int));
            assert(s@.take(i + 1).last() == x);
        }
        i = i + 1;
    }
    assert(s@.take(s@.len() as int) == s@);
    out
}

/// Generate MIDI events for all tracks, sorted by tick, and the tempo.
///
/// `lilypondx` tracks are played by the internal parser (track `i` on
/// channel `i`); `lilypond` tracks are compiled by LilyPond, whose events
/// and tempo the caller hands in as `lilypond_midi`, with their channels
/// moved past the internal ones; `lilypond-test` blocks are skipped.
/// Without LilyPond tracks the tempo is the frontmatter's (`4 = 70`: 70),
/// else 120.
pub fn generate_events(score: &Score, ticks_per_beat: u32, lilypond_midi: Option<(Vec<MidiEvent>, u32)>) -> (r: (
    Vec<MidiEvent>,
    u32,
))
    requires
        events_ok(*score, ticks_per_beat, lilypond_view(lilypond_midi)),
    ensures
        r.0@ == sort_by_tick(score_events(*score, ticks_per_beat, lilypond_view(lilypond_midi))),
        r.1 == score_bpm(*score, lilypond_view(lilypond_midi)),
        tick_sorted(r.0@),
{
    let mut events: Vec<MidiEvent> = Vec::new();
    let count = played_events(&mut events, score, ticks_per_beat, false);
    let has_lp_tracks = has_lilypond_tracks(score);
    let ghost lv = lilypond_view(lilypond_midi);
    let bpm = if has_lp_tracks {
        match lilypond_midi {
            Some((lp_events, lp_bpm)) => {
                assert(lv == Some((lp_events@, lp_bpm)));
                let off: u8 = (count % 256) as u8;
                assert(channels_fit(lp_events@, off as int));
                let ghost e0 = events@;
                let mut k: usize = 0;
                while k < lp_events.len()
                    invariant
                        k <= lp_events@.len(),
                        off == count % 256,
                        forall|i: int| 0 <= i < lp_events@.len() ==> #[trigger] lp_events@[i].channel + off <= 255,
                        events@ == e0 + offset_events(lp_events@.take(k as int), off as int),
                    decreases lp_events@.len() - k,
                {
                    let e = lp_events[k];
                    assert(e.channel + off <= 255);
                    let moved = MidiEvent { channel: e.channel + off, ..e };
                    events.push(moved);
                    assert(offset_events(lp_events@.take(k + 1), off as int) =~= offset_events(
                        lp_events@.take(k as int),
                        off as int,
                    ).push(moved));
                    k = k + 1;
                }
                assert(lp_events@.take(lp_events@.len() as int) == lp_events@);
                lp_bpm
            },
            None => {
                assert(false);
                120
            },
        }
    } else {
        tempo_of_metadata(&score.metadata.tempo)
    };
    let sorted = sort_events(&events);
    proof {
        lemma_sort_by_tick_sorted(events@);
    }
    (sorted, bpm)
}

/// What `try_generate_events` gives: the sorted events and the tempo where
/// `generate_events` accepts the score, else nothing.
pub open spec fn events_result(score: Score, tpb: u32, lilypond: Option<(Seq<MidiEvent>, u32)>) -> Option<
    (Seq<MidiEvent>, u32),
> {
    if events_ok(score, tpb, lilypond) {
        Some((sort_by_tick(score_events(score, tpb, lilypond)), score_bpm(score, lilypond)))
    } else {
        None
    }
}

/// `generate_events` for any score: `None` exactly where a played track's
/// notes cannot be parsed, or LilyPond's output is missing for a score with
/// LilyPond tracks or its channels cannot be moved past the internal ones.
pub fn try_generate_events(score: &Score, ticks_per_beat: u32, lilypond_midi: Option<(Vec<MidiEvent>, u32)>) -> (r:
    Option<(Vec<MidiEvent>, u32)>)
    ensures
        match r {
            Some((es, bpm)) => events_result(*score, ticks_per_beat, lilypond_view(lilypond_midi)) == Some(
                (es@, bpm),
            ),
            None => events_result(*score, ticks_per_beat, lilypond_view(lilypond_midi)) is None,
        },
{
    if events_playable(score, ticks_per_beat, &lilypond_midi) {
        Some(generate_events(score, ticks_per_beat, lilypond_midi))
    } else {
        None
    }
}

/// MIDI events of a score played by the internal parser alone: every track
/// but the expected-output blocks, LilyPond tracks included, sorted by tick.
pub fn generate_events_direct(score: &Score, ticks_per_beat: u32) -> (r: Vec<MidiEvent>)
    requires
        all_playable(score.tracks@, ticks_per_beat, true),
    ensures
        r@ == sort_by_tick(direct_events(*score, ticks_per_beat)),
        tick_sorted(r@),
{
    let mut events: Vec<MidiEvent> = Vec::new();
    let _ = played_events(&mut events, score, ticks_per_beat, true);
    let sorted = sort_events(&events);
    proof {
        lemma_sort_by_tick_sorted(events@);
    }
    sorted
}

// ───────────────────────── playback position ─────────────────────────

/// The latest tick of the events (0 without events).
pub open spec fn max_tick(s: Seq<MidiEvent>) -> u64
    decreases s.len(),
{
    if s.len() == 0 {
        0
    } else if s.last().tick > max_tick(s.drop_last()) {
        s.last().tick
    } else {
        max_tick(s.drop_last())
    }
}

/// The end of playback: the latest event's tick.
pub fn events_total_ticks(events: &[MidiEvent]) -> (r: u64)
    ensures
        r == max_tick(events@),
{
    let mut m: u64 = 0;
    let mut i: usize = 0;
    while i < events.len()
        invariant
            i <= events@.len(),
            m == max_tick(events@.take(i as int)),
        decreases events@.len() - i,
    {
        proof {
            assert(events@.take(i + 1).drop_last() == events@.take(i as int));
        }
        if events[i].tick > m {
            m = events[i].tick;
        }
        i = i + 1;
    }
    assert(events@.take(events@.len() as int) == events@);
    m
}

/// Index just past the last of the first `k` events that comes before
/// `start` (0 if none).
pub open spec fn start_index_of(s: Seq<MidiEvent>, start: u64, k: int) -> int
    decreases k,
{
    if k <= 0 || k > s.len() {
        0
    } else if s[k - 1].tick < start {
        k
    } else {
        start_index_of(s, start, k - 1)
    }
}

/// Where playback from `start_tick` begins: just past the last event
/// before that tick.
pub fn start_event_index(events: &[MidiEvent], start_tick: u64) -> (r: usize)
    ensures
        r == start_index_of(events@, start_tick, events@.len() as int),
{
    let mut idx: usize = 0;
    let mut i: usize = 0;
    while i < events.len()
        invariant
            i <= events@.len(),
            idx == start_index_of(events@, start_tick, i as int),
        decreases events@.len() - i,
    {
        if events[i].tick < start_tick {
            idx = i + 1;
        }
        i = i + 1;
    }
    idx
}

/// How far playback has come: `current / total` (0 with nothing to play).
pub fn playback_progress(current_tick: u64, total_ticks: u64) -> (r: Progress)
    ensures
        total_ticks == 0 ==> r == (Progress { numer: 0, denom: 1 }),
        total_ticks > 0 ==> r == (Progress { numer: current_tick, denom: total_ticks }),
{
    if total_ticks == 0 {
        Progress { numer: 0, denom: 1 }
    } else {
        Progress { numer: current_tick, denom: total_ticks }
    }
}


/// The part of a player that playback decisions read: the events, their
/// resolution and tempo, and the tick playback ends at. Driving the audio
/// device and the playback thread is the program's part.
pub struct AudioPlayer {
    pub events: Vec<MidiEvent>,
    pub ticks_per_beat: u32,
    pub tempo_bpm: u32,
    /// The latest event's tick.
    pub total_ticks: u64,
}

impl AudioPlayer {
    pub fn new(events: Vec<MidiEvent>, ticks_per_beat: u32, tempo_bpm: u32) -> (r: Self)
        ensures
            r.events@ == events@,
            r.ticks_per_beat == ticks_per_beat,
            r.tempo_bpm == tempo_bpm,
            r.total_ticks == max_tick(events@),
    {
        let total_ticks = events_total_ticks(events.as_slice());
        AudioPlayer { events, ticks_per_beat, tempo_bpm, total_ticks }
    }

    /// How far playback has come once it reached `current_tick`.
    pub fn progress_at(&self, current_tick: u64) -> (r: Progress)
        ensures
            self.total_ticks == 0 ==> r == (Progress { numer: 0, denom: 1 }),
            self.total_ticks > 0 ==> r == (Progress { numer: current_tick, denom: self.total_ticks }),
    {
        playback_progress(current_tick, self.total_ticks)
    }

    /// The first event to send when playback starts at `start_tick`.
    pub fn start_index(&self, start_tick: u64) -> (r: usize)
        ensures
            r == start_index_of(self.events@, start_tick, self.events@.len() as int),
    {
        start_event_index(self.events.as_slice(), start_tick)
    }
}

} // verus!
