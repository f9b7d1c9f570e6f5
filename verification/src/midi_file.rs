//! Standard MIDI Files from the LilyPond compiler: the score it is given
//! and the events read back from its output.

use vstd::prelude::*;

use midly::MetaMessage::Tempo;
use midly::MidiMessage::{NoteOff, NoteOn};
use midly::Smf;
use midly::Timing::Metrical;

use midly::TrackEventKind::{Meta, Midi};

use self::SmfEventKind as K;

use crate::audio::{sort_by_tick, sort_events, tick_sorted, MidiEvent};
use crate::parser::track_view;
use crate::score::{copy_metadata, Score, Track};
use crate::text::{
    chars_of, has_prefix, join, lemma_join_push, lines, push_chars, split_lines, starts_with,
    string_from, trim, trim_chars,
};

verus! {

// ───────────────────────── the score for LilyPond ─────────────────────────

/// A comment line: its text starts with `;;`, `//` or `%`.
pub open spec fn is_comment_line(line: Seq<char>) -> bool {
    has_prefix(trim(line), ";;"@) || has_prefix(trim(line), "//"@) || has_prefix(trim(line), "%"@)
}

/// The lines that are not comments, in order.
pub open spec fn kept_lines(ls: Seq<Seq<char>>) -> Seq<Seq<char>>
    decreases ls.len(),
{
    if ls.len() == 0 {
        seq![]
    } else {
        kept_lines(ls.drop_last()) + if is_comment_line(ls.last()) {
            seq![]
        } else {
            seq![ls.last()]
        }
    }
}

/// Note text without its `;;`, `//` and `%` comment lines, lines joined by
/// `\n`.
pub open spec fn without_comments(notes: Seq<char>) -> Seq<char> {
    join(kept_lines(lines(notes)), "\n"@)
}

/// Strip common comment styles from LilyPond note text before passing to the
/// compiler: lines starting (after whitespace) with `;;`, `//` or `%`.
pub fn strip_comments(notes: &str) -> (r: String)
    ensures
        r@ == without_comments(notes@),
{
    proof {
        reveal_strlit("\n");
        reveal_strlit(";;");
        reveal_strlit("//");
        reveal_strlit("%");
    }
    let nv = chars_of(notes);
    let ls = split_lines(nv.as_slice());
    let ghost lv = ls@.map_values(|w: Vec<char>| w@);
    let semi = chars_of(";;");
    let slash = chars_of("//");
    let percent = chars_of("%");
    let mut out: Vec<char> = Vec::new();
    let mut kept: usize = 0;
    let mut i: usize = 0;
    while i < ls.len()
        invariant
            lv == ls@.map_values(|w: Vec<char>| w@),
            lv == lines(nv@),
            semi@ == ";;"@,
            slash@ == "//"@,
            percent@ == "%"@,
            "\n"@ == seq!['\n'],
            i <= ls@.len(),
            kept <= i,
            kept == kept_lines(lv.take(i as int)).len(),
            out@ == join(kept_lines(lv.take(i as int)), "\n"@),
        decreases ls@.len() - i,
    {
        proof {
            assert(lv.take(i + 1).drop_last() == lv.take(i as int));
            assert(lv.take(i + 1).last() == ls@[i as int]@);
        }
        let t = trim_chars(ls[i].as_slice());
        let comment = starts_with(t.as_slice(), semi.as_slice()) || starts_with(t.as_slice(), slash.as_slice())
            || starts_with(t.as_slice(), percent.as_slice());
        if !comment {
            let ghost k0 = kept_lines(lv.take(i as int));
            let ghost k1 = kept_lines(lv.take(i + 1));
            assert(k1 == k0.push(ls@[i as int]@));
            proof {
                lemma_join_push(k1, "\n"@, k0.len() as int);
                assert(k1.take(k0.len() as int) == k0);
                assert(k1.take(k0.len() as int + 1) == k1);
            }
            if kept > 0 {
                out.push('\n');
            }
            push_chars(&mut out, &ls[i]);
            kept = kept + 1;
        } else {
            assert(kept_lines(lv.take(i + 1)) == kept_lines(lv.take(i as int)));
        }
        i = i + 1;
    }
    assert(lv.take(lv.len() as int) == lv);
    string_from(out.as_slice())
}

/// The `lilypond` tracks of a score, comments stripped.
pub open spec fn lilypond_tracks_of(ts: Seq<Track>) -> Seq<(Seq<char>, Seq<char>, Seq<char>, Option<Seq<char>>, Seq<char>)>
    decreases ts.len(),
{
    if ts.len() == 0 {
        seq![]
    } else {
        let t = track_view(ts.last());
        lilypond_tracks_of(ts.drop_last()) + if t.syntax == "lilypond"@ {
            seq![(t.name, t.clef, t.relative, t.midi_instrument, without_comments(t.notes))]
        } else {
            seq![]
        }
    }
}

pub open spec fn track_fields(t: Track) -> (Seq<char>, Seq<char>, Seq<char>, Option<Seq<char>>, Seq<char>) {
    let v = track_view(t);
    (v.name, v.clef, v.relative, v.midi_instrument, v.notes)
}

/// The score LilyPond compiles: the same metadata and only the `lilypond`
/// tracks, their comment lines stripped.
pub fn lilypond_sub_score(score: &Score) -> (r: Score)
    ensures
        r.metadata == score.metadata,
        r.tracks@.map_values(|t: Track| track_fields(t)) == lilypond_tracks_of(score.tracks@),
        forall|i: int| 0 <= i < r.tracks@.len() ==> (#[trigger] r.tracks@[i]).syntax@ == "lilypond"@,
{
    let ghost ts = score.tracks@;
    let mut out: Vec<Track> = Vec::new();
    let mut i: usize = 0;
    while i < score.tracks.len()
        invariant
            ts == score.tracks@,
            i <= ts.len(),
            out@.map_values(|t: Track| track_fields(t)) == lilypond_tracks_of(ts.take(i as int)),
            forall|k: int| 0 <= k < out@.len() ==> (#[trigger] out@[k]).syntax@ == "lilypond"@,
        decreases ts.len() - i,
    {
        proof {
            assert(ts.take(i + 1).drop_last() == ts.take(i as int));
            assert(ts.take(i + 1).last() == ts[i as int]);
        }
        let t = &score.tracks[i];
        if crate::text::chars_eq_str(chars_of(t.syntax.as_str()).as_slice(), "lilypond") {
            let nt = Track {
                name: t.name.clone(),
                clef: t.clef.clone(),
                relative: t.relative.clone(),
                midi_instrument: crate::score::copy_opt_string(&t.midi_instrument),
                notes: strip_comments(t.notes.as_str()),
                syntax: t.syntax.clone(),
            };
            let ghost before = out@;
            out.push(nt);
            assert(out@.map_values(|t: Track| track_fields(t)) =~= before.map_values(
                |t: Track| track_fields(t),
            ).push(track_fields(nt)));
        } else {
            assert(lilypond_tracks_of(ts.take(i + 1)) == lilypond_tracks_of(ts.take(i as int)));
        }
        i = i + 1;
    }
    assert(ts.take(ts.len() as int) == ts);
    Score { metadata: copy_metadata(&score.metadata), tracks: out }
}

// ───────────────────────── reading the compiled file ─────────────────────────

/// What playback reads of a MIDI file event.
#[derive(Debug, Clone, Copy, PartialEq, Eq, Structural)]
pub enum SmfEventKind {
    /// Channel, key, velocity.
    NoteOn(u8, u8, u8),
    /// Channel, key, velocity.
    NoteOff(u8, u8, u8),
    /// Microseconds per quarter note.
    Tempo(u32),
    Other,
}

/// An event of a track: its delta time in ticks and its kind.
#[derive(Debug, Clone, Copy, PartialEq, Eq, Structural)]
pub struct SmfEvent {
    pub delta: u32,
    pub kind: SmfEventKind,
}

/// A parsed Standard MIDI File: ticks per quarter note (for metrical
/// timing) and the events of each track.
#[derive(Debug)]
pub struct SmfData {
    pub metrical: Option<u16>,
    pub tracks: Vec<Vec<SmfEvent>>,
}

pub ghost struct SmfView {
    pub metrical: Option<u16>,
    pub tracks: Seq<Seq<SmfEvent>>,
}

impl View for SmfData {
    type V = SmfView;

    open spec fn view(&self) -> SmfView {
        SmfView { metrical: self.metrical, tracks: self.tracks@.map_values(|t: Vec<SmfEvent>| t@) }
    }
}

/// An error of `midly`.
#[verifier::external_type_specification]
#[verifier::external_body]
pub struct ExMidlyError(midly::Error);

/// The tracks of a Standard MIDI File, `None` if the bytes are not one.
pub uninterp spec fn smf_tracks(bytes: Seq<u8>) -> Option<Seq<Seq<SmfEvent>>>;

/// The metrical resolution (ticks per quarter note) in a MIDI file's
/// header, `None` if it has another timing or no valid header.
pub uninterp spec fn smf_metrical(bytes: Seq<u8>) -> Option<u16>;

/// Runs `midly::Smf::parse` and keeps each event's delta time and its note
/// on/off (channel, key, velocity) or tempo, or that it is something else.
/// Claimed: the tracks depend on the bytes alone (named `smf_tracks`), and
/// an error comes exactly where they are `None`.
#[verifier::external_body]
fn parse_smf(bytes: &[u8]) -> (r: Result<Vec<Vec<SmfEvent>>, midly::Error>)
    ensures
        match r {
            Ok(ts) => smf_tracks(bytes@) == Some(ts@.map_values(|t: Vec<SmfEvent>| t@)),
            Err(_) => smf_tracks(bytes@) is None,
        },
{
    let smf = Smf::parse(bytes)?;
    Ok(smf.tracks.iter().map(|t| t.iter().map(|e| SmfEvent { delta: e.delta.as_int(), kind: match e.kind {
        Midi { channel: c, message: NoteOn { key, vel } } => K::NoteOn(c.as_int(), key.as_int(), vel.as_int()),
        Midi { channel: c, message: NoteOff { key, vel } } => K::NoteOff(c.as_int(), key.as_int(), vel.as_int()),
        Meta(Tempo(m)) => K::Tempo(m.as_int()),
        _ => K::Other,
    } }).collect()).collect())
}

/// Runs `midly::parse` and keeps the header's ticks per quarter note when
/// its timing is metrical. Claimed: the result depends on the bytes alone
/// (named `smf_metrical`).
#[verifier::external_body]
fn smf_timing(bytes: &[u8]) -> (r: Option<u16>)
    ensures
        r == smf_metrical(bytes@),
{
    match midly::parse(bytes) {
        Ok((header, _)) => if let Metrical(t) = header.timing { Some(t.as_int()) } else { None },
        Err(_) => None,
    }
}

/// The content of the bytes of a MIDI file, if they are one.
pub open spec fn smf_of(bytes: Seq<u8>) -> Option<SmfView> {
    match smf_tracks(bytes) {
        Some(ts) => Some(SmfView { metrical: smf_metrical(bytes), tracks: ts }),
        None => None,
    }
}

/// Sum of the first `n` delta times: the absolute tick of event `n - 1`.
pub open spec fn delta_sum(evs: Seq<SmfEvent>, n: int) -> nat
    decreases n,
{
    if n <= 0 || n > evs.len() {
        0
    } else {
        delta_sum(evs, n - 1) + (evs[n - 1].delta as nat)
    }
}

/// The playback event of a file event at `tick`: a note-on with a velocity
/// stays one; a note-on or note-off with velocity 0 is a note-off; nothing
/// else (a note-off with a release velocity included) is played.
pub open spec fn file_event(e: SmfEvent, tick: u64) -> Seq<MidiEvent> {
    match e.kind {
        SmfEventKind::NoteOn(channel, key, vel) => if vel > 0 {
            seq![MidiEvent { tick, channel, command: 0x90, data1: key, data2: vel }]
        } else {
            seq![MidiEvent { tick, channel, command: 0x80, data1: key, data2: vel }]
        },
        SmfEventKind::NoteOff(channel, key, vel) => if vel == 0 {
            seq![MidiEvent { tick, channel, command: 0x80, data1: key, data2: vel }]
        } else {
            seq![]
        },
        _ => seq![],
    }
}

/// Playback events of the first `n` events of a track.
pub open spec fn track_file_events(evs: Seq<SmfEvent>, n: int) -> Seq<MidiEvent>
    decreases n,
{
    if n <= 0 || n > evs.len() {
        seq![]
    } else {
        track_file_events(evs, n - 1) + file_event(evs[n - 1], delta_sum(evs, n) as u64)
    }
}

/// Playback events of all tracks, one track after the other.
pub open spec fn all_file_events(ts: Seq<Seq<SmfEvent>>) -> Seq<MidiEvent>
    decreases ts.len(),
{
    if ts.len() == 0 {
        seq![]
    } else {
        all_file_events(ts.drop_last()) + track_file_events(ts.last(), ts.last().len() as int)
    }
}

/// The tempo in force after the first `n` events of a track, `t` before
/// them: the last tempo event's.
pub open spec fn tempo_after(evs: Seq<SmfEvent>, n: int, t: nat) -> nat
    decreases n,
{
    if n <= 0 || n > evs.len() {
        t
    } else {
        match evs[n - 1].kind {
            SmfEventKind::Tempo(m) => m as nat,
            _ => tempo_after(evs, n - 1, t),
        }
    }
}

/// The tempo after the first `k` tracks (500000 µs per quarter, 120 BPM,
/// without any tempo event).
pub open spec fn tracks_tempo(ts: Seq<Seq<SmfEvent>>, k: int) -> nat
    decreases k,
{
    if k <= 0 || k > ts.len() {
        500_000
    } else {
        tempo_after(ts[k - 1], ts[k - 1].len() as int, tracks_tempo(ts, k - 1))
    }
}

/// Ticks per quarter note of a file (480 when its timing is not metrical).
pub open spec fn file_tpb(d: SmfView) -> u32 {
    match d.metrical {
        Some(t) => t as u32,
        None => 480,
    }
}

/// A tick moved from a resolution of `tpb` to 480 ticks a quarter note:
/// `tick * 480 / tpb` rounded down and capped at `u64::MAX` (a zero
/// resolution sends every tick but 0 to the cap).
pub open spec fn scale_tick(tick: u64, tpb: u32) -> u64 {
    if tpb == 480 {
        tick
    } else if tpb == 0 {
        if tick == 0 {
            0
        } else {
            u64::MAX
        }
    } else {
        let x = (tick * 480) / (tpb as int);
        if x <= u64::MAX {
            x as u64
        } else {
            u64::MAX
        }
    }
}

pub open spec fn scaled(es: Seq<MidiEvent>, tpb: u32) -> Seq<MidiEvent> {
    es.map_values(|e: MidiEvent| MidiEvent { tick: scale_tick(e.tick, tpb), ..e })
}

/// Beats per minute of a tempo in microseconds per quarter note, rounded
/// (at least 1; the cap `u32::MAX` for a zero tempo).
pub open spec fn bpm_of(micros: nat) -> u32 {
    if micros == 0 {
        u32::MAX
    } else {
        let b = (120_000_000 + micros) / (2 * micros);
        if b >= 1 {
            b as u32
        } else {
            1
        }
    }
}

/// No track's ticks run past `u64::MAX`.
pub open spec fn ticks_fit(d: SmfView) -> bool {
    forall|i: int| 0 <= i < d.tracks.len() ==> #[trigger] delta_sum(d.tracks[i], d.tracks[i].len() as int) <= u64::MAX
}

/// Events (sorted by tick, at 480 ticks a quarter note), tempo and
/// resolution of a parsed MIDI file.
pub open spec fn file_result(d: SmfView) -> (Seq<MidiEvent>, u32, u32) {
    (
        sort_by_tick(scaled(all_file_events(d.tracks), file_tpb(d))),
        bpm_of(tracks_tempo(d.tracks, d.tracks.len() as int)),
        480,
    )
}

proof fn lemma_delta_sum_mono(evs: Seq<SmfEvent>, m: int, n: int)
    requires
        0 <= m <= n <= evs.len(),
    ensures
        delta_sum(evs, m) <= delta_sum(evs, n),
    decreases n - m,
{
    if m < n {
        lemma_delta_sum_mono(evs, m, n - 1);
    }
}

fn scale_tick_exec(tick: u64, tpb: u32) -> (r: u64)
    ensures
        r == scale_tick(tick, tpb),
{
    if tpb == 480 {
        tick
    } else if tpb == 0 {
        if tick == 0 {
            0
        } else {
            u64::MAX
        }
    } else {
        let x: u128 = (tick as u128 * 480) / (tpb as u128);
        if x <= u64::MAX as u128 {
            x as u64
        } else {
            u64::MAX
        }
    }
}

fn bpm_exec(micros: u64) -> (r: u32)
    requires
        micros <= u32::MAX,
    ensures
        r == bpm_of(micros as nat),
{
    if micros == 0 {
        return u32::MAX;
    }
    let b: u64 = (120_000_000 + micros) / (2 * micros);
    assert(b <= 120_000_001) by (nonlinear_arith)
        requires
            b == (120_000_000 + micros) / (2 * micros),
            micros >= 1,
    {
        vstd::arithmetic::div_mod::lemma_div_is_ordered_by_denominator(
            (120_000_000 + micros) as int,
            1,
            (2 * micros) as int,
        );
    }
    if b >= 1 {
        b as u32
    } else {
        1
    }
}

/// Events, tempo and resolution of a parsed MIDI file: note-ons (velocity
/// above 0) as `0x90`, note-offs and silent note-ons as `0x80`, ticks moved
/// to 480 a quarter note, sorted by tick; the last tempo event gives the
/// beats per minute.
pub fn midi_file_events(data: &SmfData) -> (r: (Vec<MidiEvent>, u32, u32))
    requires
        ticks_fit(data@),
    ensures
        (r.0@, r.1, r.2) == file_result(data@),
        tick_sorted(r.0@),
{
    let ghost ts = data@.tracks;
    let tpb: u32 = match data.metrical {
        Some(t) => t as u32,
        None => 480,
    };
    let mut events: Vec<MidiEvent> = Vec::new();
    let mut tempo: u64 = 500_000;
    let mut i: usize = 0;
    while i < data.tracks.len()
        invariant
            ts == data@.tracks,
            ticks_fit(data@),
            tpb == file_tpb(data@),
            i <= ts.len(),
            events@ == scaled(all_file_events(ts.take(i as int)), tpb),
            tempo == tracks_tempo(ts, i as int),
            tempo <= u32::MAX,
        decreases ts.len() - i,
    {
        let track = &data.tracks[i];
        assert(ts[i as int] == track@);
        let ghost tv = track@;
        let ghost e0 = events@;
        let ghost t0 = tempo as nat;
        assert(delta_sum(tv, tv.len() as int) <= u64::MAX);
        let mut abs: u64 = 0;
        let mut j: usize = 0;
        while j < track.len()
            invariant
                tv == track@,
                delta_sum(tv, tv.len() as int) <= u64::MAX,
                j <= tv.len(),
                abs == delta_sum(tv, j as int),
                tpb == file_tpb(data@),
                events@ == e0 + scaled(track_file_events(tv, j as int), tpb),
                tempo == tempo_after(tv, j as int, t0),
                tempo <= u32::MAX,
            decreases tv.len() - j,
        {
            let e = track[j];
            proof {
                lemma_delta_sum_mono(tv, j + 1, tv.len() as int);
            }
            abs = abs + e.delta as u64;
            let tick = scale_tick_exec(abs, tpb);
            let ghost before = events@;
            match e.kind {
                SmfEventKind::NoteOn(channel, key, vel) => {
                    let command: u8 = if vel > 0 {
                        0x90
                    } else {
                        0x80
                    };
                    events.push(MidiEvent { tick, channel, command, data1: key, data2: vel });
                },
                SmfEventKind::NoteOff(channel, key, vel) => {
                    if vel == 0 {
                        events.push(MidiEvent { tick, channel, command: 0x80, data1: key, data2: vel });
                    }
                },
                SmfEventKind::Tempo(m) => {
                    tempo = m as u64;
                },
                SmfEventKind::Other => {},
            }
            assert(scaled(track_file_events(tv, j + 1), tpb) =~= scaled(track_file_events(tv, j as int), tpb)
                + scaled(file_event(e, abs), tpb));
            assert(events@ =~= before + scaled(file_event(e, abs), tpb));
            j = j + 1;
        }
        proof {
            assert(ts.take(i + 1).drop_last() == ts.take(i as int));
            assert(ts.take(i + 1).last() == tv);
            assert(scaled(all_file_events(ts.take(i + 1)), tpb) =~= scaled(all_file_events(ts.take(i as int)), tpb)
                + scaled(track_file_events(tv, tv.len() as int), tpb));
        }
        i = i + 1;
    }
    assert(ts.take(ts.len() as int) == ts);
    let bpm = bpm_exec(tempo);
    let sorted = sort_events(&events);
    proof {
        crate::audio::lemma_sort_by_tick_sorted(events@);
    }
    (sorted, bpm, 480)
}

/// Why a MIDI file could not be read.
#[derive(Debug)]
pub enum MidiFileError {
    /// The bytes are not a Standard MIDI File (midly's message).
    Parse(String),
    /// A track's ticks run past `u64::MAX`.
    TickOverflow,
}

/// Whether no track's ticks run past `u64::MAX`.
fn ticks_fit_exec(data: &SmfData) -> (r: bool)
    ensures
        r == ticks_fit(data@),
{
    let ghost ts = data@.tracks;
    let mut i: usize = 0;
    while i < data.tracks.len()
        invariant
            ts == data@.tracks,
            i <= ts.len(),
            forall|k: int| 0 <= k < i ==> #[trigger] delta_sum(ts[k], ts[k].len() as int) <= u64::MAX,
        decreases ts.len() - i,
    {
        let track = &data.tracks[i];
        assert(ts[i as int] == track@);
        let ghost tv = track@;
        let mut abs: u128 = 0;
        let mut j: usize = 0;
        while j < track.len()
            invariant
                tv == track@,
                ts == data@.tracks,
                i < ts.len(),
                ts[i as int] == tv,
                j <= tv.len(),
                abs == delta_sum(tv, j as int),
                abs <= u64::MAX,
            decreases tv.len() - j,
        {
            abs = abs + track[j].delta as u128;
            assert(abs == delta_sum(tv, j + 1));
            if abs > u64::MAX as u128 {
                proof {
                    lemma_delta_sum_mono(tv, j + 1, tv.len() as int);
                    assert(delta_sum(ts[i as int], ts[i as int].len() as int) > u64::MAX);
                }
                return false;
            }
            j = j + 1;
        }
        i = i + 1;
    }
    true
}

/// Events, tempo and resolution of the bytes of a Standard MIDI File.
pub fn parse_midi_bytes(bytes: &[u8]) -> (r: Result<(Vec<MidiEvent>, u32, u32), MidiFileError>)
    ensures
        match r {
            Ok((es, bpm, tpb)) => smf_of(bytes@) matches Some(d) && ticks_fit(d) && (es@, bpm, tpb)
                == file_result(d),
            Err(MidiFileError::Parse(_)) => smf_of(bytes@) is None,
            Err(MidiFileError::TickOverflow) => smf_of(bytes@) matches Some(d) && !ticks_fit(d),
        },
{
    match parse_smf(bytes) {
        Err(e) => Err(MidiFileError::Parse(e.to_string())),
        Ok(tracks) => {
            let data = SmfData { metrical: smf_timing(bytes), tracks };
            if !ticks_fit_exec(&data) {
                return Err(MidiFileError::TickOverflow);
            }
            Ok(midi_file_events(&data))
        },
    }
}

} // verus!
