//! The score handed to LilyPond and the MIDI files read back.

use lilypondx::audio::MidiEvent;
use lilypondx::midi_file::{
    lilypond_sub_score, midi_file_events, parse_midi_bytes, strip_comments, MidiFileError, SmfData, SmfEvent,
    SmfEventKind,
};
use lilypondx::note::{midi_events_to_parsed_track, serialize_notes};
use lilypondx::score::{Score, ScoreMetadata, Track};

fn ev(tick: u64, channel: u8, command: u8, data1: u8, data2: u8) -> MidiEvent {
    MidiEvent { tick, channel, command, data1, data2 }
}

#[test]
fn comment_lines_are_stripped() {
    assert_eq!(strip_comments("c4 d\n  ;; comment\n// x\ne f"), "c4 d\ne f");
    assert_eq!(strip_comments(";; only"), "");
    assert_eq!(strip_comments("a % keep\r\nb"), "a % keep\nb");
    assert_eq!(strip_comments("c4 d4\n;; note\n  // other\n% lily comment\ne4"), "c4 d4\ne4");
}

#[test]
fn sub_score_keeps_lilypond_tracks() {
    let t = |name: &str, syntax: &str, notes: &str| Track {
        name: name.to_string(),
        clef: "treble".to_string(),
        relative: "c'".to_string(),
        midi_instrument: None,
        notes: notes.to_string(),
        syntax: syntax.to_string(),
    };
    let mut metadata = ScoreMetadata::default();
    metadata.title = "T".to_string();
    let score = Score {
        metadata,
        tracks: vec![t("A", "lilypondx", "c4"), t("B", "lilypond", "c4\n;; x\n  % y\nd4\n// z"), t("C", "test", "x")],
    };
    let sub = lilypond_sub_score(&score);
    assert_eq!(sub.metadata.title, "T");
    assert_eq!(sub.tracks.len(), 1);
    assert_eq!(sub.tracks[0].name, "B");
    assert_eq!(sub.tracks[0].notes, "c4\nd4");
}

const SMF: [u8; 45] = [
    b'M', b'T', b'h', b'd', 0, 0, 0, 6, 0, 0, 0, 1, 0, 96, //
    b'M', b'T', b'r', b'k', 0, 0, 0, 23, //
    0, 0xFF, 0x51, 3, 0x07, 0xA1, 0x20, //
    0, 0x90, 0x3C, 0x64, //
    0x60, 0x80, 0x3C, 0x40, //
    0, 0x90, 0x3E, 0x00, //
    0, 0xFF, 0x2F, 0,
];

#[test]
fn midi_file_bytes_are_read() {
    let (events, bpm, tpb) = parse_midi_bytes(&SMF).expect("a valid file");
    assert_eq!(tpb, 480);
    assert_eq!(bpm, 120);
    // The note-off with a release velocity is not played; the note-on with
    // velocity 0 is a note-off.
    assert_eq!(events, vec![ev(0, 0, 0x90, 60, 100), ev(480, 0, 0x80, 62, 0)]);
    let track = midi_events_to_parsed_track(&events);
    assert_eq!(serialize_notes(&track), "");
}

#[test]
fn bad_midi_bytes_are_an_error() {
    match parse_midi_bytes(b"not a midi file") {
        Err(MidiFileError::Parse(msg)) => assert!(!msg.is_empty()),
        other => panic!("expected a parse error, got {other:?}"),
    }
}

#[test]
fn file_events_scale_and_tempo() {
    let on = |delta: u32, key: u8| SmfEvent { delta, kind: SmfEventKind::NoteOn(1, key, 90) };
    let data = SmfData {
        metrical: Some(384),
        tracks: vec![
            vec![SmfEvent { delta: 0, kind: SmfEventKind::Tempo(400_000) }, SmfEvent { delta: 10, kind: SmfEventKind::Other }],
            vec![on(384, 60), SmfEvent { delta: 192, kind: SmfEventKind::NoteOff(1, 60, 0) }, on(0, 62)],
        ],
    };
    let (events, bpm, tpb) = midi_file_events(&data);
    assert_eq!(tpb, 480);
    assert_eq!(bpm, 150);
    assert_eq!(events, vec![ev(480, 1, 0x90, 60, 90), ev(720, 1, 0x80, 60, 0), ev(720, 1, 0x90, 62, 90)]);
    let empty = SmfData { metrical: None, tracks: vec![] };
    assert_eq!(midi_file_events(&empty), (vec![], 120, 480));
    let zero = SmfData { metrical: Some(0), tracks: vec![vec![on(5, 60)]] };
    assert_eq!(midi_file_events(&zero).0, vec![ev(u64::MAX, 1, 0x90, 60, 90)]);
}
