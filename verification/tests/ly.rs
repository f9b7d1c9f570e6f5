//! The LilyPond source generated for a score.

use lilypondx::ly_gen::generate_ly;
use lilypondx::score::{Score, ScoreMetadata, Track};

fn track(name: &str, syntax: &str) -> Track {
    Track {
        name: name.to_string(),
        clef: "treble".to_string(),
        relative: "c'".to_string(),
        midi_instrument: None,
        notes: "c4 d".to_string(),
        syntax: syntax.to_string(),
    }
}

#[test]
fn single_track_source() {
    let mut metadata = ScoreMetadata::default();
    metadata.title = "Test".to_string();
    metadata.composer = Some("Me".to_string());
    let score = Score { metadata, tracks: vec![track("RH", "lilypondx"), track("X", "test")] };
    let expected = "\\version \"2.24.4\"\n\n\\header {\n  title = \"Test\"\n  composer = \"Me\"\n}\n\n\\paper {\n  indent = 10\\mm\n  markup-system-spacing.padding = #5\n}\n\nRH = \\relative c' {\n  \\clef treble\n  c4 d\n}\n\n\\score {\n  \\new Staff = \"RH\" \\RH\n  \\layout { }\n}\n\ntest_midi = {\n  \\new Staff = \"RH\" {\n    \\set Staff.midiInstrument = #\"acoustic grand\"\n    \\RH\n  }\n}\n\n\\book {\n  \\bookOutputName \"test_midi\"\n  \\score { \\test_midi \\midi { } }\n}\n";
    assert_eq!(generate_ly(&score), expected);
}

#[test]
fn transposed_and_escaped() {
    let mut metadata = ScoreMetadata::default();
    metadata.title = "A \"q\" \\ b!".to_string();
    metadata.transpose = Some(7);
    metadata.key = Some("g \\major".to_string());
    let score = Score { metadata, tracks: vec![track("RH", "lilypond")] };
    let out = generate_ly(&score);
    assert!(out.contains("  title = \"A \\\"q\\\" \\\\ b!\"\n"));
    assert!(out.contains("RH = \\transpose c g {\n  \\relative c' {\n    \\clef treble\n    \\key g \\major\n    c4 d\n  }\n}\n"));
    assert!(out.contains("\\bookOutputName \"aqb_midi\""));
}

#[test]
fn untitled_score_midi_name() {
    let score = Score { metadata: ScoreMetadata::default(), tracks: vec![track("A", "lilypond"), track("B", "lilypondx")] };
    let out = generate_ly(&score);
    assert!(out.contains("score_midi = {\n  \\new PianoStaff <<\n"));
    assert!(out.contains("  \\new PianoStaff <<\n    \\new Staff = \"A\" \\A\n    \\new Staff = \"B\" \\B\n  >>\n"));
}

#[test]
fn transposition_targets() {
    for (st, target) in [(0, "c"), (12, "c'"), (-12, "c,"), (7, "g"), (-5, "f,"), (1, "cis"), (-24, "c,,"), (19, "g'")] {
        let mut metadata = ScoreMetadata::default();
        metadata.transpose = Some(st);
        let score = Score { metadata, tracks: vec![track("RH", "lilypondx")] };
        let expected = format!("RH = \\transpose c {} {{\n", target);
        assert!(generate_ly(&score).contains(&expected), "offset {st}");
    }
}
