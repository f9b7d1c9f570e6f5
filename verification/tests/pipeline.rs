//! End-to-end tests: parse, notes, sparkline, MIDI events.

use lilypondx::audio::{
    AudioPlayer, program_of_lowercase, try_generate_events,
    events_total_ticks, generate_events, generate_events_direct, has_lilypond_tracks, playback_progress,
    start_event_index, tempo_of_metadata, MidiEvent,
};
use lilypondx::note::parse_notes_relative;
use lilypondx::parser::parse_markdown_str;
use lilypondx::score::{Score, ScoreMetadata, Track};
use lilypondx::audio::{events_playable, tracks_playable};
use lilypondx::sparkline::{dump_sparklines, render_sparkline, sparkline_fits, Progress, ScaleMode, SparklineConfig};
use lilypondx::ly_gen::generate_ly;
use lilypondx::note::midi_events_to_parsed_track;
use lilypondx::sparkline::{row_count, row_count_with_scale};
use lilypondx::TICKS_PER_BEAT;

const PIPELINE_MULTITRACK: &str = r#"---
title: "pipeline: multi-track lilypondx"
composer: "Trdthg"
tempo: "4 = 120"
key: 'c \major'
time: "4/4"
---

# Multi-track pipeline smoke test

Uses `lilypondx` syntax (parsed by our engine, not passed to LilyPond).

```lilypondx track=RH clef=treble relative=c'
c4 d e f | g a b c'
```

```lilypondx track=LH clef=bass relative=c,
c4 c g, g, | a, a, g, f,
```
"#;

const RENDER_ASCENDING: &str = r#"---
title: "render: ascending scale"
---

# Ascending scale

```lilypond track=T clef=treble relative=c'
c4 d e f
```

```lilypond-test
#F4 │                
 F4 │            ━━━━
 E4 │        ━━━━    
#D4 │                
 D4 │    ━━━━        
#C4 │                
 C4 │━━━━            
 B3 │
```
"#;

fn yaml_text(v: &serde_yaml::Value, key: &str) -> Option<String> {
    v.get(key).and_then(|x| x.as_str()).map(|s| s.to_string())
}

/// A score from Markdown text: the frontmatter read as YAML.
fn parse_score(content: &str) -> Score {
    let md = parse_markdown_str(content);
    let metadata = match md.frontmatter {
        None => ScoreMetadata::default(),
        Some(y) => {
            let v: serde_yaml::Value = serde_yaml::from_str(&y).expect("frontmatter yaml");
            ScoreMetadata {
                title: yaml_text(&v, "title").expect("title"),
                composer: yaml_text(&v, "composer"),
                subtitle: yaml_text(&v, "subtitle"),
                dedication: yaml_text(&v, "dedication"),
                poet: yaml_text(&v, "poet"),
                tempo: yaml_text(&v, "tempo"),
                key: yaml_text(&v, "key"),
                time: yaml_text(&v, "time"),
                transpose: v.get("transpose").and_then(|x| x.as_i64()).map(|x| x as i32),
                tablature: v.get("tablature").and_then(|x| x.as_bool()).unwrap_or(false),
                parts: yaml_text(&v, "parts"),
            }
        }
    };
    Score { metadata, tracks: md.tracks }
}

struct Pair {
    input: Track,
    expected: String,
}

/// Input tracks paired with the `lilypond-test` block that follows each.
fn load_pairs(content: &str) -> Vec<Pair> {
    let score = parse_score(content);
    let mut pairs = Vec::new();
    let mut pending: Option<Track> = None;
    for track in score.tracks {
        match track.syntax.as_str() {
            "lilypond" | "lilypondx" => {
                if let Some(prev) = pending.take() {
                    pairs.push(Pair { input: prev, expected: String::new() });
                }
                pending = Some(track);
            }
            "test" => {
                let input = pending.take().expect("a lilypond-test block follows an input block");
                pairs.push(Pair { input, expected: track.notes });
            }
            _ => {}
        }
    }
    if let Some(prev) = pending {
        pairs.push(Pair { input: prev, expected: String::new() });
    }
    pairs
}

#[test]
fn multitrack_pipeline() {
    let score = parse_score(PIPELINE_MULTITRACK);
    assert_eq!(score.tracks.len(), 2, "should have RH and LH");
    for track in &score.tracks {
        let parsed = parse_notes_relative(&track.notes, &track.relative, TICKS_PER_BEAT);
        assert!(!parsed.notes.is_empty(), "track {} should parse notes", track.name);
        assert!(parsed.total_ticks > 0, "track {} should have duration", track.name);
        let spark = render_sparkline(&parsed, &SparklineConfig::default());
        assert!(!spark.is_empty(), "track {} should render", track.name);
    }
    let events = generate_events_direct(&score, TICKS_PER_BEAT);
    assert!(!events.is_empty(), "should generate MIDI events");
    assert!(events.iter().any(|e| e.command == 0x90), "should have at least one NoteOn");
    for w in events.windows(2) {
        assert!(w[0].tick <= w[1].tick, "events should be sorted by tick");
    }
}

#[test]
fn lilypond_test_blocks_excluded_from_playback() {
    let score = parse_score(RENDER_ASCENDING);
    let events = generate_events_direct(&score, TICKS_PER_BEAT);
    let note_ons = events.iter().filter(|e| e.command == 0x90).count();
    assert_eq!(note_ons, 4, "test blocks must not produce MIDI events");
}

fn track(name: &str, syntax: &str, notes: &str, instrument: Option<&str>) -> Track {
    Track {
        name: name.to_string(),
        clef: "treble".to_string(),
        relative: "c'".to_string(),
        midi_instrument: instrument.map(|s| s.to_string()),
        notes: notes.to_string(),
        syntax: syntax.to_string(),
    }
}

fn ev(tick: u64, channel: u8, command: u8, data1: u8, data2: u8) -> MidiEvent {
    MidiEvent { tick, channel, command, data1, data2 }
}

#[test]
fn internal_events_exact() {
    let mut metadata = ScoreMetadata::default();
    metadata.tempo = Some("4 = 96".to_string());
    let score = Score {
        metadata,
        tracks: vec![
            track("A", "lilypondx", "c4-. d8", Some("Violin")),
            track("X", "test", "c4", None),
            track("B", "lilypondx", "<c e>4", Some("Nylon Guitar")),
        ],
    };
    assert!(!has_lilypond_tracks(&score));
    let (events, bpm) = generate_events(&score, TICKS_PER_BEAT, None);
    assert_eq!(bpm, 96);
    assert_eq!(
        events,
        vec![
            ev(0, 0, 0xC0, 40, 0),
            ev(0, 0, 0x90, 60, 80),
            ev(0, 1, 0xC0, 24, 0),
            ev(0, 1, 0x90, 60, 80),
            ev(0, 1, 0x90, 64, 80),
            ev(240, 0, 0x80, 60, 64),
            ev(480, 0, 0x90, 62, 80),
            ev(480, 1, 0x80, 60, 64),
            ev(480, 1, 0x80, 64, 64),
            ev(720, 0, 0x80, 62, 64),
        ]
    );
}

#[test]
fn transpose_clamps_and_unknown_instrument() {
    let mut metadata = ScoreMetadata::default();
    metadata.transpose = Some(70);
    let score = Score { metadata, tracks: vec![track("A", "lilypondx", "c4 d", Some("kazoo"))] };
    let (events, bpm) = generate_events(&score, TICKS_PER_BEAT, None);
    assert_eq!(bpm, 120);
    assert_eq!(events[0], ev(0, 0, 0xC0, 0, 0));
    assert_eq!(events[1], ev(0, 0, 0x90, 127, 80));
    let mut down = ScoreMetadata::default();
    down.transpose = Some(-62);
    let score2 = Score { metadata: down, tracks: vec![track("A", "lilypondx", "c4", None)] };
    let (events2, _) = generate_events(&score2, TICKS_PER_BEAT, None);
    assert_eq!(events2[1], ev(0, 0, 0x90, 0, 80));
}

#[test]
fn lilypond_events_move_past_internal_channels() {
    let score = Score {
        metadata: ScoreMetadata::default(),
        tracks: vec![track("A", "lilypondx", "c4", None), track("L", "lilypond", "e4", None)],
    };
    assert!(has_lilypond_tracks(&score));
    let lily = vec![ev(100, 0, 0x90, 64, 100), ev(50, 2, 0x80, 64, 0)];
    let (events, bpm) = generate_events(&score, TICKS_PER_BEAT, Some((lily, 90)));
    assert_eq!(bpm, 90);
    assert_eq!(
        events,
        vec![
            ev(0, 0, 0xC0, 0, 0),
            ev(0, 0, 0x90, 60, 80),
            ev(50, 3, 0x80, 64, 0),
            ev(100, 1, 0x90, 64, 100),
            ev(480, 0, 0x80, 60, 64),
        ]
    );
}

#[test]
fn direct_playback_plays_lilypond_tracks_too() {
    let score = Score {
        metadata: ScoreMetadata::default(),
        tracks: vec![track("L", "lilypond", "c4", None), track("T", "test", "d4", None)],
    };
    let events = generate_events_direct(&score, TICKS_PER_BEAT);
    assert_eq!(events, vec![ev(0, 0, 0xC0, 0, 0), ev(0, 0, 0x90, 60, 80), ev(480, 0, 0x80, 60, 64)]);
}

#[test]
fn tempo_fields() {
    assert_eq!(tempo_of_metadata(&Some("4 = 70".to_string())), 70);
    assert_eq!(tempo_of_metadata(&Some("4=abc".to_string())), 120);
    assert_eq!(tempo_of_metadata(&Some("fast".to_string())), 120);
    assert_eq!(tempo_of_metadata(&Some("4 = 70 = 80".to_string())), 70);
    assert_eq!(tempo_of_metadata(&None), 120);
}

#[test]
fn playback_positions() {
    let events = vec![ev(0, 0, 0x90, 60, 80), ev(480, 0, 0x80, 60, 64), ev(480, 0, 0x90, 62, 80), ev(960, 0, 0x80, 62, 64)];
    assert_eq!(events_total_ticks(&events), 960);
    assert_eq!(events_total_ticks(&[]), 0);
    assert_eq!(start_event_index(&events, 0), 0);
    assert_eq!(start_event_index(&events, 480), 1);
    assert_eq!(start_event_index(&events, 481), 3);
    assert_eq!(start_event_index(&events, 5000), 4);
    assert_eq!(playback_progress(240, 960), Progress { numer: 240, denom: 960 });
    assert_eq!(playback_progress(5, 0), Progress { numer: 0, denom: 1 });
}

#[test]
fn audio_player_spans_its_events() {
    let events = vec![ev(0, 0, 0x90, 60, 80), ev(960, 0, 0x80, 60, 64), ev(480, 1, 0x90, 64, 80)];
    let player = AudioPlayer::new(events.clone(), TICKS_PER_BEAT, 90);
    assert_eq!(player.events, events);
    assert_eq!(player.ticks_per_beat, 480);
    assert_eq!(player.tempo_bpm, 90);
    assert_eq!(player.total_ticks, 960);
    assert_eq!(player.progress_at(480), Progress { numer: 480, denom: 960 });
    assert_eq!(player.start_index(480), 1);
    assert_eq!(player.start_index(961), 3);
    let silent = AudioPlayer::new(Vec::new(), TICKS_PER_BEAT, 120);
    assert_eq!(silent.total_ticks, 0);
    assert_eq!(silent.progress_at(100), Progress { numer: 0, denom: 1 });
}

#[test]
fn dump_shares_one_time_axis() {
    let score = parse_score(PIPELINE_MULTITRACK);
    let text = dump_sparklines(&score, ScaleMode::Chromatic).expect("both tracks draw");
    let rh = parse_notes_relative(&score.tracks[0].notes, &score.tracks[0].relative, TICKS_PER_BEAT);
    let lh = parse_notes_relative(&score.tracks[1].notes, &score.tracks[1].relative, TICKS_PER_BEAT);
    let total = rh.total_ticks.max(lh.total_ticks);
    let cfg = |last: bool| SparklineConfig {
        total_ticks_override: Some(total),
        beats_per_bar: Some(4),
        show_progress_bar: last,
        ..Default::default()
    };
    let expected = format!(
        "=== RH (treble) ===\n{}\n\n=== LH (bass) ===\n{}\n\n",
        render_sparkline(&rh, &cfg(false)),
        render_sparkline(&lh, &cfg(true))
    );
    assert_eq!(text, expected);
    assert!(text.contains("┊"));
    let none = Score {
        metadata: ScoreMetadata::default(),
        tracks: vec![track("L", "lilypond", "c4", None)],
    };
    assert_eq!(dump_sparklines(&none, ScaleMode::Chromatic).as_deref(), Some("(no lilypondx tracks to display)\n"));
    let broken = Score {
        metadata: ScoreMetadata::default(),
        tracks: vec![track("X", "lilypondx", "c0", None)],
    };
    assert_eq!(dump_sparklines(&broken, ScaleMode::Chromatic), None);
}

#[test]
fn playability_checks() {
    let ok = Score { metadata: ScoreMetadata::default(), tracks: vec![track("A", "lilypondx", "c4", None)] };
    assert!(tracks_playable(&ok, TICKS_PER_BEAT, false));
    assert!(events_playable(&ok, TICKS_PER_BEAT, &None));
    let bad = Score { metadata: ScoreMetadata::default(), tracks: vec![track("A", "lilypondx", "c0", None)] };
    assert!(!tracks_playable(&bad, TICKS_PER_BEAT, false));
    let ignored = Score { metadata: ScoreMetadata::default(), tracks: vec![track("A", "test", "c0", None)] };
    assert!(tracks_playable(&ignored, TICKS_PER_BEAT, true));
    let with_lily = Score {
        metadata: ScoreMetadata::default(),
        tracks: vec![track("A", "lilypondx", "c4", None), track("L", "lilypond", "c4", None)],
    };
    assert!(!events_playable(&with_lily, TICKS_PER_BEAT, &None));
    assert!(events_playable(&with_lily, TICKS_PER_BEAT, &Some((vec![ev(0, 254, 0x90, 60, 1)], 100))));
    assert!(!events_playable(&with_lily, TICKS_PER_BEAT, &Some((vec![ev(0, 255, 0x90, 60, 1)], 100))));
    let t = parse_notes_relative("c4 d", "c'", TICKS_PER_BEAT);
    assert!(sparkline_fits(&t, &SparklineConfig::default()));
    let huge = SparklineConfig { total_ticks_override: Some(u64::MAX), beats_per_bar: Some(1), ..Default::default() };
    assert!(!sparkline_fits(&t, &huge));
}

#[test]
fn test_blocks_change_neither_events_nor_ly() {
    let mut metadata = ScoreMetadata::default();
    metadata.title = "T".to_string();
    metadata.tempo = Some("4 = 90".to_string());
    let plain = Score {
        metadata: metadata.clone(),
        tracks: vec![track("RH", "lilypondx", "c4 e g", None), track("LH", "lilypondx", "c,2", Some("cello"))],
    };
    let with_tests = Score {
        metadata,
        tracks: vec![
            track("X", "test", "C4 │━━", None),
            track("RH", "lilypondx", "c4 e g", None),
            track("Y", "test", "whatever", None),
            track("LH", "lilypondx", "c,2", Some("cello")),
        ],
    };
    let (e1, b1) = generate_events(&plain, TICKS_PER_BEAT, None);
    let (e2, b2) = generate_events(&with_tests, TICKS_PER_BEAT, None);
    assert_eq!(e1, e2);
    assert_eq!(b1, b2);
    assert_eq!(b1, 90);
    assert_eq!(generate_ly(&plain), generate_ly(&with_tests));
}

#[test]
fn midi_notes_come_in_order_with_pitches() {
    let events = vec![
        ev(480, 0, 0x90, 64, 80),
        ev(0, 0, 0x90, 60, 80),
        ev(0, 0, 0x90, 67, 80),
        ev(480, 0, 0x80, 60, 0),
        ev(480, 0, 0x80, 67, 0),
        ev(480, 0, 0x80, 64, 0),
    ];
    let t = midi_events_to_parsed_track(&events);
    assert_eq!(t.notes.len(), 2);
    assert_eq!(t.notes[0].pitches, vec![60, 67]);
    assert_eq!(t.notes[0].start_tick, 0);
    assert_eq!(t.notes[0].duration, 480);
    assert_eq!(t.notes[1].pitches, vec![64]);
    assert_eq!(t.notes[1].start_tick, 480);
    assert_eq!(t.notes[1].duration, 1);
}

#[test]
fn scale_rows_at_most_chromatic_rows() {
    let t = parse_notes_relative("c4 e", "c'", TICKS_PER_BEAT);
    assert_eq!(row_count_with_scale(&t, ScaleMode::Diatonic(0xAB5)), 5);
    assert!(row_count_with_scale(&t, ScaleMode::Diatonic(0xAB5)) <= row_count(&t));
    assert_eq!(row_count(&t), 7);
}

#[test]
fn try_generate_events_refuses_what_cannot_play() {
    let mut metadata = ScoreMetadata::default();
    metadata.tempo = Some("4 = 70".to_string());
    let ok = Score { metadata: metadata.clone(), tracks: vec![track("A", "lilypondx", "c4 d", None)] };
    let (events, bpm) = try_generate_events(&ok, TICKS_PER_BEAT, None).expect("plays");
    assert_eq!((events, bpm), generate_events(&ok, TICKS_PER_BEAT, None));
    let zero = Score { metadata: metadata.clone(), tracks: vec![track("A", "lilypondx", "c0", None)] };
    assert!(try_generate_events(&zero, TICKS_PER_BEAT, None).is_none());
    // A LilyPond track needs LilyPond's output.
    let lp = Score { metadata, tracks: vec![track("B", "lilypond", "c4", None)] };
    assert!(try_generate_events(&lp, TICKS_PER_BEAT, None).is_none());
    assert!(try_generate_events(&lp, TICKS_PER_BEAT, Some((vec![ev(0, 0, 0x90, 60, 80)], 90))).is_some());
}

#[test]
fn programs_of_lowercase_names() {
    assert_eq!(program_of_lowercase("piano"), 0);
    assert_eq!(program_of_lowercase("violin"), 40);
    assert_eq!(program_of_lowercase("lead 2 (sawtooth)"), 81);
    assert_eq!(program_of_lowercase("Violin"), 0);
}

#[test]
fn rendered_rows_match_the_row_count() {
    let t = parse_notes_relative("c4 e", "c'", TICKS_PER_BEAT);
    for mode in [ScaleMode::Chromatic, ScaleMode::Diatonic(0xAB5)] {
        let cfg = SparklineConfig { scale_mode: mode, ..Default::default() };
        assert_eq!(render_sparkline(&t, &cfg).lines().count(), row_count_with_scale(&t, mode));
    }
}
