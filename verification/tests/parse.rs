//! Parse-level tests: frontmatter, syntax detection, and exact note
//! serialization against `lilypond-test` blocks.

use lilypondx::note::{parse_notes_relative, serialize_notes, try_parse_notes_relative};
use lilypondx::parser::{extract_frontmatter, extract_tracks, parse_markdown_str, MdEvent};
use lilypondx::score::{Score, ScoreMetadata, Track};
use lilypondx::TICKS_PER_BEAT;

const PARSE_RELATIVE: &str = r#"---
title: "parse: relative pitch basics"
---

# Relative pitch basics

Anchor `c'` (C4=60). Each note takes the closest octave to the previous.

```lilypond track=T clef=treble relative=c'
a8 ais c4 d c
```

```lilypond-test
57,240 58,240 60,480 62,480 60,480
```
"#;

const PARSE_OCTAVE_REST_TIE: &str = r#"---
title: "parse: rests, ties, dotted"
---

# Rests, ties, dotted durations

```lilypond track=T clef=treble relative=c'
c4 r8 d4. c4~ c8
```

```lilypond-test
60,480 R,240 62,720 60,720
```

```lilypond track=T2 clef=treble relative=c'
c4 c8 c4 c8
```

```lilypond-test
60,480 60,240 60,480 60,240
```
"#;

const PARSE_RESTS_BARS: &str = r#"---
title: "parse: s-rest and bar check"
---

# `s` rests, bar checks (no longer tracked but should parse), comments

```lilypond track=T clef=treble relative=c
c4 s4 d4 | % comment here
e4 f4
```

```lilypond-test
48,480 R,480 50,480 52,480 53,480
```
"#;

const PIPELINE_MULTITRACK: &str = r#"---
title: "pipeline: multi-track lilypondx"
composer: "Trdthg"
tempo: "4 = 120"
key: 'c \major'
time: "4/4"
---

# Multi-track pipeline smoke test

Uses `lilypondx` syntax (parsed by our engine, not passed to LilyPond).

```lilypondx track=RH clef=treble relative=c'
c4 d e f | g a b c'
```

```lilypondx track=LH clef=bass relative=c,
c4 c g, g, | a, a, g, f,
```
"#;

const TWINKLE: &str = r#"---
title: "Twinkle"
---

# Twinkle, twinkle

```lilypond track=RH clef=treble relative=c'
c4 c g' g a a g2
```

```lilypond-test
60,480 60,480 67,480 67,480 69,480 69,480 67,960
```

```lilypond track=LH clef=bass relative=c
c4 c e c f c e c
```

```lilypond-test
48,480 48,480 52,480 48,480 53,480 48,480 52,480 48,480
```
"#;

const FRONTMATTER: &str = r#"---
title: "frontmatter test"
composer: "青木望"
subtitle: "銀河鉄道 999"
tempo: "4 = 70"
key: 'c \major'
time: "4/4"
---

# Frontmatter

```lilypond track=RH clef=treble relative=c
c4 d e f
```
"#;

const NO_TRACKS: &str = r#"---
title: "no tracks"
---

# Bare fences

```
c4 d e f
```

```text
g a b c
```

    c4 indented code is not fenced
"#;

const CLAIRE_OF_GLASS: &str = r#"---
title: "ガラスのクレア"
composer: "青木望"
tempo: "4 = 70"
---

# ガラスのクレア

```lilypond track=RH clef=treble relative=c
e'4 d c b
```

```lilypond track=LH clef=bass relative=c,
c4 g c g
```
"#;

fn yaml_text(v: &serde_yaml::Value, key: &str) -> Option<String> {
    v.get(key).and_then(|x| x.as_str()).map(|s| s.to_string())
}

/// A score from Markdown text: the frontmatter read as YAML.
fn parse_score(content: &str) -> Score {
    let md = parse_markdown_str(content);
    let metadata = match md.frontmatter {
        None => ScoreMetadata::default(),
        Some(y) => {
            let v: serde_yaml::Value = serde_yaml::from_str(&y).expect("frontmatter yaml");
            ScoreMetadata {
                title: yaml_text(&v, "title").expect("title"),
                composer: yaml_text(&v, "composer"),
                subtitle: yaml_text(&v, "subtitle"),
                dedication: yaml_text(&v, "dedication"),
                poet: yaml_text(&v, "poet"),
                tempo: yaml_text(&v, "tempo"),
                key: yaml_text(&v, "key"),
                time: yaml_text(&v, "time"),
                transpose: v.get("transpose").and_then(|x| x.as_i64()).map(|x| x as i32),
                tablature: v.get("tablature").and_then(|x| x.as_bool()).unwrap_or(false),
                parts: yaml_text(&v, "parts"),
            }
        }
    };
    Score { metadata, tracks: md.tracks }
}

struct Pair {
    input: Track,
    expected: String,
}

/// Input tracks paired with the `lilypond-test` block that follows each.
fn load_pairs(content: &str) -> Vec<Pair> {
    let score = parse_score(content);
    let mut pairs = Vec::new();
    let mut pending: Option<Track> = None;
    for track in score.tracks {
        match track.syntax.as_str() {
            "lilypond" | "lilypondx" => {
                if let Some(prev) = pending.take() {
                    pairs.push(Pair { input: prev, expected: String::new() });
                }
                pending = Some(track);
            }
            "test" => {
                let input = pending.take().expect("a lilypond-test block follows an input block");
                pairs.push(Pair { input, expected: track.notes });
            }
            _ => {}
        }
    }
    if let Some(prev) = pending {
        pairs.push(Pair { input: prev, expected: String::new() });
    }
    pairs
}

fn assert_pairs_serialize(name: &str, content: &str) {
    let pairs = load_pairs(content);
    assert!(!pairs.is_empty(), "{name}: no pairs loaded");
    for (i, pair) in pairs.iter().enumerate() {
        let parsed = parse_notes_relative(&pair.input.notes, &pair.input.relative, TICKS_PER_BEAT);
        let actual = serialize_notes(&parsed);
        assert_eq!(actual, pair.expected, "{name} pair #{i} ({}) mismatch", pair.input.name);
    }
}

#[test]
fn parse_relative_basics() {
    assert_pairs_serialize("parse_relative.md", PARSE_RELATIVE);
}

#[test]
fn twinkle_little_star() {
    let pairs = load_pairs(TWINKLE);
    assert_eq!(pairs.len(), 2, "should have RH and LH pairs");
    for (i, pair) in pairs.iter().enumerate() {
        let parsed = parse_notes_relative(&pair.input.notes, &pair.input.relative, TICKS_PER_BEAT);
        let actual = serialize_notes(&parsed);
        assert_eq!(actual, pair.expected, "twinkle.md pair #{i} ({}) mismatch", pair.input.name);
    }
}

#[test]
fn parse_octave_rest_tie() {
    assert_pairs_serialize("parse_octave_rest_tie.md", PARSE_OCTAVE_REST_TIE);
}

#[test]
fn parse_rests_and_bars() {
    assert_pairs_serialize("parse_rests_bars.md", PARSE_RESTS_BARS);
}

#[test]
fn frontmatter_metadata() {
    let score = parse_score(FRONTMATTER);
    assert_eq!(score.metadata.title, "frontmatter test");
    assert_eq!(score.metadata.composer.as_deref(), Some("青木望"));
    assert_eq!(score.metadata.subtitle.as_deref(), Some("銀河鉄道 999"));
    assert_eq!(score.metadata.tempo.as_deref(), Some("4 = 70"));
    assert_eq!(score.metadata.key.as_deref(), Some("c \\major"));
    assert_eq!(score.metadata.time.as_deref(), Some("4/4"));
    assert_eq!(score.tracks.len(), 1);
    assert_eq!(score.tracks[0].syntax, "lilypond");
    assert_eq!(score.tracks[0].clef, "treble");
    assert_eq!(score.tracks[0].relative, "c");
}

#[test]
fn lilypondx_syntax_detected() {
    let score = parse_score(PIPELINE_MULTITRACK);
    assert_eq!(score.tracks.len(), 2);
    for t in &score.tracks {
        assert_eq!(t.syntax, "lilypondx", "track {} should be lilypondx", t.name);
    }
}

#[test]
fn native_lilypond_syntax_detected() {
    let score = parse_score(FRONTMATTER);
    for t in &score.tracks {
        assert_eq!(t.syntax, "lilypond");
    }
}

#[test]
fn bare_fences_yield_no_tracks() {
    let score = parse_score(NO_TRACKS);
    assert!(score.tracks.is_empty(), "bare fences should produce 0 tracks");
}

#[test]
fn test_parse_first_md() {
    let score = parse_score(CLAIRE_OF_GLASS);
    assert_eq!(score.metadata.title, "ガラスのクレア");
    assert_eq!(score.metadata.composer.as_deref(), Some("青木望"));
    assert_eq!(score.metadata.tempo.as_deref(), Some("4 = 70"));
    assert_eq!(score.tracks.len(), 2);
    assert_eq!(score.tracks[0].name, "RH");
    assert_eq!(score.tracks[0].clef, "treble");
    assert_eq!(score.tracks[0].relative, "c");
    assert_eq!(score.tracks[1].name, "LH");
    assert_eq!(score.tracks[1].clef, "bass");
    assert_eq!(score.tracks[1].relative, "c,");
}

// ───── attributes of code blocks ─────

#[test]
fn block_attributes_defaults_and_last_wins() {
    let md = "```lilypond track=A track=B midi_instrument=violin\n  c4 d  \n```\n\n```lilypondx\ne4\n```\n\n```lilypond-test\nx\n```\n";
    let doc = parse_markdown_str(md);
    assert!(doc.frontmatter.is_none());
    assert_eq!(doc.tracks.len(), 3);
    let a = &doc.tracks[0];
    assert_eq!(a.name, "B");
    assert_eq!(a.clef, "treble");
    assert_eq!(a.relative, "c'");
    assert_eq!(a.midi_instrument.as_deref(), Some("violin"));
    assert_eq!(a.notes, "c4 d");
    assert_eq!(a.syntax, "lilypond");
    let b = &doc.tracks[1];
    assert_eq!(b.name, "track2");
    assert_eq!(b.syntax, "lilypondx");
    assert_eq!(b.midi_instrument, None);
    assert_eq!(doc.tracks[2].syntax, "test");
    assert_eq!(doc.tracks[2].name, "track3");
}

#[test]
fn events_give_tracks_and_frontmatter() {
    let events = vec![
        MdEvent::MetadataStart,
        MdEvent::Text("title: x\n".to_string()),
        MdEvent::Text("tempo: \"4 = 90\"\n".to_string()),
        MdEvent::MetadataEnd,
        MdEvent::FenceStart("lilypondx clef=bass relative=c,".to_string()),
        MdEvent::Text(" c4 ".to_string()),
        MdEvent::Other,
        MdEvent::Text("g4\n".to_string()),
        MdEvent::CodeBlockEnd,
        MdEvent::Text("outside".to_string()),
        MdEvent::FenceStart("python".to_string()),
        MdEvent::Text("print()".to_string()),
        MdEvent::CodeBlockEnd,
    ];
    assert_eq!(extract_frontmatter(&events).as_deref(), Some("title: x\ntempo: \"4 = 90\"\n"));
    let tracks = extract_tracks(&events);
    assert_eq!(tracks.len(), 1);
    assert_eq!(tracks[0].name, "track1");
    assert_eq!(tracks[0].clef, "bass");
    assert_eq!(tracks[0].relative, "c,");
    assert_eq!(tracks[0].notes, "c4 g4");
}

#[test]
fn empty_frontmatter_is_default() {
    let events = vec![MdEvent::MetadataStart, MdEvent::MetadataEnd, MdEvent::MetadataStart, MdEvent::Text("a: b".to_string())];
    assert_eq!(extract_frontmatter(&events), None);
    assert_eq!(extract_frontmatter(&[]), None);
}

// ───── the note parser ─────

#[test]
fn timeline_is_contiguous() {
    let t = parse_notes_relative("c4 d8 r4 e2. <c e g>8 f16~ f16", "c'", TICKS_PER_BEAT);
    let mut tick = 0u64;
    for n in &t.notes {
        assert_eq!(n.start_tick, tick);
        tick += n.duration as u64;
    }
    assert_eq!(t.total_ticks, tick);
    assert_eq!(serialize_notes(&t), "60,480 62,240 R,480 64,1440 [60+64+67],240 65,240");
}

#[test]
fn tie_to_other_pitch_keeps_both_notes() {
    let t = parse_notes_relative("c4~ d4 e4~", "c'", TICKS_PER_BEAT);
    assert_eq!(serialize_notes(&t), "60,480~ 62,480 64,480~");
}

#[test]
fn relative_picks_closest_octave() {
    let t = parse_notes_relative("c4 g c f b", "c'", TICKS_PER_BEAT);
    assert_eq!(serialize_notes(&t), "60,480 55,480 60,480 65,480 59,480");
    let t2 = parse_notes_relative("c'4 c, c''", "c'", TICKS_PER_BEAT);
    assert_eq!(serialize_notes(&t2), "72,480 60,480 84,480");
}

#[test]
fn zero_note_value_does_not_parse() {
    assert!(try_parse_notes_relative("c0", "c'", TICKS_PER_BEAT).is_none());
    assert!(try_parse_notes_relative("c4", "", TICKS_PER_BEAT).is_none());
    assert!(try_parse_notes_relative("c4", "c'", TICKS_PER_BEAT).is_some());
}

#[test]
fn comments_and_commands_are_skipped() {
    let t = parse_notes_relative("\\break c4 ;; note\nd4 \\mark{ a b } e4 // x\nf4 % y\ng4", "c'", TICKS_PER_BEAT);
    assert_eq!(serialize_notes(&t), "60,480 62,480 64,480 65,480 67,480");
}

#[test]
fn lone_semicolon_is_ignored_slash_ends_the_line() {
    let t = parse_notes_relative("c4 ; d4", "c'", TICKS_PER_BEAT);
    assert_eq!(serialize_notes(&t), "60,480 62,480");
    assert_eq!(t.total_ticks, 960);
    let t = parse_notes_relative("c4 / d4\ne4", "c'", TICKS_PER_BEAT);
    assert_eq!(serialize_notes(&t), "60,480 64,480");
}

#[test]
fn first_note_without_length_is_an_eighth() {
    let t = parse_notes_relative("c", "c'", TICKS_PER_BEAT);
    assert_eq!(serialize_notes(&t), "60,240");
    assert_eq!(t.total_ticks, 240);
    let t = parse_notes_relative("c d4 e", "c'", TICKS_PER_BEAT);
    assert_eq!(serialize_notes(&t), "60,240 62,480 64,480");
}
