//! Render-level tests: the plain sparkline against `lilypond-test` blocks,
//! and the styled lines.

use lilypondx::note::parse_notes_relative;
use lilypondx::parser::parse_markdown_str;
use lilypondx::score::{Score, ScoreMetadata, Track};
use lilypondx::sparkline::{
    bg_color, detect_scale, parse_key, pitch_label, render_sparkline, render_sparkline_widget,
    resolve_scale_mode, try_resolve_scale_mode, beats_per_bar_of, row_count, row_count_with_scale, scale_mask, total_cols, Color, Progress,
    bar_columns, col_to_tick, timeline_col,
    ScaleMode, SparklineConfig, Theme, MAJOR_PITCHES, MINOR_PITCHES,
};
use lilypondx::TICKS_PER_BEAT;

const RENDER_ASCENDING: &str = r#"---
title: "render: ascending scale"
---

# Ascending scale

```lilypond track=T clef=treble relative=c'
c4 d e f
```

```lilypond-test
#F4 │                
 F4 │            ━━━━
 E4 │        ━━━━    
#D4 │                
 D4 │    ━━━━        
#C4 │                
 C4 │━━━━            
 B3 │
```
"#;

const RENDER_CHROMATIC: &str = r#"---
title: "render: chromatic run"
---

# Chromatic run in eighths

```lilypondx track=T clef=treble relative=c'
c8 cis d dis e f fis g
```

```lilypond-test
#G4 │                
 G4 │              ━━
#F4 │            ━━  
 F4 │          ━━    
 E4 │        ━━      
#D4 │      ━━        
 D4 │    ━━          
#C4 │  ━━            
 C4 │━━              
 B3 │
```
"#;

fn yaml_text(v: &serde_yaml::Value, key: &str) -> Option<String> {
    v.get(key).and_then(|x| x.as_str()).map(|s| s.to_string())
}

/// A score from Markdown text: the frontmatter read as YAML.
fn parse_score(content: &str) -> Score {
    let md = parse_markdown_str(content);
    let metadata = match md.frontmatter {
        None => ScoreMetadata::default(),
        Some(y) => {
            let v: serde_yaml::Value = serde_yaml::from_str(&y).expect("frontmatter yaml");
            ScoreMetadata {
                title: yaml_text(&v, "title").expect("title"),
                composer: yaml_text(&v, "composer"),
                subtitle: yaml_text(&v, "subtitle"),
                dedication: yaml_text(&v, "dedication"),
                poet: yaml_text(&v, "poet"),
                tempo: yaml_text(&v, "tempo"),
                key: yaml_text(&v, "key"),
                time: yaml_text(&v, "time"),
                transpose: v.get("transpose").and_then(|x| x.as_i64()).map(|x| x as i32),
                tablature: v.get("tablature").and_then(|x| x.as_bool()).unwrap_or(false),
                parts: yaml_text(&v, "parts"),
            }
        }
    };
    Score { metadata, tracks: md.tracks }
}

struct Pair {
    input: Track,
    expected: String,
}

/// Input tracks paired with the `lilypond-test` block that follows each.
fn load_pairs(content: &str) -> Vec<Pair> {
    let score = parse_score(content);
    let mut pairs = Vec::new();
    let mut pending: Option<Track> = None;
    for track in score.tracks {
        match track.syntax.as_str() {
            "lilypond" | "lilypondx" => {
                if let Some(prev) = pending.take() {
                    pairs.push(Pair { input: prev, expected: String::new() });
                }
                pending = Some(track);
            }
            "test" => {
                let input = pending.take().expect("a lilypond-test block follows an input block");
                pairs.push(Pair { input, expected: track.notes });
            }
            _ => {}
        }
    }
    if let Some(prev) = pending {
        pairs.push(Pair { input: prev, expected: String::new() });
    }
    pairs
}

fn assert_pairs_render(name: &str, content: &str) {
    let pairs = load_pairs(content);
    assert!(!pairs.is_empty(), "{name}: no pairs loaded");
    for (i, pair) in pairs.iter().enumerate() {
        let parsed = parse_notes_relative(&pair.input.notes, &pair.input.relative, TICKS_PER_BEAT);
        let actual = render_sparkline(&parsed, &SparklineConfig::default());
        let actual_trimmed: String = actual.lines().map(|l| l.trim_start()).collect::<Vec<_>>().join("\n");
        let expected_trimmed: String = pair.expected.lines().map(|l| l.trim_start()).collect::<Vec<_>>().join("\n");
        assert_eq!(actual_trimmed, expected_trimmed, "{name} pair #{i} ({}) render mismatch", pair.input.name);
    }
}

#[test]
fn render_ascending() {
    assert_pairs_render("render_ascending.md", RENDER_ASCENDING);
}

#[test]
fn render_chromatic() {
    assert_pairs_render("render_chromatic.md", RENDER_CHROMATIC);
}

#[test]
fn render_color_widget_has_styled_spans() {
    let pairs = load_pairs(RENDER_ASCENDING);
    let pair = &pairs[0];
    let parsed = parse_notes_relative(&pair.input.notes, &pair.input.relative, TICKS_PER_BEAT);
    let (text, _) = render_sparkline_widget(&parsed, &SparklineConfig::default(), 0, 0);
    let has_styled_bg = text.lines.iter().any(|line| line.spans.iter().any(|s| s.style.bg.is_some()));
    assert!(has_styled_bg, "widget must apply background styling to pitch rows");
}

#[test]
fn render_widget_plain_matches_plain_render() {
    let pairs = load_pairs(RENDER_ASCENDING);
    let pair = &pairs[0];
    let parsed = parse_notes_relative(&pair.input.notes, &pair.input.relative, TICKS_PER_BEAT);
    let plain = render_sparkline(&parsed, &SparklineConfig::default());
    let (text, _) = render_sparkline_widget(&parsed, &SparklineConfig::default(), 0, 0);
    let widget_plain: String = text
        .lines
        .iter()
        .map(|l| l.spans.iter().map(|s| s.content.as_str()).collect::<String>())
        .collect::<Vec<_>>()
        .join("\n");
    assert_eq!(widget_plain.trim_end(), plain, "widget plain text must equal render_sparkline");
}

#[test]
fn render_empty_input_is_empty() {
    let track = parse_notes_relative("", "c'", TICKS_PER_BEAT);
    assert_eq!(render_sparkline(&track, &SparklineConfig::default()), "");
}

#[test]
fn render_all_rests() {
    let track = parse_notes_relative("r4 r4 r4 r4", "c'", TICKS_PER_BEAT);
    let out = render_sparkline(&track, &SparklineConfig::default());
    assert!(out.contains("(no pitched notes)"));
    assert_eq!(out, "(no pitched notes)\n");
    let (text, cols) = render_sparkline_widget(&track, &SparklineConfig::default(), 0, 0);
    assert_eq!(cols, 0);
    assert_eq!(text.lines.len(), 1);
    assert_eq!(text.lines[0].spans[0].content, "(no pitched notes)");
}

const BARS_EXPECTED: &str = r#"#G4 │                ┊    
 G4 │                ┊━━━━
#F4 │                ┊    
 F4 │            ━━━━┊    
 E4 │        ━━━━    ┊    
#D4 │                ┊    
 D4 │    ━━━━        ┊    
#C4 │                ┊    
 C4 │━━━━            ┊    
 B3 │                ┊"#;

#[test]
fn bar_lines_get_their_own_columns() {
    let track = parse_notes_relative("c4 d e f g", "c'", TICKS_PER_BEAT);
    let config = SparklineConfig { beats_per_bar: Some(4), ..Default::default() };
    assert_eq!(render_sparkline(&track, &config), BARS_EXPECTED);
    assert_eq!(total_cols(track.total_ticks, Some(4)), 21);
    let (_, cols) = render_sparkline_widget(&track, &config, 0, 0);
    assert_eq!(cols, 21);
}

#[test]
fn progress_bar_and_clock() {
    let track = parse_notes_relative("c4 d e f", "c'", TICKS_PER_BEAT);
    let config = SparklineConfig {
        progress: Some(Progress { numer: 1, denom: 2 }),
        show_progress_bar: true,
        ..Default::default()
    };
    let out = render_sparkline(&track, &config);
    let lines: Vec<&str> = out.lines().collect();
    assert_eq!(lines.len(), 10);
    assert_eq!(lines[7], " B3 │                ");
    assert_eq!(lines[8], "");
    assert_eq!(lines[9], "   ━━━━━━━▶────────  00:01 / 00:02  50%");
    let (text, _) = render_sparkline_widget(&track, &config, 4, 6);
    let bar = &text.lines[8].spans[0].content;
    assert_eq!(bar, "   ━━━▶──  00:01 / 00:02  50%");
    assert_eq!(text.lines[0].spans.len(), 7);
}

#[test]
fn hover_marks_blank_and_bar_cells() {
    let track = parse_notes_relative("c4 d e f", "c'", TICKS_PER_BEAT);
    let config = SparklineConfig { hover_col: Some(5), ..Default::default() };
    let out = render_sparkline(&track, &config);
    let lines: Vec<&str> = out.lines().collect();
    assert_eq!(lines[4], " D4 │    ━━━━        ");
    assert_eq!(lines[6], " C4 │━━━━ |          ");
    let beyond = SparklineConfig { hover_col: Some(16), ..Default::default() };
    assert_eq!(render_sparkline(&track, &beyond), render_sparkline(&track, &SparklineConfig::default()));
}

#[test]
fn diatonic_rows_and_row_counts() {
    let track = parse_notes_relative("c4 d e f", "c'", TICKS_PER_BEAT);
    let c_major = parse_key("c \\major").unwrap();
    assert_eq!(c_major, ScaleMode::Diatonic(2741));
    assert_eq!(row_count(&track), 8);
    assert_eq!(row_count_with_scale(&track, c_major), 5);
    let config = SparklineConfig { scale_mode: c_major, ..Default::default() };
    let out = render_sparkline(&track, &config);
    let labels: Vec<&str> = out.lines().map(|l| &l[..3]).collect();
    assert_eq!(labels, vec![" F4", " E4", " D4", " C4", " B3"]);
    let rests = parse_notes_relative("r2", "c'", TICKS_PER_BEAT);
    assert_eq!(row_count(&rests), 1);
    let empty = parse_notes_relative("", "c'", TICKS_PER_BEAT);
    assert_eq!(row_count(&empty), 0);
}

#[test]
fn scale_detection_and_keys() {
    let track = parse_notes_relative("c4 d e f", "c'", TICKS_PER_BEAT);
    assert_eq!(detect_scale(&track), Some((0, 2741, true)));
    let chromatic = parse_notes_relative("c8 cis d dis e f fis g", "c'", TICKS_PER_BEAT);
    assert_eq!(detect_scale(&chromatic), None);
    assert_eq!(parse_key("A \\Minor"), Some(ScaleMode::Diatonic(2741)));
    assert_eq!(parse_key("cis major"), Some(ScaleMode::Diatonic(1387)));
    assert_eq!(parse_key("g\\minor"), Some(ScaleMode::Diatonic(1709)));
    assert_eq!(parse_key("h"), None);
    assert_eq!(parse_key(""), None);
    assert_eq!(scale_mask(2, &MAJOR_PITCHES), 2774);
    assert_eq!(scale_mask(9, &MINOR_PITCHES), 2741);
}

fn one_track_score(key: Option<&str>, notes: &str) -> Score {
    let mut metadata = ScoreMetadata::default();
    metadata.key = key.map(|k| k.to_string());
    Score {
        metadata,
        tracks: vec![Track {
            name: "T".to_string(),
            clef: "treble".to_string(),
            relative: "c'".to_string(),
            midi_instrument: None,
            notes: notes.to_string(),
            syntax: "lilypondx".to_string(),
        }],
    }
}

#[test]
fn scale_argument_resolution() {
    let keyed = one_track_score(Some("g \\minor"), "c4 d e f");
    assert_eq!(resolve_scale_mode(&keyed, "auto"), ScaleMode::Diatonic(1709));
    assert_eq!(resolve_scale_mode(&keyed, " chromatic "), ScaleMode::Chromatic);
    assert_eq!(resolve_scale_mode(&keyed, " c major "), ScaleMode::Diatonic(2741));
    assert_eq!(resolve_scale_mode(&keyed, "nonsense"), ScaleMode::Chromatic);
    let unkeyed = one_track_score(None, "c4 d e f");
    assert_eq!(resolve_scale_mode(&unkeyed, "auto"), ScaleMode::Diatonic(2741));
    let bad_key = one_track_score(Some("xyz"), "c8 cis d dis e f fis g");
    assert_eq!(resolve_scale_mode(&bad_key, "auto"), ScaleMode::Chromatic);
}

#[test]
fn scale_resolution_needs_parsable_tracks_only_when_detecting() {
    let unparsable = one_track_score(None, "c0");
    assert_eq!(try_resolve_scale_mode(&unparsable, "auto"), None);
    assert_eq!(try_resolve_scale_mode(&unparsable, "chromatic"), Some(ScaleMode::Chromatic));
    assert_eq!(try_resolve_scale_mode(&unparsable, "a minor"), Some(ScaleMode::Diatonic(2741)));
    let keyed = one_track_score(Some("g \\minor"), "c0");
    assert_eq!(try_resolve_scale_mode(&keyed, " auto "), Some(ScaleMode::Diatonic(1709)));
    let fine = one_track_score(None, "c4 d e f");
    assert_eq!(try_resolve_scale_mode(&fine, "auto"), Some(ScaleMode::Diatonic(2741)));
}

#[test]
fn beats_per_bar_of_time_signatures() {
    assert_eq!(beats_per_bar_of(&Some("3/4".to_string())), Some(3));
    assert_eq!(beats_per_bar_of(&Some(" 6 /8".to_string())), Some(6));
    assert_eq!(beats_per_bar_of(&Some("4".to_string())), Some(4));
    assert_eq!(beats_per_bar_of(&Some("x/4".to_string())), None);
    assert_eq!(beats_per_bar_of(&None), None);
}

#[test]
fn labels_colors_and_themes() {
    assert_eq!(pitch_label(60), " C4");
    assert_eq!(pitch_label(61), "#C4");
    assert_eq!(pitch_label(0), " C-");
    assert_eq!(pitch_label(11), " B-");
    assert_eq!(pitch_label(66), "#F4");
    for m in 0..=127u8 {
        assert_eq!(pitch_label(m).chars().count(), 3);
    }
    assert_eq!(pitch_label(127), " G9");
    assert_eq!(bg_color(60, Theme::Mono), Color::Rgb(230, 230, 230));
    assert_eq!(bg_color(61, Theme::Mono), Color::Rgb(40, 40, 40));
    assert_eq!(bg_color(61, Theme::Macaron), Color::Reset);
    assert_eq!(bg_color(69, Theme::Macaron), Color::Rgb(160, 128, 176));
    assert_eq!(bg_color(62, Theme::Piano), Color::Rgb(200, 200, 205));
    assert_eq!(Theme::all(), vec!["Mono", "Macaron", "Piano"]);
    for t in [Theme::Mono, Theme::Macaron, Theme::Piano] {
        assert_eq!(Theme::from_name(t.name()), Some(t));
        assert_eq!(Theme::from_name(&t.name().to_uppercase()), Some(t));
        assert_eq!(t.next().next().next(), t);
        assert_ne!(t.next(), t);
    }
    assert_eq!(Theme::from_name("MACARON"), Some(Theme::Macaron));
    assert_eq!(Theme::from_name("neon"), None);
    assert_eq!(Theme::default(), Theme::Mono);
}

#[test]
fn total_cols_values() {
    assert_eq!(total_cols(1920, Some(4)), 16);
    assert_eq!(total_cols(2400, Some(4)), 21);
    assert_eq!(total_cols(3840, Some(4)), 33);
    assert_eq!(total_cols(0, None), 0);
    assert_eq!(total_cols(100, Some(0)), 0);
}

#[test]
fn columns_and_ticks() {
    // 2 beats a bar over 2400 ticks: bar lines at ticks 960 and 1920.
    assert_eq!(bar_columns(2400, Some(2)), vec![8, 17]);
    assert_eq!(bar_columns(2400, None), Vec::<u64>::new());
    assert_eq!(timeline_col(0, Some(2), 2400), 0);
    assert_eq!(timeline_col(959, Some(2), 2400), 7);
    assert_eq!(timeline_col(960, Some(2), 2400), 9);
    assert_eq!(timeline_col(2399, Some(2), 2400), 21);
    assert_eq!(col_to_tick(7, Some(2), 2400), 840);
    assert_eq!(col_to_tick(8, Some(2), 2400), 960);
    assert_eq!(col_to_tick(9, Some(2), 2400), 960);
    assert_eq!(col_to_tick(17, Some(2), 2400), 1920);
    assert_eq!(col_to_tick(18, Some(2), 2400), 1920);
    assert_eq!(col_to_tick(100, Some(2), 2400), 2400);
    assert_eq!(col_to_tick(5, None, 2400), 600);
    for tick in [0u64, 120, 960, 1080, 1920, 2280] {
        let col = timeline_col(tick, Some(2), 2400);
        assert_eq!(col_to_tick(col, Some(2), 2400), tick);
    }
}

#[test]
fn click_on_column_seeks_into_that_column() {
    // 2 beats a bar over 2400 ticks: 20 sixteenth columns and bar-line
    // columns 8 and 17.
    let cols = total_cols(2400, Some(2)) as u64;
    assert_eq!(cols, 22);
    for c in 0..cols {
        if c == 8 || c == 17 {
            continue;
        }
        let tick = col_to_tick(c, Some(2), 2400);
        assert_eq!(timeline_col(tick, Some(2), 2400), c);
    }
    // On a bar line the click seeks to the bar's first tick, drawn just
    // right of the line.
    assert_eq!(timeline_col(col_to_tick(8, Some(2), 2400), Some(2), 2400), 9);
    for c in 0..total_cols(480, None) as u64 {
        assert_eq!(timeline_col(col_to_tick(c, None, 480), None, 480), c);
    }
}
