//! The playback head of the styled sparkline.

use lilypondx::note::parse_notes_relative;
use lilypondx::sparkline::{render_sparkline_widget, Color, Progress, SparklineConfig};
use lilypondx::TICKS_PER_BEAT;

fn playhead_col(notes: &str, relative: &str, tick: u64, beats_per_bar: Option<u32>) -> Option<usize> {
    let parsed = parse_notes_relative(notes, relative, TICKS_PER_BEAT);
    let config = SparklineConfig {
        progress: Some(Progress { numer: tick, denom: parsed.total_ticks }),
        beats_per_bar,
        total_ticks_override: Some(parsed.total_ticks),
        ..Default::default()
    };
    let (text, _) = render_sparkline_widget(&parsed, &config, 0, 0);
    text.lines.iter().find_map(|line| {
        line.spans
            .iter()
            .enumerate()
            .find_map(|(idx, span)| if span.style.bg == Some(Color::Yellow) { Some(idx.saturating_sub(1)) } else { None })
    })
}

fn tick_to_col(tick: u64, total_ticks: u64, beats_per_bar: Option<u32>) -> usize {
    let tpc = TICKS_PER_BEAT as u64 / 4;
    let bar_ticks: Vec<u64> = beats_per_bar
        .filter(|&b| b > 0)
        .map(|b| {
            let bar_len = b as u64 * TICKS_PER_BEAT as u64;
            let mut ticks = Vec::new();
            let mut t = bar_len;
            while t < total_ticks {
                ticks.push(t);
                t += bar_len;
            }
            ticks
        })
        .unwrap_or_default();
    (tick / tpc) as usize + bar_ticks.iter().filter(|&&bt| bt <= tick).count()
}

#[test]
fn playhead_walks_through_sixteenth_notes() {
    let notes = "g16 gis16 a8 c4";
    let parsed = parse_notes_relative(notes, "c'", TICKS_PER_BEAT);
    for tick in [0, 60, 120, 180, 240, 360, 480, 720, 959] {
        assert_eq!(
            playhead_col(notes, "c'", tick, None),
            Some(tick_to_col(tick, parsed.total_ticks, None)),
            "playhead mismatch at tick {tick}"
        );
    }
}

#[test]
fn playhead_snaps_in_rests_and_off_bar_lines() {
    // c4 r4 d4: a head in the rest moves on to the next onset.
    assert_eq!(playhead_col("c4 r4 d4", "c'", 500, None), Some(8));
    // A bar after c4: inside the second bar the head walks along d2.
    assert_eq!(playhead_col("c4 d2", "c'", 480, Some(1)), Some(5));
    assert_eq!(playhead_col("c4 d2", "c'", 600, Some(1)), Some(6));
    // The end of the piece holds at the last column.
    assert_eq!(playhead_col("c4 d4", "c'", 960, None), Some(7));
}
