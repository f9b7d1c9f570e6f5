//! Decisions of the terminal player.

use lilypondx::score::{Score, ScoreMetadata};
use lilypondx::sparkline::Progress;
use lilypondx::tui::{
    clamp_scroll, follow_scroll, header_buttons, header_left_text, hit_index, track_top_border, key_scroll_step, screen_x_to_col, scroll_right, seek_tick,
    tempo_from, ticks_per_bar_from, view_step, visible_cols, wheel_scroll_step, Rect, ViewAction, ViewEvent,
    Viewport,
};

fn score_with(time: Option<&str>, tempo: Option<&str>) -> Score {
    let mut metadata = ScoreMetadata::default();
    metadata.time = time.map(|s| s.to_string());
    metadata.tempo = tempo.map(|s| s.to_string());
    Score { metadata, tracks: vec![] }
}

#[test]
fn bar_length_of_time_signatures() {
    assert_eq!(ticks_per_bar_from(&score_with(Some("4/4"), None)), Some(1920));
    assert_eq!(ticks_per_bar_from(&score_with(Some("6/8"), None)), Some(1440));
    assert_eq!(ticks_per_bar_from(&score_with(Some(" 3 / 4 "), None)), Some(1440));
    assert_eq!(ticks_per_bar_from(&score_with(Some("4/0"), None)), None);
    assert_eq!(ticks_per_bar_from(&score_with(Some("x"), None)), None);
    assert_eq!(ticks_per_bar_from(&score_with(None, None)), None);
    assert_eq!(tempo_from(&score_with(None, Some("4 = 70"))), 70);
    assert_eq!(tempo_from(&score_with(None, None)), 120);
}

#[test]
fn mouse_mapping() {
    let buttons = [Rect { x: 0, y: 0, width: 4, height: 1 }, Rect { x: 5, y: 0, width: 4, height: 1 }];
    assert_eq!(hit_index(&buttons, 6, 0), Some(1));
    assert_eq!(hit_index(&buttons, 4, 0), None);
    assert_eq!(hit_index(&buttons, 1, 1), None);
    let tracks = [Rect { x: 0, y: 2, width: 80, height: 5 }];
    let grid = Rect { x: 6, y: 0, width: 20, height: 0 };
    assert_eq!(screen_x_to_col(10, 3, &tracks, grid, 7), Some(11));
    assert_eq!(screen_x_to_col(10, 8, &tracks, grid, 7), None);
    assert_eq!(screen_x_to_col(26, 3, &tracks, grid, 0), None);
    assert_eq!(screen_x_to_col(5, 3, &tracks, grid, 0), None);
}

#[test]
fn scrolling() {
    assert_eq!(visible_cols(100, 30), 30);
    assert_eq!(visible_cols(10, 30), 10);
    assert_eq!(clamp_scroll(90, 100, 30), 70);
    assert_eq!(clamp_scroll(5, 10, 30), 0);
    assert_eq!(key_scroll_step(0), 4);
    assert_eq!(key_scroll_step(100), 10);
    assert_eq!(wheel_scroll_step(2), 2);
    assert_eq!(wheel_scroll_step(30), 7);
    assert_eq!(scroll_right(65, 10, 100, 30), 70);
    assert_eq!(scroll_right(10, 10, 100, 30), 20);
    assert_eq!(follow_scroll(28, 0, 32, 100), Some(24));
    assert_eq!(follow_scroll(27, 0, 32, 100), None);
    assert_eq!(follow_scroll(99, 60, 32, 100), Some(68));
    assert_eq!(follow_scroll(5, 0, 32, 20), None);
    assert_eq!(seek_tick(Progress { numer: 1, denom: 3 }, 1000), 333);
    assert_eq!(seek_tick(Progress { numer: 5, denom: 6 }, 3), 3);
    assert_eq!(seek_tick(Progress { numer: 7, denom: 2 }, 1000), 1000);
    assert_eq!(seek_tick(Progress { numer: 1, denom: 0 }, 10), 10);
}

#[test]
fn track_border_carries_name_and_every_fourth_bar() {
    assert_eq!(track_top_border(20, "RH", None, 10, 0), "┌ RH ──────────────┐");
    // Bars 2..5 open at columns 8, 17, 26, 35; only bar 4 is numbered.
    let cols = [8u64, 17, 26, 35];
    assert_eq!(track_top_border(20, "RH", Some(&cols), 10, 20), "┌ RH ────── 4 ─────┐");
    // Out of view: no number.
    assert_eq!(track_top_border(20, "RH", Some(&cols), 5, 0), "┌ RH ──────────────┐");
    let many: Vec<u64> = (0..11).map(|k| 10 * k + 3).collect();
    assert_eq!(track_top_border(20, "RH", Some(&many), 10, 100), "┌ RH ── 12 ────────┐");
    // A name longer than the line is cut.
    assert_eq!(track_top_border(6, "Melody", None, 0, 0), "┌ Mel┐");
    assert_eq!(track_top_border(1, "RH", None, 0, 0), "┌┐");
}

#[test]
fn header_buttons_follow_the_progress_text() {
    let inner = Rect { x: 1, y: 1, width: 100, height: 1 };
    let (right, buttons) = header_buttons(inner, 10, 6, 11, 9, 6);
    assert_eq!(right, Rect { x: 59, y: 1, width: 42, height: 1 });
    assert_eq!(
        buttons,
        vec![
            Rect { x: 71, y: 1, width: 6, height: 1 },
            Rect { x: 79, y: 1, width: 11, height: 1 },
            Rect { x: 92, y: 1, width: 9, height: 1 },
            Rect { x: 103, y: 1, width: 6, height: 1 },
        ]
    );
    // Narrower than the buttons: they start at the left edge.
    let (right, _) = header_buttons(Rect { x: 3, y: 0, width: 10, height: 1 }, 0, 6, 11, 9, 6);
    assert_eq!(right.x, 3);
}

#[test]
fn keys_and_wheel_move_the_view() {
    let v = Viewport { scroll_offset: 50, total_cols: 300, visible: 80, auto_follow: true, hover_col: Some(3) };
    let moved = |offset: usize| Viewport { scroll_offset: offset, auto_follow: false, hover_col: None, ..v };
    assert_eq!(view_step(v, ViewEvent::Quit), (v, ViewAction::Quit));
    assert_eq!(view_step(v, ViewEvent::TogglePlay), (v, ViewAction::TogglePlay));
    assert_eq!(view_step(v, ViewEvent::ToggleFollow).0.auto_follow, false);
    assert_eq!(view_step(v, ViewEvent::KeyLeft), (moved(20), ViewAction::Nothing));
    assert_eq!(view_step(v, ViewEvent::KeyRight), (moved(80), ViewAction::Nothing));
    assert_eq!(view_step(v, ViewEvent::WheelUp), (moved(30), ViewAction::Nothing));
    assert_eq!(view_step(v, ViewEvent::WheelDown), (moved(70), ViewAction::Nothing));
    assert_eq!(view_step(v, ViewEvent::Home), (moved(0), ViewAction::Nothing));
    assert_eq!(view_step(v, ViewEvent::End), (moved(220), ViewAction::Nothing));
    let near_end = Viewport { scroll_offset: 210, ..v };
    assert_eq!(view_step(near_end, ViewEvent::KeyRight).0.scroll_offset, 220);
    let start = Viewport { scroll_offset: 5, ..v };
    assert_eq!(view_step(start, ViewEvent::KeyLeft).0.scroll_offset, 0);
}

#[test]
fn header_text_of_the_frontmatter() {
    let mut m = ScoreMetadata::default();
    assert_eq!(header_left_text(&m, &None), "(no metadata)");
    assert_eq!(header_left_text(&m, &Some("bad".to_string())), "  —  [reload error: bad]");
    m.title = "Song".to_string();
    m.composer = Some("Me".to_string());
    m.tempo = Some("4 = 90".to_string());
    m.key = Some("g \\minor".to_string());
    m.time = Some("3/4".to_string());
    assert_eq!(header_left_text(&m, &None), "Song  |  Me  |  ♪ 4 = 90  |  key: g minor  |  3/4");
    let mut k = ScoreMetadata::default();
    k.key = Some("c".to_string());
    assert_eq!(header_left_text(&k, &Some("x".to_string())), "key: c  —  [reload error: x]");
}
