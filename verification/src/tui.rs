//! The decisions of the terminal player that do not touch the terminal:
//! tempo and bar length of a score, mapping the mouse to grid columns,
//! scrolling the timeline, the header's text and the text of a track's top
//! border.

use vstd::prelude::*;

use crate::audio::{metadata_bpm, opt_chars};
use crate::score::{Score, ScoreMetadata};
use crate::sparkline::{current_tick, Progress, GRID_X_OFFSET};
use crate::text::{
    chars_of, dec, join, lemma_join_push, parse_u32, parse_u32_chars, push_chars, push_dec, push_str,
    replace_all, replace_chars, split_once, split_once_chars, string_from, trim, trim_chars,
};

verus! {

/// Tempo (beats per minute) of a score's frontmatter: the number after `=`
/// in `tempo` (such as `4 = 70`), else 120.
pub fn tempo_from(score: &Score) -> (r: u32)
    ensures
        r == metadata_bpm(opt_chars(score.metadata.tempo)),
{
    crate::audio::tempo_of_metadata(&score.metadata.tempo)
}

/// Ticks per bar of a time signature `num/den`: `num` beats of a
/// `1/den` note (480 ticks a quarter note); `None` without a valid one.
pub open spec fn bar_ticks(time: Option<Seq<char>>) -> Option<u64> {
    match time {
        None => None,
        Some(t) => match split_once(t, '/') {
            None => None,
            Some((a, b)) => match parse_u32(trim(a)) {
                None => None,
                Some(num) => match parse_u32(trim(b)) {
                    None => None,
                    Some(den) => if den == 0 {
                        None
                    } else {
                        Some((num as int * (1920int / (den as int))) as u64)
                    },
                },
            },
        },
    }
}

/// Compute the number of ticks per bar from the time signature.
/// e.g. 4/4 → 4 × 480 = 1920, 6/8 → 6 × 240 = 1440, 3/4 → 3 × 480 = 1440.
pub fn ticks_per_bar_from(score: &Score) -> (r: Option<u64>)
    ensures
        r == bar_ticks(opt_chars(score.metadata.time)),
{
    let time = match &score.metadata.time {
        Some(t) => t,
        None => {
            return None;
        },
    };
    let tv = chars_of(time.as_str());
    let (a, b) = match split_once_chars(tv.as_slice(), '/') {
        Some(p) => p,
        None => {
            return None;
        },
    };
    let num = match parse_u32_chars(trim_chars(a.as_slice()).as_slice()) {
        Some(n) => n,
        None => {
            return None;
        },
    };
    let den = match parse_u32_chars(trim_chars(b.as_slice()).as_slice()) {
        Some(d) => d,
        None => {
            return None;
        },
    };
    if den == 0 {
        return None;
    }
    let unit: u64 = 1920 / den as u64;
    assert(num as int * unit as int <= u64::MAX) by (nonlinear_arith)
        requires
            num <= u32::MAX,
            unit <= 1920,
    ;
    Some(num as u64 * unit)
}

/// A rectangle of terminal cells.
#[derive(Debug, Clone, Copy, PartialEq, Eq, Structural)]
pub struct Rect {
    pub x: u16,
    pub y: u16,
    pub width: u16,
    pub height: u16,
}

pub open spec fn contains(r: Rect, col: int, row: int) -> bool {
    r.x <= col < r.x + r.width && r.y <= row < r.y + r.height
}

/// The first rectangle holding the cell `(col, row)`.
pub open spec fn first_hit(rects: Seq<Rect>, col: int, row: int, k: int) -> Option<usize>
    decreases rects.len() - k,
{
    if k < 0 || k >= rects.len() {
        None
    } else if contains(rects[k], col, row) {
        Some(k as usize)
    } else {
        first_hit(rects, col, row, k + 1)
    }
}

/// Index of the first rectangle (button, settings row) under the mouse.
pub fn hit_index(rects: &[Rect], column: u16, row: u16) -> (r: Option<usize>)
    ensures
        r == first_hit(rects@, column as int, row as int, 0),
{
    let mut k: usize = 0;
    while k < rects.len()
        invariant
            k <= rects@.len(),
            first_hit(rects@, column as int, row as int, k as int) == first_hit(
                rects@,
                column as int,
                row as int,
                0,
            ),
        decreases rects@.len() - k,
    {
        let r = rects[k];
        if column >= r.x && (column as u32) < r.x as u32 + r.width as u32 && row >= r.y && (row as u32)
            < r.y as u32 + r.height as u32 {
            return Some(k);
        }
        k = k + 1;
    }
    None
}

/// Row `y` lies within the rectangle's rows.
pub open spec fn in_rows(r: Rect, y: int) -> bool {
    r.y <= y < r.y + r.height
}

/// The grid column under the mouse: only inside a track's rows and inside
/// the visible grid, shifted by the scroll offset.
pub open spec fn column_at(x: int, y: int, tracks: Seq<Rect>, grid: Rect, scroll: int) -> Option<int> {
    if !(exists|i: int| 0 <= i < tracks.len() && in_rows(#[trigger] tracks[i], y)) {
        None
    } else if x < grid.x || x >= grid.x + grid.width {
        None
    } else {
        Some(x - grid.x + scroll)
    }
}

pub fn screen_x_to_col(x: u16, y: u16, track_rects: &[Rect], grid_rect: Rect, scroll_offset: usize) -> (r:
    Option<usize>)
    requires
        x >= grid_rect.x ==> x - grid_rect.x + scroll_offset <= usize::MAX,
    ensures
        match r {
            Some(c) => column_at(x as int, y as int, track_rects@, grid_rect, scroll_offset as int)
                == Some(c as int),
            None => column_at(x as int, y as int, track_rects@, grid_rect, scroll_offset as int) is None,
        },
{
    let mut inside = false;
    let mut k: usize = 0;
    while k < track_rects.len()
        invariant
            k <= track_rects@.len(),
            inside == exists|i: int| 0 <= i < k && in_rows(#[trigger] track_rects@[i], y as int),
        decreases track_rects@.len() - k,
    {
        let r = track_rects[k];
        if y >= r.y && (y as u32) < r.y as u32 + r.height as u32 {
            inside = true;
        }
        k = k + 1;
    }
    if !inside {
        return None;
    }
    if x < grid_rect.x || (x as u32) >= grid_rect.x as u32 + grid_rect.width as u32 {
        return None;
    }
    Some((x - grid_rect.x) as usize + scroll_offset)
}

/// Number of grid columns visible (at most the grid's).
pub fn visible_cols(total_cols: usize, grid_width: u16) -> (r: usize)
    ensures
        r == if total_cols < grid_width {
            total_cols as int
        } else {
            grid_width as int
        },
{
    if total_cols < grid_width as usize {
        total_cols
    } else {
        grid_width as usize
    }
}

/// The largest scroll offset: the columns that do not fit.
pub open spec fn max_scroll(total_cols: int, visible: int) -> int {
    if total_cols > visible {
        total_cols - visible
    } else {
        0
    }
}

/// A scroll offset kept at most the largest.
pub fn clamp_scroll(offset: usize, total_cols: usize, visible: usize) -> (r: usize)
    ensures
        r == if offset < max_scroll(total_cols as int, visible as int) {
            offset as int
        } else {
            max_scroll(total_cols as int, visible as int)
        },
{
    let max: usize = if total_cols > visible {
        total_cols - visible
    } else {
        0
    };
    if offset < max {
        offset
    } else {
        max
    }
}

/// Columns moved by an arrow key: a tenth of the timeline (at least 20
/// columns counted), at least 4.
pub fn key_scroll_step(total_cols: usize) -> (r: usize)
    ensures
        r == ({
            let t = if total_cols > 20 {
                total_cols as int
            } else {
                20
            };
            if t / 10 > 4 {
                t / 10
            } else {
                4
            }
        }),
{
    let t = if total_cols > 20 {
        total_cols
    } else {
        20
    };
    if t / 10 > 4 {
        t / 10
    } else {
        4
    }
}

/// Columns moved by a wheel notch: a quarter of the visible width (at
/// least 8 counted).
pub fn wheel_scroll_step(visible: usize) -> (r: usize)
    ensures
        r == (if visible > 8 {
            visible as int
        } else {
            8
        }) / 4,
{
    (if visible > 8 {
        visible
    } else {
        8
    }) / 4
}

/// Scrolling right by `step`, not past the largest offset.
pub fn scroll_right(offset: usize, step: usize, total_cols: usize, visible: usize) -> (r: usize)
    requires
        offset + step <= usize::MAX,
    ensures
        r == if offset + step < max_scroll(total_cols as int, visible as int) {
            offset + step
        } else {
            max_scroll(total_cols as int, visible as int)
        },
{
    let max: usize = if total_cols > visible {
        total_cols - visible
    } else {
        0
    };
    if offset + step < max {
        offset + step
    } else {
        max
    }
}

/// Auto-follow: once the playhead column `cur` reaches 7/8 of the visible
/// width, the offset that puts it 1/8 from the left (at most the largest
/// offset); `None` when the view stays.
pub open spec fn follow_target(cur: int, offset: int, visible: int, total_cols: int) -> Option<int> {
    if total_cols <= visible {
        None
    } else {
        let in_view = if cur > offset {
            cur - offset
        } else {
            0
        };
        if in_view >= visible * 7 / 8 {
            let t0 = if cur > visible / 8 {
                cur - visible / 8
            } else {
                0
            };
            let t = if t0 < total_cols - visible {
                t0
            } else {
                total_cols - visible
            };
            if t != offset {
                Some(t)
            } else {
                None
            }
        } else {
            None
        }
    }
}

pub fn follow_scroll(cur: usize, offset: usize, visible: usize, total_cols: usize) -> (r: Option<usize>)
    requires
        visible * 7 <= usize::MAX,
    ensures
        match r {
            Some(t) => follow_target(cur as int, offset as int, visible as int, total_cols as int) == Some(
                t as int,
            ),
            None => follow_target(cur as int, offset as int, visible as int, total_cols as int) is None,
        },
{
    if total_cols <= visible {
        return None;
    }
    let in_view = if cur > offset {
        cur - offset
    } else {
        0
    };
    if in_view >= visible * 7 / 8 {
        let t0 = if cur > visible / 8 {
            cur - visible / 8
        } else {
            0
        };
        let max = total_cols - visible;
        let t = if t0 < max {
            t0
        } else {
            max
        };
        if t != offset {
            Some(t)
        } else {
            None
        }
    } else {
        None
    }
}

/// The tick to seek to at a fraction of the timeline: rounded, within it.
pub fn seek_tick(fraction: Progress, total: u64) -> (r: u64)
    ensures
        r == current_tick(fraction, total as nat),
        r <= total,
{
    crate::sparkline::current_tick_of(fraction, total)
}

// ───────────────────────── track borders ─────────────────────────

/// A line with the characters of `writes` put in, in order; a position
/// outside the line is skipped.
pub open spec fn overlay(line: Seq<char>, writes: Seq<(int, char)>) -> Seq<char>
    decreases writes.len(),
{
    if writes.len() == 0 {
        line
    } else {
        let l = overlay(line, writes.drop_last());
        let w = writes.last();
        if 0 <= w.0 < l.len() {
            l.update(w.0, w.1)
        } else {
            l
        }
    }
}

/// `a - b`, or 0 below it.
pub open spec fn sat_sub(a: int, b: int) -> int {
    if a > b {
        a - b
    } else {
        0
    }
}

/// The track's name, ` name `, from the line's start.
pub open spec fn label_writes(name: Seq<char>) -> Seq<(int, char)> {
    let label = seq![' '] + name + seq![' '];
    Seq::new(label.len(), |i: int| (i, label[i]))
}

/// The digits of a number, right-aligned to end at `pos` (pressed against
/// the line's start where they do not fit before it).
pub open spec fn digit_writes(d: Seq<char>, pos: int) -> Seq<(int, char)> {
    Seq::new(d.len(), |o: int| (sat_sub(pos, o), d[d.len() - 1 - o]))
}

/// A bar number ending at `pos`, with a blank before and after it.
pub open spec fn number_writes(n: nat, pos: int) -> Seq<(int, char)> {
    digit_writes(dec(n), pos) + seq![(sat_sub(pos, dec(n).len() as int), ' '), (pos + 1, ' ')]
}

/// The number of every fourth bar over its bar line, where that line is in
/// view: bar line `k` (from 0) of `cols` opens bar `k + 2`, and its column
/// `c` is drawn at `GRID_X_OFFSET + c - scroll`.
pub open spec fn bar_number_writes(cols: Seq<u64>, scroll: nat, visible: nat) -> Seq<(int, char)>
    decreases cols.len(),
{
    if cols.len() == 0 {
        seq![]
    } else {
        let n = (cols.len() + 1) as nat;
        let c = cols.last() as int;
        let rest = bar_number_writes(cols.drop_last(), scroll, visible);
        if n % 4 != 0 || c < scroll || c >= scroll + visible {
            rest
        } else {
            rest + number_writes(n, GRID_X_OFFSET + c - scroll)
        }
    }
}

/// The top border of a track `width` cells wide: corners around a line of
/// `─` carrying the track's name and, with `bar_cols`, the bar numbers.
pub open spec fn top_border(
    width: u16,
    name: Seq<char>,
    bar_cols: Option<Seq<u64>>,
    visible: nat,
    scroll: nat,
) -> Seq<char> {
    let lw: nat = if width >= 2 {
        (width - 2) as nat
    } else {
        0
    };
    let writes = label_writes(name) + match bar_cols {
        Some(cs) => bar_number_writes(cs, scroll, visible),
        None => seq![],
    };
    seq!['┌'] + overlay(Seq::new(lw, |i: int| '─'), writes) + seq!['┐']
}

proof fn lemma_overlay_push(line: Seq<char>, ws: Seq<(int, char)>, w: (int, char))
    ensures
        overlay(line, ws.push(w)) == ({
            let l = overlay(line, ws);
            if 0 <= w.0 < l.len() {
                l.update(w.0, w.1)
            } else {
                l
            }
        }),
{
    assert(ws.push(w).drop_last() == ws);
}

proof fn lemma_overlay_len(line: Seq<char>, ws: Seq<(int, char)>)
    ensures
        overlay(line, ws).len() == line.len(),
    decreases ws.len(),
{
    if ws.len() > 0 {
        lemma_overlay_len(line, ws.drop_last());
    }
}

/// Put `c` at position `p` of the line, if it is inside.
fn put_char(buf: &mut Vec<char>, p: u128, c: char, Ghost(line): Ghost<Seq<char>>, Ghost(ws): Ghost<Seq<(int, char)>>)
    requires
        old(buf)@ == overlay(line, ws),
    ensures
        final(buf)@ == overlay(line, ws.push((p as int, c))),
{
    proof {
        lemma_overlay_push(line, ws, (p as int, c));
    }
    if p < buf.len() as u128 {
        buf.set(p as usize, c);
    }
}

/// The text of a track's top border (see `top_border`).
pub fn track_top_border(
    width: u16,
    track_name: &str,
    bar_cols: Option<&[u64]>,
    visible_width: usize,
    scroll_offset: usize,
) -> (r: String)
    requires
        bar_cols matches Some(cs) ==> cs@.len() + 2 <= u64::MAX,
    ensures
        r@ == top_border(
            width,
            track_name@,
            match bar_cols {
                Some(cs) => Some(cs@),
                None => None,
            },
            visible_width as nat,
            scroll_offset as nat,
        ),
{
    let lw: usize = if width >= 2 {
        (width - 2) as usize
    } else {
        0
    };
    let mut buf: Vec<char> = Vec::new();
    while buf.len() < lw
        invariant
            buf.len() <= lw,
            buf@ == Seq::new(buf.len() as nat, |i: int| '─'),
        decreases lw - buf.len(),
    {
        buf.push('─');
        assert(buf@ =~= Seq::new(buf.len() as nat, |i: int| '─'));
    }
    let ghost line = buf@;
    let ghost mut ws: Seq<(int, char)> = seq![];
    // The name.
    let mut label: Vec<char> = Vec::new();
    label.push(' ');
    let name = chars_of(track_name);
    let mut j: usize = 0;
    while j < name.len()
        invariant
            j <= name@.len(),
            label@ == seq![' '] + name@.take(j as int),
        decreases name@.len() - j,
    {
        label.push(name[j]);
        assert(name@.take(j + 1) == name@.take(j as int).push(name@[j as int]));
        j = j + 1;
    }
    label.push(' ');
    assert(name@.take(name@.len() as int) == name@);
    assert(label@ == seq![' '] + track_name@ + seq![' ']);
    let mut i: usize = 0;
    while i < label.len()
        invariant
            i <= label@.len(),
            label@ == seq![' '] + track_name@ + seq![' '],
            buf@ == overlay(line, ws),
            ws == label_writes(track_name@).take(i as int),
        decreases label@.len() - i,
    {
        put_char(&mut buf, i as u128, label[i], Ghost(line), Ghost(ws));
        proof {
            assert(label_writes(track_name@).take(i + 1) == ws.push((i as int, label@[i as int])));
            ws = ws.push((i as int, label@[i as int]));
        }
        i = i + 1;
    }
    assert(label_writes(track_name@).take(label@.len() as int) == label_writes(track_name@));
    let ghost ws0 = ws;
    // The bar numbers.
    match bar_cols {
        None => {
            assert(ws0 + Seq::<(int, char)>::empty() == ws0);
        },
        Some(cols) => {
            let mut k: usize = 0;
            while k < cols.len()
                invariant
                    k <= cols@.len(),
                    cols@.len() + 2 <= u64::MAX,
                    buf@ == overlay(line, ws),
                    ws == ws0 + bar_number_writes(cols@.take(k as int), scroll_offset as nat, visible_width as nat),
                decreases cols@.len() - k,
            {
                let ghost before = ws;
                proof {
                    let t = cols@.take(k + 1);
                    assert(t.drop_last() == cols@.take(k as int));
                    assert(t.last() == cols@[k as int]);
                }
                let n: u64 = k as u64 + 2;
                let c = cols[k];
                if n % 4 == 0 && c as u128 >= scroll_offset as u128 && (c as u128) - (scroll_offset as u128)
                    < visible_width as u128 {
                    let pos: u128 = GRID_X_OFFSET as u128 + (c as u128 - scroll_offset as u128);
                    let mut d: Vec<char> = Vec::new();
                    push_dec(&mut d, n);
                    assert(d@ == dec(n as nat));
                    let mut o: usize = 0;
                    while o < d.len()
                        invariant
                            o <= d@.len(),
                            d@ == dec(n as nat),
                            buf@ == overlay(line, ws),
                            ws == before + digit_writes(d@, pos as int).take(o as int),
                        decreases d@.len() - o,
                    {
                        let p: u128 = if pos > o as u128 {
                            pos - o as u128
                        } else {
                            0
                        };
                        put_char(&mut buf, p, d[d.len() - 1 - o], Ghost(line), Ghost(ws));
                        proof {
                            assert(digit_writes(d@, pos as int).take(o + 1) == digit_writes(
                                d@,
                                pos as int,
                            ).take(o as int).push((p as int, d@[d@.len() - 1 - o])));
                            ws = ws.push((p as int, d@[d@.len() - 1 - o]));
                        }
                        o = o + 1;
                    }
                    assert(digit_writes(d@, pos as int).take(d@.len() as int) == digit_writes(d@, pos as int));
                    let before_pos: u128 = if pos > d.len() as u128 {
                        pos - d.len() as u128
                    } else {
                        0
                    };
                    put_char(&mut buf, before_pos, ' ', Ghost(line), Ghost(ws));
                    proof {
                        ws = ws.push((before_pos as int, ' '));
                    }
                    put_char(&mut buf, pos + 1, ' ', Ghost(line), Ghost(ws));
                    proof {
                        ws = ws.push((pos + 1, ' '));
                        assert(ws == before + number_writes(n as nat, GRID_X_OFFSET + c - scroll_offset));
                    }
                }
                k = k + 1;
            }
            assert(cols@.take(cols@.len() as int) == cols@);
        },
    }
    proof {
        lemma_overlay_len(line, ws);
    }
    let mut out: Vec<char> = Vec::new();
    out.push('┌');
    let mut m: usize = 0;
    while m < buf.len()
        invariant
            m <= buf@.len(),
            out@ == seq!['┌'] + buf@.take(m as int),
        decreases buf@.len() - m,
    {
        out.push(buf[m]);
        assert(buf@.take(m + 1) == buf@.take(m as int).push(buf@[m as int]));
        m = m + 1;
    }
    out.push('┐');
    assert(buf@.take(buf@.len() as int) == buf@);
    string_from(out.as_slice())
}

// ───────────────────────── header buttons ─────────────────────────

/// Where the header's right side starts: its width is the progress text,
/// the play, follow and quit labels, a one-cell settings slot and the four
/// two-cell gaps, right-aligned in `inner`.
pub open spec fn header_start(inner: Rect, prog: int, play: int, follow: int, quit: int) -> int {
    let right_total = prog + 2 + play + 2 + follow + 2 + 1 + 2 + quit;
    inner.x + sat_sub(inner.width as int, right_total)
}

/// The header's right side and its play, follow, settings and quit buttons,
/// one row high, left to right after the progress text with two-cell gaps.
pub fn header_buttons(inner: Rect, prog: u16, play: u16, follow: u16, settings: u16, quit: u16) -> (r: (
    Rect,
    Vec<Rect>,
))
    requires
        prog + 2 + play + 2 + follow + 2 + 1 + 2 + quit <= u16::MAX,
        header_start(inner, prog as int, play as int, follow as int, quit as int) + prog + 2 + play + 2
            + follow + 2 + settings + 2 <= u16::MAX,
    ensures
        ({
            let x0 = header_start(inner, prog as int, play as int, follow as int, quit as int);
            let play_x = x0 + prog + 2;
            let follow_x = play_x + play + 2;
            let settings_x = follow_x + follow + 2;
            let quit_x = settings_x + settings + 2;
            &&& r.0 == (Rect {
                x: x0 as u16,
                y: inner.y,
                width: (prog + 2 + play + 2 + follow + 2 + 1 + 2 + quit) as u16,
                height: 1,
            })
            &&& r.1@ == seq![
                Rect { x: play_x as u16, y: inner.y, width: play, height: 1 },
                Rect { x: follow_x as u16, y: inner.y, width: follow, height: 1 },
                Rect { x: settings_x as u16, y: inner.y, width: settings, height: 1 },
                Rect { x: quit_x as u16, y: inner.y, width: quit, height: 1 },
            ]
        }),
{
    let right_total: u16 = prog + 2 + play + 2 + follow + 2 + 1 + 2 + quit;
    let start_x: u16 = inner.x + if inner.width > right_total {
        inner.width - right_total
    } else {
        0
    };
    let play_x: u16 = start_x + prog + 2;
    let follow_x: u16 = play_x + play + 2;
    let settings_x: u16 = follow_x + follow + 2;
    let quit_x: u16 = settings_x + settings + 2;
    let mut buttons: Vec<Rect> = Vec::new();
    buttons.push(Rect { x: play_x, y: inner.y, width: play, height: 1 });
    buttons.push(Rect { x: follow_x, y: inner.y, width: follow, height: 1 });
    buttons.push(Rect { x: settings_x, y: inner.y, width: settings, height: 1 });
    buttons.push(Rect { x: quit_x, y: inner.y, width: quit, height: 1 });
    (Rect { x: start_x, y: inner.y, width: right_total, height: 1 }, buttons)
}

// ───────────────────────── keys and the wheel ─────────────────────────

/// What the player shows of the timeline, and how it follows playback.
#[derive(Debug, Clone, Copy, PartialEq, Eq, Structural)]
pub struct Viewport {
    pub scroll_offset: usize,
    pub total_cols: usize,
    /// Grid columns that fit on screen.
    pub visible: usize,
    pub auto_follow: bool,
    pub hover_col: Option<usize>,
}

/// A key press or wheel notch that the player acts on.
#[derive(Debug, Clone, Copy, PartialEq, Eq, Structural)]
pub enum ViewEvent {
    /// `q` or Esc.
    Quit,
    /// `f`.
    ToggleFollow,
    /// Space.
    TogglePlay,
    KeyLeft,
    KeyRight,
    Home,
    End,
    WheelUp,
    WheelDown,
}

/// What the program does after an event, besides showing the new view.
#[derive(Debug, Clone, Copy, PartialEq, Eq, Structural)]
pub enum ViewAction {
    Nothing,
    Quit,
    /// Pause, resume or restart playback.
    TogglePlay,
}

pub open spec fn key_step_of(total_cols: int) -> int {
    let t = if total_cols > 20 {
        total_cols
    } else {
        20
    };
    if t / 10 > 4 {
        t / 10
    } else {
        4
    }
}

pub open spec fn wheel_step_of(visible: int) -> int {
    (if visible > 8 {
        visible
    } else {
        8
    }) / 4
}

/// The view scrolled to `offset`, no longer following playback and with no
/// hovered column.
pub open spec fn scrolled(v: Viewport, offset: int) -> Viewport {
    Viewport { scroll_offset: offset as usize, hover_col: None, auto_follow: false, ..v }
}

pub open spec fn right_of(v: Viewport, step: int) -> int {
    let m = max_scroll(v.total_cols as int, v.visible as int);
    if v.scroll_offset + step < m {
        v.scroll_offset + step
    } else {
        m
    }
}

/// The next view and action: arrows move a tenth of the timeline, the wheel
/// a quarter of the screen, Home and End go to either end (each stops
/// following playback); `f` toggles following.
pub open spec fn view_next(v: Viewport, e: ViewEvent) -> (Viewport, ViewAction) {
    match e {
        ViewEvent::Quit => (v, ViewAction::Quit),
        ViewEvent::ToggleFollow => (Viewport { auto_follow: !v.auto_follow, ..v }, ViewAction::Nothing),
        ViewEvent::TogglePlay => (v, ViewAction::TogglePlay),
        ViewEvent::KeyLeft => (
            scrolled(v, sat_sub(v.scroll_offset as int, key_step_of(v.total_cols as int))),
            ViewAction::Nothing,
        ),
        ViewEvent::KeyRight => (scrolled(v, right_of(v, key_step_of(v.total_cols as int))), ViewAction::Nothing),
        ViewEvent::Home => (scrolled(v, 0), ViewAction::Nothing),
        ViewEvent::End => (
            scrolled(v, max_scroll(v.total_cols as int, v.visible as int)),
            ViewAction::Nothing,
        ),
        ViewEvent::WheelUp => (
            scrolled(v, sat_sub(v.scroll_offset as int, wheel_step_of(v.visible as int))),
            ViewAction::Nothing,
        ),
        ViewEvent::WheelDown => (scrolled(v, right_of(v, wheel_step_of(v.visible as int))), ViewAction::Nothing),
    }
}

/// Scrolling right by a step does not overflow an offset.
pub open spec fn view_event_ok(v: Viewport, e: ViewEvent) -> bool {
    match e {
        ViewEvent::KeyRight => v.scroll_offset + key_step_of(v.total_cols as int) <= usize::MAX,
        ViewEvent::WheelDown => v.scroll_offset + wheel_step_of(v.visible as int) <= usize::MAX,
        _ => true,
    }
}

/// One key press or wheel notch of the player.
pub fn view_step(v: Viewport, e: ViewEvent) -> (r: (Viewport, ViewAction))
    requires
        view_event_ok(v, e),
    ensures
        r == view_next(v, e),
{
    match e {
        ViewEvent::Quit => (v, ViewAction::Quit),
        ViewEvent::ToggleFollow => (Viewport { auto_follow: !v.auto_follow, ..v }, ViewAction::Nothing),
        ViewEvent::TogglePlay => (v, ViewAction::TogglePlay),
        ViewEvent::KeyLeft | ViewEvent::WheelUp => {
            let step = if e == ViewEvent::KeyLeft {
                key_scroll_step(v.total_cols)
            } else {
                wheel_scroll_step(v.visible)
            };
            let offset = if v.scroll_offset > step {
                v.scroll_offset - step
            } else {
                0
            };
            (Viewport { scroll_offset: offset, hover_col: None, auto_follow: false, ..v }, ViewAction::Nothing)
        },
        ViewEvent::KeyRight | ViewEvent::WheelDown => {
            let step = if e == ViewEvent::KeyRight {
                key_scroll_step(v.total_cols)
            } else {
                wheel_scroll_step(v.visible)
            };
            let offset = scroll_right(v.scroll_offset, step, v.total_cols, v.visible);
            (Viewport { scroll_offset: offset, hover_col: None, auto_follow: false, ..v }, ViewAction::Nothing)
        },
        ViewEvent::Home => (Viewport { scroll_offset: 0, hover_col: None, auto_follow: false, ..v }, ViewAction::Nothing),
        ViewEvent::End => {
            let offset = clamp_scroll(usize::MAX, v.total_cols, v.visible);
            (Viewport { scroll_offset: offset, hover_col: None, auto_follow: false, ..v }, ViewAction::Nothing)
        },
    }
}

// ───────────────────────── header text ─────────────────────────

/// The frontmatter fields the header shows, in order: the title (if not
/// empty), the composer, `♪ ` and the tempo, `key: ` and the key without
/// backslashes, the time signature.
pub open spec fn header_parts(m: ScoreMetadata) -> Seq<Seq<char>> {
    title_part(m) + composer_part(m) + tempo_part(m) + key_part(m) + time_part(m)
}

pub open spec fn title_part(m: ScoreMetadata) -> Seq<Seq<char>> {
    if m.title@.len() > 0 {
        seq![m.title@]
    } else {
        seq![]
    }
}

pub open spec fn composer_part(m: ScoreMetadata) -> Seq<Seq<char>> {
    match m.composer {
        Some(x) => seq![x@],
        None => seq![],
    }
}

pub open spec fn tempo_part(m: ScoreMetadata) -> Seq<Seq<char>> {
    match m.tempo {
        Some(x) => seq!["♪ "@ + x@],
        None => seq![],
    }
}

pub open spec fn key_part(m: ScoreMetadata) -> Seq<Seq<char>> {
    match m.key {
        Some(x) => seq!["key: "@ + replace_all(x@, "\\"@, seq![])],
        None => seq![],
    }
}

pub open spec fn time_part(m: ScoreMetadata) -> Seq<Seq<char>> {
    match m.time {
        Some(x) => seq![x@],
        None => seq![],
    }
}

/// The left side of the header: the fields joined by `  |  `, followed by
/// the last reload error if there is one; `(no metadata)` without either.
pub open spec fn header_text(m: ScoreMetadata, reload_error: Option<Seq<char>>) -> Seq<char> {
    let parts = header_parts(m);
    match reload_error {
        Some(e) => join(parts, "  |  "@) + "  —  [reload error: "@ + e + "]"@,
        None => if parts.len() == 0 {
            "(no metadata)"@
        } else {
            join(parts, "  |  "@)
        },
    }
}

pub open spec fn part_views(ps: Seq<Vec<char>>) -> Seq<Seq<char>> {
    ps.map_values(|v: Vec<char>| v@)
}

/// The left side of the header (see `header_text`).
pub fn header_left_text(meta: &ScoreMetadata, reload_error: &Option<String>) -> (r: String)
    ensures
        r@ == header_text(
            *meta,
            match *reload_error {
                Some(e) => Some(e@),
                None => None,
            },
        ),
{
    let mut parts: Vec<Vec<char>> = Vec::new();
    if meta.title.as_str().unicode_len() > 0 {
        parts.push(chars_of(meta.title.as_str()));
    }
    assert(part_views(parts@) =~= title_part(*meta));
    let ghost p1 = part_views(parts@);
    match &meta.composer {
        Some(x) => parts.push(chars_of(x.as_str())),
        None => {},
    }
    assert(part_views(parts@) =~= p1 + composer_part(*meta));
    let ghost p2 = part_views(parts@);
    match &meta.tempo {
        Some(x) => {
            let mut p: Vec<char> = Vec::new();
            push_str(&mut p, "♪ ");
            push_str(&mut p, x.as_str());
            parts.push(p);
        },
        None => {},
    }
    assert(part_views(parts@) =~= p2 + tempo_part(*meta));
    let ghost p3 = part_views(parts@);
    match &meta.key {
        Some(x) => {
            let mut p: Vec<char> = Vec::new();
            push_str(&mut p, "key: ");
            let xv = chars_of(x.as_str());
            proof {
                reveal_strlit("\\");
                reveal_strlit("");
            }
            let cleaned = replace_chars(xv.as_slice(), "\\", "");
            push_chars(&mut p, &cleaned);
            assert(""@ =~= Seq::<char>::empty());
            assert(p@ =~= "key: "@ + replace_all(x@, "\\"@, seq![]));
            parts.push(p);
        },
        None => {},
    }
    assert(part_views(parts@) =~= p3 + key_part(*meta));
    let ghost p4 = part_views(parts@);
    match &meta.time {
        Some(x) => parts.push(chars_of(x.as_str())),
        None => {},
    }
    assert(part_views(parts@) =~= p4 + time_part(*meta));
    let ghost pv = part_views(parts@);
    assert(pv =~= header_parts(*meta));
    let mut out: Vec<char> = Vec::new();
    let mut i: usize = 0;
    while i < parts.len()
        invariant
            i <= parts@.len(),
            pv == part_views(parts@),
            out@ == join(pv.take(i as int), "  |  "@),
        decreases parts@.len() - i,
    {
        proof {
            lemma_join_push(pv, "  |  "@, i as int);
        }
        if i > 0 {
            push_str(&mut out, "  |  ");
        }
        push_chars(&mut out, &parts[i]);
        proof {
            if i == 0 {
                assert(join(pv.take(0), "  |  "@) == Seq::<char>::empty());
            }
        }
        i = i + 1;
    }
    assert(pv.take(pv.len() as int) == pv);
    match reload_error {
        Some(e) => {
            push_str(&mut out, "  —  [reload error: ");
            push_str(&mut out, e.as_str());
            push_str(&mut out, "]");
        },
        None => {
            if parts.len() == 0 {
                let mut none: Vec<char> = Vec::new();
                push_str(&mut none, "(no metadata)");
                return string_from(none.as_slice());
            }
        },
    }
    string_from(out.as_slice())
}

} // verus!
