//! Generation of a complete LilyPond `.ly` source from a `Score`.

use vstd::prelude::*;

use crate::score::{copy_track, Score, ScoreMetadata, Track};
use crate::text::{
    ascii_lower, chars_eq_str, chars_of, is_ascii_alnum, lines, push_chars, push_str,
    split_lines, string_from, to_ascii_lower,
};

verus! {

// ───────────────────────── specification ─────────────────────────

/// A character escaped for a LilyPond string literal.
pub open spec fn escape_char(c: char) -> Seq<char> {
    if c == '\\' {
        seq!['\\', '\\']
    } else if c == '"' {
        seq!['\\', '"']
    } else {
        seq![c]
    }
}

/// `s` with every `\` doubled and every `"` preceded by `\`.
pub open spec fn escaped(s: Seq<char>) -> Seq<char>
    decreases s.len(),
{
    if s.len() == 0 {
        seq![]
    } else {
        escaped(s.drop_last()) + escape_char(s.last())
    }
}

/// The tracks that are not `test` blocks, in order.
pub open spec fn active_tracks(ts: Seq<Track>) -> Seq<Track>
    decreases ts.len(),
{
    if ts.len() == 0 {
        seq![]
    } else if ts.last().syntax@ != "test"@ {
        active_tracks(ts.drop_last()).push(ts.last())
    } else {
        active_tracks(ts.drop_last())
    }
}

/// LilyPond note name (without octave marks) of a semitone `0..12` above C.
pub open spec fn pitch_name(semi: int) -> Seq<char> {
    if semi == 0 {
        seq!['c']
    } else if semi == 1 {
        seq!['c', 'i', 's']
    } else if semi == 2 {
        seq!['d']
    } else if semi == 3 {
        seq!['d', 'i', 's']
    } else if semi == 4 {
        seq!['e']
    } else if semi == 5 {
        seq!['f']
    } else if semi == 6 {
        seq!['f', 'i', 's']
    } else if semi == 7 {
        seq!['g']
    } else if semi == 8 {
        seq!['g', 'i', 's']
    } else if semi == 9 {
        seq!['a']
    } else if semi == 10 {
        seq!['a', 'i', 's']
    } else {
        seq!['b']
    }
}

pub open spec fn repeat(c: char, n: int) -> Seq<char> {
    Seq::new(if n > 0 {
        n as nat
    } else {
        0
    }, |_i: int| c)
}

/// The `\transpose c <pitch>` target of an offset of `st` semitones, as
/// documented: 0 → `c`, 12 → `c'`, -12 → `c,`, 7 → `g`, -5 → `f,`,
/// 1 → `cis`. The note is `|st|` semitones (within the octave) above `c`;
/// each full octave up adds `'`, and a downward offset takes one `,` per
/// octave or part of one.
pub open spec fn transpose_target(st: int) -> Seq<char> {
    if st >= 0 {
        pitch_name(st % 12) + repeat('\'', st / 12)
    } else {
        pitch_name((-st) % 12) + repeat(',', (-st + 11) / 12)
    }
}

/// `prefix` + value + newline, if the value is present.
pub open spec fn opt_line(prefix: Seq<char>, o: Option<String>) -> Seq<char> {
    match o {
        Some(v) => prefix + v@ + "\n"@,
        None => seq![],
    }
}

/// A voice body: clef, key, time, tempo, notes.
pub open spec fn track_body_text(t: Track, m: ScoreMetadata) -> Seq<char> {
    "  \\clef "@ + t.clef@ + "\n"@ + opt_line("  \\key "@, m.key) + opt_line("  \\time "@, m.time)
        + opt_line("  \\tempo "@, m.tempo) + "  "@ + t.notes@ + "\n"@
}

/// Each line indented by two spaces and ended by a newline.
pub open spec fn indented(ls: Seq<Seq<char>>) -> Seq<char>
    decreases ls.len(),
{
    if ls.len() == 0 {
        seq![]
    } else {
        indented(ls.drop_last()) + "  "@ + ls.last() + "\n"@
    }
}

/// The definition of one voice; with a transposition, `\transpose` wraps
/// `\relative`.
pub open spec fn voice_text(t: Track, m: ScoreMetadata) -> Seq<char> {
    match m.transpose {
        Some(st) => t.name@ + " = \\transpose c "@ + transpose_target(st as int) + " {\n"@
            + "  \\relative "@ + t.relative@ + " {\n"@ + indented(lines(track_body_text(t, m)))
            + "  }\n"@ + "}\n\n"@,
        None => t.name@ + " = \\relative "@ + t.relative@ + " {\n"@ + track_body_text(t, m)
            + "}\n\n"@,
    }
}

pub open spec fn voices_text(ts: Seq<Track>, m: ScoreMetadata) -> Seq<char>
    decreases ts.len(),
{
    if ts.len() == 0 {
        seq![]
    } else {
        voices_text(ts.drop_last(), m) + voice_text(ts.last(), m)
    }
}

/// The instrument of a track for MIDI output.
pub open spec fn instrument(t: Track) -> Seq<char> {
    match t.midi_instrument {
        Some(i) => i@,
        None => "acoustic grand"@,
    }
}

/// One staff of the layout score (inside a piano staff).
pub open spec fn layout_staff(t: Track, tablature: bool) -> Seq<char> {
    if tablature {
        "    \\new StaffGroup <<\n"@ + "      \\new Staff = \""@ + t.name@ + "\" \\"@ + t.name@
            + "\n"@ + "      \\new TabStaff = \""@ + t.name@ + "_tab\" \\"@ + t.name@ + "\n"@
            + "    >>\n"@
    } else {
        "    \\new Staff = \""@ + t.name@ + "\" \\"@ + t.name@ + "\n"@
    }
}

/// One staff of the MIDI score (inside a piano staff).
pub open spec fn midi_staff(t: Track) -> Seq<char> {
    "    \\new Staff = \""@ + t.name@ + "\" {\n      \\set Staff.midiInstrument = #\""@
        + instrument(t) + "\"\n      \\"@ + t.name@ + "\n    }\n"@
}

pub open spec fn staves(ts: Seq<Track>, layout: bool, tablature: bool) -> Seq<char>
    decreases ts.len(),
{
    if ts.len() == 0 {
        seq![]
    } else {
        staves(ts.drop_last(), layout, tablature) + if layout {
            layout_staff(ts.last(), tablature)
        } else {
            midi_staff(ts.last())
        }
    }
}

/// The staff block of the layout (`layout`) or MIDI score. One track stands
/// alone; otherwise the tracks form a piano staff.
pub open spec fn staff_block(ts: Seq<Track>, layout: bool, tablature: bool) -> Seq<char> {
    if ts.len() == 1 {
        let t = ts[0];
        if layout {
            if tablature {
                "  \\new StaffGroup <<\n"@ + "    \\new Staff = \""@ + t.name@ + "\" \\"@ + t.name@
                    + "\n"@ + "    \\new TabStaff = \""@ + t.name@ + "_tab\" \\"@ + t.name@
                    + "\n"@ + "  >>\n"@
            } else {
                "  \\new Staff = \""@ + t.name@ + "\" \\"@ + t.name@ + "\n"@
            }
        } else {
            "  \\new Staff = \""@ + t.name@ + "\" {\n    \\set Staff.midiInstrument = #\""@
                + instrument(t) + "\"\n    \\"@ + t.name@ + "\n  }\n"@
        }
    } else {
        "  \\new PianoStaff <<\n"@ + staves(ts, layout, tablature) + "  >>\n"@
    }
}

/// ASCII letters and digits of `s`, in order.
pub open spec fn ascii_alnum_only(s: Seq<char>) -> Seq<char>
    decreases s.len(),
{
    if s.len() == 0 {
        seq![]
    } else if is_ascii_alnum(s.last()) {
        ascii_alnum_only(s.drop_last()).push(s.last())
    } else {
        ascii_alnum_only(s.drop_last())
    }
}

/// Name of the MIDI music variable and output file: the title's ASCII
/// letters and digits in lowercase with `_midi`, or `score_midi`.
pub open spec fn midi_name(title: Seq<char>) -> Seq<char> {
    let base = ascii_alnum_only(title);
    if base.len() == 0 {
        "score_midi"@
    } else {
        base.map_values(|c: char| ascii_lower(c)) + "_midi"@
    }
}

pub open spec fn header_field(prefix: Seq<char>, o: Option<String>) -> Seq<char> {
    match o {
        Some(v) => prefix + escaped(v@) + "\"\n"@,
        None => seq![],
    }
}

pub open spec fn header_text(m: ScoreMetadata) -> Seq<char> {
    "\\header {\n"@ + "  title = \""@ + escaped(m.title@) + "\"\n"@ + header_field(
        "  composer = \""@,
        m.composer,
    ) + header_field("  subtitle = \""@, m.subtitle) + header_field(
        "  dedication = \""@,
        m.dedication,
    ) + header_field("  poet = \""@, m.poet) + "}\n\n"@
}

pub open spec fn paper_text() -> Seq<char> {
    "\\paper {\n  indent = 10\\mm\n  markup-system-spacing.padding = #5\n}\n\n"@
}

/// The complete `.ly` source of a score.
pub open spec fn ly_source(score: Score) -> Seq<char> {
    let m = score.metadata;
    let ts = active_tracks(score.tracks@);
    let name = midi_name(m.title@);
    "\\version \"2.24.4\"\n\n"@ + header_text(m) + paper_text() + voices_text(ts, m)
        + "\\score {\n"@ + staff_block(ts, true, m.tablature) + "  \\layout { }\n}\n\n"@ + name
        + " = {\n"@ + staff_block(ts, false, false) + "}\n\n"@
        + "\\book {\n  \\bookOutputName \""@ + name + "\"\n  \\score { \\"@ + name
        + " \\midi { } }\n}\n"@
}

/// The source after the `\paper` block: voices, the score for the layout,
/// the score for MIDI and the book writing it.
pub open spec fn ly_body(score: Score) -> Seq<char> {
    let m = score.metadata;
    let ts = active_tracks(score.tracks@);
    let name = midi_name(m.title@);
    voices_text(ts, m)
        + "\\score {\n"@ + staff_block(ts, true, m.tablature) + "  \\layout { }\n}\n\n"@ + name
        + " = {\n"@ + staff_block(ts, false, false) + "}\n\n"@
        + "\\book {\n  \\bookOutputName \""@ + name + "\"\n  \\score { \\"@ + name
        + " \\midi { } }\n}\n"@
}

/// The source is its opening, header and paper block, then its body.
proof fn lemma_ly_source_parts(score: Score)
    ensures
        ly_source(score) == "\\version \"2.24.4\"\n\n"@ + header_text(score.metadata) + paper_text() + ly_body(score),
{
    let m = score.metadata;
    let ts = active_tracks(score.tracks@);
    let name = midi_name(m.title@);
    let v = "\\version \"2.24.4\"\n\n"@ + header_text(m) + paper_text();
    let x1 = voices_text(ts, m);
    let x2 = "\\score {\n"@;
    let x3 = staff_block(ts, true, m.tablature);
    let x4 = "  \\layout { }\n}\n\n"@;
    let x5 = " = {\n"@;
    let x6 = staff_block(ts, false, false);
    let x7 = "}\n\n"@;
    let x8 = "\\book {\n  \\bookOutputName \""@;
    let x9 = "\"\n  \\score { \\"@;
    let x10 = " \\midi { } }\n}\n"@;
    lemma_concat_assoc14(v, x1, x2, x3, x4, name, x5, x6, x7, x8, name, x9, name, x10);
}

proof fn lemma_concat_assoc14(
    v: Seq<char>, a: Seq<char>, b: Seq<char>, c: Seq<char>, d: Seq<char>, e: Seq<char>, f: Seq<char>,
    g: Seq<char>, h: Seq<char>, i: Seq<char>, j: Seq<char>, k: Seq<char>, l: Seq<char>, m: Seq<char>,
)
    ensures
        v + a + b + c + d + e + f + g + h + i + j + k + l + m == v + (a + b + c + d + e + f + g + h + i + j + k + l
            + m),
{
    assert(v + a + b + c + d + e + f + g + h + i + j + k + l + m =~= v + (a + b + c + d + e + f + g + h + i + j + k
        + l + m));
}

/// A source opening with the version line and a `\header` block whose
/// title line is followed by `a`, `line` and `b` before the block's closing
/// brace, then the `\paper` block and `c`.
pub open spec fn header_around(title: Seq<char>, a: Seq<char>, line: Seq<char>, b: Seq<char>, c: Seq<char>) -> Seq<char> {
    "\\version \"2.24.4\"\n\n"@ + ("\\header {\n"@ + "  title = \""@ + escaped(title) + "\"\n"@) + a + line + b
        + "}\n\n"@ + paper_text() + c
}

/// `line` stands in the `\header` block that opens the source.
pub open spec fn in_header(src: Seq<char>, title: Seq<char>, line: Seq<char>) -> bool {
    exists|a: Seq<char>, b: Seq<char>, c: Seq<char>| src == #[trigger] header_around(title, a, line, b, c)
}

/// Every header field of the frontmatter that is present is written in the
/// header block as `  field = "value"` with the value escaped: composer,
/// subtitle, dedication, poet.
pub proof fn law_header_fields_written(score: Score)
    ensures
        score.metadata.composer matches Some(v) ==> in_header(
            ly_source(score),
            score.metadata.title@,
            "  composer = \""@ + escaped(v@) + "\"\n"@,
        ),
        score.metadata.subtitle matches Some(v) ==> in_header(
            ly_source(score),
            score.metadata.title@,
            "  subtitle = \""@ + escaped(v@) + "\"\n"@,
        ),
        score.metadata.dedication matches Some(v) ==> in_header(
            ly_source(score),
            score.metadata.title@,
            "  dedication = \""@ + escaped(v@) + "\"\n"@,
        ),
        score.metadata.poet matches Some(v) ==> in_header(
            ly_source(score),
            score.metadata.title@,
            "  poet = \""@ + escaped(v@) + "\"\n"@,
        ),
{
    let m = score.metadata;
    let t = m.title@;
    let fc = header_field("  composer = \""@, m.composer);
    let fs = header_field("  subtitle = \""@, m.subtitle);
    let fd = header_field("  dedication = \""@, m.dedication);
    let fp = header_field("  poet = \""@, m.poet);
    let body = ly_body(score);
    let e = Seq::<char>::empty();
    lemma_header_split(
        "\\version \"2.24.4\"\n\n"@,
        "\\header {\n"@ + "  title = \""@ + escaped(t) + "\"\n"@,
        fc,
        fs,
        fd,
        fp,
        "}\n\n"@,
        paper_text(),
        body,
    );
    lemma_ly_source_parts(score);
    assert(ly_source(score) == "\\version \"2.24.4\"\n\n"@ + ("\\header {\n"@ + "  title = \""@ + escaped(t)
        + "\"\n"@ + fc + fs + fd + fp + "}\n\n"@) + paper_text() + body);
    assert(ly_source(score) == header_around(t, e, fc, fs + fd + fp, body));
    assert(ly_source(score) == header_around(t, fc, fs, fd + fp, body));
    assert(ly_source(score) == header_around(t, fc + fs, fd, fp, body));
    assert(ly_source(score) == header_around(t, fc + fs + fd, fp, e, body));
}

proof fn lemma_header_split(
    v: Seq<char>,
    h: Seq<char>,
    fc: Seq<char>,
    fs: Seq<char>,
    fd: Seq<char>,
    fp: Seq<char>,
    cl: Seq<char>,
    pt: Seq<char>,
    c: Seq<char>,
)
    ensures
        ({
            let src = v + (h + fc + fs + fd + fp + cl) + pt + c;
            let e = Seq::<char>::empty();
            &&& src == v + h + e + fc + (fs + fd + fp) + cl + pt + c
            &&& src == v + h + fc + fs + (fd + fp) + cl + pt + c
            &&& src == v + h + (fc + fs) + fd + fp + cl + pt + c
            &&& src == v + h + (fc + fs + fd) + fp + e + cl + pt + c
        }),
{
    let src = v + (h + fc + fs + fd + fp + cl) + pt + c;
    let e = Seq::<char>::empty();
    assert(src =~= v + h + e + fc + (fs + fd + fp) + cl + pt + c);
    assert(src =~= v + h + fc + fs + (fd + fp) + cl + pt + c);
    assert(src =~= v + h + (fc + fs) + fd + fp + cl + pt + c);
    assert(src =~= v + h + (fc + fs + fd) + fp + e + cl + pt + c);
}

/// Expected-output blocks (`lilypond-test`) leave the `.ly` source alone:
/// two scores with the same frontmatter and the same tracks apart from test
/// blocks give the same source.
pub proof fn law_test_blocks_change_no_ly(s1: Score, s2: Score)
    requires
        s1.metadata == s2.metadata,
        active_tracks(s1.tracks@) == active_tracks(s2.tracks@),
    ensures
        ly_source(s1) == ly_source(s2),
{
}

/// Dropping the test blocks from tracks that have none left changes nothing.
pub proof fn lemma_active_tracks_idempotent(ts: Seq<Track>)
    ensures
        active_tracks(active_tracks(ts)) == active_tracks(ts),
    decreases ts.len(),
{
    if ts.len() > 0 {
        lemma_active_tracks_idempotent(ts.drop_last());
        let a = active_tracks(ts);
        if ts.last().syntax@ != "test"@ {
            assert(a.drop_last() == active_tracks(ts.drop_last()));
        }
    }
}

/// The transposition can be computed without `i32` overflow.
pub open spec fn transpose_in_range(m: ScoreMetadata) -> bool {
    match m.transpose {
        Some(st) => st <= i32::MAX - 48,
        None => true,
    }
}

// ───────────────────────── implementation ─────────────────────────

fn push_string(out: &mut Vec<char>, s: &String)
    ensures
        final(out)@ == old(out)@ + s@,
{
    push_str(out, s.as_str());
}

/// `s` escaped for a LilyPond string literal.
fn push_escaped(out: &mut Vec<char>, s: &str)
    ensures
        final(out)@ == old(out)@ + escaped(s@),
{
    let v = chars_of(s);
    let ghost start = out@;
    let mut i: usize = 0;
    while i < v.len()
        invariant
            i <= v@.len(),
            v@ == s@,
            out@ == start + escaped(v@.take(i as int)),
        decreases v@.len() - i,
    {
        let c = v[i];
        if c == '\\' {
            out.push('\\');
            out.push('\\');
        } else if c == '"' {
            out.push('\\');
            out.push('"');
        } else {
            out.push(c);
        }
        proof {
            assert(v@.take(i + 1).drop_last() == v@.take(i as int));
            assert(v@.take(i + 1).last() == c);
            assert(out@ == start + escaped(v@.take(i as int)) + escape_char(c));
        }
        i = i + 1;
    }
    assert(v@.take(v@.len() as int) == v@);
}

fn is_test_track(t: &Track) -> (r: bool)
    ensures
        r == (t.syntax@ == "test"@),
{
    let v = chars_of(t.syntax.as_str());
    chars_eq_str(v.as_slice(), "test")
}

/// The non-test tracks of a score.
fn active_tracks_exec(ts: &Vec<Track>) -> (r: Vec<Track>)
    ensures
        r@ == active_tracks(ts@),
{
    let mut r: Vec<Track> = Vec::new();
    let mut i: usize = 0;
    while i < ts.len()
        invariant
            i <= ts@.len(),
            r@ == active_tracks(ts@.take(i as int)),
        decreases ts@.len() - i,
    {
        proof {
            assert(ts@.take(i + 1).drop_last() == ts@.take(i as int));
            assert(ts@.take(i + 1).last() == ts@[i as int]);
        }
        if !is_test_track(&ts[i]) {
            r.push(copy_track(&ts[i]));
        }
        i = i + 1;
    }
    assert(ts@.take(ts@.len() as int) == ts@);
    r
}

fn push_pitch_name(out: &mut Vec<char>, semi: i32)
    requires
        0 <= semi < 12,
    ensures
        final(out)@ == old(out)@ + pitch_name(semi as int),
{
    let (letter, sharp) = if semi == 0 {
        ('c', false)
    } else if semi == 1 {
        ('c', true)
    } else if semi == 2 {
        ('d', false)
    } else if semi == 3 {
        ('d', true)
    } else if semi == 4 {
        ('e', false)
    } else if semi == 5 {
        ('f', false)
    } else if semi == 6 {
        ('f', true)
    } else if semi == 7 {
        ('g', false)
    } else if semi == 8 {
        ('g', true)
    } else if semi == 9 {
        ('a', false)
    } else if semi == 10 {
        ('a', true)
    } else {
        ('b', false)
    };
    out.push(letter);
    if sharp {
        out.push('i');
        out.push('s');
    }
}

fn push_repeat(out: &mut Vec<char>, c: char, n: i32)
    ensures
        final(out)@ == old(out)@ + repeat(c, n as int),
{
    let ghost start = out@;
    let mut k: i32 = 0;
    while k < n
        invariant
            0 <= k,
            n > 0 ==> k <= n,
            n <= 0 ==> k == 0,
            out@ == start + repeat(c, k as int),
        decreases n - k,
    {
        out.push(c);
        k = k + 1;
        assert(out@ == start + repeat(c, k as int));
    }
    assert(repeat(c, k as int) =~= repeat(c, n as int));
}

/// Convert a semitone offset to a LilyPond pitch string for `\transpose c <pitch>`.
fn push_transpose_target(out: &mut Vec<char>, st: i32)
    requires
        st <= i32::MAX - 48,
    ensures
        final(out)@ == old(out)@ + transpose_target(st as int),
{
    if st >= 0 {
        push_pitch_name(out, st % 12);
        push_repeat(out, '\'', st / 12);
    } else {
        let a: i64 = -(st as i64);
        push_pitch_name(out, (a % 12) as i32);
        push_repeat(out, ',', ((a + 11) / 12) as i32);
    }
}

fn push_opt_line(out: &mut Vec<char>, prefix: &str, o: &Option<String>)
    ensures
        final(out)@ == old(out)@ + opt_line(prefix@, *o),
{
    match o {
        Some(v) => {
            push_str(out, prefix);
            push_string(out, v);
            push_str(out, "\n");
        },
        None => {},
    }
}

/// Generate the body of a voice definition (clef, key, time, tempo, notes).
fn track_body(t: &Track, m: &ScoreMetadata) -> (r: Vec<char>)
    ensures
        r@ == track_body_text(*t, *m),
{
    let mut b: Vec<char> = Vec::new();
    push_str(&mut b, "  \\clef ");
    push_string(&mut b, &t.clef);
    push_str(&mut b, "\n");
    push_opt_line(&mut b, "  \\key ", &m.key);
    push_opt_line(&mut b, "  \\time ", &m.time);
    push_opt_line(&mut b, "  \\tempo ", &m.tempo);
    push_str(&mut b, "  ");
    push_string(&mut b, &t.notes);
    push_str(&mut b, "\n");
    b
}

fn push_indented(out: &mut Vec<char>, ls: &Vec<Vec<char>>)
    ensures
        final(out)@ == old(out)@ + indented(ls@.map_values(|w: Vec<char>| w@)),
{
    let ghost start = out@;
    let ghost lv = ls@.map_values(|w: Vec<char>| w@);
    let mut i: usize = 0;
    while i < ls.len()
        invariant
            i <= ls@.len(),
            lv == ls@.map_values(|w: Vec<char>| w@),
            out@ == start + indented(lv.take(i as int)),
        decreases ls@.len() - i,
    {
        push_str(out, "  ");
        push_chars(out, &ls[i]);
        push_str(out, "\n");
        proof {
            assert(lv.take(i + 1).drop_last() == lv.take(i as int));
            assert(lv.take(i + 1).last() == ls@[i as int]@);
        }
        i = i + 1;
    }
    assert(lv.take(ls@.len() as int) == lv);
}

fn push_voice(out: &mut Vec<char>, t: &Track, m: &ScoreMetadata)
    requires
        transpose_in_range(*m),
    ensures
        final(out)@ == old(out)@ + voice_text(*t, *m),
{
    let body = track_body(t, m);
    match m.transpose {
        Some(st) => {
            push_string(out, &t.name);
            push_str(out, " = \\transpose c ");
            push_transpose_target(out, st);
            push_str(out, " {\n");
            push_str(out, "  \\relative ");
            push_string(out, &t.relative);
            push_str(out, " {\n");
            let ls = split_lines(body.as_slice());
            push_indented(out, &ls);
            push_str(out, "  }\n");
            push_str(out, "}\n\n");
        },
        None => {
            push_string(out, &t.name);
            push_str(out, " = \\relative ");
            push_string(out, &t.relative);
            push_str(out, " {\n");
            push_chars(out, &body);
            push_str(out, "}\n\n");
        },
    }
}

fn push_layout_staff(out: &mut Vec<char>, t: &Track, tablature: bool)
    ensures
        final(out)@ == old(out)@ + layout_staff(*t, tablature),
{
    if tablature {
        push_str(out, "    \\new StaffGroup <<\n");
        push_str(out, "      \\new Staff = \"");
        push_string(out, &t.name);
        push_str(out, "\" \\");
        push_string(out, &t.name);
        push_str(out, "\n");
        push_str(out, "      \\new TabStaff = \"");
        push_string(out, &t.name);
        push_str(out, "_tab\" \\");
        push_string(out, &t.name);
        push_str(out, "\n");
        push_str(out, "    >>\n");
    } else {
        push_str(out, "    \\new Staff = \"");
        push_string(out, &t.name);
        push_str(out, "\" \\");
        push_string(out, &t.name);
        push_str(out, "\n");
    }
}

fn push_instrument(out: &mut Vec<char>, t: &Track)
    ensures
        final(out)@ == old(out)@ + instrument(*t),
{
    match &t.midi_instrument {
        Some(i) => push_string(out, i),
        None => push_str(out, "acoustic grand"),
    }
}

fn push_midi_staff(out: &mut Vec<char>, t: &Track)
    ensures
        final(out)@ == old(out)@ + midi_staff(*t),
{
    push_str(out, "    \\new Staff = \"");
    push_string(out, &t.name);
    push_str(out, "\" {\n      \\set Staff.midiInstrument = #\"");
    push_instrument(out, t);
    push_str(out, "\"\n      \\");
    push_string(out, &t.name);
    push_str(out, "\n    }\n");
}

/// Write a staff block (layout or MIDI). `layout` controls indentation/structure.
fn write_staff_block(out: &mut Vec<char>, tracks: &Vec<Track>, layout: bool, tablature: bool)
    ensures
        final(out)@ == old(out)@ + staff_block(tracks@, layout, tablature),
{
    if tracks.len() == 1 {
        let t = &tracks[0];
        if layout {
            if tablature {
                push_str(out, "  \\new StaffGroup <<\n");
                push_str(out, "    \\new Staff = \"");
                push_string(out, &t.name);
                push_str(out, "\" \\");
                push_string(out, &t.name);
                push_str(out, "\n");
                push_str(out, "    \\new TabStaff = \"");
                push_string(out, &t.name);
                push_str(out, "_tab\" \\");
                push_string(out, &t.name);
                push_str(out, "\n");
                push_str(out, "  >>\n");
            } else {
                push_str(out, "  \\new Staff = \"");
                push_string(out, &t.name);
                push_str(out, "\" \\");
                push_string(out, &t.name);
                push_str(out, "\n");
            }
        } else {
            push_str(out, "  \\new Staff = \"");
            push_string(out, &t.name);
            push_str(out, "\" {\n    \\set Staff.midiInstrument = #\"");
            push_instrument(out, t);
            push_str(out, "\"\n    \\");
            push_string(out, &t.name);
            push_str(out, "\n  }\n");
        }
    } else {
        push_str(out, "  \\new PianoStaff <<\n");
        let ghost start = out@;
        let mut i: usize = 0;
        while i < tracks.len()
            invariant
                i <= tracks@.len(),
                out@ == start + staves(tracks@.take(i as int), layout, tablature),
            decreases tracks@.len() - i,
        {
            if layout {
                push_layout_staff(out, &tracks[i], tablature);
            } else {
                push_midi_staff(out, &tracks[i]);
            }
            proof {
                assert(tracks@.take(i + 1).drop_last() == tracks@.take(i as int));
                assert(tracks@.take(i + 1).last() == tracks@[i as int]);
            }
            i = i + 1;
        }
        assert(tracks@.take(tracks@.len() as int) == tracks@);
        push_str(out, "  >>\n");
    }
}

/// Name of the MIDI variable for a title.
fn midi_output_name(title: &String) -> (r: Vec<char>)
    ensures
        r@ == midi_name(title@),
{
    let v = chars_of(title.as_str());
    let mut base: Vec<char> = Vec::new();
    let mut lower: Vec<char> = Vec::new();
    let mut i: usize = 0;
    while i < v.len()
        invariant
            i <= v@.len(),
            v@ == title@,
            base@ == ascii_alnum_only(v@.take(i as int)),
            lower@ == base@.map_values(|c: char| ascii_lower(c)),
        decreases v@.len() - i,
    {
        let c = v[i];
        proof {
            assert(v@.take(i + 1).drop_last() == v@.take(i as int));
            assert(v@.take(i + 1).last() == c);
        }
        if ('a' <= c && c <= 'z') || ('A' <= c && c <= 'Z') || ('0' <= c && c <= '9') {
            base.push(c);
            lower.push(to_ascii_lower(c));
            assert(lower@ == base@.map_values(|c: char| ascii_lower(c)));
        }
        i = i + 1;
    }
    assert(v@.take(v@.len() as int) == v@);
    if base.len() == 0 {
        chars_of("score_midi")
    } else {
        push_str(&mut lower, "_midi");
        lower
    }
}

fn push_header_field(out: &mut Vec<char>, prefix: &str, o: &Option<String>)
    ensures
        final(out)@ == old(out)@ + header_field(prefix@, *o),
{
    match o {
        Some(v) => {
            push_str(out, prefix);
            push_escaped(out, v.as_str());
            push_str(out, "\"\n");
        },
        None => {},
    }
}

/// The source after the `\paper` block (see `ly_body`), appended to `out`.
/// Generate a complete LilyPond `.ly` file from a `Score`.
pub fn generate_ly(score: &Score) -> (r: String)
    requires
        transpose_in_range(score.metadata),
    ensures
        r@ == ly_source(*score),
{
    let mut out: Vec<char> = Vec::new();
    let meta = &score.metadata;
    push_str(&mut out, "\\version \"2.24.4\"\n\n");
    let ghost h0 = out@;
    push_str(&mut out, "\\header {\n");
    push_str(&mut out, "  title = \"");
    push_escaped(&mut out, meta.title.as_str());
    push_str(&mut out, "\"\n");
    push_header_field(&mut out, "  composer = \"", &meta.composer);
    push_header_field(&mut out, "  subtitle = \"", &meta.subtitle);
    push_header_field(&mut out, "  dedication = \"", &meta.dedication);
    push_header_field(&mut out, "  poet = \"", &meta.poet);
    push_str(&mut out, "}\n\n");
    assert(out@ == h0 + header_text(*meta));
    push_str(&mut out, "\\paper {\n  indent = 10\\mm\n  markup-system-spacing.padding = #5\n}\n\n");
    let tracks = active_tracks_exec(&score.tracks);
    let ghost v0 = out@;
    let mut i: usize = 0;
    while i < tracks.len()
        invariant
            i <= tracks@.len(),
            transpose_in_range(*meta),
            out@ == v0 + voices_text(tracks@.take(i as int), *meta),
        decreases tracks@.len() - i,
    {
        push_voice(&mut out, &tracks[i], meta);
        proof {
            assert(tracks@.take(i + 1).drop_last() == tracks@.take(i as int));
            assert(tracks@.take(i + 1).last() == tracks@[i as int]);
        }
        i = i + 1;
    }
    assert(tracks@.take(tracks@.len() as int) == tracks@);
    push_str(&mut out, "\\score {\n");
    write_staff_block(&mut out, &tracks, true, meta.tablature);
    push_str(&mut out, "  \\layout { }\n}\n\n");
    let name = midi_output_name(&meta.title);
    push_chars(&mut out, &name);
    push_str(&mut out, " = {\n");
    write_staff_block(&mut out, &tracks, false, false);
    push_str(&mut out, "}\n\n");
    push_str(&mut out, "\\book {\n  \\bookOutputName \"");
    push_chars(&mut out, &name);
    push_str(&mut out, "\"\n  \\score { \\");
    push_chars(&mut out, &name);
    push_str(&mut out, " \\midi { } }\n}\n");
    string_from(out.as_slice())
}

} // verus!
