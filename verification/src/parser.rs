//! Markdown scores: the YAML frontmatter and the LilyPond code blocks of a
//! document, read from the event stream of a CommonMark parser.

use vstd::prelude::*;

use pulldown_cmark::{CodeBlockKind, Event, Options, Parser, Tag, TagEnd};

use crate::score::Track;
use crate::text::{
    chars_eq_str, chars_of, dec, has_prefix, push_chars, push_dec, split_once, split_once_chars,
    slice_chars, split_whitespace, starts_with, string_from, trim, trim_chars, words,
};

verus! {

/// The events of a Markdown document that a score is read from.
#[derive(Debug)]
pub enum MdEvent {
    /// Start of the YAML frontmatter block.
    MetadataStart,
    /// End of the YAML frontmatter block.
    MetadataEnd,
    /// A text node.
    Text(String),
    /// Start of a fenced code block, with its info string.
    FenceStart(String),
    /// End of a code block.
    CodeBlockEnd,
    /// Any other event.
    Other,
}

pub ghost enum MdEventView {
    MetadataStart,
    MetadataEnd,
    Text(Seq<char>),
    FenceStart(Seq<char>),
    CodeBlockEnd,
    Other,
}

impl View for MdEvent {
    type V = MdEventView;

    open spec fn view(&self) -> MdEventView {
        match self {
            MdEvent::MetadataStart => MdEventView::MetadataStart,
            MdEvent::MetadataEnd => MdEventView::MetadataEnd,
            MdEvent::Text(t) => MdEventView::Text(t@),
            MdEvent::FenceStart(i) => MdEventView::FenceStart(i@),
            MdEvent::CodeBlockEnd => MdEventView::CodeBlockEnd,
            MdEvent::Other => MdEventView::Other,
        }
    }
}

pub open spec fn events_view(v: Seq<MdEvent>) -> Seq<MdEventView> {
    v.map_values(|e: MdEvent| e@)
}

/// The event stream of a CommonMark parse of a document (YAML-style
/// metadata blocks enabled).
pub uninterp spec fn markdown(content: Seq<char>) -> Seq<MdEventView>;

/// Runs `pulldown_cmark::Parser::new_ext` with
/// `Options::ENABLE_YAML_STYLE_METADATA_BLOCKS` over the document and keeps
/// each event's kind, text and code-block info string. Claimed: the events
/// depend on the document alone (named `markdown`).
#[verifier::external_body]
fn markdown_events(content: &str) -> (r: Vec<MdEvent>)
    ensures
        events_view(r@) == markdown(content@),
{
    let mut out = Vec::new();
    for e in Parser::new_ext(content, Options::ENABLE_YAML_STYLE_METADATA_BLOCKS) {
        out.push(match e {
            Event::Start(Tag::MetadataBlock(_)) => MdEvent::MetadataStart,
            Event::End(TagEnd::MetadataBlock(_)) => MdEvent::MetadataEnd,
            Event::Text(t) => MdEvent::Text(t.to_string()),
            Event::Start(Tag::CodeBlock(CodeBlockKind::Fenced(info))) => MdEvent::FenceStart(info.to_string()),
            Event::End(TagEnd::CodeBlock) => MdEvent::CodeBlockEnd,
            _ => MdEvent::Other,
        });
    }
    out
}

// ───────────────────────── frontmatter ─────────────────────────

/// The YAML text of the first metadata block, scanning from event `i`
/// (`in_meta`: inside a block, `yaml`: its text so far); `None` when there
/// is no block or it is empty.
pub open spec fn frontmatter_from(evs: Seq<MdEventView>, i: int, in_meta: bool, yaml: Seq<char>) -> Option<
    Seq<char>,
>
    decreases evs.len() - i,
{
    if i < 0 || i >= evs.len() {
        None
    } else {
        match evs[i] {
            MdEventView::MetadataStart => frontmatter_from(evs, i + 1, true, yaml),
            MdEventView::Text(t) => if in_meta {
                frontmatter_from(evs, i + 1, in_meta, yaml + t)
            } else {
                frontmatter_from(evs, i + 1, in_meta, yaml)
            },
            MdEventView::MetadataEnd => if in_meta {
                if yaml.len() > 0 {
                    Some(yaml)
                } else {
                    None
                }
            } else {
                frontmatter_from(evs, i + 1, in_meta, yaml)
            },
            _ => frontmatter_from(evs, i + 1, in_meta, yaml),
        }
    }
}

pub open spec fn frontmatter(evs: Seq<MdEventView>) -> Option<Seq<char>> {
    frontmatter_from(evs, 0, false, seq![])
}

/// The YAML text of the document's frontmatter block, if it has a non-empty
/// one (without it the metadata is the default).
pub fn extract_frontmatter(events: &[MdEvent]) -> (r: Option<String>)
    ensures
        match r {
            Some(y) => frontmatter(events_view(events@)) == Some(y@),
            None => frontmatter(events_view(events@)) is None,
        },
{
    let ghost evs = events_view(events@);
    let mut in_meta = false;
    let mut yaml: Vec<char> = Vec::new();
    let mut i: usize = 0;
    while i < events.len()
        invariant
            evs == events_view(events@),
            i <= events@.len(),
            frontmatter_from(evs, i as int, in_meta, yaml@) == frontmatter(evs),
        decreases events@.len() - i,
    {
        assert(evs[i as int] == events@[i as int]@);
        match &events[i] {
            MdEvent::MetadataStart => {
                in_meta = true;
            },
            MdEvent::Text(t) => {
                if in_meta {
                    let tv = chars_of(t.as_str());
                    push_chars(&mut yaml, &tv);
                }
            },
            MdEvent::MetadataEnd => {
                if in_meta {
                    if yaml.len() > 0 {
                        return Some(string_from(yaml.as_slice()));
                    }
                    return None;
                }
            },
            _ => {},
        }
        i = i + 1;
    }
    None
}

// ───────────────────────── code blocks ─────────────────────────

/// The syntax named by a code block's info string, and what follows it.
pub open spec fn block_syntax(info: Seq<char>) -> Option<(Seq<char>, Seq<char>)> {
    if has_prefix(info, "lilypond-test"@) {
        Some(("test"@, info.skip(13)))
    } else if has_prefix(info, "lilypondx"@) {
        Some(("lilypondx"@, info.skip(9)))
    } else if has_prefix(info, "lilypond"@) {
        Some(("lilypond"@, info.skip(8)))
    } else {
        None
    }
}

/// The value of attribute `key` among `key=value` words: the last one given.
pub open spec fn attr_value(ws: Seq<Seq<char>>, key: Seq<char>) -> Option<Seq<char>>
    decreases ws.len(),
{
    if ws.len() == 0 {
        None
    } else {
        match split_once(ws.last(), '=') {
            Some((k, v)) => if trim(k) == key {
                Some(trim(v))
            } else {
                attr_value(ws.drop_last(), key)
            },
            None => attr_value(ws.drop_last(), key),
        }
    }
}

/// The text of a code block whose content starts at event `j`.
pub open spec fn code_text(evs: Seq<MdEventView>, j: int) -> Seq<char>
    decreases evs.len() - j,
{
    if j < 0 || j >= evs.len() {
        seq![]
    } else {
        match evs[j] {
            MdEventView::Text(t) => t + code_text(evs, j + 1),
            MdEventView::CodeBlockEnd => seq![],
            _ => code_text(evs, j + 1),
        }
    }
}

/// A track in the characters of its fields.
pub ghost struct TrackView {
    pub name: Seq<char>,
    pub clef: Seq<char>,
    pub relative: Seq<char>,
    pub midi_instrument: Option<Seq<char>>,
    pub notes: Seq<char>,
    pub syntax: Seq<char>,
}

pub open spec fn track_view(t: Track) -> TrackView {
    TrackView {
        name: t.name@,
        clef: t.clef@,
        relative: t.relative@,
        midi_instrument: match t.midi_instrument {
            Some(s) => Some(s@),
            None => None,
        },
        notes: t.notes@,
        syntax: t.syntax@,
    }
}

pub open spec fn or_else(o: Option<Seq<char>>, d: Seq<char>) -> Seq<char> {
    match o {
        Some(v) => v,
        None => d,
    }
}

/// The track of the code block opened by event `i` with info `info`, the
/// `n`-th track found (from 0): name, clef and relative anchor from its
/// attributes (defaults `track<n+1>`, `treble`, `c'`), its text trimmed.
pub open spec fn block_track(evs: Seq<MdEventView>, i: int, info: Seq<char>, n: nat) -> TrackView {
    let (syntax, rest) = block_syntax(info)->0;
    let ws = words(rest);
    TrackView {
        name: or_else(attr_value(ws, "track"@), "track"@ + dec(n + 1)),
        clef: or_else(attr_value(ws, "clef"@), "treble"@),
        relative: or_else(attr_value(ws, "relative"@), "c'"@),
        midi_instrument: attr_value(ws, "midi_instrument"@),
        notes: trim(code_text(evs, i + 1)),
        syntax,
    }
}

/// The tracks of the code blocks among the first `k` events.
pub open spec fn tracks_upto(evs: Seq<MdEventView>, k: int) -> Seq<TrackView>
    decreases k,
{
    if k <= 0 || k > evs.len() {
        seq![]
    } else {
        let before = tracks_upto(evs, k - 1);
        match evs[k - 1] {
            MdEventView::FenceStart(info) => if block_syntax(info) is Some {
                before.push(block_track(evs, k - 1, info, before.len()))
            } else {
                before
            },
            _ => before,
        }
    }
}

pub open spec fn tracks_of(evs: Seq<MdEventView>) -> Seq<TrackView> {
    tracks_upto(evs, evs.len() as int)
}

fn block_syntax_exec(info: &[char]) -> (r: Option<(&'static str, usize)>)
    ensures
        match r {
            Some((syn, skip)) => block_syntax(info@) == Some((syn@, info@.skip(skip as int))) && skip
                <= info@.len(),
            None => block_syntax(info@) is None,
        },
{
    proof {
        reveal_strlit("lilypond-test");
        reveal_strlit("lilypondx");
        reveal_strlit("lilypond");
    }
    if starts_with(info, chars_of("lilypond-test").as_slice()) {
        Some(("test", 13))
    } else if starts_with(info, chars_of("lilypondx").as_slice()) {
        Some(("lilypondx", 9))
    } else if starts_with(info, chars_of("lilypond").as_slice()) {
        Some(("lilypond", 8))
    } else {
        None
    }
}

/// Attribute values of a code block's `key=value` words.
struct BlockAttrs {
    track: Option<Vec<char>>,
    clef: Option<Vec<char>>,
    relative: Option<Vec<char>>,
    midi_instrument: Option<Vec<char>>,
}

spec fn attrs_of(a: BlockAttrs, ws: Seq<Seq<char>>) -> bool {
    &&& opt_view(a.track) == attr_value(ws, "track"@)
    &&& opt_view(a.clef) == attr_value(ws, "clef"@)
    &&& opt_view(a.relative) == attr_value(ws, "relative"@)
    &&& opt_view(a.midi_instrument) == attr_value(ws, "midi_instrument"@)
}

fn block_attrs(rest: &[char]) -> (r: BlockAttrs)
    ensures
        attrs_of(r, words(rest@)),
{
    proof {
        reveal_strlit("track");
        reveal_strlit("clef");
        reveal_strlit("relative");
        reveal_strlit("midi_instrument");
    }
    let parts = split_whitespace(rest);
    let ghost ws = parts@.map_values(|w: Vec<char>| w@);
    let mut a = BlockAttrs { track: None, clef: None, relative: None, midi_instrument: None };
    let mut i: usize = 0;
    while i < parts.len()
        invariant
            ws == parts@.map_values(|w: Vec<char>| w@),
            ws == words(rest@),
            i <= parts@.len(),
            attrs_of(a, ws.take(i as int)),
        decreases parts@.len() - i,
    {
        proof {
            assert(ws.take(i + 1).drop_last() == ws.take(i as int));
            assert(ws.take(i + 1).last() == parts@[i as int]@);
        }
        let ghost w = parts@[i as int]@;
        let ghost a0 = a;
        match split_once_chars(parts[i].as_slice(), '=') {
            Some((k, v)) => {
                let key = trim_chars(k.as_slice());
                let val = trim_chars(v.as_slice());
                let ks = key.as_slice();
                let ghost kk = trim(k@);
                assert(split_once(w, '=') == Some((k@, v@)));
                if chars_eq_str(ks, "track") {
                    a.track = Some(slice_chars(val.as_slice(), 0, val.len()));
                }
                if chars_eq_str(ks, "clef") {
                    a.clef = Some(slice_chars(val.as_slice(), 0, val.len()));
                }
                if chars_eq_str(ks, "relative") {
                    a.relative = Some(slice_chars(val.as_slice(), 0, val.len()));
                }
                if chars_eq_str(ks, "midi_instrument") {
                    a.midi_instrument = Some(slice_chars(val.as_slice(), 0, val.len()));
                }
                proof {
                    reveal_strlit("track");
                    reveal_strlit("clef");
                    reveal_strlit("relative");
                    reveal_strlit("midi_instrument");
                    assert(attr_value(ws.take(i + 1), "track"@) == if kk == "track"@ {
                        Some(trim(v@))
                    } else {
                        attr_value(ws.take(i as int), "track"@)
                    });
                    assert(attr_value(ws.take(i + 1), "clef"@) == if kk == "clef"@ {
                        Some(trim(v@))
                    } else {
                        attr_value(ws.take(i as int), "clef"@)
                    });
                    assert(attr_value(ws.take(i + 1), "relative"@) == if kk == "relative"@ {
                        Some(trim(v@))
                    } else {
                        attr_value(ws.take(i as int), "relative"@)
                    });
                    assert(attr_value(ws.take(i + 1), "midi_instrument"@) == if kk
                        == "midi_instrument"@ {
                        Some(trim(v@))
                    } else {
                        attr_value(ws.take(i as int), "midi_instrument"@)
                    });
                }
            },
            None => {
                assert(split_once(w, '=') is None);
            },
        }
        assert(opt_view(a.track) == attr_value(ws.take(i + 1), "track"@));
        assert(opt_view(a.clef) == attr_value(ws.take(i + 1), "clef"@));
        assert(opt_view(a.relative) == attr_value(ws.take(i + 1), "relative"@));
        assert(opt_view(a.midi_instrument) == attr_value(ws.take(i + 1), "midi_instrument"@));
        i = i + 1;
    }
    assert(ws.take(ws.len() as int) == ws);
    a
}

pub open spec fn opt_view(o: Option<Vec<char>>) -> Option<Seq<char>> {
    match o {
        Some(v) => Some(v@),
        None => None,
    }
}

/// The text of the code block whose content starts at event `j`.
fn code_text_exec(events: &[MdEvent], j: usize) -> (r: Vec<char>)
    requires
        j <= events@.len(),
    ensures
        r@ == code_text(events_view(events@), j as int),
{
    let ghost evs = events_view(events@);
    let mut out: Vec<char> = Vec::new();
    let mut k = j;
    while k < events.len()
        invariant_except_break
            out@ + code_text(evs, k as int) == code_text(evs, j as int),
        invariant
            evs == events_view(events@),
            j <= k <= events@.len(),
        ensures
            out@ == code_text(evs, j as int),
        decreases events@.len() - k,
    {
        assert(evs[k as int] == events@[k as int]@);
        match &events[k] {
            MdEvent::Text(t) => {
                let tv = chars_of(t.as_str());
                let ghost o = out@;
                push_chars(&mut out, &tv);
                assert(o + (tv@ + code_text(evs, k + 1)) == out@ + code_text(evs, k + 1));
            },
            MdEvent::CodeBlockEnd => {
                assert(out@ + Seq::<char>::empty() == out@);
                break;
            },
            _ => {},
        }
        k = k + 1;
    }
    proof {
        if k >= events.len() {
            assert(out@ + Seq::<char>::empty() == out@);
        }
    }
    out
}

fn value_or(v: Option<Vec<char>>, d: &str) -> (r: String)
    ensures
        r@ == or_else(opt_view(v), d@),
{
    match v {
        Some(x) => string_from(x.as_slice()),
        None => d.to_owned(),
    }
}

/// The tracks of the document's `lilypond`, `lilypondx` and
/// `lilypond-test` code blocks, in order.
pub fn extract_tracks(events: &[MdEvent]) -> (r: Vec<Track>)
    ensures
        r@.map_values(|t: Track| track_view(t)) == tracks_of(events_view(events@)),
{
    let ghost evs = events_view(events@);
    let mut tracks: Vec<Track> = Vec::new();
    let mut i: usize = 0;
    while i < events.len()
        invariant
            evs == events_view(events@),
            i <= events@.len(),
            tracks@.len() <= i,
            tracks@.map_values(|t: Track| track_view(t)) == tracks_upto(evs, i as int),
        decreases events@.len() - i,
    {
        assert(evs[i as int] == events@[i as int]@);
        match &events[i] {
            MdEvent::FenceStart(info) => {
                let iv = chars_of(info.as_str());
                match block_syntax_exec(iv.as_slice()) {
                    Some((syntax, skip)) => {
                        let rest = crate::text::slice_chars(iv.as_slice(), skip, iv.len());
                        assert(rest@ == iv@.skip(skip as int));
                        let attrs = block_attrs(rest.as_slice());
                        let name = match attrs.track {
                            Some(x) => string_from(x.as_slice()),
                            None => {
                                let mut d: Vec<char> = Vec::new();
                                d.push('t');
                                d.push('r');
                                d.push('a');
                                d.push('c');
                                d.push('k');
                                push_dec(&mut d, tracks.len() as u64 + 1);
                                proof {
                                    reveal_strlit("track");
                                }
                                assert(d@ =~= "track"@ + dec((tracks@.len() + 1) as nat));
                                string_from(d.as_slice())
                            },
                        };
                        let clef = value_or(attrs.clef, "treble");
                        let relative = value_or(attrs.relative, "c'");
                        let midi_instrument = match attrs.midi_instrument {
                            Some(x) => Some(string_from(x.as_slice())),
                            None => None,
                        };
                        let text = code_text_exec(events, i + 1);
                        let notes = string_from(trim_chars(text.as_slice()).as_slice());
                        let t = Track { name, clef, relative, midi_instrument, notes, syntax: syntax.to_owned() };
                        let ghost before = tracks@;
                        tracks.push(t);
                        assert(tracks@.map_values(|t: Track| track_view(t)) =~= before.map_values(
                            |t: Track| track_view(t),
                        ).push(track_view(t)));
                    },
                    None => {},
                }
            },
            _ => {},
        }
        i = i + 1;
    }
    tracks
}

/// A Markdown score before its frontmatter is read: the YAML text of the
/// frontmatter, if any, and the tracks.
pub struct MarkdownScore {
    pub frontmatter: Option<String>,
    pub tracks: Vec<Track>,
}

/// Parse the text of a Markdown document: its frontmatter YAML and its
/// LilyPond code blocks.
pub fn parse_markdown_str(content: &str) -> (r: MarkdownScore)
    ensures
        match r.frontmatter {
            Some(y) => frontmatter(markdown(content@)) == Some(y@),
            None => frontmatter(markdown(content@)) is None,
        },
        r.tracks@.map_values(|t: Track| track_view(t)) == tracks_of(markdown(content@)),
{
    let events = markdown_events(content);
    let frontmatter = extract_frontmatter(events.as_slice());
    let tracks = extract_tracks(events.as_slice());
    MarkdownScore { frontmatter, tracks }
}

} // verus!
