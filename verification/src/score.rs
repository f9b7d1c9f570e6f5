//! The score model: frontmatter metadata plus the note tracks of a document.

use vstd::prelude::*;

verus! {

/// Frontmatter of a score.
#[derive(Debug, Clone)]
pub struct ScoreMetadata {
    pub title: String,
    pub composer: Option<String>,
    pub subtitle: Option<String>,
    pub dedication: Option<String>,
    pub poet: Option<String>,
    pub tempo: Option<String>,
    pub key: Option<String>,
    pub time: Option<String>,
    /// Transposition in semitones (e.g. 12 = up one octave, -12 = down).
    /// Applied to the generated `.ly` via `\transpose`.
    pub transpose: Option<i32>,
    /// Generate guitar tablature (TabStaff) alongside standard notation.
    pub tablature: bool,
    /// Part layout: "split" (each track separate) or "combined" (one staff).
    pub parts: Option<String>,
}

/// Metadata of a document without frontmatter: empty title, nothing else set.
pub open spec fn is_default_metadata(m: ScoreMetadata) -> bool {
    &&& m.title@ == Seq::<char>::empty()
    &&& m.composer is None
    &&& m.subtitle is None
    &&& m.dedication is None
    &&& m.poet is None
    &&& m.tempo is None
    &&& m.key is None
    &&& m.time is None
    &&& m.transpose is None
    &&& !m.tablature
    &&& m.parts is None
}

impl Default for ScoreMetadata {
    fn default() -> (r: Self)
        ensures
            is_default_metadata(r),
    {
        ScoreMetadata {
            title: String::new(),
            composer: None,
            subtitle: None,
            dedication: None,
            poet: None,
            tempo: None,
            key: None,
            time: None,
            transpose: None,
            tablature: false,
            parts: None,
        }
    }
}

/// A code block of the document holding note text.
#[derive(Debug, Clone)]
pub struct Track {
    pub name: String,
    pub clef: String,
    pub relative: String,
    pub midi_instrument: Option<String>,
    pub notes: String,
    /// "lilypond" = native pass-through, "lilypondx" = parsed, "test" = expected output
    pub syntax: String,
}

#[derive(Debug, Clone)]
pub struct Score {
    pub metadata: ScoreMetadata,
    pub tracks: Vec<Track>,
}

/// The characters of an optional string.
pub open spec fn opt_view(o: Option<String>) -> Option<Seq<char>> {
    match o {
        Some(s) => Some(s@),
        None => None,
    }
}

pub fn copy_opt_string(o: &Option<String>) -> (r: Option<String>)
    ensures
        r == *o,
{
    match o {
        Some(s) => Some(s.clone()),
        None => None,
    }
}

/// A copy of a track.
pub fn copy_track(t: &Track) -> (r: Track)
    ensures
        r == *t,
{
    Track {
        name: t.name.clone(),
        clef: t.clef.clone(),
        relative: t.relative.clone(),
        midi_instrument: copy_opt_string(&t.midi_instrument),
        notes: t.notes.clone(),
        syntax: t.syntax.clone(),
    }
}

/// A copy of score metadata.
pub fn copy_metadata(m: &ScoreMetadata) -> (r: ScoreMetadata)
    ensures
        r == *m,
{
    ScoreMetadata {
        title: m.title.clone(),
        composer: copy_opt_string(&m.composer),
        subtitle: copy_opt_string(&m.subtitle),
        dedication: copy_opt_string(&m.dedication),
        poet: copy_opt_string(&m.poet),
        tempo: copy_opt_string(&m.tempo),
        key: copy_opt_string(&m.key),
        time: copy_opt_string(&m.time),
        transpose: m.transpose,
        tablature: m.tablature,
        parts: copy_opt_string(&m.parts),
    }
}

} // verus!
