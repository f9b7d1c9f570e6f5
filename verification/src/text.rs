//! Character and string helpers with exact specifications.
//!
//! Whitespace follows Unicode's `White_Space` property, as `char::is_whitespace`
//! and `str::trim` do; decimal numbers follow `u32::from_str` and `Display`.

use vstd::prelude::*;

verus! {

// ───────────────────────── characters ─────────────────────────

/// Unicode `White_Space`: the code points that `char::is_whitespace` accepts.
pub open spec fn is_ws(c: char) -> bool {
    ||| ('\u{9}' <= c && c <= '\u{d}')
    ||| c == ' '
    ||| c == '\u{85}'
    ||| c == '\u{a0}'
    ||| c == '\u{1680}'
    ||| ('\u{2000}' <= c && c <= '\u{200a}')
    ||| c == '\u{2028}'
    ||| c == '\u{2029}'
    ||| c == '\u{202f}'
    ||| c == '\u{205f}'
    ||| c == '\u{3000}'
}

pub fn is_whitespace(c: char) -> (r: bool)
    ensures
        r == is_ws(c),
{
    ('\u{9}' <= c && c <= '\u{d}') || c == ' ' || c == '\u{85}' || c == '\u{a0}' || c
        == '\u{1680}' || ('\u{2000}' <= c && c <= '\u{200a}') || c == '\u{2028}' || c
        == '\u{2029}' || c == '\u{202f}' || c == '\u{205f}' || c == '\u{3000}'
}

pub open spec fn is_digit(c: char) -> bool {
    '0' <= c && c <= '9'
}

pub fn is_ascii_digit(c: char) -> (r: bool)
    ensures
        r == is_digit(c),
{
    '0' <= c && c <= '9'
}

pub open spec fn digit_value(c: char) -> nat {
    (c as int - '0' as int) as nat
}

pub open spec fn digit_char(d: nat) -> char
    recommends
        d < 10,
{
    if d == 0 {
        '0'
    } else if d == 1 {
        '1'
    } else if d == 2 {
        '2'
    } else if d == 3 {
        '3'
    } else if d == 4 {
        '4'
    } else if d == 5 {
        '5'
    } else if d == 6 {
        '6'
    } else if d == 7 {
        '7'
    } else if d == 8 {
        '8'
    } else {
        '9'
    }
}

fn digit_char_exec(d: u64) -> (c: char)
    requires
        d < 10,
    ensures
        c == digit_char(d as nat),
{
    if d == 0 {
        '0'
    } else if d == 1 {
        '1'
    } else if d == 2 {
        '2'
    } else if d == 3 {
        '3'
    } else if d == 4 {
        '4'
    } else if d == 5 {
        '5'
    } else if d == 6 {
        '6'
    } else if d == 7 {
        '7'
    } else if d == 8 {
        '8'
    } else {
        '9'
    }
}

/// Whether `c` is an ASCII letter or digit (`char::is_ascii_alphanumeric`).
pub open spec fn is_ascii_alnum(c: char) -> bool {
    ||| ('a' <= c && c <= 'z')
    ||| ('A' <= c && c <= 'Z')
    ||| ('0' <= c && c <= '9')
}

/// ASCII lowercase of one character (`char::to_ascii_lowercase`).
pub open spec fn ascii_lower(c: char) -> char {
    if 'A' <= c && c <= 'Z' {
        ((c as int) + 32) as char
    } else {
        c
    }
}

pub fn to_ascii_lower(c: char) -> (r: char)
    ensures
        r == ascii_lower(c),
{
    if 'A' <= c && c <= 'Z' {
        let u: u8 = c as u8;
        let l: u8 = u + 32;
        l as char
    } else {
        c
    }
}

// ───────────────────────── std wrappers ─────────────────────────

/// What `str::to_lowercase` returns for a string (the Unicode lowercase
/// mapping of every character, context-sensitive for final sigma).
pub uninterp spec fn lowercase(s: Seq<char>) -> Seq<char>;

/// Every character is ASCII.
pub open spec fn is_ascii_seq(s: Seq<char>) -> bool {
    forall|k: int| 0 <= k < s.len() ==> (#[trigger] s[k] as int) < 128
}

/// Calls `str::to_lowercase`. Claimed: the result is determined by the
/// characters of `s` alone (named `lowercase`), and on an ASCII string it is
/// the ASCII lowercase of each character (the Unicode lowercase mapping of
/// `A`–`Z` is `a`–`z`, and other ASCII characters map to themselves).
/// Nothing is stated of other characters.
#[verifier::external_body]
pub(crate) fn to_lowercase(s: &str) -> (r: String)
    ensures
        r@ == lowercase(s@),
        is_ascii_seq(s@) ==> r@ == s@.map_values(|c: char| ascii_lower(c)),
{
    s.to_lowercase()
}

/// Whether `char::is_alphabetic` holds (Unicode `Alphabetic` property).
pub uninterp spec fn alphabetic(c: char) -> bool;

/// Calls `char::is_alphabetic`. Claimed: the answer depends on `c` alone
/// (named `alphabetic`), and an ASCII character is alphabetic exactly when
/// it is a letter `a`–`z` or `A`–`Z` (the ASCII characters with the Unicode
/// `Alphabetic` property). Nothing is stated of other characters.
#[verifier::external_body]
pub(crate) fn is_alphabetic(c: char) -> (r: bool)
    ensures
        r == alphabetic(c),
        (c as u32) < 128 ==> (r <==> (('a' <= c && c <= 'z') || ('A' <= c && c <= 'Z'))),
{
    c.is_alphabetic()
}

/// Collects characters into a `String` (`FromIterator<&char> for String`).
/// Claimed: the string holds exactly these characters, in order.
#[verifier::external_body]
pub(crate) fn string_from(v: &[char]) -> (s: String)
    ensures
        s@ == v@,
{
    v.iter().collect()
}

// ───────────────────────── conversions ─────────────────────────

/// The characters of a string slice, in order.
pub fn chars_of(s: &str) -> (v: Vec<char>)
    ensures
        v@ == s@,
{
    let mut v: Vec<char> = Vec::new();
    for c in it: s.chars()
        invariant
            v@ == it.seq().take(it.index() as int),
    {
        v.push(c);
    }
    v
}

/// Appends all characters of `s` to `v`.
pub fn push_str(v: &mut Vec<char>, s: &str)
    ensures
        final(v)@ == old(v)@ + s@,
{
    let ghost v0 = v@;
    for c in it: s.chars()
        invariant
            v@ == v0 + it.seq().take(it.index() as int),
    {
        v.push(c);
    }
    assert(v@ == v0 + s@);
}

/// Appends all characters of `s` to `v`.
pub fn push_chars(v: &mut Vec<char>, s: &Vec<char>)
    ensures
        final(v)@ == old(v)@ + s@,
{
    let ghost v0 = v@;
    let mut i: usize = 0;
    while i < s.len()
        invariant
            i <= s@.len(),
            v@ == v0 + s@.take(i as int),
        decreases s@.len() - i,
    {
        v.push(s[i]);
        i = i + 1;
        assert(s@.take(i as int) == s@.take(i - 1) + seq![s@[i - 1]]);
    }
    assert(s@.take(i as int) == s@);
}

/// Whether two character sequences are equal.
pub fn chars_eq(a: &[char], b: &[char]) -> (r: bool)
    ensures
        r == (a@ == b@),
{
    if a.len() != b.len() {
        return false;
    }
    let mut i: usize = 0;
    while i < a.len()
        invariant
            a@.len() == b@.len(),
            i <= a@.len(),
            forall|k: int| 0 <= k < i ==> a@[k] == b@[k],
        decreases a@.len() - i,
    {
        if a[i] != b[i] {
            return false;
        }
        i = i + 1;
    }
    assert(a@ == b@);
    true
}

/// Whether the characters `v` spell the string `s`.
pub fn chars_eq_str(v: &[char], s: &str) -> (r: bool)
    ensures
        r == (v@ == s@),
{
    let w = chars_of(s);
    chars_eq(v, w.as_slice())
}

/// Whether `s` starts with `p`.
pub open spec fn has_prefix(s: Seq<char>, p: Seq<char>) -> bool {
    p.len() <= s.len() && s.take(p.len() as int) == p
}

pub fn starts_with(s: &[char], p: &[char]) -> (r: bool)
    ensures
        r == has_prefix(s@, p@),
{
    if p.len() > s.len() {
        return false;
    }
    let mut i: usize = 0;
    while i < p.len()
        invariant
            p@.len() <= s@.len(),
            i <= p@.len(),
            forall|k: int| 0 <= k < i ==> s@[k] == p@[k],
        decreases p@.len() - i,
    {
        if s[i] != p[i] {
            assert(s@.take(p@.len() as int)[i as int] != p@[i as int]);
            return false;
        }
        i = i + 1;
    }
    assert(s@.take(p@.len() as int) == p@);
    true
}

/// The characters `s[lo..hi]`.
pub fn slice_chars(s: &[char], lo: usize, hi: usize) -> (r: Vec<char>)
    requires
        lo <= hi <= s@.len(),
    ensures
        r@ == s@.subrange(lo as int, hi as int),
{
    let mut r: Vec<char> = Vec::new();
    let mut i: usize = lo;
    while i < hi
        invariant
            lo <= i <= hi <= s@.len(),
            r@ == s@.subrange(lo as int, i as int),
        decreases hi - i,
    {
        r.push(s[i]);
        i = i + 1;
        assert(r@ == s@.subrange(lo as int, i as int));
    }
    r
}

// ───────────────────────── trimming ─────────────────────────

/// Index of the first non-whitespace character at or after `i`.
pub open spec fn skip_ws(s: Seq<char>, i: int) -> int
    decreases s.len() - i,
{
    if 0 <= i < s.len() && is_ws(s[i]) {
        skip_ws(s, i + 1)
    } else {
        i
    }
}

/// Index just past the last non-whitespace character before `j`.
pub open spec fn trim_end_at(s: Seq<char>, j: int) -> int
    decreases j,
{
    if 0 < j <= s.len() && is_ws(s[j - 1]) {
        trim_end_at(s, j - 1)
    } else {
        j
    }
}

/// `str::trim_start`: drop leading whitespace.
pub open spec fn trim_start(s: Seq<char>) -> Seq<char> {
    s.subrange(skip_ws(s, 0), s.len() as int)
}

/// `str::trim_end`: drop trailing whitespace.
pub open spec fn trim_end(s: Seq<char>) -> Seq<char> {
    s.take(trim_end_at(s, s.len() as int))
}

/// `str::trim`: drop leading and trailing whitespace.
pub open spec fn trim(s: Seq<char>) -> Seq<char> {
    trim_end(trim_start(s))
}

pub proof fn lemma_skip_ws_bounds(s: Seq<char>, i: int)
    requires
        0 <= i <= s.len(),
    ensures
        i <= skip_ws(s, i) <= s.len(),
        forall|k: int| i <= k < skip_ws(s, i) ==> is_ws(#[trigger] s[k]),
        skip_ws(s, i) < s.len() ==> !is_ws(s[skip_ws(s, i)]),
    decreases s.len() - i,
{
    if i < s.len() && is_ws(s[i]) {
        lemma_skip_ws_bounds(s, i + 1);
    }
}

pub proof fn lemma_trim_end_at_bounds(s: Seq<char>, j: int)
    requires
        0 <= j <= s.len(),
    ensures
        0 <= trim_end_at(s, j) <= j,
        forall|k: int| trim_end_at(s, j) <= k < j ==> is_ws(#[trigger] s[k]),
        trim_end_at(s, j) > 0 ==> !is_ws(s[trim_end_at(s, j) - 1]),
    decreases j,
{
    if 0 < j && is_ws(s[j - 1]) {
        lemma_trim_end_at_bounds(s, j - 1);
    }
}

proof fn lemma_trim_end_at_prefix(s: Seq<char>, t: Seq<char>, j: int)
    requires
        0 <= j <= s.len(),
    ensures
        trim_end_at(s + t, j) == trim_end_at(s, j),
    decreases j,
{
    if 0 < j {
        assert((s + t)[j - 1] == s[j - 1]);
        lemma_trim_end_at_prefix(s, t, j - 1);
    }
}

/// Trailing whitespace added to a text is trimmed with the rest.
pub proof fn lemma_trim_end_ws_suffix(s: Seq<char>, c: char)
    requires
        is_ws(c),
    ensures
        trim_end(s.push(c)) == trim_end(s),
{
    let sp = s.push(c);
    assert(sp == s + seq![c]);
    lemma_trim_end_at_prefix(s, seq![c], s.len() as int);
    lemma_trim_end_at_bounds(s, s.len() as int);
    assert(trim_end_at(sp, sp.len() as int) == trim_end_at(sp, s.len() as int));
    assert(sp.take(trim_end_at(s, s.len() as int)) =~= s.take(trim_end_at(s, s.len() as int)));
}

/// Position of the first non-whitespace character at or after `i`.
pub fn skip_ws_exec(s: &[char], i: usize) -> (r: usize)
    requires
        i <= s@.len(),
    ensures
        r == skip_ws(s@, i as int),
        i <= r <= s@.len(),
{
    let mut j = i;
    proof {
        lemma_skip_ws_bounds(s@, i as int);
    }
    while j < s.len() && is_whitespace(s[j])
        invariant
            i <= j <= s@.len(),
            skip_ws(s@, j as int) == skip_ws(s@, i as int),
        decreases s@.len() - j,
    {
        j = j + 1;
    }
    j
}

pub fn trim_end_exec(s: &[char]) -> (r: usize)
    ensures
        r == trim_end_at(s@, s@.len() as int),
        r <= s@.len(),
{
    let mut j = s.len();
    while j > 0 && is_whitespace(s[j - 1])
        invariant
            j <= s@.len(),
            trim_end_at(s@, j as int) == trim_end_at(s@, s@.len() as int),
        decreases j,
    {
        j = j - 1;
    }
    j
}

/// `str::trim` on a character sequence.
pub fn trim_chars(s: &[char]) -> (r: Vec<char>)
    ensures
        r@ == trim(s@),
{
    let a = skip_ws_exec(s, 0);
    let t = slice_chars(s, a, s.len());
    let b = trim_end_exec(t.as_slice());
    slice_chars(t.as_slice(), 0, b)
}

/// `str::trim_end` on a character sequence.
pub fn trim_end_chars(s: &[char]) -> (r: Vec<char>)
    ensures
        r@ == trim_end(s@),
{
    let b = trim_end_exec(s);
    slice_chars(s, 0, b)
}

// ───────────────────────── splitting ─────────────────────────

/// End of the run of non-whitespace characters starting at `i`.
pub open spec fn word_end(s: Seq<char>, i: int) -> int
    decreases s.len() - i,
{
    if 0 <= i < s.len() && !is_ws(s[i]) {
        word_end(s, i + 1)
    } else {
        i
    }
}

pub proof fn lemma_word_end_bounds(s: Seq<char>, i: int)
    requires
        0 <= i <= s.len(),
    ensures
        i <= word_end(s, i) <= s.len(),
        forall|k: int| i <= k < word_end(s, i) ==> !is_ws(#[trigger] s[k]),
    decreases s.len() - i,
{
    if i < s.len() && !is_ws(s[i]) {
        lemma_word_end_bounds(s, i + 1);
    }
}

/// The whitespace-separated words of `s[i..]` (`str::split_whitespace`).
pub open spec fn words_from(s: Seq<char>, i: int) -> Seq<Seq<char>>
    decreases s.len() - i,
{
    if i < 0 || i >= s.len() {
        seq![]
    } else {
        let j = skip_ws(s, i);
        if j >= s.len() {
            seq![]
        } else {
            let k = word_end(s, j);
            if k <= i || k > s.len() {
                seq![]
            } else {
                seq![s.subrange(j, k)] + words_from(s, k)
            }
        }
    }
}

/// `str::split_whitespace`.
pub open spec fn words(s: Seq<char>) -> Seq<Seq<char>> {
    words_from(s, 0)
}

/// `str::split_whitespace` on a character sequence.
pub fn split_whitespace(s: &[char]) -> (r: Vec<Vec<char>>)
    ensures
        r@.map_values(|w: Vec<char>| w@) == words(s@),
{
    let mut r: Vec<Vec<char>> = Vec::new();
    let mut i: usize = 0;
    while i < s.len()
        invariant
            i <= s@.len(),
            r@.map_values(|w: Vec<char>| w@) + words_from(s@, i as int) == words(s@),
        decreases s@.len() - i,
    {
        let j = skip_ws_exec(s, i);
        proof {
            lemma_skip_ws_bounds(s@, i as int);
        }
        if j >= s.len() {
            i = j;
            assert(words_from(s@, i as int) == Seq::<Seq<char>>::empty());
        } else {
            let mut k = j;
            proof {
                lemma_word_end_bounds(s@, j as int);
            }
            while k < s.len() && !is_whitespace(s[k])
                invariant
                    j <= k <= s@.len(),
                    word_end(s@, k as int) == word_end(s@, j as int),
                decreases s@.len() - k,
            {
                k = k + 1;
            }
            let w = slice_chars(s, j, k);
            let ghost old_r = r@.map_values(|w: Vec<char>| w@);
            r.push(w);
            assert(r@.map_values(|w: Vec<char>| w@) == old_r.push(w@));
            assert(words_from(s@, i as int) == seq![s@.subrange(j as int, k as int)] + words_from(
                s@,
                k as int,
            ));
            assert(old_r.push(w@) + words_from(s@, k as int) == old_r + (seq![w@] + words_from(
                s@,
                k as int,
            )));
            i = k;
        }
    }
    assert(words_from(s@, i as int) == Seq::<Seq<char>>::empty());
    assert(r@.map_values(|w: Vec<char>| w@) + Seq::<Seq<char>>::empty() == r@.map_values(
        |w: Vec<char>| w@,
    ));
    r
}

// ───────────────────────── lines ─────────────────────────

/// Index of the first newline at or after `i`, or the end.
pub open spec fn line_end(s: Seq<char>, i: int) -> int
    decreases s.len() - i,
{
    if 0 <= i < s.len() && s[i] != '\n' {
        line_end(s, i + 1)
    } else {
        i
    }
}

pub proof fn lemma_line_end_bounds(s: Seq<char>, i: int)
    requires
        0 <= i <= s.len(),
    ensures
        i <= line_end(s, i) <= s.len(),
        line_end(s, i) < s.len() ==> s[line_end(s, i)] == '\n',
    decreases s.len() - i,
{
    if i < s.len() && s[i] != '\n' {
        lemma_line_end_bounds(s, i + 1);
    }
}

/// The text holds no newline.
pub open spec fn no_newline(s: Seq<char>) -> bool {
    forall|k: int| 0 <= k < s.len() ==> s[k] != '\n'
}

proof fn lemma_line_end_shift(p: Seq<char>, b: Seq<char>, k: int)
    requires
        0 <= k <= b.len(),
    ensures
        line_end(p + b, p.len() + k) == p.len() + line_end(b, k),
    decreases b.len() - k,
{
    if k < b.len() {
        assert((p + b)[p.len() + k] == b[k]);
        if b[k] != '\n' {
            lemma_line_end_shift(p, b, k + 1);
        }
    }
}

proof fn lemma_lines_shift(p: Seq<char>, b: Seq<char>, k: int)
    requires
        0 <= k <= b.len(),
    ensures
        lines_from(p + b, p.len() + k) == lines_from(b, k),
    decreases b.len() - k,
{
    if k < b.len() {
        lemma_line_end_shift(p, b, k);
        lemma_line_end_bounds(b, k);
        let j = line_end(b, k);
        assert((p + b).subrange(p.len() + k, p.len() + j) =~= b.subrange(k, j));
        if j < b.len() {
            lemma_lines_shift(p, b, j + 1);
        }
    }
}

proof fn lemma_line_end_no_newline(x: Seq<char>, rest: Seq<char>, i: int)
    requires
        no_newline(x),
        0 <= i <= x.len(),
    ensures
        rest.len() > 0 && rest[0] == '\n' ==> line_end(x + rest, i) == x.len(),
        rest.len() == 0 ==> line_end(x + rest, i) == x.len(),
    decreases x.len() - i,
{
    if i < x.len() {
        assert((x + rest)[i] == x[i]);
        lemma_line_end_no_newline(x, rest, i + 1);
    } else if rest.len() > 0 && rest[0] == '\n' {
        assert((x + rest)[i] == '\n');
    }
}

/// A line ended by a newline before more text adds one line.
pub proof fn lemma_lines_line_then(x: Seq<char>, rest: Seq<char>)
    requires
        no_newline(x),
    ensures
        lines(x.push('\n') + rest).len() == 1 + lines(rest).len(),
{
    let a = x.push('\n');
    let s = a + rest;
    assert(s =~= x + (seq!['\n'] + rest));
    lemma_line_end_no_newline(x, seq!['\n'] + rest, 0);
    assert(line_end(s, 0) == x.len());
    lemma_lines_shift(a, rest, 0);
    assert(lines_from(s, (x.len() + 1) as int) == lines_from(rest, 0));
}

/// A text without newlines is one line.
pub proof fn lemma_lines_one(q: Seq<char>)
    requires
        no_newline(q),
        q.len() > 0,
    ensures
        lines(q).len() == 1,
{
    lemma_line_end_no_newline(q, seq![], 0);
    assert(q + Seq::<char>::empty() =~= q);
}

/// A line without its `\r` before the newline, if any.
pub open spec fn strip_cr(l: Seq<char>) -> Seq<char> {
    if l.len() > 0 && l.last() == '\r' {
        l.drop_last()
    } else {
        l
    }
}

/// The lines of `s[i..]` (`str::lines`): split after each `\n`; a line
/// ended by `\n` loses it and a `\r` just before it; the last line may lack
/// a line ending; no empty line after a final `\n`.
pub open spec fn lines_from(s: Seq<char>, i: int) -> Seq<Seq<char>>
    decreases s.len() - i,
{
    if i < 0 || i >= s.len() {
        seq![]
    } else {
        let j = line_end(s, i);
        if j < i || j > s.len() {
            seq![]
        } else if j < s.len() {
            seq![strip_cr(s.subrange(i, j))] + lines_from(s, j + 1)
        } else {
            seq![s.subrange(i, j)]
        }
    }
}

pub open spec fn lines(s: Seq<char>) -> Seq<Seq<char>> {
    lines_from(s, 0)
}

/// `str::lines` on a character sequence.
pub fn split_lines(s: &[char]) -> (r: Vec<Vec<char>>)
    ensures
        r@.map_values(|w: Vec<char>| w@) == lines(s@),
{
    let mut r: Vec<Vec<char>> = Vec::new();
    let mut i: usize = 0;
    while i < s.len()
        invariant
            i <= s@.len(),
            r@.map_values(|w: Vec<char>| w@) + lines_from(s@, i as int) == lines(s@),
        decreases s@.len() - i,
    {
        let mut j = i;
        proof {
            lemma_line_end_bounds(s@, i as int);
        }
        while j < s.len() && s[j] != '\n'
            invariant
                i <= j <= s@.len(),
                line_end(s@, j as int) == line_end(s@, i as int),
            decreases s@.len() - j,
        {
            j = j + 1;
        }
        let ghost old_r = r@.map_values(|w: Vec<char>| w@);
        if j < s.len() {
            let mut w = slice_chars(s, i, j);
            if w.len() > 0 && w[w.len() - 1] == '\r' {
                w.pop();
            }
            assert(w@ == strip_cr(s@.subrange(i as int, j as int)));
            r.push(w);
            assert(r@.map_values(|w: Vec<char>| w@) == old_r.push(w@));
            assert(old_r.push(w@) + lines_from(s@, j + 1) == old_r + lines_from(s@, i as int));
            i = j + 1;
        } else {
            let w = slice_chars(s, i, j);
            r.push(w);
            assert(r@.map_values(|w: Vec<char>| w@) == old_r.push(w@));
            assert(lines_from(s@, j as int) == Seq::<Seq<char>>::empty());
            assert(old_r.push(w@) + lines_from(s@, j as int) == old_r + lines_from(s@, i as int));
            i = j;
        }
    }
    assert(lines_from(s@, i as int) == Seq::<Seq<char>>::empty());
    assert(r@.map_values(|w: Vec<char>| w@) + Seq::<Seq<char>>::empty() == r@.map_values(
        |w: Vec<char>| w@,
    ));
    r
}

// ───────────────────────── replacing ─────────────────────────

/// `s[i..]` with each non-overlapping occurrence of `pat`, scanned from the
/// left, replaced by `rep` (`str::replace`, for a non-empty pattern).
pub open spec fn replace_from(s: Seq<char>, i: int, pat: Seq<char>, rep: Seq<char>) -> Seq<char>
    decreases s.len() - i,
{
    if i < 0 || i >= s.len() {
        seq![]
    } else if pat.len() > 0 && i + pat.len() <= s.len() && s.subrange(i, i + pat.len()) == pat {
        rep + replace_from(s, i + pat.len(), pat, rep)
    } else {
        seq![s[i]] + replace_from(s, i + 1, pat, rep)
    }
}

pub open spec fn replace_all(s: Seq<char>, pat: Seq<char>, rep: Seq<char>) -> Seq<char> {
    replace_from(s, 0, pat, rep)
}

/// Whether `pat` occurs in `s` at `i`.
fn occurs_at(s: &[char], i: usize, pat: &[char]) -> (r: bool)
    requires
        i <= s@.len(),
    ensures
        r == (i + pat@.len() <= s@.len() && s@.subrange(i as int, i + pat@.len()) == pat@),
{
    if pat.len() > s.len() - i {
        return false;
    }
    let mut k: usize = 0;
    while k < pat.len()
        invariant
            k <= pat@.len(),
            i + pat@.len() <= s@.len(),
            s@.len() == s.len(),
            forall|j: int| 0 <= j < k ==> s@[i + j] == pat@[j],
        decreases pat@.len() - k,
    {
        assert(i + k < s@.len());
        if s[i + k] != pat[k] {
            assert(s@.subrange(i as int, i + pat@.len())[k as int] != pat@[k as int]);
            return false;
        }
        k = k + 1;
    }
    assert(s@.subrange(i as int, i + pat@.len()) == pat@);
    true
}

/// `str::replace` on a character sequence, for a non-empty pattern.
pub fn replace_chars(s: &[char], pat: &str, rep: &str) -> (r: Vec<char>)
    requires
        pat@.len() > 0,
    ensures
        r@ == replace_all(s@, pat@, rep@),
{
    let p = chars_of(pat);
    let mut out: Vec<char> = Vec::new();
    let mut i: usize = 0;
    while i < s.len()
        invariant
            i <= s@.len(),
            p@ == pat@,
            p@.len() > 0,
            out@ + replace_from(s@, i as int, pat@, rep@) == replace_all(s@, pat@, rep@),
        decreases s@.len() - i,
    {
        let ghost o = out@;
        if occurs_at(s, i, p.as_slice()) {
            push_str(&mut out, rep);
            assert(o + replace_from(s@, i as int, pat@, rep@) == out@ + replace_from(
                s@,
                i + p@.len(),
                pat@,
                rep@,
            ));
            i = i + p.len();
        } else {
            out.push(s[i]);
            assert(o + replace_from(s@, i as int, pat@, rep@) == out@ + replace_from(
                s@,
                i + 1,
                pat@,
                rep@,
            ));
            i = i + 1;
        }
    }
    assert(out@ + Seq::<char>::empty() == out@);
    out
}

// ───────────────────────── separators ─────────────────────────

/// Index of the first `c` in `s` at or after `i` (`s.len()` if none).
pub open spec fn find_char(s: Seq<char>, c: char, i: int) -> int
    decreases s.len() - i,
{
    if i < 0 || i >= s.len() {
        s.len() as int
    } else if s[i] == c {
        i
    } else {
        find_char(s, c, i + 1)
    }
}

pub proof fn lemma_find_char_bounds(s: Seq<char>, c: char, i: int)
    requires
        0 <= i <= s.len(),
    ensures
        i <= find_char(s, c, i) <= s.len(),
        find_char(s, c, i) < s.len() ==> s[find_char(s, c, i)] == c,
    decreases s.len() - i,
{
    if i < s.len() && s[i] != c {
        lemma_find_char_bounds(s, c, i + 1);
    }
}

pub fn find_char_exec(s: &[char], c: char, i: usize) -> (r: usize)
    requires
        i <= s@.len(),
    ensures
        r == find_char(s@, c, i as int),
        i <= r <= s@.len(),
{
    proof {
        lemma_find_char_bounds(s@, c, i as int);
    }
    let mut j = i;
    while j < s.len() && s[j] != c
        invariant
            i <= j <= s@.len(),
            find_char(s@, c, j as int) == find_char(s@, c, i as int),
        decreases s@.len() - j,
    {
        j = j + 1;
    }
    j
}

/// `str::split_once(c)`: the text before the first `c` and the text after it.
pub open spec fn split_once(s: Seq<char>, c: char) -> Option<(Seq<char>, Seq<char>)> {
    let i = find_char(s, c, 0);
    if i >= s.len() {
        None
    } else {
        Some((s.take(i), s.subrange(i + 1, s.len() as int)))
    }
}

/// `s.split(c).nth(1)`: the text between the first and the second `c` (or
/// the end).
pub open spec fn second_piece(s: Seq<char>, c: char) -> Option<Seq<char>> {
    let i = find_char(s, c, 0);
    if i >= s.len() {
        None
    } else {
        Some(s.subrange(i + 1, find_char(s, c, i + 1)))
    }
}

pub fn split_once_chars(s: &[char], c: char) -> (r: Option<(Vec<char>, Vec<char>)>)
    ensures
        match r {
            Some((a, b)) => split_once(s@, c) == Some((a@, b@)),
            None => split_once(s@, c) is None,
        },
{
    let i = find_char_exec(s, c, 0);
    if i >= s.len() {
        None
    } else {
        Some((slice_chars(s, 0, i), slice_chars(s, i + 1, s.len())))
    }
}

pub fn second_piece_chars(s: &[char], c: char) -> (r: Option<Vec<char>>)
    ensures
        match r {
            Some(a) => second_piece(s@, c) == Some(a@),
            None => second_piece(s@, c) is None,
        },
{
    let i = find_char_exec(s, c, 0);
    if i >= s.len() {
        None
    } else {
        let j = find_char_exec(s, c, i + 1);
        Some(slice_chars(s, i + 1, j))
    }
}

// ───────────────────────── joining ─────────────────────────

/// `parts` joined with `sep` between consecutive parts (`[T]::join`).
pub open spec fn join(parts: Seq<Seq<char>>, sep: Seq<char>) -> Seq<char>
    decreases parts.len(),
{
    if parts.len() == 0 {
        seq![]
    } else if parts.len() == 1 {
        parts[0]
    } else {
        join(parts.drop_last(), sep) + sep + parts.last()
    }
}

/// One more part of a join.
pub proof fn lemma_join_push(parts: Seq<Seq<char>>, sep: Seq<char>, i: int)
    requires
        0 <= i < parts.len(),
    ensures
        join(parts.take(i + 1), sep) == if i == 0 {
            parts[0]
        } else {
            join(parts.take(i), sep) + sep + parts[i]
        },
{
    assert(parts.take(i + 1).drop_last() == parts.take(i));
    if i == 0 {
        assert(parts.take(1).len() == 1);
    }
}

// ───────────────────────── numbers ─────────────────────────

/// Decimal value of a sequence of ASCII digits.
pub open spec fn digits_value(d: Seq<char>) -> nat
    decreases d.len(),
{
    if d.len() == 0 {
        0
    } else {
        digits_value(d.drop_last()) * 10 + digit_value(d.last())
    }
}

pub open spec fn all_digits(d: Seq<char>) -> bool {
    forall|k: int| 0 <= k < d.len() ==> is_digit(#[trigger] d[k])
}

/// `u32::from_str`: an optional `+`, then at least one ASCII digit, with a
/// value that fits in `u32`.
pub open spec fn parse_u32(s: Seq<char>) -> Option<u32> {
    let d = if s.len() > 0 && s[0] == '+' {
        s.drop_first()
    } else {
        s
    };
    if d.len() > 0 && all_digits(d) && digits_value(d) <= u32::MAX {
        Some(digits_value(d) as u32)
    } else {
        None
    }
}

/// Value of the digits `d[..i]`, or `None` once it exceeds `u32::MAX`.
pub fn digits_to_u32(d: &[char]) -> (r: Option<u32>)
    requires
        all_digits(d@),
    ensures
        r == (if digits_value(d@) <= u32::MAX {
            Some(digits_value(d@) as u32)
        } else {
            None::<u32>
        }),
{
    let mut v: u64 = 0;
    let mut i: usize = 0;
    while i < d.len()
        invariant
            i <= d@.len(),
            all_digits(d@),
            v == digits_value(d@.take(i as int)),
            v <= u32::MAX,
        decreases d@.len() - i,
    {
        assert(d@.take(i + 1).drop_last() == d@.take(i as int));
        assert(is_digit(d@[i as int]));
        let dv: u64 = (d[i] as u32 - '0' as u32) as u64;
        let nv = v * 10 + dv;
        i = i + 1;
        if nv > u32::MAX as u64 {
            proof {
                lemma_digits_value_monotone(d@, i as int);
            }
            return None;
        }
        v = nv;
    }
    assert(d@.take(i as int) == d@);
    Some(v as u32)
}

/// A longer prefix of digits never has a smaller value.
pub proof fn lemma_digits_value_monotone(d: Seq<char>, i: int)
    requires
        0 <= i <= d.len(),
    ensures
        digits_value(d.take(i)) <= digits_value(d),
    decreases d.len() - i,
{
    if i < d.len() {
        lemma_digits_value_monotone(d, i + 1);
        assert(d.take(i + 1).drop_last() == d.take(i));
        assert(digits_value(d.take(i + 1)) == digits_value(d.take(i + 1).drop_last()) * 10
            + digit_value(d.take(i + 1).last()));
    } else {
        assert(d.take(i) == d);
    }
}

/// `u32::from_str` on a character sequence.
pub fn parse_u32_chars(s: &[char]) -> (r: Option<u32>)
    ensures
        r == parse_u32(s@),
{
    let start: usize = if s.len() > 0 && s[0] == '+' {
        1
    } else {
        0
    };
    let d = slice_chars(s, start, s.len());
    proof {
        if start == 1 {
            assert(d@ == s@.drop_first());
        } else {
            assert(d@ == s@);
        }
    }
    if d.len() == 0 {
        return None;
    }
    let mut i: usize = 0;
    while i < d.len()
        invariant
            i <= d@.len(),
            d@ == (if s@.len() > 0 && s@[0] == '+' {
                s@.drop_first()
            } else {
                s@
            }),
            forall|k: int| 0 <= k < i ==> is_digit(#[trigger] d@[k]),
        decreases d@.len() - i,
    {
        if !is_ascii_digit(d[i]) {
            assert(!is_digit(d@[i as int]));
            return None;
        }
        i = i + 1;
    }
    digits_to_u32(d.as_slice())
}

/// Decimal representation of a natural number (`Display`).
pub open spec fn dec(n: nat) -> Seq<char>
    decreases n,
{
    if n < 10 {
        seq![digit_char(n)]
    } else {
        dec(n / 10).push(digit_char(n % 10))
    }
}

proof fn lemma_digit_char(d: nat)
    requires
        d < 10,
    ensures
        is_digit(digit_char(d)),
        digit_value(digit_char(d)) == d,
{
    assert(('0' as int) == 48 && ('9' as int) == 57);
    assert(('1' as int) == 49 && ('2' as int) == 50 && ('3' as int) == 51 && ('4' as int) == 52);
    assert(('5' as int) == 53 && ('6' as int) == 54 && ('7' as int) == 55 && ('8' as int) == 56);
}

proof fn lemma_digits_value_push(d: Seq<char>, c: char)
    ensures
        digits_value(d.push(c)) == digits_value(d) * 10 + digit_value(c),
{
    assert(d.push(c).drop_last() == d);
}

/// The decimal text of a number is digits that read back as the number.
pub proof fn lemma_dec_value(n: nat)
    ensures
        all_digits(dec(n)),
        digits_value(dec(n)) == n,
        dec(n).len() >= 1,
    decreases n,
{
    lemma_digit_char(n % 10);
    if n < 10 {
        lemma_digits_value_push(Seq::<char>::empty(), digit_char(n));
        assert(seq![digit_char(n)] == Seq::<char>::empty().push(digit_char(n)));
        assert(digits_value(Seq::<char>::empty()) == 0);
    }
    if n >= 10 {
        lemma_dec_value(n / 10);
        let d = dec(n);
        lemma_digits_value_push(dec(n / 10), digit_char(n % 10));
        assert(d.drop_last() == dec(n / 10));
        assert forall|k: int| 0 <= k < d.len() implies is_digit(#[trigger] d[k]) by {
            if k < d.len() - 1 {
                assert(d[k] == dec(n / 10)[k]);
            }
        }
    }
}

/// The two-digit (zero-padded) text of a number reads back as the number.
pub proof fn lemma_dec2_value(n: nat)
    ensures
        all_digits(dec2(n)),
        digits_value(dec2(n)) == n,
        dec2(n).len() >= 2,
{
    lemma_dec_value(n);
    if n < 10 {
        let d = dec2(n);
        lemma_digit_char(0);
        lemma_digit_char(n);
        lemma_digits_value_push(Seq::<char>::empty(), '0');
        assert(seq!['0'] == Seq::<char>::empty().push('0'));
        assert(digits_value(Seq::<char>::empty()) == 0);
        assert(digit_char(0) == '0');
        lemma_digits_value_push(seq!['0'], digit_char(n));
        assert(d == seq!['0'].push(digit_char(n)));
    } else {
        assert(dec(n).len() >= 2) by {
            if dec(n).len() < 2 {
                assert(dec(n) == dec(n / 10).push(digit_char(n % 10)));
                lemma_dec_value(n / 10);
            }
        }
    }
}

/// Decimal digits of `n`, appended to `out`.
pub fn push_dec(out: &mut Vec<char>, n: u64)
    ensures
        final(out)@ == old(out)@ + dec(n as nat),
    decreases n,
{
    if n < 10 {
        out.push(digit_char_exec(n));
    } else {
        push_dec(out, n / 10);
        out.push(digit_char_exec(n % 10));
    }
}

/// Decimal digits of `n`, at least two (zero-padded), appended to `out`
/// (`format!("{:02}", n)`).
pub open spec fn dec2(n: nat) -> Seq<char> {
    if n < 10 {
        seq!['0'] + dec(n)
    } else {
        dec(n)
    }
}

pub fn push_dec2(out: &mut Vec<char>, n: u64)
    ensures
        final(out)@ == old(out)@ + dec2(n as nat),
{
    if n < 10 {
        out.push('0');
    }
    push_dec(out, n);
}

} // verus!
