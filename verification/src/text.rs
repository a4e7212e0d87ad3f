//! Character-level helpers shared by the configuration and schema parsers.
//!
//! Text is handled as sequences of characters: the specifications speak of
//! `Seq<char>`, the executable functions of `&[char]`.

use vstd::prelude::*;
use vstd::slice::slice_subrange;

verus! {

/// Whether `c` has the Unicode property `White_Space`: the controls from tab to carriage
/// return and next line, the space and the no-break spaces, and the spaces and separators
/// of general punctuation.
pub open spec fn white_space(c: char) -> bool {
    ||| ('\u{9}' <= c && c <= '\u{d}')
    ||| c == ' '
    ||| c == '\u{85}'
    ||| c == '\u{a0}'
    ||| c == '\u{1680}'
    ||| ('\u{2000}' <= c && c <= '\u{200a}')
    ||| c == '\u{2028}'
    ||| c == '\u{2029}'
    ||| c == '\u{202f}'
    ||| c == '\u{205f}'
    ||| c == '\u{3000}'
}

/// `char::is_whitespace` of the standard library. Taken on trust: it tells whether the
/// character has the Unicode property `White_Space`, which is what [`white_space`] lists.
pub assume_specification[ char::is_whitespace ](c: char) -> (b: bool)
    ensures
        b == white_space(c),
;

/// `String::push` of the standard library. Taken on trust: afterwards the string holds
/// what it held, and then `ch`.
pub assume_specification[ std::string::String::push ](s: &mut std::string::String, ch: char)
    ensures
        final(s)@ == old(s)@.push(ch),
;

/// The views of the strings of `v`, in order.
pub open spec fn views(v: Seq<String>) -> Seq<Seq<char>> {
    Seq::new(v.len(), |i: int| v[i]@)
}

/// `s` without its leading white space.
pub open spec fn trimmed_start(s: Seq<char>) -> Seq<char>
    decreases s.len(),
{
    if s.len() > 0 && white_space(s[0]) {
        trimmed_start(s.skip(1))
    } else {
        s
    }
}

/// `s` without its trailing white space.
pub open spec fn trimmed_end(s: Seq<char>) -> Seq<char>
    decreases s.len(),
{
    if s.len() > 0 && white_space(s.last()) {
        trimmed_end(s.drop_last())
    } else {
        s
    }
}

/// `s` without leading and trailing white space.
pub open spec fn trimmed(s: Seq<char>) -> Seq<char> {
    trimmed_end(trimmed_start(s))
}

/// Whether some character of `s` is white space.
pub open spec fn has_white_space(s: Seq<char>) -> bool {
    exists|i: int| 0 <= i < s.len() && white_space(#[trigger] s[i])
}

/// Whether `i` is the position of the first `c` in `s`.
pub open spec fn is_first_index(s: Seq<char>, c: char, i: int) -> bool {
    &&& 0 <= i < s.len()
    &&& s[i] == c
    &&& forall|j: int| 0 <= j < i ==> s[j] != c
}

/// The position of the first `c` in `s`, if there is one.
pub open spec fn first_index(s: Seq<char>, c: char) -> Option<int> {
    if exists|i: int| is_first_index(s, c, i) {
        Some(choose|i: int| is_first_index(s, c, i))
    } else {
        None
    }
}

/// Whether the two characters `->` stand at position `i` of `s`.
pub open spec fn arrow_at(s: Seq<char>, i: int) -> bool {
    0 <= i && i + 1 < s.len() && s[i] == '-' && s[i + 1] == '>'
}

/// Whether `i` is the position of the first `->` in `s`.
pub open spec fn is_first_arrow(s: Seq<char>, i: int) -> bool {
    arrow_at(s, i) && forall|j: int| 0 <= j < i ==> !arrow_at(s, j)
}

/// The position of the first `->` in `s`, if there is one.
pub open spec fn first_arrow(s: Seq<char>) -> Option<int> {
    if exists|i: int| is_first_arrow(s, i) {
        Some(choose|i: int| is_first_arrow(s, i))
    } else {
        None
    }
}

/// The segments of a dotted key: the pieces of `s` between its dots. There is always at
/// least one; a piece may be empty.
pub open spec fn dot_segments(s: Seq<char>) -> Seq<Seq<char>>
    decreases s.len(),
{
    match first_index(s, '.') {
        None => seq![s],
        Some(i) => seq![s.take(i)] + dot_segments(s.skip(i + 1)),
    }
}

/// The segments of `parts` joined by dots.
pub open spec fn dotted(parts: Seq<Seq<char>>) -> Seq<char>
    decreases parts.len(),
{
    if parts.len() == 0 {
        Seq::empty()
    } else if parts.len() == 1 {
        parts[0]
    } else {
        parts[0] + seq!['.'] + dotted(parts.drop_first())
    }
}

/// A line as a line reader hands it out: without the carriage return that stood before
/// the line feed.
pub open spec fn without_cr(s: Seq<char>) -> Seq<char> {
    if s.len() > 0 && s.last() == '\r' {
        s.drop_last()
    } else {
        s
    }
}

/// The lines of `s`. A line ends at a line feed; a carriage return just before that line
/// feed is dropped with it. What follows the last line feed is a line too, unless it is
/// empty.
pub open spec fn text_lines(s: Seq<char>) -> Seq<Seq<char>>
    decreases s.len(),
{
    if s.len() == 0 {
        Seq::empty()
    } else {
        match first_index(s, '\n') {
            None => seq![s],
            Some(i) => seq![without_cr(s.take(i))] + text_lines(s.skip(i + 1)),
        }
    }
}

/// A position that satisfies [`is_first_index`] is the one that [`first_index`] names.
pub proof fn lemma_first_index_is(s: Seq<char>, c: char, i: int)
    requires
        is_first_index(s, c, i),
    ensures
        first_index(s, c) == Some(i),
{
}

/// A sequence that does not hold `c` has no first `c`.
pub proof fn lemma_first_index_none(s: Seq<char>, c: char)
    requires
        forall|j: int| 0 <= j < s.len() ==> s[j] != c,
    ensures
        first_index(s, c) is None,
{
}

/// What [`first_index`] returns is in range and names the first occurrence.
pub proof fn lemma_first_index_some(s: Seq<char>, c: char)
    requires
        first_index(s, c) is Some,
    ensures
        is_first_index(s, c, first_index(s, c)->0),
{
}

/// A sequence that holds `c` at position `k` has a first `c`, at `k` or before it.
pub proof fn lemma_has_first_index(s: Seq<char>, c: char, k: int)
    requires
        0 <= k < s.len(),
        s[k] == c,
    ensures
        first_index(s, c) is Some,
        first_index(s, c)->0 <= k,
    decreases k,
{
    if exists|j: int| 0 <= j < k && s[j] == c {
        let j = choose|j: int| 0 <= j < k && s[j] == c;
        lemma_has_first_index(s, c, j);
    } else {
        lemma_first_index_is(s, c, k);
    }
}

/// A position that satisfies [`is_first_arrow`] is the one that [`first_arrow`] names.
pub proof fn lemma_first_arrow_is(s: Seq<char>, i: int)
    requires
        is_first_arrow(s, i),
    ensures
        first_arrow(s) == Some(i),
{
}

/// A dotted key has at least one segment.
pub proof fn lemma_dot_segments_nonempty(s: Seq<char>)
    ensures
        dot_segments(s).len() >= 1,
    decreases s.len(),
{
    if let Some(i) = first_index(s, '.') {
        lemma_dot_segments_nonempty(s.skip(i + 1));
    }
}

/// No segment of a dotted key holds a dot.
pub proof fn lemma_dot_segments_hold_no_dot(s: Seq<char>, n: int)
    requires
        0 <= n < dot_segments(s).len(),
    ensures
        !dot_segments(s)[n].contains('.'),
    decreases s.len(),
{
    match first_index(s, '.') {
        None => {
            if s.contains('.') {
                let k = choose|k: int| 0 <= k < s.len() && s[k] == '.';
                lemma_has_first_index(s, '.', k);
            }
        },
        Some(i) => {
            if n == 0 {
                if s.take(i).contains('.') {
                    let k = choose|k: int| 0 <= k < s.take(i).len() && s.take(i)[k] == '.';
                    assert(s[k] == '.');
                }
            } else {
                lemma_dot_segments_hold_no_dot(s.skip(i + 1), n - 1);
            }
        },
    }
}

/// Joining the segments of a dotted key gives the key back.
pub proof fn lemma_dotted_segments(s: Seq<char>)
    ensures
        dotted(dot_segments(s)) == s,
    decreases s.len(),
{
    if let Some(i) = first_index(s, '.') {
        let rest = s.skip(i + 1);
        lemma_dotted_segments(rest);
        lemma_dot_segments_nonempty(rest);
        let parts = dot_segments(s);
        assert(parts.drop_first() == dot_segments(rest));
    }
}

/// Segments that hold no dot are the segments of what they are joined to.
pub proof fn lemma_segments_of_dotted(parts: Seq<Seq<char>>)
    requires
        parts.len() > 0,
        forall|n: int| 0 <= n < parts.len() ==> !(#[trigger] parts[n]).contains('.'),
    ensures
        dot_segments(dotted(parts)) == parts,
    decreases parts.len(),
{
    let head = parts[0];
    if parts.len() == 1 {
        lemma_first_index_none(head, '.');
    } else {
        let rest = parts.drop_first();
        let joined = dotted(parts);
        lemma_segments_of_dotted(rest);
        lemma_first_index_is(joined, '.', head.len() as int);
        assert(joined.take(head.len() as int) == head);
        assert(joined.skip(head.len() as int + 1) == dotted(rest));
    }
}

/// Of the strings that a dotted key was split into there is at least one, and none holds
/// a dot.
pub proof fn lemma_split_segments(key: Seq<char>, path: Seq<String>)
    requires
        views(path) == dot_segments(key),
    ensures
        path.len() > 0,
        views(path).skip(0) == views(path),
        forall|n: int| 0 <= n < path.len() ==> !(#[trigger] path[n])@.contains('.'),
{
    lemma_dot_segments_nonempty(key);
    assert forall|n: int| 0 <= n < path.len() implies !(#[trigger] path[n])@.contains('.') by {
        lemma_dot_segments_hold_no_dot(key, n);
        assert(views(path)[n] == path[n]@);
    }
}

/// The characters of `s`, in order.
pub fn chars_of(s: &str) -> (out: Vec<char>)
    ensures
        out@ == s@,
{
    let mut out: Vec<char> = Vec::new();
    for c in it: s.chars()
        invariant
            out@ == it.seq().take(it.index() as int),
            it.seq() == s@,
    {
        out.push(c);
    }
    out
}

/// The string that holds the characters of `chars`, in order.
pub fn string_of(chars: &[char]) -> (out: String)
    ensures
        out@ == chars@,
{
    let mut out = String::new();
    let mut i: usize = 0;
    while i < chars.len()
        invariant
            i <= chars.len(),
            out@ == chars@.take(i as int),
        decreases chars.len() - i,
    {
        out.push(chars[i]);
        i += 1;
    }
    out
}

/// Removes leading and trailing white space.
pub fn trim(s: &[char]) -> (out: &[char])
    ensures
        out@ == trimmed(s@),
{
    let mut from: usize = 0;
    assert(s@.skip(0) == s@);
    while from < s.len() && s[from].is_whitespace()
        invariant
            from <= s.len(),
            trimmed_start(s@) == trimmed_start(s@.skip(from as int)),
        decreases s.len() - from,
    {
        assert(s@.skip(from as int).skip(1) == s@.skip(from + 1));
        from += 1;
    }
    let mut to: usize = s.len();
    while to > from && s[to - 1].is_whitespace()
        invariant
            from <= to <= s.len(),
            trimmed(s@) == trimmed_end(s@.subrange(from as int, to as int)),
        decreases to,
    {
        assert(s@.subrange(from as int, to as int).drop_last() == s@.subrange(
            from as int,
            to - 1,
        ));
        to -= 1;
    }
    slice_subrange(s, from, to)
}

/// Tells whether some character of `s` is white space.
pub fn contains_white_space(s: &[char]) -> (found: bool)
    ensures
        found == has_white_space(s@),
{
    let mut i: usize = 0;
    while i < s.len()
        invariant
            i <= s.len(),
            forall|j: int| 0 <= j < i ==> !white_space(#[trigger] s@[j]),
        decreases s.len() - i,
    {
        if s[i].is_whitespace() {
            return true;
        }
        i += 1;
    }
    false
}

/// Finds the first `c` in `s`.
pub fn find_char(s: &[char], c: char) -> (found: Option<usize>)
    ensures
        match found {
            Some(i) => first_index(s@, c) == Some(i as int),
            None => first_index(s@, c) is None,
        },
{
    let mut i: usize = 0;
    while i < s.len()
        invariant
            i <= s.len(),
            forall|j: int| 0 <= j < i ==> s@[j] != c,
        decreases s.len() - i,
    {
        if s[i] == c {
            proof {
                lemma_first_index_is(s@, c, i as int);
            }
            return Some(i);
        }
        i += 1;
    }
    None
}

/// Finds the first `->` in `s`.
pub fn find_arrow(s: &[char]) -> (found: Option<usize>)
    ensures
        match found {
            Some(i) => first_arrow(s@) == Some(i as int),
            None => first_arrow(s@) is None,
        },
{
    let mut end: usize = 1;
    while end < s.len()
        invariant
            1 <= end,
            forall|j: int| 0 <= j < end - 1 ==> !arrow_at(s@, j),
        decreases s.len() - end,
    {
        if s[end - 1] == '-' && s[end] == '>' {
            proof {
                lemma_first_arrow_is(s@, end - 1);
            }
            return Some(end - 1);
        }
        end += 1;
    }
    None
}

/// Splits a dotted key into its segments.
pub fn split_dots(s: &[char]) -> (out: Vec<String>)
    ensures
        views(out@) == dot_segments(s@),
{
    let mut out: Vec<String> = Vec::new();
    let mut start: usize = 0;
    assert(s@.skip(0) == s@);
    loop
        invariant_except_break
            start <= s.len(),
            dot_segments(s@) == views(out@) + dot_segments(s@.skip(start as int)),
        ensures
            views(out@) == dot_segments(s@),
        decreases s.len() - start,
    {
        let rest = slice_subrange(s, start, s.len());
        match find_char(rest, '.') {
            None => {
                out.push(string_of(rest));
                break ;
            },
            Some(i) => {
                proof {
                    lemma_first_index_some(rest@, '.');
                }
                out.push(string_of(slice_subrange(rest, 0, i)));
                assert(rest@.skip(i + 1) == s@.skip(start + i + 1));
                start = start + i + 1;
            },
        }
    }
    out
}

/// Splits a text into its lines.
pub fn split_lines(s: &[char]) -> (out: Vec<String>)
    ensures
        views(out@) == text_lines(s@),
{
    let mut out: Vec<String> = Vec::new();
    let mut start: usize = 0;
    assert(s@.skip(0) == s@);
    while start < s.len()
        invariant
            start <= s.len(),
            text_lines(s@) == views(out@) + text_lines(s@.skip(start as int)),
        decreases s.len() - start,
    {
        let rest = slice_subrange(s, start, s.len());
        match find_char(rest, '\n') {
            None => {
                out.push(string_of(rest));
                start = s.len();
            },
            Some(i) => {
                proof {
                    lemma_first_index_some(rest@, '\n');
                }
                let line = slice_subrange(rest, 0, i);
                if i > 0 && line[i - 1] == '\r' {
                    out.push(string_of(slice_subrange(line, 0, i - 1)));
                } else {
                    out.push(string_of(line));
                }
                assert(rest@.skip(i + 1) == s@.skip(start + i + 1));
                start = start + i + 1;
            },
        }
    }
    out
}

} // verus!
