//! Reading configuration text, line by line, into a tree.
//!
//! A line is `key = value`; the dots of the key lead down the tree. An empty line and a
//! line that starts with `#` or `;` say nothing. A line that starts with `-` is lenient:
//! what would be its failure is passed over.

use crate::error::{Failure, SysctlError};
use crate::text::{
    chars_of, contains_white_space, dot_segments, find_char, first_index, has_white_space,
    lemma_dot_segments_nonempty, lemma_dotted_segments, lemma_first_index_is,
    lemma_first_index_some, lemma_split_segments, split_dots, split_lines, string_of, text_lines,
    trim, trimmed, trimmed_end, trimmed_start, views, white_space,
};
use crate::tree::{
    insert_leaf, is_leaf_path, is_leafy, is_prefix, is_subtree_path, leaf_keys,
    lemma_agreeing_path_has_no_conflict, lemma_insert_into_empty,
    lemma_insert_leaf_adds_one_leaf, lemma_insert_leaf_conflicts,
    lemma_insert_leaf_keeps_leafy, lemma_insert_leaf_keeps_the_rest,
    lemma_inserted_leaf_is_found, lemma_inserted_leaf_stands_in_subtrees, paths_agree, resolve,
    ConfigNode, SysctlConfig,
};
use vstd::prelude::*;
use vstd::slice::slice_subrange;

verus! {

/// Whether `line` says nothing: it is empty, or a comment.
pub open spec fn is_ignored_line(line: Seq<char>) -> bool {
    line.len() == 0 || line[0] == '#' || line[0] == ';'
}

/// Whether the failure of `line` is to be passed over.
pub open spec fn is_lenient_line(line: Seq<char>) -> bool {
    line.len() > 0 && line[0] == '-'
}

/// `line` without the `-` that makes it lenient.
pub open spec fn line_body(line: Seq<char>) -> Seq<char> {
    if is_lenient_line(line) {
        line.skip(1)
    } else {
        line
    }
}

/// The key and the value that `body` declares: what stands before and after its first `=`,
/// each trimmed. There is none where `body` has no `=`, where the key or the value is
/// empty, and where the key holds white space.
pub open spec fn entry_of(body: Seq<char>) -> Option<(Seq<char>, Seq<char>)> {
    match first_index(body, '=') {
        None => None,
        Some(i) => {
            let key = trimmed(body.take(i));
            let value = trimmed(body.skip(i + 1));
            if key.len() == 0 || value.len() == 0 || has_white_space(key) {
                None
            } else {
                Some((key, value))
            }
        },
    }
}

/// What `line` fails with where it is not lenient, if it fails on `tree`.
pub open spec fn line_failure(tree: Map<Seq<char>, ConfigNode>, line: Seq<char>) -> Option<
    Failure,
> {
    if is_ignored_line(line) {
        None
    } else {
        match entry_of(line_body(line)) {
            None => Some(Failure::MalformedLine(line)),
            Some((key, value)) => if insert_leaf(tree, dot_segments(key), value) is None {
                Some(Failure::ConflictingPath(key))
            } else {
                None
            },
        }
    }
}

/// The tree that `line` makes of `tree`, or the failure that it ends the reading with.
pub open spec fn line_outcome(tree: Map<Seq<char>, ConfigNode>, line: Seq<char>) -> Result<
    Map<Seq<char>, ConfigNode>,
    Failure,
> {
    match line_failure(tree, line) {
        Some(failure) => if is_lenient_line(line) {
            Ok(tree)
        } else {
            Err(failure)
        },
        None => if is_ignored_line(line) {
            Ok(tree)
        } else {
            let (key, value) = entry_of(line_body(line))->0;
            Ok(insert_leaf(tree, dot_segments(key), value)->0)
        },
    }
}

/// The tree that `lines` make of `tree`, one after the other, or the failure of the first
/// line that fails.
pub open spec fn lines_outcome(tree: Map<Seq<char>, ConfigNode>, lines: Seq<Seq<char>>) -> Result<
    Map<Seq<char>, ConfigNode>,
    Failure,
>
    decreases lines.len(),
{
    if lines.len() == 0 {
        Ok(tree)
    } else {
        match line_outcome(tree, lines[0]) {
            Ok(next) => lines_outcome(next, lines.drop_first()),
            Err(failure) => Err(failure),
        }
    }
}

/// What a reading handed out, as a mathematical value.
pub open spec fn reading_view(r: Result<SysctlConfig, SysctlError>) -> Result<
    Map<Seq<char>, ConfigNode>,
    Failure,
> {
    match r {
        Ok(tree) => Ok(tree@),
        Err(e) => Err(e@),
    }
}

/// Splits `body` at its first `=` into a key and a value, both trimmed.
pub fn split_entry(body: &[char]) -> (entry: Option<(&[char], &[char])>)
    ensures
        match entry_of(body@) {
            Some((key, value)) => entry matches Some(found) && found.0@ == key && found.1@ == value,
            None => entry is None,
        },
{
    match find_char(body, '=') {
        None => None,
        Some(i) => {
            proof {
                lemma_first_index_some(body@, '=');
            }
            let end = body.len();
            let key = trim(slice_subrange(body, 0, i));
            let value = trim(slice_subrange(body, i + 1, end));
            if key.len() == 0 || value.len() == 0 || contains_white_space(key) {
                None
            } else {
                Some((key, value))
            }
        },
    }
}

/// Reads one line into `map`.
pub fn apply_line(map: &mut SysctlConfig, line: &[char]) -> (r: Result<(), SysctlError>)
    requires
        old(map).wf(),
    ensures
        final(map).wf(),
        match line_outcome(old(map)@, line@) {
            Ok(tree) => r is Ok && final(map)@ == tree,
            Err(failure) => r is Err && r->Err_0@ == failure && final(map)@ == old(map)@,
        },
{
    if line.len() == 0 || line[0] == '#' || line[0] == ';' {
        return Ok(());
    }
    let lenient = line[0] == '-';
    let body = if lenient {
        slice_subrange(line, 1, line.len())
    } else {
        line
    };
    match split_entry(body) {
        None => {
            if lenient {
                Ok(())
            } else {
                Err(SysctlError::MalformedLine(string_of(line)))
            }
        },
        Some((key, value)) => {
            let path = split_dots(key);
            proof {
                lemma_split_segments(key@, path@);
            }
            if map.insert_path(&path, 0, string_of(value)) || lenient {
                Ok(())
            } else {
                Err(SysctlError::ConflictingPath(string_of(key)))
            }
        },
    }
}

/// Reads one line into `map`: the line's leaf is put at its key, or the line is passed
/// over, or it fails and `map` stays as it was.
pub fn insert_entry_of_line(map: &mut SysctlConfig, line: String) -> (r: Result<(), SysctlError>)
    requires
        old(map).wf(),
    ensures
        final(map).wf(),
        match line_outcome(old(map)@, line@) {
            Ok(tree) => r is Ok && final(map)@ == tree,
            Err(failure) => r is Err && r->Err_0@ == failure && final(map)@ == old(map)@,
        },
{
    let chars = chars_of(line.as_str());
    apply_line(map, chars.as_slice())
}

/// Reads `lines` into a new tree. The first line that fails ends the reading with its
/// failure.
pub fn load_sysctl_from_reader(lines: &[String]) -> (r: Result<SysctlConfig, SysctlError>)
    ensures
        reading_view(r) == lines_outcome(Map::empty(), views(lines@)),
        r matches Ok(tree) ==> tree.wf(),
{
    let mut map = SysctlConfig::new();
    let mut i: usize = 0;
    assert(views(lines@).skip(0) == views(lines@));
    while i < lines.len()
        invariant
            i <= lines.len(),
            map.wf(),
            lines_outcome(Map::empty(), views(lines@)) == lines_outcome(
                map@,
                views(lines@).skip(i as int),
            ),
        decreases lines.len() - i,
    {
        let chars = chars_of(lines[i].as_str());
        assert(views(lines@).skip(i as int).drop_first() == views(lines@).skip(i + 1));
        match apply_line(&mut map, chars.as_slice()) {
            Ok(()) => {},
            Err(e) => {
                return Err(e);
            },
        }
        i += 1;
    }
    Ok(map)
}

/// Reads the configuration text `text` into a new tree.
pub fn load_sysctl(text: &str) -> (r: Result<SysctlConfig, SysctlError>)
    ensures
        reading_view(r) == lines_outcome(Map::empty(), text_lines(text@)),
        r matches Ok(tree) ==> tree.wf(),
{
    let chars = chars_of(text);
    let lines = split_lines(chars.as_slice());
    load_sysctl_from_reader(lines.as_slice())
}

/// An empty line and a comment leave the tree as it is, and never fail.
pub proof fn lemma_ignored_line_changes_nothing(tree: Map<Seq<char>, ConfigNode>, line: Seq<char>)
    requires
        is_ignored_line(line),
    ensures
        line_outcome(tree, line) == Ok::<Map<Seq<char>, ConfigNode>, Failure>(tree),
{
}

/// A line that declares a key and a value, read without failure, puts the value as a leaf
/// at the key, and adds no other leaf: the leaves are those that were, and this one; a
/// subtree stands at each proper beginning of the key's path; at every path but these the
/// tree holds what it held.
pub proof fn lemma_entry_line_puts_its_leaf(tree: Map<Seq<char>, ConfigNode>, line: Seq<char>)
    requires
        !is_ignored_line(line),
        line_failure(tree, line) is None,
    ensures
        line_outcome(tree, line) is Ok,
        ({
            let (key, value) = entry_of(line_body(line))->0;
            let path = dot_segments(key);
            let after = line_outcome(tree, line)->Ok_0;
            &&& resolve(after, path) == Some(ConfigNode::Leaf(value))
            &&& leaf_keys(after) == leaf_keys(tree).insert(key)
            &&& forall|n: int|
                0 < n < path.len() ==> is_subtree_path(after, #[trigger] path.take(n))
            &&& forall|other: Seq<Seq<char>>|
                !is_prefix(other, path) ==> #[trigger] resolve(after, other) == resolve(
                    tree,
                    other,
                )
        }),
{
    let (key, value) = entry_of(line_body(line))->0;
    let path = dot_segments(key);
    let after = line_outcome(tree, line)->Ok_0;
    lemma_inserted_leaf_is_found(tree, path, value);
    lemma_insert_leaf_adds_one_leaf(tree, path, value);
    lemma_dotted_segments(key);
    assert forall|n: int| 0 < n < path.len() implies is_subtree_path(
        after,
        #[trigger] path.take(n),
    ) by {
        lemma_inserted_leaf_stands_in_subtrees(tree, path, value, n);
    }
    assert forall|other: Seq<Seq<char>>| !is_prefix(other, path) implies #[trigger] resolve(
        after,
        other,
    ) == resolve(tree, other) by {
        lemma_insert_leaf_keeps_the_rest(tree, path, value, other);
    }
}

/// On the empty tree no line that declares a key and a value fails.
pub proof fn lemma_entry_line_on_empty_tree(line: Seq<char>)
    requires
        entry_of(line_body(line)) is Some,
    ensures
        line_failure(Map::empty(), line) is None,
{
    let (key, value) = entry_of(line_body(line))->0;
    lemma_dot_segments_nonempty(key);
    lemma_insert_into_empty(dot_segments(key), value);
}

/// A line whose key runs through a leaf, or names a subtree, fails with the key; where
/// the line is lenient it is passed over and the tree stays as it is.
pub proof fn lemma_conflicting_line(tree: Map<Seq<char>, ConfigNode>, line: Seq<char>)
    requires
        !is_ignored_line(line),
        entry_of(line_body(line)) is Some,
        ({
            let (key, value) = entry_of(line_body(line))->0;
            let path = dot_segments(key);
            ||| is_subtree_path(tree, path)
            ||| exists|n: int| 0 < n < path.len() && is_leaf_path(tree, #[trigger] path.take(n))
        }),
    ensures
        ({
            let (key, value) = entry_of(line_body(line))->0;
            line_outcome(tree, line) == if is_lenient_line(line) {
                Ok::<Map<Seq<char>, ConfigNode>, Failure>(tree)
            } else {
                Err(Failure::ConflictingPath(key))
            }
        }),
{
    let (key, value) = entry_of(line_body(line))->0;
    lemma_insert_leaf_conflicts(tree, dot_segments(key), value);
}

/// A line that declares no key and value fails with the line; with a `-` before it, it
/// is passed over and the tree stays as it is.
pub proof fn lemma_malformed_line(tree: Map<Seq<char>, ConfigNode>, line: Seq<char>)
    requires
        !is_ignored_line(line),
        !is_lenient_line(line),
        entry_of(line) is None,
    ensures
        line_outcome(tree, line) == Err::<Map<Seq<char>, ConfigNode>, Failure>(
            Failure::MalformedLine(line),
        ),
        line_outcome(tree, seq!['-'] + line) == Ok::<Map<Seq<char>, ConfigNode>, Failure>(tree),
{
    let lenient = seq!['-'] + line;
    assert(lenient.skip(1) == line);
}

/// A reading in which a line that is not lenient declares no key and value fails.
pub proof fn lemma_malformed_line_fails_the_reading(
    tree: Map<Seq<char>, ConfigNode>,
    lines: Seq<Seq<char>>,
    at: int,
)
    requires
        0 <= at < lines.len(),
        !is_ignored_line(lines[at]),
        !is_lenient_line(lines[at]),
        entry_of(lines[at]) is None,
    ensures
        lines_outcome(tree, lines) is Err,
    decreases lines.len(),
{
    if at > 0 {
        if let Ok(next) = line_outcome(tree, lines[0]) {
            lemma_malformed_line_fails_the_reading(next, lines.drop_first(), at - 1);
        }
    }
}

/// A reading ends with the failure of the first of its lines that fails on the tree that
/// the lines before it made.
pub proof fn lemma_reading_stops_at_first_failure(
    tree: Map<Seq<char>, ConfigNode>,
    lines: Seq<Seq<char>>,
    at: int,
)
    requires
        0 <= at < lines.len(),
        lines_outcome(tree, lines.take(at)) is Ok,
        line_outcome(lines_outcome(tree, lines.take(at))->Ok_0, lines[at]) is Err,
    ensures
        lines_outcome(tree, lines) == Err::<Map<Seq<char>, ConfigNode>, Failure>(
            line_outcome(lines_outcome(tree, lines.take(at))->Ok_0, lines[at])->Err_0,
        ),
    decreases lines.len(),
{
    if at > 0 {
        assert(lines.take(at).drop_first() == lines.drop_first().take(at - 1));
        let next = line_outcome(tree, lines[0])->Ok_0;
        lemma_reading_stops_at_first_failure(next, lines.drop_first(), at - 1);
    }
}

/// The line that declares `value` for `key`, with a space on each side of the `=`.
pub open spec fn spaced_line(key: Seq<char>, value: Seq<char>) -> Seq<char> {
    key + seq![' ', '=', ' '] + value
}

/// Whether `key` can be declared as it stands: it is not empty and holds neither white
/// space nor a `=`.
pub open spec fn is_plain_key(key: Seq<char>) -> bool {
    key.len() > 0 && !has_white_space(key) && !key.contains('=')
}

/// Whether `value` can be declared as it stands: it is not empty and neither starts nor
/// ends with white space.
pub open spec fn is_plain_value(value: Seq<char>) -> bool {
    value.len() > 0 && !white_space(value[0]) && !white_space(value.last())
}

/// What stands before and after a `=`, where nothing before it holds a `=`, is what the
/// line declares, once trimmed.
pub proof fn lemma_entry_of_two_sides(left: Seq<char>, right: Seq<char>)
    requires
        !left.contains('='),
    ensures
        entry_of(left + seq!['='] + right) == if trimmed(left).len() == 0 || trimmed(
            right,
        ).len() == 0 || has_white_space(trimmed(left)) {
            None
        } else {
            Some((trimmed(left), trimmed(right)))
        },
{
    let body = left + seq!['='] + right;
    let at = left.len() as int;
    assert forall|j: int| 0 <= j < at implies body[j] != '=' by {
        assert(body[j] == left[j]);
    }
    lemma_first_index_is(body, '=', at);
    assert(body.take(at) == left);
    assert(body.skip(at + 1) == right);
}

/// A space before a value that does not start or end with white space, or after such a
/// key, is trimmed away, and nothing else.
pub proof fn lemma_trimmed_of_spaced(s: Seq<char>)
    requires
        s.len() > 0,
        !white_space(s[0]),
        !white_space(s.last()),
    ensures
        trimmed(s) == s,
        trimmed(s + seq![' ']) == s,
        trimmed(seq![' '] + s) == s,
{
    let after = s + seq![' '];
    let before = seq![' '] + s;
    assert(after.drop_last() == s);
    assert(before.skip(1) == s);
    assert(trimmed_start(s) == s);
    assert(trimmed_end(s) == s);
    assert(trimmed_start(after) == after);
    assert(trimmed_end(after) == trimmed_end(s));
    assert(trimmed_start(before) == trimmed_start(s));
}

/// The line `key = value` declares `key` and `value`, where the key is not empty and
/// holds neither white space nor `=`, and the value is not empty and has no white space
/// at either end.
pub proof fn lemma_spaced_line_declares(key: Seq<char>, value: Seq<char>)
    requires
        is_plain_key(key),
        is_plain_value(value),
    ensures
        entry_of(spaced_line(key, value)) == Some((key, value)),
{
    let left = key + seq![' '];
    let right = seq![' '] + value;
    assert(spaced_line(key, value) == left + seq!['='] + right);
    assert(!white_space(key[0]) && !white_space(key.last()));
    assert(!left.contains('=')) by {
        if left.contains('=') {
            let j = choose|j: int| 0 <= j < left.len() && left[j] == '=';
            if j < key.len() {
                assert(key[j] == '=');
            }
        }
    }
    lemma_trimmed_of_spaced(key);
    lemma_trimmed_of_spaced(value);
    lemma_entry_of_two_sides(left, right);
}

/// The line `key = value` is read without failure where its key runs through no leaf and
/// names no subtree. It then puts `value` as a leaf at `key` and adds no other leaf: the
/// leaf keys are those that were, and `key`, so that there is one leaf more unless `key`
/// named a leaf before; a subtree stands at each proper beginning of the key's path; at
/// every path but these the tree holds what it held.
pub proof fn lemma_spaced_line_puts_its_leaf(
    tree: Map<Seq<char>, ConfigNode>,
    key: Seq<char>,
    value: Seq<char>,
)
    requires
        is_plain_key(key),
        is_plain_value(value),
        key[0] != '#' && key[0] != ';' && key[0] != '-',
        !is_subtree_path(tree, dot_segments(key)),
        forall|n: int|
            0 < n < dot_segments(key).len() ==> !is_leaf_path(
                tree,
                #[trigger] dot_segments(key).take(n),
            ),
    ensures
        line_outcome(tree, spaced_line(key, value)) == Ok::<Map<Seq<char>, ConfigNode>, Failure>(
            insert_leaf(tree, dot_segments(key), value)->0,
        ),
        ({
            let path = dot_segments(key);
            let after = line_outcome(tree, spaced_line(key, value))->Ok_0;
            &&& resolve(after, path) == Some(ConfigNode::Leaf(value))
            &&& leaf_keys(after) == leaf_keys(tree).insert(key)
            &&& leaf_keys(tree).finite() ==> leaf_keys(after).len() == leaf_keys(tree).len() + (
            if leaf_keys(tree).contains(key) {
                0nat
            } else {
                1nat
            })
            &&& forall|n: int|
                0 < n < path.len() ==> is_subtree_path(after, #[trigger] path.take(n))
            &&& forall|other: Seq<Seq<char>>|
                !is_prefix(other, path) ==> #[trigger] resolve(after, other) == resolve(
                    tree,
                    other,
                )
        }),
{
    let line = spaced_line(key, value);
    assert(line[0] == key[0]);
    lemma_spaced_line_declares(key, value);
    lemma_dot_segments_nonempty(key);
    lemma_insert_leaf_conflicts(tree, dot_segments(key), value);
    lemma_entry_line_puts_its_leaf(tree, line);
}

/// Reading lines is reading the first of them and then, on the tree that they made, the
/// rest.
pub proof fn lemma_reading_in_two(
    tree: Map<Seq<char>, ConfigNode>,
    first: Seq<Seq<char>>,
    rest: Seq<Seq<char>>,
)
    ensures
        lines_outcome(tree, first + rest) == match lines_outcome(tree, first) {
            Ok(made) => lines_outcome(made, rest),
            Err(failure) => Err(failure),
        },
    decreases first.len(),
{
    if first.len() == 0 {
        assert(first + rest == rest);
    } else {
        assert((first + rest).drop_first() == first.drop_first() + rest);
        if let Ok(next) = line_outcome(tree, first[0]) {
            lemma_reading_in_two(next, first.drop_first(), rest);
        }
    }
}

/// Reading one line is what the line does.
pub proof fn lemma_reading_of_one_line(tree: Map<Seq<char>, ConfigNode>, line: Seq<char>)
    ensures
        lines_outcome(tree, seq![line]) == line_outcome(tree, line),
{
    let rest = seq![line].drop_first();
    assert(rest.len() == 0);
    if let Ok(next) = line_outcome(tree, line) {
        assert(lines_outcome(next, rest) == Ok::<Map<Seq<char>, ConfigNode>, Failure>(next));
    }
}

/// No line takes a leaf away: what was a leaf's place before a line is one after it,
/// though the leaf may be another.
pub proof fn lemma_line_keeps_leaves(
    tree: Map<Seq<char>, ConfigNode>,
    line: Seq<char>,
    path: Seq<Seq<char>>,
)
    requires
        line_outcome(tree, line) is Ok,
        is_leaf_path(tree, path),
    ensures
        is_leaf_path(line_outcome(tree, line)->Ok_0, path),
{
    if !is_ignored_line(line) && line_failure(tree, line) is None {
        let (key, value) = entry_of(line_body(line))->0;
        lemma_insert_leaf_adds_one_leaf(tree, dot_segments(key), value);
    }
}

/// No reading takes a leaf away.
pub proof fn lemma_reading_keeps_leaves(
    tree: Map<Seq<char>, ConfigNode>,
    lines: Seq<Seq<char>>,
    path: Seq<Seq<char>>,
)
    requires
        lines_outcome(tree, lines) is Ok,
        is_leaf_path(tree, path),
    ensures
        is_leaf_path(lines_outcome(tree, lines)->Ok_0, path),
    decreases lines.len(),
{
    if lines.len() > 0 {
        lemma_line_keeps_leaves(tree, lines[0], path);
        lemma_reading_keeps_leaves(line_outcome(tree, lines[0])->Ok_0, lines.drop_first(), path);
    }
}

/// After a reading without failure, a leaf stands at the key of each line that declares
/// one and did not fail on the tree that the lines before it made: every such line that
/// is not lenient, and every lenient one whose key ran through no leaf and named no
/// subtree.
pub proof fn lemma_read_key_names_a_leaf(
    tree: Map<Seq<char>, ConfigNode>,
    lines: Seq<Seq<char>>,
    at: int,
)
    requires
        0 <= at < lines.len(),
        lines_outcome(tree, lines) is Ok,
        !is_ignored_line(lines[at]),
        entry_of(line_body(lines[at])) is Some,
        is_lenient_line(lines[at]) ==> line_failure(
            lines_outcome(tree, lines.take(at))->Ok_0,
            lines[at],
        ) is None,
    ensures
        ({
            let (key, value) = entry_of(line_body(lines[at]))->0;
            is_leaf_path(lines_outcome(tree, lines)->Ok_0, dot_segments(key))
        }),
{
    let (key, value) = entry_of(line_body(lines[at]))->0;
    let before = lines.take(at);
    let after = lines.skip(at + 1);
    assert(lines == before + (seq![lines[at]] + after));
    lemma_reading_in_two(tree, before, seq![lines[at]] + after);
    let made = lines_outcome(tree, before)->Ok_0;
    lemma_reading_in_two(made, seq![lines[at]], after);
    lemma_reading_of_one_line(made, lines[at]);
    let with_line = line_outcome(made, lines[at])->Ok_0;
    lemma_inserted_leaf_is_found(made, dot_segments(key), value);
    lemma_reading_keeps_leaves(with_line, after, dot_segments(key));
}

/// Whether `line` declares a key and a value.
pub open spec fn declares(line: Seq<char>) -> bool {
    !is_ignored_line(line) && entry_of(line_body(line)) is Some
}

/// The path of the key that `line` declares.
pub open spec fn declared_path(line: Seq<char>) -> Seq<Seq<char>> {
    let entry = entry_of(line_body(line))->0;
    dot_segments(entry.0)
}

/// The value that `line` declares.
pub open spec fn declared_value(line: Seq<char>) -> Seq<char> {
    let entry = entry_of(line_body(line))->0;
    entry.1
}

/// The line `key = value` declares `key` and `value`, where the key starts with none of
/// `#`, `;` and `-`.
pub proof fn lemma_spaced_line_is_a_declaration(key: Seq<char>, value: Seq<char>)
    requires
        is_plain_key(key),
        is_plain_value(value),
        key[0] != '#' && key[0] != ';' && key[0] != '-',
    ensures
        declares(spaced_line(key, value)),
        !is_lenient_line(spaced_line(key, value)),
        declared_path(spaced_line(key, value)) == dot_segments(key),
        declared_value(spaced_line(key, value)) == value,
{
    assert(spaced_line(key, value)[0] == key[0]);
    lemma_spaced_line_declares(key, value);
}

/// Whether `lines` can be read into `tree` one after the other without failure: the tree
/// has no empty subtree; each line that is neither ignored nor lenient declares a key and
/// a value; and of the paths of the tree's leaves and of the keys that the lines declare,
/// none is a proper beginning of another.
pub open spec fn lines_fit(tree: Map<Seq<char>, ConfigNode>, lines: Seq<Seq<char>>) -> bool {
    &&& is_leafy(tree)
    &&& forall|i: int|
        0 <= i < lines.len() ==> is_ignored_line(#[trigger] lines[i]) || is_lenient_line(
            lines[i],
        ) || declares(lines[i])
    &&& forall|i: int, j: int|
        0 <= i < j < lines.len() && declares(#[trigger] lines[i]) && declares(
            #[trigger] lines[j],
        ) ==> paths_agree(declared_path(lines[i]), declared_path(lines[j]))
    &&& forall|q: Seq<Seq<char>>, j: int|
        #[trigger] is_leaf_path(tree, q) && 0 <= j < lines.len() && declares(#[trigger] lines[j])
            ==> paths_agree(q, declared_path(lines[j]))
}

/// The first of lines that fit a tree is read without failure, and the rest fit the tree
/// that it makes.
pub proof fn lemma_first_fitting_line(tree: Map<Seq<char>, ConfigNode>, lines: Seq<Seq<char>>)
    requires
        lines_fit(tree, lines),
        lines.len() > 0,
    ensures
        line_outcome(tree, lines[0]) is Ok,
        declares(lines[0]) ==> line_failure(tree, lines[0]) is None,
        lines_fit(line_outcome(tree, lines[0])->Ok_0, lines.drop_first()),
{
    let line = lines[0];
    let rest = lines.drop_first();
    assert forall|i: int| 0 <= i < rest.len() implies #[trigger] rest[i] == lines[i + 1] by {}
    if declares(line) {
        let path = declared_path(line);
        let value = declared_value(line);
        let entry = entry_of(line_body(line))->0;
        lemma_dot_segments_nonempty(entry.0);
        assert forall|q: Seq<Seq<char>>| #[trigger] is_leaf_path(tree, q) implies paths_agree(
            q,
            path,
        ) by {
            assert(declares(lines[0]));
        }
        lemma_agreeing_path_has_no_conflict(tree, path, value);
        lemma_insert_leaf_keeps_leafy(tree, path, value);
        lemma_insert_leaf_adds_one_leaf(tree, path, value);
        let after = insert_leaf(tree, path, value)->0;
        assert(line_outcome(tree, line) == Ok::<Map<Seq<char>, ConfigNode>, Failure>(after));
        assert forall|q: Seq<Seq<char>>, j: int| #[trigger]
            is_leaf_path(after, q) && 0 <= j < rest.len() && declares(
                #[trigger] rest[j],
            ) implies paths_agree(q, declared_path(rest[j])) by {
            assert(rest[j] == lines[j + 1]);
            if q == path {
                assert(declares(lines[0]) && declares(lines[j + 1]));
            } else {
                assert(is_leaf_path(tree, q));
            }
        }
        assert forall|i: int, j: int|
            0 <= i < j < rest.len() && declares(#[trigger] rest[i]) && declares(
                #[trigger] rest[j],
            ) implies paths_agree(declared_path(rest[i]), declared_path(rest[j])) by {
            assert(rest[i] == lines[i + 1] && rest[j] == lines[j + 1]);
        }
        assert(lines_fit(after, rest));
    } else {
        assert(is_ignored_line(line) || is_lenient_line(line));
        assert(line_outcome(tree, line) == Ok::<Map<Seq<char>, ConfigNode>, Failure>(tree));
        assert forall|q: Seq<Seq<char>>, j: int| #[trigger]
            is_leaf_path(tree, q) && 0 <= j < rest.len() && declares(
                #[trigger] rest[j],
            ) implies paths_agree(q, declared_path(rest[j])) by {
            assert(rest[j] == lines[j + 1]);
        }
        assert forall|i: int, j: int|
            0 <= i < j < rest.len() && declares(#[trigger] rest[i]) && declares(
                #[trigger] rest[j],
            ) implies paths_agree(declared_path(rest[i]), declared_path(rest[j])) by {
            assert(rest[i] == lines[i + 1] && rest[j] == lines[j + 1]);
        }
        assert(lines_fit(tree, rest));
    }
}

/// Lines that fit a tree are read without failure, and none of the keys that they
/// declare is passed over.
pub proof fn lemma_fitting_lines_are_read(tree: Map<Seq<char>, ConfigNode>, lines: Seq<Seq<char>>)
    requires
        lines_fit(tree, lines),
    ensures
        lines_outcome(tree, lines) is Ok,
        is_leafy(lines_outcome(tree, lines)->Ok_0),
        forall|at: int|
            0 <= at < lines.len() && declares(#[trigger] lines[at]) ==> is_leaf_path(
                lines_outcome(tree, lines)->Ok_0,
                declared_path(lines[at]),
            ),
    decreases lines.len(),
{
    if lines.len() > 0 {
        let rest = lines.drop_first();
        let next = line_outcome(tree, lines[0])->Ok_0;
        lemma_first_fitting_line(tree, lines);
        lemma_fitting_lines_are_read(next, rest);
        let made = lines_outcome(tree, lines)->Ok_0;
        assert forall|at: int| 0 <= at < lines.len() && declares(
            #[trigger] lines[at],
        ) implies is_leaf_path(made, declared_path(lines[at])) by {
            if at == 0 {
                lemma_inserted_leaf_is_found(
                    tree,
                    declared_path(lines[0]),
                    declared_value(lines[0]),
                );
                lemma_reading_keeps_leaves(next, rest, declared_path(lines[0]));
            } else {
                assert(rest[at - 1] == lines[at]);
            }
        }
    }
}

/// What stands at a path with which the keys of all the lines agree, and which none of
/// them declares, stands there after the lines are read.
pub proof fn lemma_fitting_lines_keep_other_paths(
    tree: Map<Seq<char>, ConfigNode>,
    lines: Seq<Seq<char>>,
    path: Seq<Seq<char>>,
)
    requires
        lines_fit(tree, lines),
        forall|j: int|
            0 <= j < lines.len() && declares(#[trigger] lines[j]) ==> declared_path(lines[j])
                != path && paths_agree(path, declared_path(lines[j])),
    ensures
        lines_outcome(tree, lines) is Ok,
        resolve(lines_outcome(tree, lines)->Ok_0, path) == resolve(tree, path),
    decreases lines.len(),
{
    lemma_fitting_lines_are_read(tree, lines);
    if lines.len() > 0 {
        let rest = lines.drop_first();
        let next = line_outcome(tree, lines[0])->Ok_0;
        lemma_first_fitting_line(tree, lines);
        assert forall|j: int|
            0 <= j < rest.len() && declares(#[trigger] rest[j]) implies declared_path(rest[j])
            != path && paths_agree(path, declared_path(rest[j])) by {
            assert(rest[j] == lines[j + 1]);
        }
        lemma_fitting_lines_keep_other_paths(next, rest, path);
        if declares(lines[0]) {
            assert(paths_agree(path, declared_path(lines[0])));
            lemma_insert_leaf_keeps_the_rest(
                tree,
                declared_path(lines[0]),
                declared_value(lines[0]),
                path,
            );
        }
    }
}

/// After lines that fit a tree are read, the value of the last line that declares a key
/// stands as a leaf at that key.
pub proof fn lemma_last_declaration_wins(
    tree: Map<Seq<char>, ConfigNode>,
    lines: Seq<Seq<char>>,
    at: int,
)
    requires
        lines_fit(tree, lines),
        0 <= at < lines.len(),
        declares(lines[at]),
        forall|j: int|
            at < j < lines.len() && declares(#[trigger] lines[j]) ==> declared_path(lines[j])
                != declared_path(lines[at]),
    ensures
        lines_outcome(tree, lines) is Ok,
        resolve(lines_outcome(tree, lines)->Ok_0, declared_path(lines[at])) == Some(
            ConfigNode::Leaf(declared_value(lines[at])),
        ),
    decreases lines.len(),
{
    let rest = lines.drop_first();
    let next = line_outcome(tree, lines[0])->Ok_0;
    let path = declared_path(lines[at]);
    lemma_fitting_lines_are_read(tree, lines);
    lemma_first_fitting_line(tree, lines);
    if at == 0 {
        lemma_inserted_leaf_is_found(tree, path, declared_value(lines[0]));
        assert forall|j: int|
            0 <= j < rest.len() && declares(#[trigger] rest[j]) implies declared_path(rest[j])
            != path && paths_agree(path, declared_path(rest[j])) by {
            assert(rest[j] == lines[j + 1]);
            assert(declares(lines[0]) && declares(lines[j + 1]));
        }
        lemma_fitting_lines_keep_other_paths(next, rest, path);
    } else {
        assert(rest[at - 1] == lines[at]);
        assert forall|j: int|
            at - 1 < j < rest.len() && declares(#[trigger] rest[j]) implies declared_path(rest[j])
            != declared_path(rest[at - 1]) by {
            assert(rest[j] == lines[j + 1]);
        }
        lemma_last_declaration_wins(next, rest, at - 1);
    }
}

} // verus!
