//! The loader: a schema, and the reading of configurations that must conform to it.
//!
//! A schema line is `key -> type`. A configuration conforms where each of its leaves is
//! declared and each declared key names a leaf that spells a value of the declared type.

use crate::error::{Failure, SysctlError};
use crate::keyset::KeySet;
use crate::parser::{
    apply_line, line_outcome, lines_outcome, load_sysctl_from_reader, reading_view,
};
use crate::schema::{conforms, schema_view, type_named, SchemaEntry, SysctlConfigSchema};
use crate::text::{
    chars_of, dot_segments, dotted, find_arrow, first_arrow, lemma_dotted_segments, split_lines,
    string_of, text_lines, trim, trimmed, views,
};
use crate::tree::{
    is_dot_free, is_leaf_path, leaf_keys, lemma_leaf_keys_are_found, leaf_keys_after,
    leaf_keys_under, lemma_entry_in_model, lemma_key_has_entry, lemma_leaf_keys_by_first,
    lemma_leaf_keys_under_leaf, lemma_leaf_keys_under_subtree, lemma_node_model, resolve,
    ConfigNode, SysctlConfig, SysctlConfigValue,
};
use vstd::prelude::*;
use vstd::slice::slice_subrange;
use vstd::string::StringExecFns;

verus! {

/// What the schema line `line` declares: the key before its first `->` and the type named
/// after it, both trimmed.
pub open spec fn schema_entry_of(line: Seq<char>) -> Result<SchemaEntry, Failure> {
    match first_arrow(line) {
        None => Err(Failure::MalformedLine(line)),
        Some(i) => {
            let name = trimmed(line.skip(i + 2));
            match type_named(name) {
                Some(typ) => Ok(SchemaEntry { key: trimmed(line.take(i)), typ }),
                None => Err(Failure::UnknownType(name)),
            }
        },
    }
}

/// The schema that `line` makes of `schema`: an empty line adds nothing, any other line
/// its declaration.
pub open spec fn schema_line_outcome(schema: Seq<SchemaEntry>, line: Seq<char>) -> Result<
    Seq<SchemaEntry>,
    Failure,
> {
    if line.len() == 0 {
        Ok(schema)
    } else {
        match schema_entry_of(line) {
            Ok(entry) => Ok(schema.push(entry)),
            Err(failure) => Err(failure),
        }
    }
}

/// The schema that `lines` make of `schema`, one after the other, or the failure of the
/// first line that fails.
pub open spec fn schema_outcome(schema: Seq<SchemaEntry>, lines: Seq<Seq<char>>) -> Result<
    Seq<SchemaEntry>,
    Failure,
>
    decreases lines.len(),
{
    if lines.len() == 0 {
        Ok(schema)
    } else {
        match schema_line_outcome(schema, lines[0]) {
            Ok(next) => schema_outcome(next, lines.drop_first()),
            Err(failure) => Err(failure),
        }
    }
}

/// The keys that `schema` declares.
pub open spec fn declared_keys(schema: Seq<SchemaEntry>) -> Set<Seq<char>> {
    Set::new(
        |key: Seq<char>| exists|i: int| 0 <= i < schema.len() && (#[trigger] schema[i]).key == key,
    )
}

/// The dotted keys of the leaves of `tree` that `schema` does not declare.
pub open spec fn surplus_keys(tree: Map<Seq<char>, ConfigNode>, schema: Seq<SchemaEntry>) -> Set<
    Seq<char>,
> {
    leaf_keys(tree).difference(declared_keys(schema))
}

/// What is wrong in `tree` with the declaration `entry`, if anything.
pub open spec fn entry_failure(tree: Map<Seq<char>, ConfigNode>, entry: SchemaEntry) -> Option<
    Failure,
> {
    match resolve(tree, dot_segments(entry.key)) {
        None => Some(Failure::MissingKey(entry.key)),
        Some(ConfigNode::Subtree(_)) => Some(
            Failure::TypeMismatch { key: entry.key, value: None, expected: entry.typ },
        ),
        Some(ConfigNode::Leaf(value)) => if conforms(value, entry.typ) {
            None
        } else {
            Some(Failure::TypeMismatch { key: entry.key, value: Some(value), expected: entry.typ })
        },
    }
}

/// What is wrong in `tree` with the first declaration of `schema` with which anything is.
pub open spec fn first_entry_failure(
    tree: Map<Seq<char>, ConfigNode>,
    schema: Seq<SchemaEntry>,
) -> Option<Failure>
    decreases schema.len(),
{
    if schema.len() == 0 {
        None
    } else {
        match entry_failure(tree, schema[0]) {
            Some(failure) => Some(failure),
            None => first_entry_failure(tree, schema.drop_first()),
        }
    }
}

/// Why `tree` does not conform to `schema`, if it does not: the leaves that are not
/// declared, all of them; else what is wrong with the first declaration with which
/// anything is.
pub open spec fn validation_failure(
    tree: Map<Seq<char>, ConfigNode>,
    schema: Seq<SchemaEntry>,
) -> Option<Failure> {
    if surplus_keys(tree, schema) =~= Set::empty() {
        first_entry_failure(tree, schema)
    } else {
        Some(Failure::SurplusKeys(surplus_keys(tree, schema)))
    }
}

/// The tree that `lines` spell, if they can be read and the tree conforms to `schema`;
/// else the failure.
pub open spec fn load_outcome(schema: Seq<SchemaEntry>, lines: Seq<Seq<char>>) -> Result<
    Map<Seq<char>, ConfigNode>,
    Failure,
> {
    match lines_outcome(Map::empty(), lines) {
        Err(failure) => Err(failure),
        Ok(tree) => match validation_failure(tree, schema) {
            Some(failure) => Err(failure),
            None => Ok(tree),
        },
    }
}

/// A schema, and the reading of configurations against it.
#[derive(Debug)]
pub struct SysctlConfigLoader {
    schema: Vec<SysctlConfigSchema>,
}

impl View for SysctlConfigLoader {
    type V = Seq<SchemaEntry>;

    /// The declarations of the schema, in the order of their lines.
    closed spec fn view(&self) -> Seq<SchemaEntry> {
        schema_view(self.schema@)
    }
}

impl SysctlConfigLoader {
    /// The loader for the schema that the text `text` spells.
    pub fn new(text: &str) -> (r: Result<Self, SysctlError>)
        ensures
            match schema_outcome(Seq::empty(), text_lines(text@)) {
                Ok(schema) => r is Ok && r->Ok_0@ == schema,
                Err(failure) => r is Err && r->Err_0@ == failure,
            },
    {
        let chars = chars_of(text);
        let lines = split_lines(chars.as_slice());
        match Self::load_sysctl_schema_from_reader(lines.as_slice()) {
            Ok(schema) => Ok(SysctlConfigLoader { schema }),
            Err(e) => Err(e),
        }
    }

    /// The declarations of the schema, in the order of their lines.
    pub fn schema(&self) -> (schema: &Vec<SysctlConfigSchema>)
        ensures
            schema_view(schema@) == self@,
    {
        &self.schema
    }

    /// Reads the schema that `lines` spell. The first line that fails ends the reading
    /// with its failure.
    pub fn load_sysctl_schema_from_reader(lines: &[String]) -> (r: Result<
        Vec<SysctlConfigSchema>,
        SysctlError,
    >)
        ensures
            match schema_outcome(Seq::empty(), views(lines@)) {
                Ok(schema) => r is Ok && schema_view(r->Ok_0@) == schema,
                Err(failure) => r is Err && r->Err_0@ == failure,
            },
    {
        let mut schema: Vec<SysctlConfigSchema> = Vec::new();
        let mut i: usize = 0;
        assert(views(lines@).skip(0) == views(lines@));
        assert(schema_view(schema@) == Seq::<SchemaEntry>::empty());
        while i < lines.len()
            invariant
                i <= lines.len(),
                schema_outcome(Seq::empty(), views(lines@)) == schema_outcome(
                    schema_view(schema@),
                    views(lines@).skip(i as int),
                ),
            decreases lines.len() - i,
        {
            assert(views(lines@).skip(i as int).drop_first() == views(lines@).skip(i + 1));
            match Self::insert_schema_of_line(&mut schema, lines[i].clone()) {
                Ok(()) => {},
                Err(e) => {
                    return Err(e);
                },
            }
            i += 1;
        }
        Ok(schema)
    }

    /// Reads one schema line into `schema`: its declaration is added at the end, or the
    /// line is empty, or it fails and `schema` stays as it was.
    pub fn insert_schema_of_line(schema: &mut Vec<SysctlConfigSchema>, line: String) -> (r: Result<
        (),
        SysctlError,
    >)
        ensures
            match schema_line_outcome(schema_view(old(schema)@), line@) {
                Ok(next) => r is Ok && schema_view(final(schema)@) == next,
                Err(failure) => r is Err && r->Err_0@ == failure && final(schema)@ == old(
                    schema,
                )@,
            },
    {
        let chars = chars_of(line.as_str());
        let text = chars.as_slice();
        if text.len() == 0 {
            return Ok(());
        }
        match find_arrow(text) {
            None => Err(SysctlError::MalformedLine(line)),
            Some(i) => {
                let end = text.len();
                let key = string_of(trim(slice_subrange(text, 0, i)));
                let name = string_of(trim(slice_subrange(text, i + 2, end)));
                match SysctlConfigSchema::new(key, name) {
                    Ok(entry) => {
                        schema.push(entry);
                        Ok(())
                    },
                    Err(e) => Err(e),
                }
            },
        }
    }

    /// Reads the configuration text `text` into a new tree, and hands the tree out if it
    /// conforms to the schema.
    pub fn load_sysctl(&self, text: &str) -> (r: Result<SysctlConfig, SysctlError>)
        ensures
            reading_view(r) == load_outcome(self@, text_lines(text@)),
            r matches Ok(tree) ==> tree.wf(),
    {
        let chars = chars_of(text);
        let lines = split_lines(chars.as_slice());
        match self.load_sysctl_from_reader(lines.as_slice()) {
            Err(e) => Err(e),
            Ok(tree) => match self.validate(&tree) {
                Err(e) => Err(e),
                Ok(()) => Ok(tree),
            },
        }
    }

    /// Reads `lines` into a new tree, without validating it. The first line that fails
    /// ends the reading with its failure.
    pub fn load_sysctl_from_reader(&self, lines: &[String]) -> (r: Result<
        SysctlConfig,
        SysctlError,
    >)
        ensures
            reading_view(r) == lines_outcome(Map::empty(), views(lines@)),
            r matches Ok(tree) ==> tree.wf(),
    {
        load_sysctl_from_reader(lines)
    }

    /// Reads one line into `map`: the line's leaf is put at its key, or the line is
    /// passed over, or it fails and `map` stays as it was.
    pub fn insert_entry_of_line(&self, map: &mut SysctlConfig, line: &str) -> (r: Result<
        (),
        SysctlError,
    >)
        requires
            old(map).wf(),
        ensures
            final(map).wf(),
            match line_outcome(old(map)@, line@) {
                Ok(tree) => r is Ok && final(map)@ == tree,
                Err(failure) => r is Err && r->Err_0@ == failure && final(map)@ == old(map)@,
            },
    {
        let chars = chars_of(line);
        apply_line(map, chars.as_slice())
    }

    /// Checks `m` against the schema: first that each leaf is declared, then each
    /// declaration in turn. The first thing found wrong is the failure.
    pub fn validate(&self, m: &SysctlConfig) -> (r: Result<(), SysctlError>)
        requires
            m.wf(),
        ensures
            match validation_failure(m@, self@) {
                Some(failure) => r is Err && r->Err_0@ == failure,
                None => r is Ok,
            },
            r matches Err(SysctlError::SurplusKeys(keys)) ==> views(keys@).no_duplicates(),
    {
        let mut keys = Self::get_all_keys(m);
        let mut i: usize = 0;
        while i < self.schema.len()
            invariant
                i <= self.schema.len(),
                self@.len() == self.schema.len(),
                keys.wf(),
                keys@ == leaf_keys(m@).difference(declared_keys(self@.take(i as int))),
            decreases self.schema.len() - i,
        {
            let ghost earlier = self@.take(i as int);
            let ghost taken = self@.take(i + 1);
            let ghost key = self@[i as int].key;
            keys.remove(self.schema[i].key());
            proof {
                assert(taken[i as int].key == key);
                assert forall|k: Seq<char>|
                    declared_keys(taken).contains(k) <==> declared_keys(earlier).contains(k) || k
                        == key by {}
            }
            i += 1;
        }
        assert(self@.take(i as int) == self@);
        if !keys.is_empty() {
            return Err(SysctlError::SurplusKeys(keys.into_keys()));
        }
        let mut i: usize = 0;
        while i < self.schema.len()
            invariant
                i <= self.schema.len(),
                self@.len() == self.schema.len(),
                m.wf(),
                validation_failure(m@, self@) == first_entry_failure(m@, self@.skip(i as int)),
            decreases self.schema.len() - i,
        {
            let entry = &self.schema[i];
            assert(self@.skip(i as int).drop_first() == self@.skip(i + 1));
            let found = m.get(entry.key().as_str());
            proof {
                if let Some(value) = found {
                    lemma_node_model(*value);
                }
            }
            match found {
                None => {
                    return Err(SysctlError::MissingKey(entry.key().clone()));
                },
                Some(SysctlConfigValue::SysctlConfig(_)) => {
                    return Err(
                        SysctlError::TypeMismatch {
                            key: entry.key().clone(),
                            value: None,
                            expected: entry.typ(),
                        },
                    );
                },
                Some(SysctlConfigValue::String(value)) => {
                    if !entry.typ().accepts(value.as_str()) {
                        return Err(
                            SysctlError::TypeMismatch {
                                key: entry.key().clone(),
                                value: Some(value.clone()),
                                expected: entry.typ(),
                            },
                        );
                    }
                },
            }
            i += 1;
        }
        Ok(())
    }

    /// The dotted keys of the leaves of `m`.
    pub fn get_all_keys(m: &SysctlConfig) -> (keys: KeySet)
        requires
            m.wf(),
        ensures
            keys.wf(),
            keys@ == leaf_keys(m@),
    {
        let mut keys = KeySet::new();
        Self::insert_keys_after(m, "", &mut keys);
        proof {
            reveal_strlit("");
        }
        keys
    }

    /// Puts into `set` the dotted keys of the leaves of `m`, each under the parent key
    /// `prev_key`: joined to it by a dot, or as it is where the parent key is empty.
    pub fn insert_key(m: &SysctlConfig, prev_key: &str, set: &mut KeySet)
        requires
            m.wf(),
            old(set).wf(),
        ensures
            final(set).wf(),
            final(set)@ == old(set)@.union(
                leaf_keys_after(
                    if prev_key@.len() == 0 {
                        Seq::empty()
                    } else {
                        prev_key@ + seq!['.']
                    },
                    m@,
                ),
            ),
    {
        if prev_key.is_empty() {
            proof {
                reveal_strlit("");
            }
            Self::insert_keys_after(m, "", set);
        } else {
            proof {
                reveal_strlit(".");
                assert("."@ == seq!['.']);
            }
            let prefix = String::from_str(prev_key).concat(".");
            Self::insert_keys_after(m, prefix.as_str(), set);
        }
    }

    /// Puts into `set` the dotted keys of the leaves of `m`, each after `prefix` as it
    /// stands.
    fn insert_keys_after(m: &SysctlConfig, prefix: &str, set: &mut KeySet)
        requires
            m.wf(),
            old(set).wf(),
        ensures
            final(set).wf(),
            final(set)@ == old(set)@.union(leaf_keys_after(prefix@, m@)),
        decreases m,
    {
        let ghost before = set@;
        let mut i: usize = 0;
        while i < m.entries.len()
            invariant
                i <= m.entries.len(),
                m.wf(),
                set.wf(),
                set@ == before.union(keys_through(prefix@, *m, i as int)),
            decreases m.entries.len() - i,
        {
            let ghost first = m.entries[i as int].0@;
            proof {
                lemma_entry_in_model(*m, i as int);
                lemma_node_model(m.entries[i as int].1);
            }
            let key = String::from_str(prefix).concat(m.entries[i].0.as_str());
            match &m.entries[i].1 {
                SysctlConfigValue::SysctlConfig(sub) => {
                    let below = key.concat(".");
                    proof {
                        reveal_strlit(".");
                        assert("."@ == seq!['.']);
                        lemma_leaf_keys_under_subtree(prefix@, m@, first);
                    }
                    Self::insert_keys_after(sub, below.as_str(), set);
                },
                SysctlConfigValue::String(_) => {
                    proof {
                        lemma_leaf_keys_under_leaf(prefix@, m@, first);
                    }
                    set.insert(key);
                },
            }
            i += 1;
        }
        proof {
            lemma_keys_through_all(prefix@, *m);
        }
    }
}

/// The dotted keys of the leaves that stand under the first `n` entries of `m`, each after
/// `prefix`.
spec fn keys_through(prefix: Seq<char>, m: SysctlConfig, n: int) -> Set<Seq<char>>
    decreases n,
{
    if n <= 0 {
        Set::empty()
    } else {
        keys_through(prefix, m, n - 1).union(leaf_keys_under(prefix, m@, m.entries[n - 1].0@))
    }
}

/// What stands under one of the first `n` entries is among the keys through `n`.
proof fn lemma_keys_through_holds(prefix: Seq<char>, m: SysctlConfig, n: int, j: int)
    requires
        0 <= j < n <= m.entries.len(),
    ensures
        leaf_keys_under(prefix, m@, m.entries[j].0@).subset_of(keys_through(prefix, m, n)),
    decreases n,
{
    if j < n - 1 {
        lemma_keys_through_holds(prefix, m, n - 1, j);
    }
}

/// The keys through the first `n` entries are keys of leaves of the tree.
proof fn lemma_keys_through_are_leaf_keys(prefix: Seq<char>, m: SysctlConfig, n: int)
    requires
        m.wf(),
        0 <= n <= m.entries.len(),
    ensures
        keys_through(prefix, m, n).subset_of(leaf_keys_after(prefix, m@)),
    decreases n,
{
    if n > 0 {
        lemma_keys_through_are_leaf_keys(prefix, m, n - 1);
        lemma_entry_in_model(m, n - 1);
        assert forall|key: Seq<char>|
            leaf_keys_under(prefix, m@, m.entries[n - 1].0@).contains(
                key,
            ) implies leaf_keys_after(prefix, m@).contains(key) by {
            lemma_leaf_keys_by_first(prefix, m@, key);
        }
    }
}

/// The keys through all the entries of a tree are the keys of its leaves.
proof fn lemma_keys_through_all(prefix: Seq<char>, m: SysctlConfig)
    requires
        m.wf(),
    ensures
        keys_through(prefix, m, m.entries.len() as int) == leaf_keys_after(prefix, m@),
{
    let n = m.entries.len() as int;
    lemma_keys_through_are_leaf_keys(prefix, m, n);
    assert forall|key: Seq<char>| leaf_keys_after(prefix, m@).contains(key) implies keys_through(
        prefix,
        m,
        n,
    ).contains(key) by {
        lemma_leaf_keys_by_first(prefix, m@, key);
        let first = choose|first: Seq<char>|
            m@.contains_key(first) && #[trigger] leaf_keys_under(prefix, m@, first).contains(key);
        let j = lemma_key_has_entry(m, first);
        lemma_keys_through_holds(prefix, m, n, j);
    }
}

/// The keys through the first `n` entries of a tree are finitely many.
proof fn lemma_keys_through_are_finite(prefix: Seq<char>, m: SysctlConfig, n: int)
    requires
        m.wf(),
        0 <= n <= m.entries.len(),
    ensures
        keys_through(prefix, m, n).finite(),
    decreases m, n,
{
    if n > 0 {
        lemma_keys_through_are_finite(prefix, m, n - 1);
        let first = m.entries[n - 1].0@;
        lemma_entry_in_model(m, n - 1);
        lemma_node_model(m.entries[n - 1].1);
        match m.entries[n - 1].1 {
            SysctlConfigValue::SysctlConfig(sub) => {
                let below = prefix + first + seq!['.'];
                lemma_leaf_keys_under_subtree(prefix, m@, first);
                lemma_keys_through_are_finite(below, sub, sub.entries.len() as int);
                lemma_keys_through_all(below, sub);
            },
            SysctlConfigValue::String(_) => {
                lemma_leaf_keys_under_leaf(prefix, m@, first);
            },
        }
    }
}

/// A tree has finitely many leaves.
pub proof fn lemma_leaf_keys_are_finite(prefix: Seq<char>, m: SysctlConfig)
    requires
        m.wf(),
    ensures
        leaf_keys_after(prefix, m@).finite(),
        leaf_keys(m@).finite(),
{
    lemma_keys_through_are_finite(prefix, m, m.entries.len() as int);
    lemma_keys_through_all(prefix, m);
    lemma_keys_through_are_finite(Seq::empty(), m, m.entries.len() as int);
    lemma_keys_through_all(Seq::empty(), m);
}

/// Where nothing is wrong with any declaration before the `at`-th and something is wrong
/// with that one, it is the first failure.
pub proof fn lemma_first_entry_failure_is(
    tree: Map<Seq<char>, ConfigNode>,
    schema: Seq<SchemaEntry>,
    at: int,
)
    requires
        0 <= at < schema.len(),
        forall|j: int| 0 <= j < at ==> entry_failure(tree, #[trigger] schema[j]) is None,
        entry_failure(tree, schema[at]) is Some,
    ensures
        first_entry_failure(tree, schema) == entry_failure(tree, schema[at]),
    decreases schema.len(),
{
    if at > 0 {
        let rest = schema.drop_first();
        lemma_first_entry_failure_is(tree, rest, at - 1);
    }
}

/// There is no first failure exactly where nothing is wrong with any declaration.
pub proof fn lemma_no_entry_failure(tree: Map<Seq<char>, ConfigNode>, schema: Seq<SchemaEntry>)
    ensures
        first_entry_failure(tree, schema) is None <==> forall|j: int|
            0 <= j < schema.len() ==> entry_failure(tree, #[trigger] schema[j]) is None,
    decreases schema.len(),
{
    if schema.len() > 0 {
        let rest = schema.drop_first();
        lemma_no_entry_failure(tree, rest);
        if first_entry_failure(tree, schema) is None {
            assert forall|j: int| 0 <= j < schema.len() implies entry_failure(
                tree,
                #[trigger] schema[j],
            ) is None by {
                if j > 0 {
                    assert(rest[j - 1] == schema[j]);
                }
            }
        } else if entry_failure(tree, schema[0]) is None {
            let j = choose|j: int|
                0 <= j < rest.len() && !(entry_failure(tree, #[trigger] rest[j]) is None);
            assert(schema[j + 1] == rest[j]);
        }
    }
}

/// A leaf whose dotted key the schema does not declare makes the validation fail, with
/// the surplus keys, that key among them.
pub proof fn lemma_undeclared_leaf_is_surplus(
    tree: Map<Seq<char>, ConfigNode>,
    schema: Seq<SchemaEntry>,
    path: Seq<Seq<char>>,
)
    requires
        is_leaf_path(tree, path),
        !declared_keys(schema).contains(dotted(path)),
    ensures
        validation_failure(tree, schema) == Some(
            Failure::SurplusKeys(surplus_keys(tree, schema)),
        ),
        surplus_keys(tree, schema).contains(dotted(path)),
{
}

/// A declared key at which the tree holds nothing makes the validation fail; where each
/// leaf is declared and nothing is wrong with the declarations before it, the failure is
/// that this key is missing.
pub proof fn lemma_missing_key_fails(
    tree: Map<Seq<char>, ConfigNode>,
    schema: Seq<SchemaEntry>,
    at: int,
)
    requires
        0 <= at < schema.len(),
        resolve(tree, dot_segments(schema[at].key)) is None,
    ensures
        validation_failure(tree, schema) is Some,
        surplus_keys(tree, schema) =~= Set::empty() && (forall|j: int|
            0 <= j < at ==> entry_failure(tree, #[trigger] schema[j]) is None)
            ==> validation_failure(tree, schema) == Some(Failure::MissingKey(schema[at].key)),
{
    lemma_no_entry_failure(tree, schema);
    if forall|j: int| 0 <= j < at ==> entry_failure(tree, #[trigger] schema[j]) is None {
        lemma_first_entry_failure_is(tree, schema, at);
    }
}

/// In a tree that conforms to a schema, the leaves are the declared keys, and at each
/// declared key stands a leaf that spells a value of the declared type.
pub proof fn lemma_valid_tree_is_exact(tree: Map<Seq<char>, ConfigNode>, schema: Seq<SchemaEntry>)
    requires
        validation_failure(tree, schema) is None,
    ensures
        leaf_keys(tree) == declared_keys(schema),
        forall|j: int|
            0 <= j < schema.len() ==> (resolve(
                tree,
                dot_segments((#[trigger] schema[j]).key),
            ) matches Some(ConfigNode::Leaf(value)) && conforms(value, schema[j].typ)),
{
    lemma_no_entry_failure(tree, schema);
    assert forall|key: Seq<char>| declared_keys(schema).contains(key) implies leaf_keys(
        tree,
    ).contains(key) by {
        lemma_dotted_segments(key);
        assert(is_leaf_path(tree, dot_segments(key)));
    }
    assert forall|key: Seq<char>| leaf_keys(tree).contains(key) implies declared_keys(
        schema,
    ).contains(key) by {
        if !declared_keys(schema).contains(key) {
            assert(surplus_keys(tree, schema).contains(key));
        }
    }
}

/// In a tree that is free of dots and conforms to a schema, the segments of a key lead to
/// a leaf exactly where the schema declares the key.
pub proof fn lemma_valid_tree_holds_the_declared_leaves(
    tree: Map<Seq<char>, ConfigNode>,
    schema: Seq<SchemaEntry>,
    key: Seq<char>,
)
    requires
        is_dot_free(tree),
        validation_failure(tree, schema) is None,
    ensures
        is_leaf_path(tree, dot_segments(key)) <==> declared_keys(schema).contains(key),
{
    lemma_valid_tree_is_exact(tree, schema);
    lemma_leaf_keys_are_found(tree, key);
}

/// Two readings of the same lines against the same schema end alike: both hand out a
/// tree or both fail, the trees are the same, and so are the failures.
pub proof fn lemma_reading_twice(
    schema: Seq<SchemaEntry>,
    lines: Seq<Seq<char>>,
    first: Result<SysctlConfig, SysctlError>,
    second: Result<SysctlConfig, SysctlError>,
)
    requires
        reading_view(first) == load_outcome(schema, lines),
        reading_view(second) == load_outcome(schema, lines),
    ensures
        first is Ok <==> second is Ok,
        first is Ok ==> first->Ok_0@ == second->Ok_0@,
        first is Err ==> first->Err_0@ == second->Err_0@,
{
}

/// A text that is read without failure and conforms to the schema is handed out as the
/// tree that its lines spell.
pub proof fn lemma_valid_reading_is_the_tree(schema: Seq<SchemaEntry>, lines: Seq<Seq<char>>)
    requires
        load_outcome(schema, lines) is Ok,
    ensures
        load_outcome(schema, lines) == lines_outcome(Map::empty(), lines),
        validation_failure(load_outcome(schema, lines)->Ok_0, schema) is None,
{
}

} // verus!
