//! The nested configuration tree and its mathematical model.
//!
//! A tree maps key segments to values; a value is a leaf string or a subtree. The model of
//! a tree is a `Map` from segments to [`ConfigNode`]s. In memory a tree is a list of
//! entries in which no key occurs twice and no key holds a dot, so that a dotted key names
//! one place in the tree.

use crate::error::{Failure, SysctlError};
use crate::text::{
    chars_of, dot_segments, dotted, lemma_dot_segments_nonempty, lemma_dotted_segments,
    lemma_segments_of_dotted, lemma_split_segments, split_dots, views,
};
use vstd::prelude::*;

verus! {

/// What a value of a configuration tree is, as a mathematical value.
pub enum ConfigNode {
    Leaf(Seq<char>),
    Subtree(Map<Seq<char>, ConfigNode>),
}

/// A value of a configuration tree: a leaf string or a subtree.
#[derive(Debug)]
pub enum SysctlConfigValue {
    String(String),
    SysctlConfig(SysctlConfig),
}

/// A configuration tree: named values, each name at most once.
#[derive(Debug)]
pub struct SysctlConfig {
    pub(crate) entries: Vec<(String, SysctlConfigValue)>,
}

/// What stands in `m` at `path`, one segment per level: nothing where a segment is missing
/// or where the path runs through a leaf, and nothing at the empty path.
pub open spec fn resolve(m: Map<Seq<char>, ConfigNode>, path: Seq<Seq<char>>) -> Option<
    ConfigNode,
>
    decreases path.len(),
{
    if path.len() == 0 || !m.contains_key(path[0]) {
        None
    } else if path.len() == 1 {
        Some(m[path[0]])
    } else {
        match m[path[0]] {
            ConfigNode::Subtree(sub) => resolve(sub, path.drop_first()),
            ConfigNode::Leaf(_) => None,
        }
    }
}

/// `m` with the leaf `value` put at `path`. Missing subtrees on the way are made; a leaf
/// already at `path` is replaced. There is no such tree where the path runs through a
/// leaf, where a subtree stands at `path`, and for the empty path.
pub open spec fn insert_leaf(
    m: Map<Seq<char>, ConfigNode>,
    path: Seq<Seq<char>>,
    value: Seq<char>,
) -> Option<Map<Seq<char>, ConfigNode>>
    decreases path.len(),
{
    if path.len() == 0 {
        None
    } else if path.len() == 1 {
        if m.contains_key(path[0]) && m[path[0]] is Subtree {
            None
        } else {
            Some(m.insert(path[0], ConfigNode::Leaf(value)))
        }
    } else if m.contains_key(path[0]) && m[path[0]] is Leaf {
        None
    } else {
        let sub = if m.contains_key(path[0]) {
            m[path[0]]->Subtree_0
        } else {
            Map::empty()
        };
        match insert_leaf(sub, path.drop_first(), value) {
            Some(grown) => Some(m.insert(path[0], ConfigNode::Subtree(grown))),
            None => None,
        }
    }
}

/// Whether a leaf stands in `m` at `path`.
pub open spec fn is_leaf_path(m: Map<Seq<char>, ConfigNode>, path: Seq<Seq<char>>) -> bool {
    resolve(m, path) matches Some(ConfigNode::Leaf(_))
}

/// Whether a subtree stands in `m` at `path`.
pub open spec fn is_subtree_path(m: Map<Seq<char>, ConfigNode>, path: Seq<Seq<char>>) -> bool {
    resolve(m, path) matches Some(ConfigNode::Subtree(_))
}

/// The dotted keys of the leaves of `m`, each after `prefix`.
pub open spec fn leaf_keys_after(prefix: Seq<char>, m: Map<Seq<char>, ConfigNode>) -> Set<
    Seq<char>,
> {
    Set::new(
        |key: Seq<char>|
            exists|path: Seq<Seq<char>>| is_leaf_path(m, path) && key == prefix + dotted(path),
    )
}

/// The dotted keys of the leaves of `m`.
pub open spec fn leaf_keys(m: Map<Seq<char>, ConfigNode>) -> Set<Seq<char>> {
    leaf_keys_after(Seq::empty(), m)
}

/// The model of the value `v`.
pub closed spec fn node_model(v: SysctlConfigValue) -> ConfigNode
    decreases v,
{
    match v {
        SysctlConfigValue::String(s) => ConfigNode::Leaf(s@),
        SysctlConfigValue::SysctlConfig(c) => ConfigNode::Subtree(config_model(c)),
    }
}

/// The model of the tree `c`: each key of an entry, with the model of the entry's value.
pub closed spec fn config_model(c: SysctlConfig) -> Map<Seq<char>, ConfigNode>
    decreases c,
{
    Map::new(
        |k: Seq<char>| exists|i: int| 0 <= i < c.entries.len() && c.entries[i].0@ == k,
        |k: Seq<char>|
            {
                let i = choose|i: int| 0 <= i < c.entries.len() && c.entries[i].0@ == k;
                if 0 <= i < c.entries.len() {
                    node_model(c.entries[i].1)
                } else {
                    ConfigNode::Leaf(Seq::empty())
                }
            },
    )
}

/// Whether in each subtree of `v` no key occurs twice and no key holds a dot.
pub closed spec fn node_wf(v: SysctlConfigValue) -> bool
    decreases v,
{
    match v {
        SysctlConfigValue::String(_) => true,
        SysctlConfigValue::SysctlConfig(c) => config_wf(c),
    }
}

/// Whether in `c` and in each of its subtrees no key occurs twice and no key holds a dot.
pub closed spec fn config_wf(c: SysctlConfig) -> bool
    decreases c,
{
    &&& forall|i: int, j: int|
        0 <= i < j < c.entries.len() ==> (#[trigger] c.entries[i]).0@ != (
        #[trigger] c.entries[j]).0@
    &&& forall|i: int|
        0 <= i < c.entries.len() ==> !(#[trigger] c.entries[i]).0@.contains('.') && node_wf(
            c.entries[i].1,
        )
}

impl View for SysctlConfigValue {
    type V = ConfigNode;

    /// The leaf's characters, or the model of the subtree.
    open spec fn view(&self) -> ConfigNode {
        node_model(*self)
    }
}

impl View for SysctlConfig {
    type V = Map<Seq<char>, ConfigNode>;

    /// The values of the tree by their segments.
    open spec fn view(&self) -> Map<Seq<char>, ConfigNode> {
        config_model(*self)
    }
}

impl SysctlConfigValue {
    /// Whether in each subtree of this value no key occurs twice and no key holds a dot.
    pub open spec fn wf(&self) -> bool {
        node_wf(*self)
    }
}

/// The model of a leaf is its string; the model of a subtree is the model of the tree.
pub proof fn lemma_node_model(v: SysctlConfigValue)
    ensures
        match v {
            SysctlConfigValue::String(s) => v@ == ConfigNode::Leaf(s@) && v.wf(),
            SysctlConfigValue::SysctlConfig(c) => v@ == ConfigNode::Subtree(c@) && v.wf()
                == c.wf(),
        },
{
}

/// Each entry of a well-formed tree stands in its model, under its key.
pub(crate) proof fn lemma_entry_in_model(c: SysctlConfig, i: int)
    requires
        c.wf(),
        0 <= i < c.entries.len(),
    ensures
        c@.contains_key(c.entries[i].0@),
        c@[c.entries[i].0@] == c.entries[i].1@,
        c.entries[i].1.wf(),
        !c.entries[i].0@.contains('.'),
{
}

/// Each key of the model of a tree is the key of one of its entries.
pub(crate) proof fn lemma_key_has_entry(c: SysctlConfig, k: Seq<char>) -> (i: int)
    requires
        c@.contains_key(k),
    ensures
        0 <= i < c.entries.len(),
        c.entries[i].0@ == k,
{
    choose|i: int| 0 <= i < c.entries.len() && c.entries[i].0@ == k
}

/// A key that no entry has is not in the model.
pub(crate) proof fn lemma_key_without_entry(c: SysctlConfig, k: Seq<char>)
    requires
        forall|i: int| 0 <= i < c.entries.len() ==> (#[trigger] c.entries[i]).0@ != k,
    ensures
        !c@.contains_key(k),
{
}

/// Adding an entry under a new key adds it to the model.
pub(crate) proof fn lemma_model_after_push(before: SysctlConfig, after: SysctlConfig)
    requires
        before.wf(),
        after.entries@.len() == before.entries@.len() + 1,
        after.entries@.drop_last() == before.entries@,
        !before@.contains_key(after.entries@.last().0@),
        !after.entries@.last().0@.contains('.'),
        after.entries@.last().1.wf(),
    ensures
        after.wf(),
        after@ == before@.insert(after.entries@.last().0@, after.entries@.last().1@),
{
    let n = before.entries.len() as int;
    let key = after.entries[n].0@;
    assert forall|i: int| 0 <= i < n implies #[trigger] after.entries[i] == before.entries[i] by {}
    assert forall|i: int, j: int| 0 <= i < j < after.entries.len() implies (
    #[trigger] after.entries[i]).0@ != (#[trigger] after.entries[j]).0@ by {
        if j == n {
            lemma_entry_in_model(before, i);
        }
    }
    assert forall|i: int| 0 <= i < after.entries.len() implies !(
    #[trigger] after.entries[i]).0@.contains('.') && node_wf(after.entries[i].1) by {
        if i < n {
            lemma_entry_in_model(before, i);
        }
    }
    let target = before@.insert(key, after.entries[n].1@);
    assert forall|k: Seq<char>| after@.contains_key(k) <==> target.contains_key(k) by {
        if after@.contains_key(k) {
            let i = lemma_key_has_entry(after, k);
            if i < n {
                lemma_entry_in_model(before, i);
            }
        }
        if target.contains_key(k) && k != key {
            let i = lemma_key_has_entry(before, k);
            lemma_entry_in_model(after, i);
        }
        lemma_entry_in_model(after, n);
    }
    assert forall|k: Seq<char>| after@.contains_key(k) implies after@[k] == target[k] by {
        let i = lemma_key_has_entry(after, k);
        lemma_entry_in_model(after, i);
        if i < n {
            lemma_entry_in_model(before, i);
        }
    }
}

/// Replacing the value of an entry replaces it in the model.
pub(crate) proof fn lemma_model_after_update(before: SysctlConfig, after: SysctlConfig, at: int)
    requires
        before.wf(),
        0 <= at < before.entries.len(),
        after.entries@.len() == before.entries@.len(),
        forall|i: int|
            0 <= i < before.entries.len() && i != at ==> after.entries@[i] == before.entries@[i],
        after.entries@[at].0@ == before.entries@[at].0@,
        after.entries@[at].1.wf(),
    ensures
        after.wf(),
        after@ == before@.insert(before.entries@[at].0@, after.entries@[at].1@),
{
    let key = before.entries[at].0@;
    assert forall|i: int| 0 <= i < after.entries.len() implies !(
    #[trigger] after.entries[i]).0@.contains('.') && node_wf(after.entries[i].1) by {
        lemma_entry_in_model(before, i);
    }
    let target = before@.insert(key, after.entries[at].1@);
    assert forall|k: Seq<char>| after@.contains_key(k) <==> target.contains_key(k) by {
        if after@.contains_key(k) {
            let i = lemma_key_has_entry(after, k);
            lemma_entry_in_model(before, i);
        }
        if target.contains_key(k) && k != key {
            let i = lemma_key_has_entry(before, k);
            lemma_entry_in_model(after, i);
        }
        lemma_entry_in_model(after, at);
    }
    assert forall|k: Seq<char>| after@.contains_key(k) implies after@[k] == target[k] by {
        let i = lemma_key_has_entry(after, k);
        lemma_entry_in_model(after, i);
        lemma_entry_in_model(before, i);
    }
}

impl SysctlConfig {
    /// Whether in this tree and in each of its subtrees no key occurs twice and no key
    /// holds a dot.
    pub open spec fn wf(&self) -> bool {
        config_wf(*self)
    }

    /// The empty tree.
    pub fn new() -> (tree: Self)
        ensures
            tree.wf(),
            tree@ == Map::<Seq<char>, ConfigNode>::empty(),
    {
        SysctlConfig { entries: Vec::new() }
    }

    /// The place of the entry named `key`, if there is one.
    pub(crate) fn position(&self, key: &String) -> (found: Option<usize>)
        requires
            self.wf(),
        ensures
            match found {
                Some(i) => i < self.entries.len() && self.entries[i as int].0@ == key@,
                None => !self@.contains_key(key@),
            },
    {
        let mut i: usize = 0;
        while i < self.entries.len()
            invariant
                i <= self.entries.len(),
                forall|j: int| 0 <= j < i ==> (#[trigger] self.entries[j]).0@ != key@,
            decreases self.entries.len() - i,
        {
            if self.entries[i].0 == *key {
                return Some(i);
            }
            i += 1;
        }
        proof {
            lemma_key_without_entry(*self, key@);
        }
        None
    }

    /// The segments under which the tree holds its values, each once.
    pub fn keys(&self) -> (keys: Vec<String>)
        requires
            self.wf(),
        ensures
            views(keys@).to_set() == self@.dom(),
            views(keys@).no_duplicates(),
    {
        let mut keys: Vec<String> = Vec::new();
        let mut i: usize = 0;
        while i < self.entries.len()
            invariant
                i <= self.entries.len(),
                keys.len() == i,
                forall|j: int| 0 <= j < i ==> (#[trigger] keys[j])@ == self.entries[j].0@,
            decreases self.entries.len() - i,
        {
            keys.push(self.entries[i].0.clone());
            i += 1;
        }
        proof {
            let names = views(keys@);
            assert forall|k: Seq<char>| names.contains(k) <==> self@.contains_key(k) by {
                if names.contains(k) {
                    let j = choose|j: int| 0 <= j < names.len() && names[j] == k;
                    assert(keys[j]@ == k);
                    lemma_entry_in_model(*self, j);
                }
                if self@.contains_key(k) {
                    let j = lemma_key_has_entry(*self, k);
                    assert(names[j] == k);
                }
            }
            assert(names.to_set() =~= self@.dom());
            assert forall|a: int, b: int|
                0 <= a < names.len() && 0 <= b < names.len() && a != b implies names[a]
                != names[b] by {
                assert(keys[a]@ == self.entries[a].0@ && keys[b]@ == self.entries[b].0@);
                if a < b {
                    assert(self.entries[a].0@ != self.entries[b].0@);
                } else {
                    assert(self.entries[b].0@ != self.entries[a].0@);
                }
            }
        }
        keys
    }

    /// The value at the dotted path `key`: the value that stands in the tree where the
    /// segments of `key` lead, one per level.
    pub fn get(&self, key: &str) -> (found: Option<&SysctlConfigValue>)
        requires
            self.wf(),
        ensures
            match resolve(self@, dot_segments(key@)) {
                Some(node) => found is Some && found->0@ == node && found->0.wf(),
                None => found is None,
            },
    {
        let chars = chars_of(key);
        let path = split_dots(chars.as_slice());
        let mut tree: &SysctlConfig = self;
        let mut depth: usize = 0;
        proof {
            lemma_dot_segments_nonempty(key@);
            assert(views(path@).skip(0) == views(path@));
        }
        loop
            invariant
                views(path@) == dot_segments(key@),
                depth < path.len(),
                tree.wf(),
                resolve(self@, views(path@)) == resolve(tree@, views(path@).skip(depth as int)),
            decreases path.len() - depth,
        {
            let ghost rest = views(path@).skip(depth as int);
            match tree.position(&path[depth]) {
                None => {
                    return None;
                },
                Some(i) => {
                    proof {
                        lemma_entry_in_model(*tree, i as int);
                        lemma_node_model(tree.entries[i as int].1);
                    }
                    if depth + 1 == path.len() {
                        return Some(&tree.entries[i].1);
                    }
                    match &tree.entries[i].1 {
                        SysctlConfigValue::SysctlConfig(sub) => {
                            assert(rest.drop_first() == views(path@).skip(depth + 1));
                            tree = sub;
                            depth += 1;
                        },
                        SysctlConfigValue::String(_) => {
                            return None;
                        },
                    }
                },
            }
        }
    }

    /// Puts the leaf `value` at the dotted path `key`. Subtrees that the path needs are
    /// made; a leaf already there is replaced. Where the path runs through a leaf, or a
    /// subtree stands at it, the tree stays as it is and the key is handed back.
    pub fn insert(&mut self, key: &str, value: String) -> (r: Result<(), SysctlError>)
        requires
            old(self).wf(),
        ensures
            final(self).wf(),
            match insert_leaf(old(self)@, dot_segments(key@), value@) {
                Some(grown) => r is Ok && final(self)@ == grown,
                None => r is Err && r->Err_0@ == Failure::ConflictingPath(key@) && final(self)@
                    == old(self)@,
            },
    {
        let chars = chars_of(key);
        let path = split_dots(chars.as_slice());
        proof {
            lemma_split_segments(key@, path@);
        }
        if self.insert_path(&path, 0, value) {
            Ok(())
        } else {
            Err(SysctlError::ConflictingPath(key.to_owned()))
        }
    }

    /// Puts the leaf `value` at the path `path[depth..]`, or leaves the tree as it is where
    /// [`insert_leaf`] has no result.
    pub(crate) fn insert_path(&mut self, path: &Vec<String>, depth: usize, value: String) -> (done:
        bool)
        requires
            old(self).wf(),
            depth < path.len(),
            forall|n: int| 0 <= n < path.len() ==> !(#[trigger] path[n])@.contains('.'),
        ensures
            final(self).wf(),
            match insert_leaf(old(self)@, views(path@).skip(depth as int), value@) {
                Some(grown) => done && final(self)@ == grown,
                None => !done && final(self)@ == old(self)@,
            },
        decreases path.len() - depth,
    {
        let ghost rest = views(path@).skip(depth as int);
        let ghost before = *self;
        assert(rest.drop_first() == views(path@).skip(depth + 1));
        let last = depth + 1 == path.len();
        match self.position(&path[depth]) {
            None => {
                let node = if last {
                    SysctlConfigValue::String(value)
                } else {
                    let mut sub = SysctlConfig::new();
                    proof {
                        lemma_insert_into_empty(rest.drop_first(), value@);
                    }
                    sub.insert_path(path, depth + 1, value);
                    SysctlConfigValue::SysctlConfig(sub)
                };
                proof {
                    lemma_node_model(node);
                }
                self.entries.push((path[depth].clone(), node));
                proof {
                    assert(self.entries@.drop_last() == before.entries@);
                    lemma_model_after_push(before, *self);
                }
                true
            },
            Some(i) => {
                proof {
                    lemma_entry_in_model(before, i as int);
                    lemma_node_model(before.entries[i as int].1);
                }
                let done = match &mut self.entries[i].1 {
                    SysctlConfigValue::SysctlConfig(sub) => {
                        if last {
                            false
                        } else {
                            sub.insert_path(path, depth + 1, value)
                        }
                    },
                    SysctlConfigValue::String(leaf) => {
                        if last {
                            *leaf = value;
                            true
                        } else {
                            false
                        }
                    },
                };
                proof {
                    lemma_node_model(self.entries[i as int].1);
                    lemma_model_after_update(before, *self, i as int);
                }
                done
            },
        }
    }
}

impl Clone for SysctlConfigValue {
    /// A copy of the value, with the same model.
    fn clone(&self) -> (copy: Self)
        ensures
            self.wf() ==> copy.wf() && copy@ == self@,
        decreases *self,
    {
        proof {
            lemma_node_model(*self);
        }
        let copy = match self {
            SysctlConfigValue::String(leaf) => SysctlConfigValue::String(leaf.clone()),
            SysctlConfigValue::SysctlConfig(tree) => SysctlConfigValue::SysctlConfig(tree.clone()),
        };
        proof {
            lemma_node_model(copy);
        }
        copy
    }
}

impl Clone for SysctlConfig {
    /// A copy of the tree, with the same model.
    fn clone(&self) -> (copy: Self)
        ensures
            self.wf() ==> copy.wf() && copy@ == self@,
        decreases *self,
    {
        let mut copy = SysctlConfig { entries: Vec::new() };
        let mut i: usize = 0;
        while i < self.entries.len()
            invariant
                i <= self.entries.len(),
                copy.entries.len() == i,
                self.wf() ==> forall|j: int|
                    0 <= j < i ==> (#[trigger] copy.entries[j]).0@ == self.entries[j].0@
                        && copy.entries[j].1@ == self.entries[j].1@ && copy.entries[j].1.wf(),
            decreases self.entries.len() - i,
        {
            proof {
                if self.wf() {
                    lemma_entry_in_model(*self, i as int);
                }
            }
            let key = self.entries[i].0.clone();
            let value = self.entries[i].1.clone();
            copy.entries.push((key, value));
            i += 1;
        }
        proof {
            if self.wf() {
                lemma_same_entries(*self, copy);
            }
        }
        copy
    }
}

/// Two trees with the same keys in the same places, and values of the same models, have
/// the same model.
pub(crate) proof fn lemma_same_entries(a: SysctlConfig, b: SysctlConfig)
    requires
        a.wf(),
        a.entries.len() == b.entries.len(),
        forall|j: int|
            0 <= j < a.entries.len() ==> (#[trigger] b.entries[j]).0@ == a.entries[j].0@
                && b.entries[j].1@ == a.entries[j].1@ && b.entries[j].1.wf(),
    ensures
        b.wf(),
        b@ == a@,
{
    assert forall|i: int, j: int| 0 <= i < j < b.entries.len() implies (
    #[trigger] b.entries[i]).0@ != (#[trigger] b.entries[j]).0@ by {}
    assert forall|i: int| 0 <= i < b.entries.len() implies !(#[trigger] b.entries[i]).0@.contains(
        '.',
    ) && node_wf(b.entries[i].1) by {
        lemma_entry_in_model(a, i);
    }
    assert forall|k: Seq<char>| b@.contains_key(k) <==> a@.contains_key(k) by {
        if b@.contains_key(k) {
            let i = lemma_key_has_entry(b, k);
            lemma_entry_in_model(a, i);
        }
        if a@.contains_key(k) {
            let i = lemma_key_has_entry(a, k);
            lemma_entry_in_model(b, i);
        }
    }
    assert forall|k: Seq<char>| b@.contains_key(k) implies b@[k] == a@[k] by {
        let i = lemma_key_has_entry(b, k);
        lemma_entry_in_model(a, i);
        lemma_entry_in_model(b, i);
    }
}

/// A leaf can be put into the empty tree at any path that is not empty.
pub proof fn lemma_insert_into_empty(path: Seq<Seq<char>>, value: Seq<char>)
    requires
        path.len() > 0,
    ensures
        insert_leaf(Map::empty(), path, value) is Some,
    decreases path.len(),
{
    if path.len() > 1 {
        lemma_insert_into_empty(path.drop_first(), value);
    }
}

/// The dotted keys of the leaves of `m` that stand under the segment `first`, each after
/// `prefix`.
pub open spec fn leaf_keys_under(
    prefix: Seq<char>,
    m: Map<Seq<char>, ConfigNode>,
    first: Seq<char>,
) -> Set<Seq<char>> {
    Set::new(
        |key: Seq<char>|
            exists|path: Seq<Seq<char>>|
                is_leaf_path(m, path) && path[0] == first && key == prefix + dotted(path),
    )
}

/// Under a segment that names a leaf stands that leaf alone.
pub proof fn lemma_leaf_keys_under_leaf(
    prefix: Seq<char>,
    m: Map<Seq<char>, ConfigNode>,
    first: Seq<char>,
)
    requires
        m.contains_key(first),
        m[first] is Leaf,
    ensures
        leaf_keys_under(prefix, m, first) == set![prefix + first],
{
    let keys = leaf_keys_under(prefix, m, first);
    assert forall|key: Seq<char>| keys.contains(key) <==> key == prefix + first by {
        if keys.contains(key) {
            let path = choose|path: Seq<Seq<char>>|
                is_leaf_path(m, path) && path[0] == first && key == prefix + dotted(path);
            assert(path.len() == 1);
        }
        if key == prefix + first {
            let path = seq![first];
            assert(is_leaf_path(m, path) && path[0] == first && key == prefix + dotted(path));
        }
    }
}

/// Under a segment that names a subtree stand the leaves of that subtree.
pub proof fn lemma_leaf_keys_under_subtree(
    prefix: Seq<char>,
    m: Map<Seq<char>, ConfigNode>,
    first: Seq<char>,
)
    requires
        m.contains_key(first),
        m[first] is Subtree,
    ensures
        leaf_keys_under(prefix, m, first) == leaf_keys_after(
            prefix + first + seq!['.'],
            m[first]->Subtree_0,
        ),
{
    let sub = m[first]->Subtree_0;
    let keys = leaf_keys_under(prefix, m, first);
    let below = leaf_keys_after(prefix + first + seq!['.'], sub);
    assert forall|key: Seq<char>| keys.contains(key) <==> below.contains(key) by {
        if keys.contains(key) {
            let path = choose|path: Seq<Seq<char>>|
                is_leaf_path(m, path) && path[0] == first && key == prefix + dotted(path);
            let rest = path.drop_first();
            assert(is_leaf_path(sub, rest) && key == prefix + first + seq!['.'] + dotted(rest));
        }
        if below.contains(key) {
            let rest = choose|rest: Seq<Seq<char>>|
                is_leaf_path(sub, rest) && key == prefix + first + seq!['.'] + dotted(rest);
            let path = seq![first] + rest;
            assert(path.drop_first() == rest);
            assert(is_leaf_path(m, path) && path[0] == first && key == prefix + dotted(path));
        }
    }
}

/// Each leaf of a tree stands under one of the segments of its top level.
pub proof fn lemma_leaf_keys_by_first(
    prefix: Seq<char>,
    m: Map<Seq<char>, ConfigNode>,
    key: Seq<char>,
)
    ensures
        leaf_keys_after(prefix, m).contains(key) <==> exists|first: Seq<char>|
            m.contains_key(first) && #[trigger] leaf_keys_under(prefix, m, first).contains(key),
{
    if leaf_keys_after(prefix, m).contains(key) {
        let path = choose|path: Seq<Seq<char>>|
            is_leaf_path(m, path) && key == prefix + dotted(path);
        assert(m.contains_key(path[0]) && leaf_keys_under(prefix, m, path[0]).contains(key));
    }
    if exists|first: Seq<char>|
        m.contains_key(first) && #[trigger] leaf_keys_under(prefix, m, first).contains(key) {
        let first = choose|first: Seq<char>|
            m.contains_key(first) && #[trigger] leaf_keys_under(prefix, m, first).contains(key);
        let path = choose|path: Seq<Seq<char>>|
            is_leaf_path(m, path) && path[0] == first && key == prefix + dotted(path);
        assert(is_leaf_path(m, path) && key == prefix + dotted(path));
    }
}

/// Whether no segment of any path at which something stands in `m` holds a dot.
pub open spec fn is_dot_free(m: Map<Seq<char>, ConfigNode>) -> bool {
    forall|path: Seq<Seq<char>>, n: int|
        resolve(m, path) is Some && 0 <= n < path.len() ==> !(#[trigger] path[n]).contains('.')
}

/// No segment of a path at which something stands in a well-formed tree holds a dot.
proof fn lemma_found_segment_holds_no_dot(c: SysctlConfig, path: Seq<Seq<char>>, n: int)
    requires
        c.wf(),
        resolve(c@, path) is Some,
        0 <= n < path.len(),
    ensures
        !path[n].contains('.'),
    decreases path.len(),
{
    let i = lemma_key_has_entry(c, path[0]);
    lemma_entry_in_model(c, i);
    lemma_node_model(c.entries[i].1);
    if n > 0 {
        match c.entries[i].1 {
            SysctlConfigValue::SysctlConfig(sub) => {
                lemma_found_segment_holds_no_dot(sub, path.drop_first(), n - 1);
            },
            SysctlConfigValue::String(_) => {},
        }
    }
}

/// The model of a well-formed tree is free of dots.
pub proof fn lemma_wf_tree_is_dot_free(c: SysctlConfig)
    requires
        c.wf(),
    ensures
        is_dot_free(c@),
{
    assert forall|path: Seq<Seq<char>>, n: int|
        resolve(c@, path) is Some && 0 <= n < path.len() implies !(#[trigger] path[n]).contains(
        '.',
    ) by {
        lemma_found_segment_holds_no_dot(c, path, n);
    }
}

/// In a tree that is free of dots, the dotted keys of the leaves are the keys whose
/// segments lead to a leaf.
pub proof fn lemma_leaf_keys_are_found(m: Map<Seq<char>, ConfigNode>, key: Seq<char>)
    requires
        is_dot_free(m),
    ensures
        leaf_keys(m).contains(key) <==> is_leaf_path(m, dot_segments(key)),
{
    if leaf_keys(m).contains(key) {
        let path = choose|path: Seq<Seq<char>>|
            is_leaf_path(m, path) && key == Seq::<char>::empty() + dotted(path);
        assert forall|n: int| 0 <= n < path.len() implies !(#[trigger] path[n]).contains('.') by {}
        lemma_segments_of_dotted(path);
    }
    if is_leaf_path(m, dot_segments(key)) {
        lemma_dotted_segments(key);
    }
}

/// Whether `path` is `of` or one of its beginnings.
pub open spec fn is_prefix(path: Seq<Seq<char>>, of: Seq<Seq<char>>) -> bool {
    path.len() <= of.len() && of.take(path.len() as int) == path
}

/// After a leaf is put at `path`, that leaf stands at `path`.
pub proof fn lemma_inserted_leaf_is_found(
    m: Map<Seq<char>, ConfigNode>,
    path: Seq<Seq<char>>,
    value: Seq<char>,
)
    requires
        insert_leaf(m, path, value) is Some,
    ensures
        resolve(insert_leaf(m, path, value)->0, path) == Some(ConfigNode::Leaf(value)),
    decreases path.len(),
{
    if path.len() > 1 {
        let sub = if m.contains_key(path[0]) {
            m[path[0]]->Subtree_0
        } else {
            Map::empty()
        };
        lemma_inserted_leaf_is_found(sub, path.drop_first(), value);
    }
}

/// After a leaf is put at `path`, a subtree stands at each proper beginning of `path`.
pub proof fn lemma_inserted_leaf_stands_in_subtrees(
    m: Map<Seq<char>, ConfigNode>,
    path: Seq<Seq<char>>,
    value: Seq<char>,
    n: int,
)
    requires
        insert_leaf(m, path, value) is Some,
        0 < n < path.len(),
    ensures
        is_subtree_path(insert_leaf(m, path, value)->0, path.take(n)),
    decreases path.len(),
{
    let sub = if m.contains_key(path[0]) {
        m[path[0]]->Subtree_0
    } else {
        Map::empty()
    };
    if n > 1 {
        lemma_inserted_leaf_stands_in_subtrees(sub, path.drop_first(), value, n - 1);
        assert(path.take(n).drop_first() == path.drop_first().take(n - 1));
    }
}

/// Putting a leaf at `path` changes nothing at any path but `path` and its beginnings.
pub proof fn lemma_insert_leaf_keeps_the_rest(
    m: Map<Seq<char>, ConfigNode>,
    path: Seq<Seq<char>>,
    value: Seq<char>,
    other: Seq<Seq<char>>,
)
    requires
        insert_leaf(m, path, value) is Some,
        !is_prefix(other, path),
    ensures
        resolve(insert_leaf(m, path, value)->0, other) == resolve(m, other),
    decreases path.len(),
{
    if other.len() == 0 {
        assert(path.take(0) == other);
    } else if other[0] == path[0] {
        if path.len() == 1 {
            if other.len() == 1 {
                assert(path.take(1) == other);
            }
        } else if other.len() == 1 {
            assert(path.take(1) == other);
        } else {
            let sub = if m.contains_key(path[0]) {
                m[path[0]]->Subtree_0
            } else {
                Map::empty()
            };
            if is_prefix(other.drop_first(), path.drop_first()) {
                let shared = path.drop_first().take(other.len() - 1);
                assert forall|j: int| 0 <= j < other.len() implies path[j] == other[j] by {
                    if j > 0 {
                        assert(shared[j - 1] == other.drop_first()[j - 1]);
                    }
                }
                assert(path.take(other.len() as int) == other);
            }
            lemma_insert_leaf_keeps_the_rest(sub, path.drop_first(), value, other.drop_first());
            lemma_nothing_in_empty(other.drop_first());
        }
    }
}

/// Putting a leaf at `path` adds that one leaf to the leaves of the tree, and takes none
/// away.
pub proof fn lemma_insert_leaf_adds_one_leaf(
    m: Map<Seq<char>, ConfigNode>,
    path: Seq<Seq<char>>,
    value: Seq<char>,
)
    requires
        insert_leaf(m, path, value) is Some,
    ensures
        forall|other: Seq<Seq<char>>|
            #[trigger] is_leaf_path(insert_leaf(m, path, value)->0, other) <==> other == path
                || is_leaf_path(m, other),
        leaf_keys(insert_leaf(m, path, value)->0) == leaf_keys(m).insert(dotted(path)),
{
    let after = insert_leaf(m, path, value)->0;
    lemma_insert_leaf_conflicts(m, path, value);
    lemma_inserted_leaf_is_found(m, path, value);
    assert forall|other: Seq<Seq<char>>| #[trigger]
        is_leaf_path(after, other) <==> other == path || is_leaf_path(m, other) by {
        if other != path {
            if is_prefix(other, path) {
                let n = other.len() as int;
                assert(path.take(path.len() as int) == path);
                if n > 0 {
                    lemma_inserted_leaf_stands_in_subtrees(m, path, value, n);
                }
            } else {
                lemma_insert_leaf_keeps_the_rest(m, path, value, other);
            }
        }
    }
    let none = Seq::<char>::empty();
    assert forall|key: Seq<char>|
        leaf_keys(after).contains(key) <==> key == dotted(path) || leaf_keys(m).contains(key) by {
        if leaf_keys(after).contains(key) {
            let found = choose|found: Seq<Seq<char>>|
                is_leaf_path(after, found) && key == none + dotted(found);
            if found != path {
                assert(is_leaf_path(m, found));
            }
        }
        if leaf_keys(m).contains(key) {
            let found = choose|found: Seq<Seq<char>>|
                is_leaf_path(m, found) && key == none + dotted(found);
            assert(is_leaf_path(after, found));
        }
        if key == dotted(path) {
            assert(is_leaf_path(after, path) && key == none + dotted(path));
        }
    }
}

/// Nothing stands in the empty tree.
pub proof fn lemma_nothing_in_empty(path: Seq<Seq<char>>)
    ensures
        resolve(Map::empty(), path) is None,
{
}

/// A leaf cannot be put at `path` exactly where a leaf stands at a proper beginning of
/// `path`, where a subtree stands at `path`, and where `path` is empty.
pub proof fn lemma_insert_leaf_conflicts(
    m: Map<Seq<char>, ConfigNode>,
    path: Seq<Seq<char>>,
    value: Seq<char>,
)
    ensures
        insert_leaf(m, path, value) is None <==> {
            ||| path.len() == 0
            ||| is_subtree_path(m, path)
            ||| exists|n: int| 0 < n < path.len() && is_leaf_path(m, #[trigger] path.take(n))
        },
    decreases path.len(),
{
    let through_leaf = exists|n: int|
        0 < n < path.len() && is_leaf_path(m, #[trigger] path.take(n));
    if path.len() == 1 {
        assert(!through_leaf);
    } else if path.len() > 1 {
        let rest = path.drop_first();
        if !m.contains_key(path[0]) {
            lemma_insert_into_empty(rest, value);
            if through_leaf {
                let n = choose|n: int|
                    0 < n < path.len() && is_leaf_path(m, #[trigger] path.take(n));
                assert(path.take(n)[0] == path[0]);
            }
        } else if m[path[0]] is Leaf {
            assert(is_leaf_path(m, path.take(1)));
        } else {
            let sub = m[path[0]]->Subtree_0;
            lemma_insert_leaf_conflicts(sub, rest, value);
            let through_leaf_below = exists|n: int|
                0 < n < rest.len() && is_leaf_path(sub, #[trigger] rest.take(n));
            if through_leaf_below {
                let n = choose|n: int|
                    0 < n < rest.len() && is_leaf_path(sub, #[trigger] rest.take(n));
                assert(path.take(n + 1).drop_first() == rest.take(n));
            }
            if through_leaf {
                let n = choose|n: int|
                    0 < n < path.len() && is_leaf_path(m, #[trigger] path.take(n));
                if n > 1 {
                    assert(path.take(n).drop_first() == rest.take(n - 1));
                }
            }
        }
    }
}

/// Whether neither of the two paths is a proper beginning of the other.
pub open spec fn paths_agree(p: Seq<Seq<char>>, q: Seq<Seq<char>>) -> bool {
    (is_prefix(p, q) || is_prefix(q, p)) ==> p == q
}

/// Whether a leaf stands below each subtree of `m`: no subtree is empty.
pub open spec fn is_leafy(m: Map<Seq<char>, ConfigNode>) -> bool {
    forall|p: Seq<Seq<char>>| #[trigger]
        is_subtree_path(m, p) ==> exists|q: Seq<Seq<char>>|
            #[trigger] is_leaf_path(m, q) && is_prefix(p, q)
}

/// The empty tree has no empty subtree.
pub proof fn lemma_empty_tree_is_leafy()
    ensures
        is_leafy(Map::<Seq<char>, ConfigNode>::empty()),
{
}

/// Putting a leaf into a tree without empty subtrees makes no empty subtree.
pub proof fn lemma_insert_leaf_keeps_leafy(
    m: Map<Seq<char>, ConfigNode>,
    path: Seq<Seq<char>>,
    value: Seq<char>,
)
    requires
        is_leafy(m),
        insert_leaf(m, path, value) is Some,
    ensures
        is_leafy(insert_leaf(m, path, value)->0),
{
    let after = insert_leaf(m, path, value)->0;
    lemma_inserted_leaf_is_found(m, path, value);
    lemma_insert_leaf_adds_one_leaf(m, path, value);
    assert forall|p: Seq<Seq<char>>| #[trigger] is_subtree_path(after, p) implies exists|
        q: Seq<Seq<char>>,
    | #[trigger] is_leaf_path(after, q) && is_prefix(p, q) by {
        if is_prefix(p, path) {
            assert(is_leaf_path(after, path) && is_prefix(p, path));
        } else {
            lemma_insert_leaf_keeps_the_rest(m, path, value, p);
            assert(is_subtree_path(m, p));
            let q = choose|q: Seq<Seq<char>>| #[trigger] is_leaf_path(m, q) && is_prefix(p, q);
            assert(is_leaf_path(after, q) && is_prefix(p, q));
        }
    }
}

/// A leaf can be put at a path with which all the leaves of a tree without empty
/// subtrees agree.
pub proof fn lemma_agreeing_path_has_no_conflict(
    m: Map<Seq<char>, ConfigNode>,
    path: Seq<Seq<char>>,
    value: Seq<char>,
)
    requires
        is_leafy(m),
        path.len() > 0,
        forall|q: Seq<Seq<char>>| #[trigger] is_leaf_path(m, q) ==> paths_agree(q, path),
    ensures
        insert_leaf(m, path, value) is Some,
{
    lemma_insert_leaf_conflicts(m, path, value);
    if is_subtree_path(m, path) {
        let q = choose|q: Seq<Seq<char>>| #[trigger] is_leaf_path(m, q) && is_prefix(path, q);
        assert(paths_agree(q, path));
    }
    if exists|n: int| 0 < n < path.len() && is_leaf_path(m, #[trigger] path.take(n)) {
        let n = choose|n: int| 0 < n < path.len() && is_leaf_path(m, #[trigger] path.take(n));
        let q = path.take(n);
        assert(path.take(q.len() as int) == q);
        assert(paths_agree(q, path));
    }
}

} // verus!
