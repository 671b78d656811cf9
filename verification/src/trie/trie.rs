//! The trie: a map from encoded symbol sequences to payloads.
//!
//! Every node lives in an arena and names its children by identity, one slot
//! per symbol of the alphabet. A key is present where the path spelled by its
//! indices ends in a node that carries a payload. Deleting a key removes every
//! node that is left without payload and without children, up to the root.

use crate::arena::{Arena, HasId, Id, IsMemoryArena};
use crate::trie::grammar::{Grammar, GrammarError};
use std::fmt::Debug;
use vstd::prelude::*;
use vstd::slice::slice_subrange;

verus! {

/// Why a trie operation was refused.
#[derive(Debug, Copy, Clone, PartialEq, Eq, Structural)]
pub enum TrieError {
    /// The symbol is not part of the alphabet. It is the first such symbol of
    /// the sequence.
    InvalidSymbol(char),
    /// The key is already present.
    AlreadyExists,
    /// The key is not present.
    NotFound,
}

/// One node of a trie.
#[derive(Debug, Clone)]
pub struct TrieNode<T: Debug + Clone + Send + Sync> {
    pub id: Id,
    pub payload: Option<T>,
    /// The number of branches, which is the number of symbols of the alphabet.
    pub arity: usize,
    pub children: Vec<Option<Id>>,
}

impl<T: Debug + Clone + Send + Sync> HasId for TrieNode<T> {
    open spec fn ident(&self) -> Id {
        self.id
    }

    fn get_id(&self) -> (id: Id) {
        self.id
    }
}

impl<T: Debug + Clone + Send + Sync> TrieNode<T> {
    /// A key ends at this node.
    pub open spec fn terminal(&self) -> bool {
        self.payload is Some
    }

    /// No branch of this node leads anywhere.
    pub open spec fn leaf(&self) -> bool {
        forall|i: int| 0 <= i < self.children@.len() ==> (#[trigger] self.children@[i]) is None
    }

    /// The node holds nothing: no payload and no children.
    pub open spec fn prunable(&self) -> bool {
        !self.terminal() && self.leaf()
    }

    /// Constructs a node without children.
    pub fn new(id: Id, payload: Option<T>, arity: usize) -> (node: Self)
        ensures
            node.id == id,
            node.payload == payload,
            node.arity == arity,
            node.children@.len() == arity,
            node.leaf(),
    {
        let mut children: Vec<Option<Id>> = Vec::new();
        let mut i: usize = 0;
        while i < arity
            invariant
                i <= arity,
                children@.len() == i,
                forall|j: int| 0 <= j < i ==> (#[trigger] children@[j]) is None,
            decreases arity - i,
        {
            children.push(None);
            i = i + 1;
        }
        Self { id, payload, arity, children }
    }

    /// Returns true if a payload is stored at this node.
    pub fn is_terminal(&self) -> (b: bool)
        ensures
            b == self.terminal(),
    {
        self.payload.is_some()
    }

    /// Returns true if the node has no children.
    pub fn is_leaf(&self) -> (b: bool)
        ensures
            b == self.leaf(),
    {
        let mut i: usize = 0;
        while i < self.children.len()
            invariant
                i <= self.children@.len(),
                forall|j: int| 0 <= j < i ==> (#[trigger] self.children@[j]) is None,
            decreases self.children@.len() - i,
        {
            if self.children[i].is_some() {
                return false;
            }
            i = i + 1;
        }
        true
    }

    /// Returns true if the node has no children and is not terminal.
    pub fn can_delete(&self) -> (b: bool)
        ensures
            b == self.prunable(),
    {
        !self.is_terminal() && self.is_leaf()
    }
}

/// The table of nodes of a trie.
type Nodes<T> = Map<Id, TrieNode<T>>;

/// For each path from the root that exists, the identity of the node it
/// reaches.
type Index = Map<Seq<usize>, Id>;

/// Slot `i` of the node at `p` names the node at `p.push(i)`, which is younger
/// than the node at `p`, or is empty where no such node exists.
spec fn slot_ok<T: Debug + Clone + Send + Sync>(
    nodes: Nodes<T>,
    index: Index,
    p: Seq<usize>,
    i: usize,
) -> bool {
    match nodes[index[p]].children@[i as int] {
        Some(c) => index.contains_key(p.push(i)) && index[p.push(i)] == c && c > index[p],
        None => !index.contains_key(p.push(i)),
    }
}

/// The nodes form a tree below the root, and `index` describes it. Where
/// `hole` names a slot, that one slot may still name a node that is gone.
spec fn shape_ok<T: Debug + Clone + Send + Sync>(
    nodes: Nodes<T>,
    index: Index,
    root: Id,
    arity: nat,
    issued: nat,
    hole: Option<(Seq<usize>, usize)>,
) -> bool {
    &&& index.contains_key(Seq::empty())
    &&& index[Seq::empty()] == root
    &&& forall|p: Seq<usize>|
        #![trigger index.contains_key(p)]
        index.contains_key(p) ==> {
            &&& nodes.contains_key(index[p])
            &&& nodes[index[p]].id == index[p]
            &&& nodes[index[p]].arity == arity
            &&& nodes[index[p]].children@.len() == arity
        }
    &&& forall|p: Seq<usize>, i: usize|
        #![trigger index.contains_key(p.push(i))]
        {
            &&& index.contains_key(p.push(i)) ==> index.contains_key(p) && i < arity
            &&& index.contains_key(p) && i < arity && hole != Some((p, i)) ==> slot_ok(
                nodes,
                index,
                p,
                i,
            )
        }
    &&& forall|p: Seq<usize>, q: Seq<usize>|
        #![trigger index[p], index[q]]
        index.contains_key(p) && index.contains_key(q) && index[p] == index[q] ==> p == q
    &&& forall|id: Id| #![trigger nodes.contains_key(id)] nodes.contains_key(id) ==> id < issued
    &&& hole matches Some((p, i)) ==> index.contains_key(p) && i < arity && !index.contains_key(
        p.push(i),
    )
}

/// Every node but the root, and but the one at `exempt`, holds a payload or
/// has a child.
spec fn no_dangling<T: Debug + Clone + Send + Sync>(
    nodes: Nodes<T>,
    index: Index,
    exempt: Option<Seq<usize>>,
) -> bool {
    forall|p: Seq<usize>|
        #![trigger index.contains_key(p)]
        index.contains_key(p) && p.len() > 0 && exempt != Some(p) ==> !nodes[index[p]].prunable()
}

/// The keys that are present, each with its payload.
spec fn contents<T: Debug + Clone + Send + Sync>(nodes: Nodes<T>, index: Index) -> Map<
    Seq<usize>,
    T,
> {
    Map::new(
        |p: Seq<usize>| index.contains_key(p) && nodes[index[p]].payload is Some,
        |p: Seq<usize>| nodes[index[p]].payload->0,
    )
}

/// Every prefix of an existing path exists.
proof fn lemma_prefix_closed<T: Debug + Clone + Send + Sync>(
    nodes: Nodes<T>,
    index: Index,
    root: Id,
    arity: nat,
    issued: nat,
    p: Seq<usize>,
    n: int,
)
    requires
        shape_ok(nodes, index, root, arity, issued, None),
        index.contains_key(p),
        0 <= n <= p.len(),
    ensures
        index.contains_key(p.take(n)),
    decreases p.len() - n,
{
    if n == p.len() {
        assert(p.take(n) == p);
    } else {
        lemma_prefix_closed(nodes, index, root, arity, issued, p, n + 1);
        assert(p.take(n + 1) == p.take(n).push(p[n]));
    }
}

/// A map that sends distinct keys to distinct numbers below `n` has at most
/// `n` keys.
proof fn lemma_injective_bounded<K>(m: Map<K, Id>, n: nat)
    requires
        forall|a: K, b: K|
            #![trigger m[a], m[b]]
            m.contains_key(a) && m.contains_key(b) && m[a] == m[b] ==> a == b,
        forall|a: K| #![trigger m.contains_key(a)] m.contains_key(a) ==> m[a] < n,
    ensures
        m.dom().finite(),
        m.dom().len() <= n,
    decreases n,
{
    if n == 0 {
        assert(m.dom() =~= Set::<K>::empty());
    } else if exists|a: K| m.contains_key(a) && m[a] == n - 1 {
        let a = choose|a: K| m.contains_key(a) && m[a] == n - 1;
        let rest = m.remove(a);
        assert forall|b: K| #![trigger rest.contains_key(b)] rest.contains_key(b) implies rest[b]
            < n - 1 by {
            assert(m.contains_key(b));
            if m[b] == n - 1 {
                assert(m[a] == m[b]);
            }
        }
        lemma_injective_bounded(rest, (n - 1) as nat);
        assert(m.dom() =~= rest.dom().insert(a));
    } else {
        lemma_injective_bounded(m, (n - 1) as nat);
    }
}

/// Storing a payload in the node at `path` adds the key `path`, or replaces
/// its payload, and touches nothing else.
proof fn lemma_store_payload<T: Debug + Clone + Send + Sync>(
    nodes: Nodes<T>,
    nodes2: Nodes<T>,
    index: Index,
    root: Id,
    arity: nat,
    issued: nat,
    path: Seq<usize>,
    value: T,
)
    requires
        shape_ok(nodes, index, root, arity, issued, None),
        no_dangling(nodes, index, Some(path)),
        index.contains_key(path),
        nodes2.dom() == nodes.dom(),
        forall|id: Id| nodes.contains_key(id) && id != index[path] ==> nodes2[id] == nodes[id],
        nodes2[index[path]].id == nodes[index[path]].id,
        nodes2[index[path]].arity == nodes[index[path]].arity,
        nodes2[index[path]].children == nodes[index[path]].children,
        nodes2[index[path]].payload == Some(value),
    ensures
        shape_ok(nodes2, index, root, arity, issued, None),
        no_dangling(nodes2, index, None),
        contents(nodes2, index) == contents(nodes, index).insert(path, value),
{
    assert forall|p: Seq<usize>, i: usize|
        #![trigger index.contains_key(p.push(i))]
        index.contains_key(p) && i < arity implies slot_ok(nodes2, index, p, i) by {
        assert(slot_ok(nodes, index, p, i));
    }
    assert(contents(nodes2, index) =~= contents(nodes, index).insert(path, value));
}

/// Hanging a fresh, empty node into the empty slot `i` of the node at `path`
/// keeps the tree a tree and adds no key.
proof fn lemma_link_child<T: Debug + Clone + Send + Sync>(
    nodes: Nodes<T>,
    nodes2: Nodes<T>,
    index: Index,
    root: Id,
    arity: nat,
    issued: nat,
    path: Seq<usize>,
    i: usize,
    child: Id,
)
    requires
        shape_ok(nodes, index, root, arity, issued, None),
        no_dangling(nodes, index, Some(path)),
        index.contains_key(path),
        i < arity,
        nodes[index[path]].children@[i as int] is None,
        child == issued,
        nodes2.dom() == nodes.dom().insert(child),
        forall|id: Id| nodes.contains_key(id) && id != index[path] ==> nodes2[id] == nodes[id],
        nodes2[index[path]].id == nodes[index[path]].id,
        nodes2[index[path]].arity == nodes[index[path]].arity,
        nodes2[index[path]].payload == nodes[index[path]].payload,
        nodes2[index[path]].children@ == nodes[index[path]].children@.update(
            i as int,
            Some(child),
        ),
        nodes2[child].id == child,
        nodes2[child].arity == arity,
        nodes2[child].children@.len() == arity,
        nodes2[child].prunable(),
    ensures
        shape_ok(nodes2, index.insert(path.push(i), child), root, arity, issued + 1, None),
        no_dangling(nodes2, index.insert(path.push(i), child), Some(path.push(i))),
        contents(nodes2, index.insert(path.push(i), child)) == contents(nodes, index),
{
    let index2 = index.insert(path.push(i), child);
    assert(slot_ok(nodes, index, path, i));
    assert(!nodes.contains_key(child));
    assert(path.push(i).len() > 0);
    assert forall|p: Seq<usize>|
        #![trigger index2.contains_key(p)]
        index2.contains_key(p) implies {
        &&& nodes2.contains_key(index2[p])
        &&& nodes2[index2[p]].id == index2[p]
        &&& nodes2[index2[p]].arity == arity
        &&& nodes2[index2[p]].children@.len() == arity
    } by {
        if p != path.push(i) {
            assert(index.contains_key(p));
        }
    }
    assert forall|p: Seq<usize>, j: usize|
        #![trigger index2.contains_key(p.push(j))]
        {
            &&& index2.contains_key(p.push(j)) ==> index2.contains_key(p) && j < arity
            &&& index2.contains_key(p) && j < arity ==> slot_ok(nodes2, index2, p, j)
        } by {
        if p.push(j) == path.push(i) {
            assert(p.push(j).drop_last() == p);
            assert(path.push(i).drop_last() == path);
            assert(p.push(j).last() == j);
        }
        if index2.contains_key(p) && j < arity {
            if p == path.push(i) {
                // The fresh node has no children, and nothing lay below the
                // empty slot.
                if index.contains_key(p.push(j)) {
                    assert(index.contains_key(p));
                }
                assert(p.push(j) != path.push(i));
            } else {
                assert(index.contains_key(p));
                assert(slot_ok(nodes, index, p, j));
                if p == path && j != i {
                    assert(p.push(j).last() == j);
                    assert(path.push(i).last() == i);
                }
            }
        }
    }
    assert forall|p: Seq<usize>, q: Seq<usize>|
        #![trigger index2[p], index2[q]]
        index2.contains_key(p) && index2.contains_key(q) && index2[p] == index2[q] implies p
        == q by {
        if p != path.push(i) {
            assert(index.contains_key(p));
        }
        if q != path.push(i) {
            assert(index.contains_key(q));
        }
    }
    assert forall|p: Seq<usize>|
        #![trigger index2.contains_key(p)]
        index2.contains_key(p) && p.len() > 0 && Some(path.push(i)) != Some(
            p,
        ) implies !nodes2[index2[p]].prunable() by {
        assert(index.contains_key(p));
        if p == path {
            assert(nodes2[index[path]].children@[i as int] is Some);
        }
    }
    assert(contents(nodes2, index2) =~= contents(nodes, index)) by {
        assert forall|p: Seq<usize>| contents(nodes2, index2).contains_key(p) implies contents(
            nodes,
            index,
        ).contains_key(p) by {
            if p != path.push(i) {
                assert(index.contains_key(p));
            }
        }
        assert forall|p: Seq<usize>| contents(nodes, index).contains_key(p) implies contents(
            nodes2,
            index2,
        ).contains_key(p) && contents(nodes2, index2)[p] == contents(nodes, index)[p] by {
            assert(index.contains_key(p));
        }
    }
}


/// Taking the payload out of the node at `path` removes the key `path` and
/// touches nothing else.
proof fn lemma_clear_payload<T: Debug + Clone + Send + Sync>(
    nodes: Nodes<T>,
    nodes2: Nodes<T>,
    index: Index,
    root: Id,
    arity: nat,
    issued: nat,
    path: Seq<usize>,
)
    requires
        shape_ok(nodes, index, root, arity, issued, None),
        no_dangling(nodes, index, None),
        index.contains_key(path),
        nodes2.dom() == nodes.dom(),
        forall|id: Id| nodes.contains_key(id) && id != index[path] ==> nodes2[id] == nodes[id],
        nodes2[index[path]].id == nodes[index[path]].id,
        nodes2[index[path]].arity == nodes[index[path]].arity,
        nodes2[index[path]].children == nodes[index[path]].children,
        nodes2[index[path]].payload is None,
    ensures
        shape_ok(nodes2, index, root, arity, issued, None),
        no_dangling(nodes2, index, Some(path)),
        contents(nodes2, index) == contents(nodes, index).remove(path),
{
    assert forall|p: Seq<usize>, i: usize|
        #![trigger index.contains_key(p.push(i))]
        index.contains_key(p) && i < arity implies slot_ok(nodes2, index, p, i) by {
        assert(slot_ok(nodes, index, p, i));
    }
    assert(contents(nodes2, index) =~= contents(nodes, index).remove(path));
}

/// Removing the node at `path`, which holds nothing, leaves a tree with one
/// stale slot in the parent, and the same keys.
proof fn lemma_remove_node<T: Debug + Clone + Send + Sync>(
    nodes: Nodes<T>,
    index: Index,
    root: Id,
    arity: nat,
    issued: nat,
    path: Seq<usize>,
)
    requires
        shape_ok(nodes, index, root, arity, issued, None),
        no_dangling(nodes, index, Some(path)),
        index.contains_key(path),
        path.len() > 0,
        nodes[index[path]].prunable(),
    ensures
        shape_ok(
            nodes.remove(index[path]),
            index.remove(path),
            root,
            arity,
            issued,
            Some((path.drop_last(), path.last())),
        ),
        no_dangling(nodes.remove(index[path]), index.remove(path), Some(path.drop_last())),
        contents(nodes.remove(index[path]), index.remove(path)) == contents(nodes, index),
{
    let nodes2 = nodes.remove(index[path]);
    let index2 = index.remove(path);
    let parent = path.drop_last();
    let last = path.last();
    assert(path == parent.push(last));
    assert(index.contains_key(parent.push(last)));
    assert(index.contains_key(parent) && last < arity);
    assert(parent != path);
    assert forall|p: Seq<usize>|
        #![trigger index2.contains_key(p)]
        index2.contains_key(p) implies {
        &&& nodes2.contains_key(index2[p])
        &&& nodes2[index2[p]].id == index2[p]
        &&& nodes2[index2[p]].arity == arity
        &&& nodes2[index2[p]].children@.len() == arity
    } by {
        assert(index.contains_key(p));
        assert(index[p] != index[path]);
    }
    assert forall|p: Seq<usize>, j: usize|
        #![trigger index2.contains_key(p.push(j))]
        {
            &&& index2.contains_key(p.push(j)) ==> index2.contains_key(p) && j < arity
            &&& index2.contains_key(p) && j < arity && Some((parent, last)) != Some((p, j))
                ==> slot_ok(nodes2, index2, p, j)
        } by {
        if index.contains_key(p.push(j)) {
            assert(index.contains_key(p));
            if p == path {
                assert(slot_ok(nodes, index, path, j));
                assert(nodes[index[path]].children@[j as int] is None);
            }
        }
        if index2.contains_key(p) && j < arity && Some((parent, last)) != Some((p, j)) {
            assert(index.contains_key(p));
            assert(slot_ok(nodes, index, p, j));
            assert(index[p] != index[path]);
            if p.push(j) == path {
                assert(p.push(j).drop_last() == p);
                assert(p.push(j).last() == j);
            }
        }
    }
    assert forall|p: Seq<usize>|
        #![trigger index2.contains_key(p)]
        index2.contains_key(p) && p.len() > 0 && Some(parent) != Some(
            p,
        ) implies !nodes2[index2[p]].prunable() by {
        assert(index.contains_key(p));
        assert(index[p] != index[path]);
    }
    assert(contents(nodes2, index2) =~= contents(nodes, index)) by {
        assert forall|p: Seq<usize>| contents(nodes, index).contains_key(p) implies contents(
            nodes2,
            index2,
        ).contains_key(p) && contents(nodes2, index2)[p] == contents(nodes, index)[p] by {
            assert(index.contains_key(p));
            assert(p != path);
            assert(index[p] != index[path]);
        }
        assert forall|p: Seq<usize>| contents(nodes2, index2).contains_key(p) implies contents(
            nodes,
            index,
        ).contains_key(p) by {
            assert(index.contains_key(p));
            assert(index[p] != index[path]);
        }
    }
}

/// Emptying the stale slot `i` of the node at `parent` makes the tree whole
/// again, with the same keys.
proof fn lemma_clear_slot<T: Debug + Clone + Send + Sync>(
    nodes: Nodes<T>,
    nodes2: Nodes<T>,
    index: Index,
    root: Id,
    arity: nat,
    issued: nat,
    parent: Seq<usize>,
    i: usize,
)
    requires
        shape_ok(nodes, index, root, arity, issued, Some((parent, i))),
        no_dangling(nodes, index, Some(parent)),
        nodes2.dom() == nodes.dom(),
        forall|id: Id| nodes.contains_key(id) && id != index[parent] ==> nodes2[id] == nodes[id],
        nodes2[index[parent]].id == nodes[index[parent]].id,
        nodes2[index[parent]].arity == nodes[index[parent]].arity,
        nodes2[index[parent]].payload == nodes[index[parent]].payload,
        nodes2[index[parent]].children@ == nodes[index[parent]].children@.update(i as int, None),
    ensures
        shape_ok(nodes2, index, root, arity, issued, None),
        no_dangling(nodes2, index, Some(parent)),
        contents(nodes2, index) == contents(nodes, index),
{
    assert forall|p: Seq<usize>, j: usize|
        #![trigger index.contains_key(p.push(j))]
        index.contains_key(p) && j < arity implies slot_ok(nodes2, index, p, j) by {
        if Some((parent, i)) != Some((p, j)) {
            assert(slot_ok(nodes, index, p, j));
        }
    }
    assert(contents(nodes2, index) =~= contents(nodes, index));
}

/// Below every node but the root lies a key: the path of the node is the
/// beginning of the path of some key.
proof fn lemma_reaches_key<T: Debug + Clone + Send + Sync>(
    nodes: Nodes<T>,
    index: Index,
    root: Id,
    arity: nat,
    issued: nat,
    p: Seq<usize>,
)
    requires
        shape_ok(nodes, index, root, arity, issued, None),
        no_dangling(nodes, index, None),
        index.contains_key(p),
        p.len() > 0,
    ensures
        exists|key: Seq<usize>| contents(nodes, index).contains_key(key) && p.is_prefix_of(key),
    decreases issued - index[p],
{
    let node = nodes[index[p]];
    if node.payload is Some {
        assert(contents(nodes, index).contains_key(p));
        assert(p.is_prefix_of(p));
    } else {
        assert(!node.prunable());
        let i = choose|i: int| 0 <= i < node.children@.len() && node.children@[i] is Some;
        let below = p.push(i as usize);
        assert(slot_ok(nodes, index, p, i as usize));
        assert(index.contains_key(below));
        assert(nodes.contains_key(index[below]));
        lemma_reaches_key(nodes, index, root, arity, issued, below);
        let key = choose|key: Seq<usize>|
            contents(nodes, index).contains_key(key) && below.is_prefix_of(key);
        assert(p.is_prefix_of(key)) by {
            assert(p =~= below.subrange(0, p.len() as int));
            assert(p =~= key.subrange(0, p.len() as int));
        }
    }
}

/// Inserting under a fresh key adds one key; inserting under a key that is
/// present adds none. Either way the key then holds the inserted payload.
pub proof fn lemma_insert_counts<T>(keys: Map<Seq<usize>, T>, key: Seq<usize>, payload: T)
    requires
        keys.dom().finite(),
    ensures
        keys.insert(key, payload).dom().finite(),
        keys.insert(key, payload).contains_key(key),
        keys.insert(key, payload)[key] == payload,
        keys.insert(key, payload).dom().len() == keys.dom().len() + if keys.contains_key(key) {
            0int
        } else {
            1int
        },
{
    assert(keys.insert(key, payload).dom() =~= keys.dom().insert(key));
}

/// Deleting a key that is present takes one key away, and no other. After
/// the only key is deleted, no key is left.
pub proof fn lemma_delete_counts<T>(keys: Map<Seq<usize>, T>, key: Seq<usize>)
    requires
        keys.dom().finite(),
        keys.contains_key(key),
    ensures
        keys.remove(key).dom().finite(),
        !keys.remove(key).contains_key(key),
        keys.remove(key).dom().len() == keys.dom().len() - 1,
        keys.dom().len() == 1 ==> keys.remove(key) == Map::<Seq<usize>, T>::empty(),
{
    assert(keys.remove(key).dom() =~= keys.dom().remove(key));
    if keys.dom().len() == 1 {
        keys.remove(key).dom().lemma_len0_is_empty();
        assert(keys.remove(key) =~= Map::<Seq<usize>, T>::empty());
    }
}

/// Deleting a key and inserting it again with the payload it had gives back
/// the keys and payloads that were there before.
pub proof fn lemma_delete_then_insert<T>(keys: Map<Seq<usize>, T>, key: Seq<usize>)
    requires
        keys.contains_key(key),
    ensures
        keys.remove(key).insert(key, keys[key]) == keys,
{
    assert(keys.remove(key).insert(key, keys[key]) =~= keys);
}

/// What is done where a key to insert is already present.
enum OnCollision {
    ReturnError,
    Replace,
    ApplyFn,
}

/// A prefix tree from symbol sequences to payloads of type `T`.
pub struct Trie<T: Debug + Clone + Send + Sync> {
    arena: Arena<TrieNode<T>>,
    grammar: Grammar,
    root: Id,
    size: usize,
    index: Ghost<Index>,
}

impl<T: Debug + Clone + Send + Sync> View for Trie<T> {
    type V = Map<Seq<usize>, T>;

    /// The keys that are present, as index sequences, each with its payload.
    closed spec fn view(&self) -> Map<Seq<usize>, T> {
        contents(self.arena.nodes(), self.index@)
    }
}

impl<T: Debug + Clone + Send + Sync> Trie<T> {
    /// The tree shape holds, and no node but the root and the one at `exempt`
    /// is left without payload and children.
    spec fn inv(&self, exempt: Option<Seq<usize>>) -> bool {
        &&& self.arena.wf()
        &&& self.grammar.wf()
        &&& shape_ok(
            self.arena.nodes(),
            self.index@,
            self.root,
            self.grammar.arity(),
            self.arena.issued(),
            None,
        )
        &&& no_dangling(self.arena.nodes(), self.index@, exempt)
    }

    /// The state in which the node at `path` has just been removed and the
    /// slot of its parent still names it.
    spec fn pruned(&self, path: Seq<usize>) -> bool {
        &&& path.len() > 0
        &&& self.arena.wf()
        &&& self.grammar.wf()
        &&& shape_ok(
            self.arena.nodes(),
            self.index@,
            self.root,
            self.grammar.arity(),
            self.arena.issued(),
            Some((path.drop_last(), path.last())),
        )
        &&& no_dangling(self.arena.nodes(), self.index@, Some(path.drop_last()))
    }

    /// The trie is well formed: its nodes form a tree, none but the root is
    /// without payload and children, and the count of keys is exact.
    pub closed spec fn wf(&self) -> bool {
        &&& self.inv(None)
        &&& self@.dom().finite()
        &&& self.size == self@.dom().len()
    }

    /// The alphabet that encodes the keys.
    pub closed spec fn grammar(&self) -> Grammar {
        self.grammar
    }

    /// How many node identities the trie has used up.
    pub closed spec fn issued_ids(&self) -> nat {
        self.arena.issued()
    }

    /// The paths from the root at which a node exists.
    pub closed spec fn paths(&self) -> Set<Seq<usize>> {
        self.index@.dom()
    }

    /// The keys are finitely many, and no more than the identities used.
    proof fn lemma_count_bounded(&self)
        requires
            self.inv(None),
        ensures
            self@.dom().finite(),
            self@.dom().len() <= self.arena.issued(),
            self.index@.dom().finite(),
    {
        lemma_injective_bounded(self.index@, self.arena.issued());
        vstd::set_lib::lemma_len_subset(self@.dom(), self.index@.dom());
    }

    /// No node but the root outlives the keys it serves: a path leads to a
    /// node exactly if it is empty or the beginning of the path of a key.
    pub proof fn lemma_paths_are_prefixes(&self)
        requires
            self.wf(),
        ensures
            forall|p: Seq<usize>|
                self.paths().contains(p) <==> p.len() == 0 || exists|key: Seq<usize>|
                    self@.contains_key(key) && p.is_prefix_of(key),
    {
        let nodes = self.arena.nodes();
        let index = self.index@;
        assert forall|p: Seq<usize>|
            self.paths().contains(p) <==> p.len() == 0 || exists|key: Seq<usize>|
                self@.contains_key(key) && p.is_prefix_of(key) by {
            if index.contains_key(p) && p.len() > 0 {
                lemma_reaches_key(
                    nodes,
                    index,
                    self.root,
                    self.grammar.arity(),
                    self.arena.issued(),
                    p,
                );
            }
            if p.len() == 0 {
                assert(p == Seq::<usize>::empty());
            }
            if exists|key: Seq<usize>| self@.contains_key(key) && p.is_prefix_of(key) {
                let key = choose|key: Seq<usize>| self@.contains_key(key) && p.is_prefix_of(key);
                lemma_prefix_closed(
                    nodes,
                    index,
                    self.root,
                    self.grammar.arity(),
                    self.arena.issued(),
                    key,
                    p.len() as int,
                );
                assert(key.take(p.len() as int) == p);
            }
        }
    }

    /// How many node identities the trie can still use. An insertion uses at
    /// most one for each symbol of its key.
    pub fn remaining_ids(&self) -> (n: usize)
        requires
            self.wf(),
        ensures
            n == usize::MAX - self.issued_ids(),
    {
        self.arena.remaining_ids()
    }

    /// Constructs an empty trie over the given alphabet.
    pub fn new(grammar: Grammar) -> (trie: Self)
        requires
            grammar.wf(),
        ensures
            trie.wf(),
            trie.grammar() == grammar,
            trie@ == Map::<Seq<usize>, T>::empty(),
            trie.issued_ids() == 1,
            trie.paths() == set![Seq::<usize>::empty()],
    {
        let mut arena = Arena::<TrieNode<T>>::new();
        let root: Id = arena.get_new_id();
        let root_node = TrieNode::<T>::new(root, None, grammar.seq().len());
        arena.add_node(root_node).expect("failed to add root to tree!");
        let trie = Self {
            arena,
            grammar,
            root,
            size: 0,
            index: Ghost(Map::<Seq<usize>, Id>::empty().insert(Seq::empty(), root)),
        };
        proof {
            assert forall|p: Seq<usize>, i: usize|
                #![trigger trie.index@.contains_key(p.push(i))]
                !trie.index@.contains_key(p.push(i)) by {
                assert(p.push(i).len() > 0);
            }
            assert(trie@ =~= Map::<Seq<usize>, T>::empty());
            assert(trie.paths() =~= set![Seq::<usize>::empty()]);
        }
        trie
    }

    /// Encodes a key with the trie's alphabet.
    pub fn preprocess_seq(&self, seq: &str) -> (r: Result<Vec<usize>, TrieError>)
        requires
            self.wf(),
        ensures
            match r {
                Ok(indices) => self.grammar().encode(seq@) == Some(indices@),
                Err(e) => {
                    &&& self.grammar().encode(seq@) is None
                    &&& exists|i: int|
                        self.grammar().first_unknown_at(seq@, i) && e == TrieError::InvalidSymbol(
                            seq@[i],
                        )
                },
            },
    {
        match self.grammar.to_indices(seq) {
            Ok(indices) => Ok(indices),
            Err(GrammarError::InvalidSymbol(c)) => Err(TrieError::InvalidSymbol(c)),
        }
    }

    /// Returns the number of keys.
    pub fn len(&self) -> (n: usize)
        requires
            self.wf(),
        ensures
            n == self@.dom().len(),
    {
        self.size
    }

    /// Returns true if no key is present.
    pub fn is_empty(&self) -> (b: bool)
        requires
            self.wf(),
        ensures
            b == (self@.dom().len() == 0),
            b == (self@ == Map::<Seq<usize>, T>::empty()),
    {
        proof {
            if self@.dom().len() == 0 {
                self@.dom().lemma_len0_is_empty();
                assert(self@ =~= Map::<Seq<usize>, T>::empty());
            }
        }
        self.len() == 0
    }

    /// Inserts the key that `seq` spells from the node at `path` on, making
    /// the nodes that its path lacks, and settles a collision as
    /// `on_collision` says.
    fn _insert_apply<F: Fn(&T) -> T>(
        &mut self,
        seq: &[usize],
        node_id: &Id,
        t: T,
        f: F,
        on_collision: OnCollision,
        Ghost(path): Ghost<Seq<usize>>,
    ) -> (r: Result<Option<T>, TrieError>)
        requires
            old(self).inv(Some(path)),
            old(self).index@.contains_key(path),
            old(self).index@[path] == *node_id,
            forall|i: int|
                0 <= i < seq@.len() ==> (#[trigger] seq@[i]) < old(self).grammar.arity(),
            old(self).arena.issued() + seq@.len() <= usize::MAX,
            on_collision is ApplyFn && old(self)@.contains_key(path + seq@) ==> f.requires(
                (&old(self)@[path + seq@],),
            ),
        ensures
            final(self).grammar == old(self).grammar,
            final(self).root == old(self).root,
            final(self).size == old(self).size,
            final(self).arena.issued() <= old(self).arena.issued() + seq@.len(),
            match r {
                Err(e) => {
                    &&& e == TrieError::AlreadyExists
                    &&& on_collision is ReturnError
                    &&& old(self)@.contains_key(path + seq@)
                    &&& final(self).inv(Some(path))
                    &&& final(self).arena.nodes() == old(self).arena.nodes()
                    &&& final(self).arena.issued() == old(self).arena.issued()
                    &&& final(self).index@ == old(self).index@
                },
                Ok(None) => {
                    &&& final(self).inv(None)
                    &&& !old(self)@.contains_key(path + seq@)
                    &&& final(self)@ == old(self)@.insert(path + seq@, t)
                },
                Ok(Some(prev)) => {
                    &&& final(self).inv(None)
                    &&& !(on_collision is ReturnError)
                    &&& old(self)@.contains_key(path + seq@)
                    &&& prev == old(self)@[path + seq@]
                    &&& final(self)@.contains_key(path + seq@)
                    &&& final(self)@ == old(self)@.insert(path + seq@, final(self)@[path + seq@])
                    &&& on_collision is Replace ==> final(self)@[path + seq@] == t
                    &&& on_collision is ApplyFn ==> f.ensures((&prev,), final(self)@[path + seq@])
                },
            },
        decreases seq@.len(),
    {
        let ghost nodes0 = self.arena.nodes();
        let ghost index0 = self.index@;
        let ghost arity = self.grammar.arity();
        let ghost issued0 = self.arena.issued();
        if seq.len() == 0 {
            proof {
                assert(path + seq@ == path);
            }
            let node_ref = self.arena.get_node(node_id).expect("node doesnt exist!");
            if node_ref.payload.is_some() {
                if let OnCollision::ReturnError = on_collision {
                    return Err(TrieError::AlreadyExists);
                }
            }
            let mut node = self.arena.take_node(node_id).expect("node doesnt exist!");
            let prev = node.payload.take();
            let ghost stored: T;
            match &prev {
                Some(p) => {
                    if let OnCollision::ApplyFn = on_collision {
                        let applied = f(p);
                        proof {
                            stored = applied;
                        }
                        node.payload = Some(applied);
                    } else {
                        proof {
                            stored = t;
                        }
                        node.payload = Some(t);
                    }
                },
                None => {
                    proof {
                        stored = t;
                    }
                    node.payload = Some(t);
                },
            }
            self.arena.add_node(node).expect("could not add node!");
            proof {
                lemma_store_payload(
                    nodes0,
                    self.arena.nodes(),
                    index0,
                    self.root,
                    arity,
                    issued0,
                    path,
                    stored,
                );
                assert(self.arena.nodes().dom() =~= nodes0.dom());
            }
            return Ok(prev);
        }
        let idx = seq[0];
        let remaining = slice_subrange(seq, 1, seq.len());
        proof {
            assert(path + seq@ == path.push(idx) + remaining@);
            assert(slot_ok(nodes0, index0, path, idx));
        }
        let node_ref = self.arena.get_node(node_id).expect("node doesnt exist!");
        let child_id = node_ref.children[idx];
        let arity_here = node_ref.arity;
        let next_id: Id = match child_id {
            None => {
                let next_id = self.arena.get_new_id();
                let child = TrieNode::<T>::new(next_id, None, arity_here);
                self.arena.add_node(child).expect("could not add node!");
                let mut node = self.arena.take_node(node_id).expect("node doesnt exist!");
                node.children[idx] = Some(next_id);
                self.arena.add_node(node).expect("could not add node!");
                proof {
                    assert(self.arena.nodes().dom() =~= nodes0.dom().insert(next_id));
                    lemma_link_child(
                        nodes0,
                        self.arena.nodes(),
                        index0,
                        self.root,
                        arity,
                        issued0,
                        path,
                        idx,
                        next_id,
                    );
                    self.index@ = index0.insert(path.push(idx), next_id);
                }
                next_id
            },
            Some(next) => next,
        };
        let ghost nodes1 = self.arena.nodes();
        let ghost index1 = self.index@;
        let r = self._insert_apply(remaining, &next_id, t, f, on_collision, Ghost(path.push(idx)));
        proof {
            if r is Err && child_id is None {
                // The node just made holds nothing, so no key lies at or below it.
                let key = path + seq@;
                assert(index1.contains_key(key));
                if remaining@.len() == 0 {
                    assert(key == path.push(idx));
                } else {
                    lemma_prefix_closed(
                        nodes1,
                        index1,
                        self.root,
                        arity,
                        (issued0 + 1) as nat,
                        key,
                        (path.len() + 2) as int,
                    );
                    assert(key.take((path.len() + 2) as int) == path.push(idx).push(remaining@[0]));
                    assert(slot_ok(nodes1, index1, path.push(idx), remaining@[0]));
                }
                assert(false);
            }
        }
        r
    }

    /// Inserts `t` under `seq`, unless the key is already present.
    pub fn insert(&mut self, seq: &str, t: T) -> (r: Result<(), TrieError>)
        requires
            old(self).wf(),
            old(self).issued_ids() + seq@.len() <= usize::MAX,
        ensures
            final(self).wf(),
            final(self).grammar() == old(self).grammar(),
            final(self).issued_ids() <= old(self).issued_ids() + seq@.len(),
            match old(self).grammar().encode(seq@) {
                None => {
                    &&& final(self)@ == old(self)@
                    &&& exists|i: int|
                        old(self).grammar().first_unknown_at(seq@, i) && r == Err::<(), TrieError>(
                            TrieError::InvalidSymbol(seq@[i]),
                        )
                },
                Some(key) => if old(self)@.contains_key(key) {
                    r == Err::<(), TrieError>(TrieError::AlreadyExists) && final(self)@ == old(self)@
                } else {
                    r == Ok::<(), TrieError>(()) && final(self)@ == old(self)@.insert(key, t)
                },
            },
    {
        let indices = match self.preprocess_seq(seq) {
            Ok(indices) => indices,
            Err(e) => {
                return Err(e);
            },
        };
        let root = self.root;
        let keep = |prev: &T| -> (r: T) { prev.clone() };
        proof {
            self.grammar.lemma_encode_in_range(seq@);
            assert(Seq::<usize>::empty() + indices@ == indices@);
        }
        let r = self._insert_apply(
            indices.as_slice(),
            &root,
            t,
            keep,
            OnCollision::ReturnError,
            Ghost(Seq::empty()),
        );
        match r {
            Ok(_) => {
                self.count_inserted();
                Ok(())
            },
            Err(e) => Err(e),
        }
    }

    /// Inserts `t` under `seq`. Where the key is already present, its payload
    /// is replaced and the previous one returned.
    pub fn insert_or_update(&mut self, seq: &str, t: T) -> (r: Result<Option<T>, TrieError>)
        requires
            old(self).wf(),
            old(self).issued_ids() + seq@.len() <= usize::MAX,
        ensures
            final(self).wf(),
            final(self).grammar() == old(self).grammar(),
            final(self).issued_ids() <= old(self).issued_ids() + seq@.len(),
            match old(self).grammar().encode(seq@) {
                None => {
                    &&& final(self)@ == old(self)@
                    &&& exists|i: int|
                        old(self).grammar().first_unknown_at(seq@, i) && r == Err::<
                            Option<T>,
                            TrieError,
                        >(TrieError::InvalidSymbol(seq@[i]))
                },
                Some(key) => {
                    &&& final(self)@ == old(self)@.insert(key, t)
                    &&& r == Ok::<Option<T>, TrieError>(
                        if old(self)@.contains_key(key) {
                            Some(old(self)@[key])
                        } else {
                            None
                        },
                    )
                },
            },
    {
        let indices = match self.preprocess_seq(seq) {
            Ok(indices) => indices,
            Err(e) => {
                return Err(e);
            },
        };
        let root = self.root;
        let keep = |prev: &T| -> (r: T) { prev.clone() };
        proof {
            self.grammar.lemma_encode_in_range(seq@);
            assert(Seq::<usize>::empty() + indices@ == indices@);
        }
        let r = self._insert_apply(
            indices.as_slice(),
            &root,
            t,
            keep,
            OnCollision::Replace,
            Ghost(Seq::empty()),
        );
        proof {
            if r matches Ok(Some(_)) {
                assert(self@.dom() =~= old(self)@.dom());
            } else {
                assert(self@.dom() =~= old(self)@.dom().insert(indices@));
            }
        }
        self.settle_count(&r);
        r
    }

    /// Inserts `t` under `seq`. Where the key is already present, its payload
    /// becomes what `f` makes of the previous one, which is returned.
    pub fn insert_or_apply<F>(&mut self, seq: &str, t: T, f: F) -> (r: Result<
        Option<T>,
        TrieError,
    >) where F: Fn(&T) -> T
        requires
            old(self).wf(),
            old(self).issued_ids() + seq@.len() <= usize::MAX,
            forall|key: Seq<usize>|
                old(self).grammar().encode(seq@) == Some(key) && old(self)@.contains_key(key)
                    ==> f.requires((&old(self)@[key],)),
        ensures
            final(self).wf(),
            final(self).grammar() == old(self).grammar(),
            final(self).issued_ids() <= old(self).issued_ids() + seq@.len(),
            match old(self).grammar().encode(seq@) {
                None => {
                    &&& final(self)@ == old(self)@
                    &&& exists|i: int|
                        old(self).grammar().first_unknown_at(seq@, i) && r == Err::<
                            Option<T>,
                            TrieError,
                        >(TrieError::InvalidSymbol(seq@[i]))
                },
                Some(key) => if old(self)@.contains_key(key) {
                    &&& r == Ok::<Option<T>, TrieError>(Some(old(self)@[key]))
                    &&& final(self)@.contains_key(key)
                    &&& f.ensures((&old(self)@[key],), final(self)@[key])
                    &&& final(self)@ == old(self)@.insert(key, final(self)@[key])
                } else {
                    &&& r == Ok::<Option<T>, TrieError>(None)
                    &&& final(self)@ == old(self)@.insert(key, t)
                },
            },
    {
        let indices = match self.preprocess_seq(seq) {
            Ok(indices) => indices,
            Err(e) => {
                return Err(e);
            },
        };
        let root = self.root;
        proof {
            self.grammar.lemma_encode_in_range(seq@);
            assert(Seq::<usize>::empty() + indices@ == indices@);
        }
        let r = self._insert_apply(
            indices.as_slice(),
            &root,
            t,
            f,
            OnCollision::ApplyFn,
            Ghost(Seq::empty()),
        );
        proof {
            if r matches Ok(Some(_)) {
                assert(self@.dom() =~= old(self)@.dom());
            } else {
                assert(self@.dom() =~= old(self)@.dom().insert(indices@));
            }
        }
        self.settle_count(&r);
        r
    }

    /// Brings the count of keys up to date after an insertion that may have
    /// hit a key already present.
    fn settle_count(&mut self, r: &Result<Option<T>, TrieError>)
        requires
            old(self).inv(None),
            *r is Ok,
            match *r {
                Ok(None) => old(self).size + 1 == old(self)@.dom().len(),
                _ => old(self).size == old(self)@.dom().len(),
            },
        ensures
            final(self).wf(),
            final(self).arena == old(self).arena,
            final(self).grammar == old(self).grammar,
            final(self).root == old(self).root,
            final(self).index == old(self).index,
    {
        proof {
            self.lemma_count_bounded();
        }
        match r {
            Ok(None) => {
                self.count_inserted();
            },
            _ => {},
        }
    }

    /// Removes the key that `seq` spells from the node at `path` on, and the
    /// node at `path` itself if that leaves it without payload and children.
    /// Says whether the node was removed, and hands back the payload.
    fn _delete(&mut self, seq: &[usize], node_id: &Id, Ghost(path): Ghost<Seq<usize>>) -> (r:
        Result<(bool, Option<T>), TrieError>)
        requires
            old(self).inv(None),
            old(self).index@.contains_key(path),
            old(self).index@[path] == *node_id,
            forall|i: int|
                0 <= i < seq@.len() ==> (#[trigger] seq@[i]) < old(self).grammar.arity(),
        ensures
            final(self).grammar == old(self).grammar,
            final(self).root == old(self).root,
            final(self).size == old(self).size,
            final(self).arena.issued() == old(self).arena.issued(),
            match r {
                Err(e) => {
                    &&& e == TrieError::NotFound
                    &&& !old(self)@.contains_key(path + seq@)
                    &&& final(self).inv(None)
                    &&& final(self).arena.nodes() == old(self).arena.nodes()
                    &&& final(self).index@ == old(self).index@
                },
                Ok((deleted, payload)) => {
                    &&& old(self)@.contains_key(path + seq@)
                    &&& payload == Some(old(self)@[path + seq@])
                    &&& final(self)@ == old(self)@.remove(path + seq@)
                    &&& final(self).index@.submap_of(old(self).index@)
                    &&& deleted ==> final(self).pruned(path)
                    &&& !deleted ==> final(self).inv(None)
                },
            },
        decreases seq@.len(),
    {
        let ghost nodes0 = self.arena.nodes();
        let ghost index0 = self.index@;
        let ghost arity = self.grammar.arity();
        let ghost issued = self.arena.issued();
        let node_ref = self.arena.get_node(node_id).expect("node doesnt exist!");
        if seq.len() == 0 {
            proof {
                assert(path + seq@ == path);
            }
            if !node_ref.is_terminal() {
                return Err(TrieError::NotFound);
            }
            let mut node = self.arena.take_node(node_id).expect("node doesnt exist!");
            let prev_result = node.payload.take();
            let removable = node.id != self.root && node.can_delete();
            self.arena.add_node(node).expect("could not add node!");
            proof {
                assert(path.len() == 0 ==> path == Seq::<usize>::empty());
                assert(index0[path] == index0[Seq::<usize>::empty()] ==> path.len() == 0);
                assert(self.arena.nodes().dom() =~= nodes0.dom());
                lemma_clear_payload(
                    nodes0,
                    self.arena.nodes(),
                    index0,
                    self.root,
                    arity,
                    issued,
                    path,
                );
            }
            return Ok((self.prune(node_id, removable, Ghost(path)), prev_result));
        }
        let next_idx = seq[0];
        let remainder = slice_subrange(seq, 1, seq.len());
        proof {
            assert(path + seq@ == path.push(next_idx) + remainder@);
            assert(slot_ok(nodes0, index0, path, next_idx));
        }
        match node_ref.children[next_idx] {
            None => {
                proof {
                    if index0.contains_key(path + seq@) {
                        lemma_prefix_closed(
                            nodes0,
                            index0,
                            self.root,
                            arity,
                            issued,
                            path + seq@,
                            (path.len() + 1) as int,
                        );
                        assert((path + seq@).take((path.len() + 1) as int) == path.push(next_idx));
                    }
                }
                Err(TrieError::NotFound)
            },
            Some(id) => {
                match self._delete(remainder, &id, Ghost(path.push(next_idx))) {
                    Err(e) => Err(e),
                    Ok((child_deleted, payload)) => {
                        if !child_deleted {
                            return Ok((false, payload));
                        }
                        let ghost nodes1 = self.arena.nodes();
                        let ghost index1 = self.index@;
                        proof {
                            assert(path.push(next_idx).drop_last() == path);
                            assert(path.push(next_idx).last() == next_idx);
                            assert(index1.contains_key(path));
                        }
                        let mut node = self.arena.take_node(node_id).expect("node doesnt exist!");
                        node.children[next_idx] = None;
                        let removable = node.id != self.root && node.can_delete();
                        self.arena.add_node(node).expect("could not add node!");
                        proof {
                            assert(path.len() == 0 ==> path == Seq::<usize>::empty());
                            assert(index1[path] == index1[Seq::<usize>::empty()] ==> path.len()
                                == 0);
                            assert(self.arena.nodes().dom() =~= nodes1.dom());
                            lemma_clear_slot(
                                nodes1,
                                self.arena.nodes(),
                                index1,
                                self.root,
                                arity,
                                issued,
                                path,
                                next_idx,
                            );
                        }
                        let deleted = self.prune(node_id, removable, Ghost(path));
                        proof {
                            assert forall|p: Seq<usize>|
                                #![trigger self.index@.contains_key(p)]
                                self.index@.contains_key(p) implies index0.contains_key(p)
                                && self.index@[p] == index0[p] by {
                                assert(index1.contains_key(p));
                                assert(index0.contains_key(p));
                            }
                        }
                        Ok((deleted, payload))
                    },
                }
            },
        }
    }

    /// Removes the node at `path` where it was found to hold nothing, and says
    /// whether it did so.
    fn prune(&mut self, node_id: &Id, removable: bool, Ghost(path): Ghost<Seq<usize>>) -> (deleted:
        bool)
        requires
            old(self).inv(Some(path)),
            old(self).index@.contains_key(path),
            old(self).index@[path] == *node_id,
            removable == (path.len() > 0 && old(self).arena.nodes()[*node_id].prunable()),
        ensures
            deleted == removable,
            final(self).grammar == old(self).grammar,
            final(self).root == old(self).root,
            final(self).size == old(self).size,
            final(self).arena.issued() == old(self).arena.issued(),
            final(self)@ == old(self)@,
            final(self).index@.submap_of(old(self).index@),
            deleted ==> final(self).pruned(path),
            !deleted ==> final(self).inv(None),
    {
        if removable {
            proof {
                lemma_remove_node(
                    self.arena.nodes(),
                    self.index@,
                    self.root,
                    self.grammar.arity(),
                    self.arena.issued(),
                    path,
                );
            }
            self.arena.delete_node(node_id).expect("could not delete node");
            proof {
                self.index@ = self.index@.remove(path);
            }
            true
        } else {
            false
        }
    }

    /// Removes the key `seq` and hands back its payload. The nodes that held
    /// nothing but this key are removed with it.
    pub fn delete(&mut self, seq: &str) -> (r: Result<Option<T>, TrieError>)
        requires
            old(self).wf(),
        ensures
            final(self).wf(),
            final(self).grammar() == old(self).grammar(),
            final(self).issued_ids() == old(self).issued_ids(),
            if old(self)@.dom().len() == 0 {
                r == Err::<Option<T>, TrieError>(TrieError::NotFound) && final(self)@ == old(self)@
            } else {
                match old(self).grammar().encode(seq@) {
                    None => {
                        &&& final(self)@ == old(self)@
                        &&& exists|i: int|
                            old(self).grammar().first_unknown_at(seq@, i) && r == Err::<
                                Option<T>,
                                TrieError,
                            >(TrieError::InvalidSymbol(seq@[i]))
                    },
                    Some(key) => if old(self)@.contains_key(key) {
                        &&& r == Ok::<Option<T>, TrieError>(Some(old(self)@[key]))
                        &&& final(self)@ == old(self)@.remove(key)
                    } else {
                        &&& r == Err::<Option<T>, TrieError>(TrieError::NotFound)
                        &&& final(self)@ == old(self)@
                    },
                }
            },
    {
        if self.is_empty() {
            return Err(TrieError::NotFound);
        }
        let indices = match self.preprocess_seq(seq) {
            Ok(indices) => indices,
            Err(e) => {
                return Err(e);
            },
        };
        let root = self.root;
        proof {
            self.grammar.lemma_encode_in_range(seq@);
            assert(Seq::<usize>::empty() + indices@ == indices@);
        }
        match self._delete(indices.as_slice(), &root, Ghost(Seq::empty())) {
            Err(e) => Err(e),
            Ok((_, payload)) => {
                proof {
                    self.lemma_count_bounded();
                }
                self.size = self.size - 1;
                Ok(payload)
            },
        }
    }

    /// Notes that one key was added.
    fn count_inserted(&mut self)
        requires
            old(self).inv(None),
            old(self).size + 1 == old(self)@.dom().len(),
        ensures
            final(self).wf(),
            final(self).arena == old(self).arena,
            final(self).grammar == old(self).grammar,
            final(self).root == old(self).root,
            final(self).index == old(self).index,
    {
        proof {
            self.lemma_count_bounded();
            self.arena.lemma_issued_in_range();
        }
        self.size = self.size + 1;
    }

    /// Looks up the payload of the key that `seq` spells from the node at
    /// `path` on.
    fn _find(&self, seq: &[usize], node_id: &Id, Ghost(path): Ghost<Seq<usize>>) -> (r: Option<T>)
        requires
            self.inv(None),
            self.index@.contains_key(path),
            self.index@[path] == *node_id,
            forall|i: int| 0 <= i < seq@.len() ==> (#[trigger] seq@[i]) < self.grammar.arity(),
        ensures
            match r {
                Some(v) => self@.contains_key(path + seq@) && cloned(self@[path + seq@], v),
                None => !self@.contains_key(path + seq@),
            },
        decreases seq@.len(),
    {
        match self.arena.get_node(node_id) {
            None => None,
            Some(node_ref) => {
                if seq.len() == 0 {
                    proof {
                        assert(path + seq@ == path);
                    }
                    node_ref.payload.clone()
                } else {
                    let next_idx = seq[0];
                    let remainder = slice_subrange(seq, 1, seq.len());
                    proof {
                        assert(path + seq@ == path.push(next_idx) + remainder@);
                        assert(slot_ok(self.arena.nodes(), self.index@, path, next_idx));
                    }
                    match node_ref.children[next_idx] {
                        None => {
                            proof {
                                if self.index@.contains_key(path + seq@) {
                                    lemma_prefix_closed(
                                        self.arena.nodes(),
                                        self.index@,
                                        self.root,
                                        self.grammar.arity(),
                                        self.arena.issued(),
                                        path + seq@,
                                        (path.len() + 1) as int,
                                    );
                                    assert((path + seq@).take((path.len() + 1) as int) == path.push(
                                        next_idx,
                                    ));
                                }
                            }
                            None
                        },
                        Some(id) => self._find(remainder, &id, Ghost(path.push(next_idx))),
                    }
                }
            },
        }
    }

    /// Returns a copy of the payload stored under `seq`, if there is one.
    /// A sequence with a symbol outside the alphabet is under no key.
    pub fn find(&self, seq: &str) -> (r: Option<T>)
        requires
            self.wf(),
        ensures
            match self.grammar().encode(seq@) {
                Some(key) => match r {
                    Some(v) => self@.contains_key(key) && cloned(self@[key], v),
                    None => !self@.contains_key(key),
                },
                None => r is None,
            },
    {
        if self.is_empty() {
            None
        } else {
            match self.preprocess_seq(seq) {
                Ok(indices) => {
                    proof {
                        self.grammar.lemma_encode_in_range(seq@);
                        assert(Seq::<usize>::empty() + indices@ == indices@);
                    }
                    self._find(indices.as_slice(), &self.root, Ghost(Seq::empty()))
                },
                Err(_) => None,
            }
        }
    }

    /// Returns true if a payload is stored under `seq`.
    pub fn contains(&self, seq: &str) -> (b: bool)
        requires
            self.wf(),
        ensures
            b == match self.grammar().encode(seq@) {
                Some(key) => self@.contains_key(key),
                None => false,
            },
    {
        self.find(seq).is_some()
    }
}

} // verus!
