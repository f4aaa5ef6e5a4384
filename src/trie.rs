//! The compressed trie of postings, kept in a `patricia_tree::PatriciaMap`.

use patricia_tree::node::Node;
use patricia_tree::PatriciaMap;
use vstd::prelude::*;

verus! {

#[verifier::external_type_specification]
#[verifier::external_body]
#[verifier::reject_recursive_types(V)]
pub struct ExPatriciaMap<V>(PatriciaMap<V>);

/// One occurrence of a term: the document and the field it occurs in.
pub type Posting = (usize, usize);

/// The trie of postings: each term maps to its occurrence list.
pub type PostingTrie = PatriciaMap<Vec<Posting>>;

/// What a posting trie holds: each term, as bytes, with its occurrence list
/// of `(document, field)` pairs.
pub uninterp spec fn trie_contents(m: PostingTrie) -> Map<Seq<u8>, Seq<Posting>>;

/// One node of the trie as a depth-first walk meets it: its depth, the bytes
/// of the edge that leads to it, and the occurrence list of the term that ends
/// there, if one does.
pub struct TrieNode {
    pub level: usize,
    pub label: Vec<u8>,
    pub postings: Option<Vec<Posting>>,
}

/// One step of a walk as plain values: depth, label and occurrence list.
pub type WalkStep = (usize, Seq<u8>, Option<Seq<Posting>>);

pub open spec fn walk_view(e: Seq<TrieNode>) -> Seq<WalkStep> {
    e.map_values(
        |n: TrieNode|
            (
                n.level,
                n.label@,
                match n.postings {
                    Some(p) => Some(p@),
                    None => None,
                },
            ),
    )
}

/// The depth-first walk of a trie: its shape, node by node. The shape is
/// not fixed by the contents alone: a label longer than 255 bytes is cut
/// into a chain of nodes when its node is made, so it depends on the order
/// in which the keys went in.
pub uninterp spec fn trie_walk(m: PostingTrie) -> Seq<WalkStep>;

/// The walk of a trie after `insert` stores `value` under `key` in a trie
/// with walk `w`. The walk gives the whole tree (each node's depth, label
/// and value, in pre-order), and `insert` reads nothing else.
pub uninterp spec fn walk_after_insert(w: Seq<WalkStep>, key: Seq<u8>, value: Seq<Posting>) -> Seq<
    WalkStep,
>;

/// The walk of an empty trie: the root alone, with an empty label and no
/// value.
pub open spec fn root_walk() -> Seq<WalkStep> {
    seq![(0usize, Seq::<u8>::empty(), None::<Seq<Posting>>)]
}

/// The shape of a trie that only `new` and `insert` made: the root first,
/// at depth 0 and with an empty label, and every later node at least one
/// level down and at most one level below the node before it.
pub open spec fn walk_wf(w: Seq<WalkStep>) -> bool {
    &&& w.len() > 0
    &&& w[0].0 == 0
    &&& w[0].1.len() == 0
    &&& forall|i: int| 1 <= i < w.len() ==> 1 <= #[trigger] w[i].0 <= w[i - 1].0 + 1
}

pub proof fn lemma_root_walk_wf()
    ensures
        walk_wf(root_walk()),
{
    assert(root_walk()[0].1 =~= Seq::<u8>::empty());
}

/// A pre-order walk: the root comes first at depth 0, and every later node
/// lies at most one level below the node before it.
pub open spec fn traversal_wf(e: Seq<TrieNode>) -> bool {
    &&& e.len() > 0
    &&& e[0].level == 0
    &&& e[0].label@.len() == 0
    &&& forall|i: int| 1 <= i < e.len() ==> 1 <= #[trigger] e[i].level <= e[i - 1].level + 1
}

/// The last node before position `j` that lies at depth `lvl` (-1 if none).
pub open spec fn last_at_level(e: Seq<TrieNode>, j: int, lvl: int) -> int
    decreases j,
{
    if j <= 0 {
        -1
    } else if e[j - 1].level == lvl {
        j - 1
    } else {
        last_at_level(e, j - 1, lvl)
    }
}

pub proof fn lemma_last_at_level_bound(e: Seq<TrieNode>, j: int, lvl: int)
    requires
        j >= 0,
    ensures
        -1 <= last_at_level(e, j, lvl) < j,
        last_at_level(e, j, lvl) >= 0 ==> e[last_at_level(e, j, lvl)].level == lvl,
    decreases j,
{
    if j > 0 && e[j - 1].level != lvl {
        lemma_last_at_level_bound(e, j - 1, lvl);
    }
}

/// In a pre-order walk, every level above a node is open when the walk
/// reaches it: some earlier node lies at that level.
pub proof fn lemma_ancestor_exists(e: Seq<TrieNode>, i: int, l: int)
    requires
        traversal_wf(e),
        0 <= i < e.len(),
        0 <= l < e[i].level,
    ensures
        last_at_level(e, i, l) >= 0,
    decreases i,
{
    if i > 0 && e[i - 1].level != l {
        lemma_ancestor_exists(e, i - 1, l);
    }
}

/// The key that node `i` of a walk stands for: the labels on the path from
/// the root down to it, joined.
pub open spec fn node_key(e: Seq<TrieNode>, i: int) -> Seq<u8>
    decreases i,
{
    let p = last_at_level(e, i, e[i].level - 1);
    if i > 0 && 0 <= p < i {
        node_key(e, p) + e[i].label@
    } else {
        e[i].label@
    }
}

/// Relies on patricia_tree::PatriciaMap::new: the new map is empty, and
/// its tree is `Node::root()`, a root with an empty label, no value and no
/// child.
#[verifier::external_body]
pub(crate) fn empty_trie() -> (r: PostingTrie)
    ensures
        trie_contents(r).dom() == Set::<Seq<u8>>::empty(),
        trie_walk(r) == root_walk(),
{
    PatriciaMap::new()
}

/// Relies on patricia_tree::PatriciaMap::insert: `value` is stored under
/// `key`, the value that was stored there before is handed back, and the
/// new tree is made from the old one, the key and the value alone. The root
/// keeps its empty label and gets no sibling (every key shares the empty
/// prefix with it), and a new node goes in as a child or a sibling of an
/// existing one, or splits one in two.
#[verifier::external_body]
pub(crate) fn trie_insert(
    m: &mut PostingTrie,
    key: &[u8],
    value: Vec<Posting>,
) -> (r: Option<Vec<Posting>>)
    ensures
        trie_contents(*final(m)) == trie_contents(*old(m)).insert(key@, value@),
        trie_walk(*final(m)) == walk_after_insert(trie_walk(*old(m)), key@, value@),
        walk_wf(trie_walk(*old(m))) ==> walk_wf(trie_walk(*final(m))),
        r is Some <==> trie_contents(*old(m)).contains_key(key@),
        r is Some ==> r->0@ == trie_contents(*old(m))[key@],
{
    m.insert(key, value)
}

/// Relies on patricia_tree::PatriciaMap::get: the value stored under `key`,
/// if any.
#[verifier::external_body]
pub(crate) fn trie_get<'a>(m: &'a PostingTrie, key: &[u8]) -> (r: Option<&'a Vec<Posting>>)
    ensures
        r is Some <==> trie_contents(*m).contains_key(key@),
        r is Some ==> r->0@ == trie_contents(*m)[key@],
{
    m.get(key)
}

/// Relies on patricia_tree: `Node::from` turns the map into its root node,
/// and the node's `into_iter` walks the tree depth first, giving each node
/// with its depth; a node's label is the part of the key since its parent,
/// and its value is the value of the key that ends there.
#[verifier::external_body]
pub(crate) fn trie_nodes(m: PostingTrie) -> (r: Vec<TrieNode>)
    requires
        walk_wf(trie_walk(m)),
    ensures
        traversal_wf(r@),
        walk_view(r@) == trie_walk(m),
        forall|i: int|
            0 <= i < r@.len() && (#[trigger] r@[i]).postings is Some ==> trie_contents(
                m,
            ).contains_key(node_key(r@, i)) && trie_contents(m)[node_key(r@, i)]
                == r@[i].postings->0@,
        forall|k: Seq<u8>| #[trigger]
            trie_contents(m).contains_key(k) ==> exists|i: int|
                0 <= i < r@.len() && r@[i].postings is Some && node_key(r@, i) == k,
{
    let mut nodes = Vec::new();
    for (level, mut node) in Node::from(m) {
        let label = node.label().to_vec();
        let postings = node.take_value();
        nodes.push(TrieNode { level, label, postings });
    }
    nodes
}

} // verus!
