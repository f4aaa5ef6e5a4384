//! Flattening of the finished trie into the nested tree of the minisearch
//! format, with the per-field statistics of each term.

use crate::counts::{
    counts_positive, keys_increasing, lemma_list_count_at,
    lemma_lists_unique, lemma_sorted_members_unique, lemma_table_count_absent,
    lemma_table_count_at, list_count, table_count, rows_wf, CountList, CountRow, CountTable,
};
use crate::errors::MinisearchIndexrsError;
use crate::trie::{
    lemma_ancestor_exists, lemma_last_at_level_bound, last_at_level, node_key, traversal_wf,
    trie_contents, trie_nodes, trie_walk, walk_view, walk_wf, Posting, PostingTrie, TrieNode, WalkStep,
};
use vstd::utf8::{
    decode_utf8, decode_utf8_encode_utf8, encode_utf8, encode_utf8_decode_utf8, valid_utf8,
    valid_utf8_concat,
};
use vstd::prelude::*;

verus! {

/// How many times `(doc, field)` occurs in an occurrence list.
pub open spec fn occurrences(occ: Seq<Posting>, doc: usize, field: usize) -> nat
    decreases occ.len(),
{
    if occ.len() == 0 {
        0
    } else {
        occurrences(occ.drop_last(), doc, field) + if occ.last() == (doc, field) {
            1nat
        } else {
            0nat
        }
    }
}

pub proof fn lemma_occurrences_bound(occ: Seq<Posting>, doc: usize, field: usize)
    ensures
        occurrences(occ, doc, field) <= occ.len(),
    decreases occ.len(),
{
    if occ.len() > 0 {
        lemma_occurrences_bound(occ.drop_last(), doc, field);
    }
}

/// The statistics of one term within one field: the number of documents
/// that hold the term there (`df`), and for each such document the number
/// of occurrences (`ds`, as `(document, count)` pairs sorted by document).
pub struct FieldStats {
    pub field_id: usize,
    pub df: usize,
    pub ds: Vec<(usize, usize)>,
}

/// `stats` are the per-field statistics of the occurrence list `occ`: one
/// entry per field that occurs, sorted by field, each listing exactly the
/// documents that hold the term in that field with their true counts.
pub open spec fn stats_of(stats: Seq<FieldStats>, occ: Seq<Posting>) -> bool {
    &&& forall|a: int, b: int| 0 <= a < b < stats.len() ==> stats[a].field_id < stats[b].field_id
    &&& forall|a: int|
        0 <= a < stats.len() ==> {
            let s = #[trigger] stats[a];
            &&& s.df == s.ds@.len()
            &&& s.ds@.len() > 0
            &&& keys_increasing(s.ds@)
            &&& counts_positive(s.ds@)
        }
    &&& forall|a: int, d: usize|
        0 <= a < stats.len() ==> #[trigger] list_count(stats[a].ds@, d) == occurrences(
            occ,
            d,
            stats[a].field_id,
        )
    &&& forall|f: usize, d: usize| #[trigger]
        occurrences(occ, d, f) > 0 ==> exists|a: int|
            0 <= a < stats.len() && stats[a].field_id == f
}

/// The statistics as plain values: field, `df` and `ds` of each entry.
pub open spec fn stats_view(s: Seq<FieldStats>) -> Seq<(usize, usize, Seq<(usize, usize)>)> {
    s.map_values(|x: FieldStats| (x.field_id, x.df, x.ds@))
}

proof fn lemma_field_present(s: Seq<FieldStats>, occ: Seq<Posting>, f: usize)
    requires
        stats_of(s, occ),
    ensures
        s.map_values(|x: FieldStats| x.field_id).contains(f) <==> exists|d: usize|
            #[trigger] occurrences(occ, d, f) > 0,
{
    let x = s.map_values(|x: FieldStats| x.field_id);
    if x.contains(f) {
        let a = choose|a: int| 0 <= a < x.len() && x[a] == f;
        let ds = s[a].ds@;
        lemma_list_count_at(ds, 0);
        assert(list_count(s[a].ds@, ds[0].0) == occurrences(occ, ds[0].0, s[a].field_id));
        assert(occurrences(occ, ds[0].0, f) > 0);
    }
    if exists|d: usize| #[trigger] occurrences(occ, d, f) > 0 {
        let d = choose|d: usize| #[trigger] occurrences(occ, d, f) > 0;
        let a = choose|a: int| 0 <= a < s.len() && s[a].field_id == f;
        assert(x[a] == f);
    }
}

/// The statistics of an occurrence list are unique: `stats_of` pins them down.
pub proof fn lemma_stats_unique(s1: Seq<FieldStats>, s2: Seq<FieldStats>, occ: Seq<Posting>)
    requires
        stats_of(s1, occ),
        stats_of(s2, occ),
    ensures
        stats_view(s1) == stats_view(s2),
{
    let x = s1.map_values(|a: FieldStats| a.field_id);
    let y = s2.map_values(|a: FieldStats| a.field_id);
    assert forall|f: usize| #[trigger] x.contains(f) <==> y.contains(f) by {
        lemma_field_present(s1, occ, f);
        lemma_field_present(s2, occ, f);
    }
    lemma_sorted_members_unique(x, y);
    assert forall|a: int| 0 <= a < s1.len() implies stats_view(s1)[a] == stats_view(s2)[a] by {
        assert(x[a] == y[a]);
        assert forall|d: usize| list_count(s1[a].ds@, d) == list_count(s2[a].ds@, d) by {
            assert(list_count(s1[a].ds@, d) == occurrences(occ, d, s1[a].field_id));
            assert(list_count(s2[a].ds@, d) == occurrences(occ, d, s2[a].field_id));
        }
        lemma_lists_unique(s1[a].ds@, s2[a].ds@);
    }
    assert(stats_view(s1) =~= stats_view(s2));
}

/// Aggregates an occurrence list by field, then by document, counting repeats.
pub fn term_stats(postings: &Vec<Posting>) -> (r: Vec<FieldStats>)
    ensures
        stats_of(r@, postings@),
{
    let mut table = CountTable::new();
    let n = postings.len();
    for k in 0..n
        invariant
            n == postings@.len(),
            table.wf(),
            forall|f: usize, d: usize| #[trigger]
                table.count(f, d) == occurrences(postings@.take(k as int), d, f),
    {
        let (d, f) = postings[k];
        assert(postings@.take(k + 1).drop_last() =~= postings@.take(k as int));
        proof {
            lemma_occurrences_bound(postings@.take(k as int), d, f);
        }
        table.increment(f, d);
    }
    assert(postings@.take(n as int) =~= postings@);
    let ghost rows = table.rows@;
    assert(forall|f: usize, d: usize| #[trigger]
        table_count(rows, f, d) == occurrences(postings@, d, f)) by {
        assert forall|f: usize, d: usize| #[trigger]
            table_count(rows, f, d) == occurrences(postings@, d, f) by {
            assert(table.count(f, d) == occurrences(postings@.take(n as int), d, f));
        }
    }
    let mut rest = table.rows;
    let mut out: Vec<FieldStats> = Vec::new();
    while rest.len() > 0
        invariant
            rows_wf(rows),
            forall|f: usize, d: usize| #[trigger]
                table_count(rows, f, d) == occurrences(postings@, d, f),
            out@.len() + rest@.len() == rows.len(),
            rest@ =~= rows.subrange(out@.len() as int, rows.len() as int),
            forall|a: int|
                0 <= a < out@.len() ==> {
                    &&& (#[trigger] out@[a]).field_id == rows[a].key
                    &&& out@[a].df == out@[a].ds@.len()
                    &&& out@[a].ds@ == rows[a].counts.cells@
                },
        decreases rest@.len(),
    {
        let row = rest.remove(0);
        assert(row == rows[out@.len() as int]);
        let CountRow { key, counts } = row;
        let CountList { cells } = counts;
        let df = cells.len();
        out.push(FieldStats { field_id: key, df, ds: cells });
    }
    proof {
        assert forall|a: int, d: usize|
            0 <= a < out@.len() implies #[trigger] list_count(out@[a].ds@, d) == occurrences(
                postings@,
                d,
                out@[a].field_id,
            ) by {
            lemma_table_count_at(rows, a, d);
        }
        assert forall|f: usize, d: usize| #[trigger]
            occurrences(postings@, d, f) > 0 implies exists|a: int|
                0 <= a < out@.len() && out@[a].field_id == f by {
            if exists|a: int| 0 <= a < rows.len() && rows[a].key == f {
                let a = choose|a: int| 0 <= a < rows.len() && rows[a].key == f;
                assert(out@[a].field_id == f);
            } else {
                lemma_table_count_absent(rows, f, d);
            }
        }
    }
    out
}


/// A node of the nested index tree: the statistics of the term that ends
/// here, if one does, and the children under their edge fragments.
pub struct TreeNode {
    pub stats: Option<Vec<FieldStats>>,
    pub children: Vec<TreeChild>,
}

/// An edge of the nested index tree with the node it leads to.
pub struct TreeChild {
    pub fragment: String,
    pub node: TreeNode,
}

/// What a pre-order walk of the tree meets at a node: its depth, its
/// fragment and its statistics.
pub type FlatEntry = (int, Seq<char>, Option<Vec<FieldStats>>);

/// The pre-order walk of a list of sibling subtrees whose roots lie at
/// depth `level`.
pub open spec fn flat_children(cs: Seq<TreeChild>, level: int) -> Seq<FlatEntry>
    decreases cs,
{
    if cs.len() == 0 {
        seq![]
    } else {
        let c = cs.last();
        proof {
            assert(decreases_to!(cs => cs[cs.len() - 1]));
        }
        flat_children(cs.drop_last(), level) + seq![(level, c.fragment@, c.node.stats)]
            + flat_children(c.node.children@, level + 1)
    }
}

/// The pre-order walk of the part of the tree that a stack of open frames
/// holds: frame `k` stands at depth `k`, and the bottom frame is the root,
/// which the walk does not list.
pub open spec fn stack_flat(st: Seq<TreeChild>) -> Seq<FlatEntry>
    decreases st.len(),
{
    if st.len() == 0 {
        seq![]
    } else {
        let k = st.len() - 1;
        let t = st.last();
        stack_flat(st.drop_last()) + (if k == 0 {
            seq![]
        } else {
            seq![(k, t.fragment@, t.node.stats)]
        }) + flat_children(t.node.children@, k + 1)
    }
}

/// The tree's entry `f` renders the trie node `n`: same depth, the label
/// decoded, and the statistics of its occurrence list.
pub open spec fn renders(f: FlatEntry, n: TrieNode) -> bool {
    &&& f.0 == n.level
    &&& f.1 == decode_utf8(n.label@)
    &&& (f.2 is Some <==> n.postings is Some)
    &&& f.2 is Some ==> stats_of(f.2->0@, n.postings->0@)
}

proof fn lemma_flat_push(cs: Seq<TreeChild>, c: TreeChild, level: int)
    ensures
        flat_children(cs.push(c), level) == flat_children(cs, level) + seq![
            (level, c.fragment@, c.node.stats),
        ] + flat_children(c.node.children@, level + 1),
{
    assert(cs.push(c).drop_last() =~= cs);
}

/// Closing the top frame into its parent leaves the walk unchanged.
proof fn lemma_stack_merge(s: Seq<TreeChild>, p: TreeChild, t: TreeChild, p2: TreeChild)
    requires
        p2.fragment == p.fragment,
        p2.node.stats == p.node.stats,
        p2.node.children@ == p.node.children@.push(t),
    ensures
        stack_flat(s.push(p2)) == stack_flat(s.push(p).push(t)),
{
    let k = s.len() as int;
    assert(s.push(p).push(t).drop_last() =~= s.push(p));
    assert(s.push(p).drop_last() =~= s);
    assert(s.push(p2).drop_last() =~= s);
    lemma_flat_push(p.node.children@, t, k + 1);
    let hp: Seq<FlatEntry> = if k == 0 {
        seq![]
    } else {
        seq![(k, p.fragment@, p.node.stats)]
    };
    let base = stack_flat(s);
    let fp = flat_children(p.node.children@, k + 1);
    let ht: Seq<FlatEntry> = seq![(k + 1, t.fragment@, t.node.stats)];
    let ft = flat_children(t.node.children@, k + 2);
    assert(stack_flat(s.push(p2)) == base + hp + (fp + ht + ft));
    assert(stack_flat(s.push(p)) == base + hp + fp);
    assert(stack_flat(s.push(p).push(t)) == stack_flat(s.push(p)) + ht + ft);
    assert(base + hp + (fp + ht + ft) =~= base + hp + fp + ht + ft);
}

/// Opening a new frame with no children appends its entry to the walk.
proof fn lemma_stack_push(s: Seq<TreeChild>, t: TreeChild)
    requires
        s.len() > 0,
        t.node.children@.len() == 0,
    ensures
        stack_flat(s.push(t)) == stack_flat(s) + seq![(s.len() as int, t.fragment@, t.node.stats)],
{
    assert(s.push(t).drop_last() =~= s);
    assert(flat_children(t.node.children@, s.len() as int + 1) =~= Seq::<FlatEntry>::empty());
}

/// Relies on std::str::from_utf8: it accepts exactly the valid UTF-8 byte
/// sequences, and decodes them.
#[verifier::external_body]
fn decode_label(bytes: &[u8]) -> (r: Option<String>)
    ensures
        r is Some <==> valid_utf8(bytes@),
        r is Some ==> r->0@ == decode_utf8(bytes@),
{
    match std::str::from_utf8(bytes) {
        Ok(s) => Some(s.to_string()),
        Err(_) => None,
    }
}

/// Moves the top frame of the stack into its parent, as the parent's last child.
fn close_top(stack: &mut Vec<TreeChild>)
    requires
        old(stack)@.len() >= 2,
    ensures
        final(stack)@.len() == old(stack)@.len() - 1,
        stack_flat(final(stack)@) == stack_flat(old(stack)@),
        final(stack)@[0].node.stats == old(stack)@[0].node.stats,
{
    let ghost st = stack@;
    let t = stack.pop().unwrap();
    let p = stack.pop().unwrap();
    let ghost s = stack@;
    assert(st =~= s.push(p).push(t));
    let TreeChild { fragment, node } = p;
    let TreeNode { stats, children } = node;
    let mut children = children;
    children.push(t);
    let p2 = TreeChild { fragment, node: TreeNode { stats, children } };
    proof {
        lemma_stack_merge(s, p, t, p2);
    }
    stack.push(p2);
    assert(stack@ =~= s.push(p2));
}

/// Builds the nested tree from a depth-first walk of the trie, with an
/// explicit stack of open frames that mirrors the path from the root to the
/// current node. Fails when a label is not valid UTF-8.
pub fn nest(entries: &Vec<TrieNode>) -> (r: Result<TreeNode, MinisearchIndexrsError>)
    requires
        traversal_wf(entries@),
    ensures
        r is Err <==> exists|i: int| 0 <= i < entries@.len() && !valid_utf8(entries@[i].label@),
        r is Err ==> r == Err::<TreeNode, MinisearchIndexrsError>(
            MinisearchIndexrsError::TermDecoding,
        ),
        r is Ok ==> {
            let t = r->Ok_0;
            let flat = flat_children(t.children@, 1);
            &&& t.stats is None
            &&& flat.len() == entries@.len() - 1
            &&& forall|k: int| 0 <= k < flat.len() ==> renders(#[trigger] flat[k], entries@[k + 1])
        },
{
    let root = TreeChild { fragment: String::new(), node: TreeNode { stats: None, children: Vec::new() } };
    let mut stack: Vec<TreeChild> = Vec::new();
    stack.push(root);
    let ghost mut expected: Seq<FlatEntry> = seq![];
    assert(stack_flat(stack@) =~= expected) by {
        assert(stack@.drop_last() =~= Seq::<TreeChild>::empty());
        assert(stack@.last().node.children@ =~= Seq::<TreeChild>::empty());
        assert(flat_children(Seq::<TreeChild>::empty(), 1) =~= Seq::<FlatEntry>::empty());
        assert(stack_flat(Seq::<TreeChild>::empty()) =~= Seq::<FlatEntry>::empty());
    }
    let n = entries.len();
    let mut i: usize = 0;
    while i < n
        invariant
            n == entries@.len(),
            traversal_wf(entries@),
            i <= n,
            stack@.len() >= 1,
            stack@[0].node.stats is None,
            i == 0 ==> stack@.len() == 1,
            i > 0 ==> stack@.len() == entries@[i - 1].level + 1,
            stack_flat(stack@) == expected,
            i > 0 ==> expected.len() == i - 1,
            i == 0 ==> expected.len() == 0,
            forall|k: int| 0 <= k < expected.len() ==> renders(#[trigger] expected[k], entries@[k + 1]),
            forall|k: int| 0 <= k < i ==> valid_utf8(#[trigger] entries@[k].label@),
        decreases n - i,
    {
        let node = &entries[i];
        let fragment = match decode_label(node.label.as_slice()) {
            Some(s) => s,
            None => {
                return Err(MinisearchIndexrsError::TermDecoding);
            },
        };
        let level = node.level;
        if level == 0 {
            i += 1;
            continue;
        }
        while stack.len() > level
            invariant
                stack@.len() >= level,
                level >= 1,
                stack@[0].node.stats is None,
                stack_flat(stack@) == expected,
            decreases stack@.len(),
        {
            close_top(&mut stack);
        }
        let stats = match &node.postings {
            Some(p) => Some(term_stats(p)),
            None => None,
        };
        let t = TreeChild { fragment, node: TreeNode { stats, children: Vec::new() } };
        proof {
            lemma_stack_push(stack@, t);
            expected = expected.push((level as int, t.fragment@, t.node.stats));
        }
        stack.push(t);
        i += 1;
    }
    while stack.len() > 1
        invariant
            stack@.len() >= 1,
            stack@[0].node.stats is None,
            stack_flat(stack@) == expected,
        decreases stack@.len(),
    {
        close_top(&mut stack);
    }
    let ghost st = stack@;
    let top = stack.pop().unwrap();
    assert(st =~= seq![top]);
    assert(stack_flat(seq![top]) =~= flat_children(top.node.children@, 1)) by {
        assert(seq![top].drop_last() =~= Seq::<TreeChild>::empty());
        assert(stack_flat(Seq::<TreeChild>::empty()) =~= Seq::<FlatEntry>::empty());
    }
    Ok(top.node)
}


/// The last entry before position `j` of a walk that lies at depth `lvl`
/// (-1 if none).
pub open spec fn flat_last_at_level(flat: Seq<FlatEntry>, j: int, lvl: int) -> int
    decreases j,
{
    if j <= 0 {
        -1
    } else if flat[j - 1].0 == lvl {
        j - 1
    } else {
        flat_last_at_level(flat, j - 1, lvl)
    }
}

/// The text on the path from the root of the tree down to entry `i` of its
/// walk: the fragments of its ancestors and its own, joined.
pub open spec fn flat_path(flat: Seq<FlatEntry>, i: int) -> Seq<char>
    decreases i,
{
    let p = flat_last_at_level(flat, i, flat[i].0 - 1);
    if 0 <= p < i {
        flat_path(flat, p) + flat[i].1
    } else {
        flat[i].1
    }
}

proof fn lemma_encode_concat(x: Seq<char>, y: Seq<char>)
    ensures
        encode_utf8(x + y) == encode_utf8(x) + encode_utf8(y),
    decreases x.len(),
{
    if x.len() == 0 {
        assert(x + y =~= y);
        assert(encode_utf8(x) + encode_utf8(y) =~= encode_utf8(y));
    } else {
        assert((x + y).drop_first() =~= x.drop_first() + y);
        assert((x + y)[0] == x[0]);
        lemma_encode_concat(x.drop_first(), y);
        let s = vstd::utf8::encode_scalar(x[0] as u32);
        assert(encode_utf8(x + y) == s + encode_utf8(x.drop_first() + y));
        assert(s + (encode_utf8(x.drop_first()) + encode_utf8(y)) =~= (s + encode_utf8(
            x.drop_first(),
        )) + encode_utf8(y));
    }
}

/// Decoding two valid pieces one after the other decodes their join.
proof fn lemma_decode_concat(a: Seq<u8>, b: Seq<u8>)
    requires
        valid_utf8(a),
        valid_utf8(b),
    ensures
        valid_utf8(a + b),
        decode_utf8(a + b) == decode_utf8(a) + decode_utf8(b),
{
    broadcast use decode_utf8_encode_utf8, encode_utf8_decode_utf8, valid_utf8_concat;

    let x = decode_utf8(a);
    let y = decode_utf8(b);
    lemma_encode_concat(x, y);
    assert(encode_utf8(x + y) == a + b);
}

/// Searching the tree's walk for a level matches searching the trie's walk,
/// one position later (the trie's walk also lists the root).
proof fn lemma_levels_match(flat: Seq<FlatEntry>, e: Seq<TrieNode>, j: int, lvl: int)
    requires
        traversal_wf(e),
        flat.len() == e.len() - 1,
        forall|k: int| 0 <= k < flat.len() ==> (#[trigger] flat[k]).0 == e[k + 1].level,
        0 <= j <= flat.len(),
    ensures
        lvl >= 1 ==> last_at_level(e, j + 1, lvl) == (if flat_last_at_level(flat, j, lvl) >= 0 {
            flat_last_at_level(flat, j, lvl) + 1
        } else {
            -1
        }),
        lvl == 0 ==> last_at_level(e, j + 1, lvl) == 0,
        lvl == 0 ==> flat_last_at_level(flat, j, lvl) == -1,
    decreases j,
{
    assert(last_at_level(e, j + 1, lvl) == if e[j].level == lvl {
        j
    } else {
        last_at_level(e, j, lvl)
    });
    if j > 0 {
        assert(flat[j - 1].0 == e[j].level);
        assert(flat_last_at_level(flat, j, lvl) == if flat[j - 1].0 == lvl {
            j - 1
        } else {
            flat_last_at_level(flat, j - 1, lvl)
        });
        lemma_levels_match(flat, e, j - 1, lvl);
    } else {
        assert(last_at_level(e, 0, lvl) == -1);
    }
}

/// Entry `k` of the tree's walk is reached by the decoded key of node `k + 1`
/// of the trie's walk.
proof fn lemma_path_is_key(flat: Seq<FlatEntry>, e: Seq<TrieNode>, k: int)
    requires
        traversal_wf(e),
        flat.len() == e.len() - 1,
        forall|m: int| 0 <= m < flat.len() ==> renders(#[trigger] flat[m], e[m + 1]),
        forall|m: int| 0 <= m < e.len() ==> valid_utf8(#[trigger] e[m].label@),
        0 <= k < flat.len(),
    ensures
        valid_utf8(node_key(e, k + 1)),
        flat_path(flat, k) == decode_utf8(node_key(e, k + 1)),
    decreases k,
{
    assert forall|m: int| 0 <= m < flat.len() implies (#[trigger] flat[m]).0 == e[m + 1].level by {
        assert(renders(flat[m], e[m + 1]));
    }
    assert(renders(flat[k], e[k + 1]));
    assert(valid_utf8(e[k + 1].label@));
    let lvl = e[k + 1].level - 1;
    let pe = last_at_level(e, k + 1, lvl);
    let q = flat_last_at_level(flat, k, lvl);
    lemma_levels_match(flat, e, k, lvl);
    lemma_last_at_level_bound(e, k + 1, lvl);
    assert(node_key(e, 0) =~= Seq::<u8>::empty());
    if lvl == 0 {
        assert(node_key(e, k + 1) =~= e[k + 1].label@);
    } else {
        lemma_ancestor_exists(e, k + 1, lvl);
        assert(pe >= 1);
        assert(q == pe - 1);
        lemma_path_is_key(flat, e, q);
        assert(valid_utf8(e[pe].label@));
        lemma_decode_concat(node_key(e, pe), e[k + 1].label@);
    }
}

/// The tree's walk renders the trie's walk, the trie's root left out: same
/// depths, labels decoded, and the statistics of each occurrence list.
pub open spec fn renders_walk(flat: Seq<FlatEntry>, w: Seq<WalkStep>) -> bool {
    &&& flat.len() == w.len() - 1
    &&& forall|k: int|
        0 <= k < flat.len() ==> {
            &&& (#[trigger] flat[k]).0 == w[k + 1].0
            &&& flat[k].1 == decode_utf8(w[k + 1].1)
            &&& (flat[k].2 is Some <==> w[k + 1].2 is Some)
            &&& flat[k].2 is Some ==> stats_of(flat[k].2->0@, w[k + 1].2->0)
        }
}

/// Some label of the walk is not valid UTF-8.
pub open spec fn has_bad_label(w: Seq<WalkStep>) -> bool {
    exists|i: int| 0 <= i < w.len() && !valid_utf8(#[trigger] w[i].1)
}

/// The tree's walk as plain values.
pub open spec fn flat_view(flat: Seq<FlatEntry>) -> Seq<(int, Seq<char>, Option<Seq<(usize, usize, Seq<(usize, usize)>)>>)> {
    flat.map_values(
        |x: FlatEntry|
            (
                x.0,
                x.1,
                match x.2 {
                    Some(s) => Some(stats_view(s@)),
                    None => None,
                },
            ),
    )
}

/// Two trees that render the same walk have the same walk themselves.
pub proof fn lemma_render_unique(f1: Seq<FlatEntry>, f2: Seq<FlatEntry>, w: Seq<WalkStep>)
    requires
        renders_walk(f1, w),
        renders_walk(f2, w),
    ensures
        flat_view(f1) == flat_view(f2),
{
    assert forall|k: int| 0 <= k < f1.len() implies flat_view(f1)[k] == flat_view(f2)[k] by {
        assert(f1[k].0 == w[k + 1].0 && f2[k].0 == w[k + 1].0);
        if f1[k].2 is Some {
            lemma_stats_unique(f1[k].2->0@, f2[k].2->0@, w[k + 1].2->0);
        }
    }
    assert(flat_view(f1) =~= flat_view(f2));
}

/// What a walk of the trie says of its contents carries over to the tree
/// built from it: every non-empty term is reached by its text and carries
/// its statistics, and every entry with statistics stands for a term.
proof fn lemma_walk_to_tree(e: Seq<TrieNode>, flat: Seq<FlatEntry>, contents: Map<Seq<u8>, Seq<Posting>>)
    requires
        traversal_wf(e),
        forall|i: int|
            0 <= i < e.len() && (#[trigger] e[i]).postings is Some ==> contents.contains_key(
                node_key(e, i),
            ) && contents[node_key(e, i)] == e[i].postings->0@,
        forall|k: Seq<u8>| #[trigger]
            contents.contains_key(k) ==> exists|i: int|
                0 <= i < e.len() && e[i].postings is Some && node_key(e, i) == k,
        forall|i: int| 0 <= i < e.len() ==> valid_utf8(#[trigger] e[i].label@),
        flat.len() == e.len() - 1,
        forall|k: int| 0 <= k < flat.len() ==> renders(#[trigger] flat[k], e[k + 1]),
    ensures
        forall|key: Seq<u8>| #[trigger]
            contents.contains_key(key) && key.len() > 0 ==> exists|i: int|
                0 <= i < flat.len() && flat_path(flat, i) == decode_utf8(key) && flat[i].2 is Some
                    && stats_of(flat[i].2->0@, contents[key]),
        forall|i: int|
            0 <= i < flat.len() && (#[trigger] flat[i]).2 is Some ==> {
                let key = encode_utf8(flat_path(flat, i));
                &&& contents.contains_key(key)
                &&& stats_of(flat[i].2->0@, contents[key])
            },
{
    assert forall|key: Seq<u8>| #[trigger] contents.contains_key(key) && key.len() > 0 implies exists|i: int|
        0 <= i < flat.len() && flat_path(flat, i) == decode_utf8(key) && flat[i].2 is Some
            && stats_of(flat[i].2->0@, contents[key]) by {
        let j = choose|j: int| 0 <= j < e.len() && e[j].postings is Some && node_key(e, j) == key;
        assert(node_key(e, 0) =~= Seq::<u8>::empty());
        assert(j != 0);
        lemma_path_is_key(flat, e, j - 1);
        assert(renders(flat[j - 1], e[j]));
    }
    assert forall|i: int| 0 <= i < flat.len() && (#[trigger] flat[i]).2 is Some implies {
        let key = encode_utf8(flat_path(flat, i));
        &&& contents.contains_key(key)
        &&& stats_of(flat[i].2->0@, contents[key])
    } by {
        lemma_path_is_key(flat, e, i);
        assert(renders(flat[i], e[i + 1]));
        broadcast use decode_utf8_encode_utf8;

        assert(encode_utf8(flat_path(flat, i)) == node_key(e, i + 1));
    }
}

/// Flattens the finished trie into the nested tree of the minisearch format.
pub fn map_json(map: PostingTrie) -> (r: Result<TreeNode, MinisearchIndexrsError>)
    requires
        walk_wf(trie_walk(map)),
    ensures
        r is Err ==> r == Err::<TreeNode, MinisearchIndexrsError>(
            MinisearchIndexrsError::TermDecoding,
        ),
        r is Err <==> has_bad_label(trie_walk(map)),
        r is Ok ==> r->Ok_0.stats is None,
        r is Ok ==> renders_walk(flat_children(r->Ok_0.children@, 1), trie_walk(map)),
        r is Ok ==> {
            let flat = flat_children(r->Ok_0.children@, 1);
            &&& forall|key: Seq<u8>| #[trigger]
                trie_contents(map).contains_key(key) && key.len() > 0 ==> exists|i: int|
                    0 <= i < flat.len() && flat_path(flat, i) == decode_utf8(key) && flat[i].2 is Some
                        && stats_of(flat[i].2->0@, trie_contents(map)[key])
            &&& forall|i: int|
                0 <= i < flat.len() && (#[trigger] flat[i]).2 is Some ==> {
                    let key = encode_utf8(flat_path(flat, i));
                    &&& trie_contents(map).contains_key(key)
                    &&& stats_of(flat[i].2->0@, trie_contents(map)[key])
                }
        },
{
    let ghost contents = trie_contents(map);
    let nodes = trie_nodes(map);
    let r = nest(&nodes);
    proof {
        let w = walk_view(nodes@);
        assert forall|i: int| 0 <= i < nodes@.len() implies #[trigger] w[i].1 == nodes@[i].label@ by {}
        if r is Ok {
            let flat = flat_children(r->Ok_0.children@, 1);
            lemma_walk_to_tree(nodes@, flat, contents);
            assert forall|k: int| 0 <= k < flat.len() implies (#[trigger] flat[k]).0 == w[k + 1].0 by {
                assert(renders(flat[k], nodes@[k + 1]));
            }
        } else {
            let i = choose|i: int| 0 <= i < nodes@.len() && !valid_utf8(nodes@[i].label@);
            assert(!valid_utf8(w[i].1));
        }
    }
    r
}

} // verus!
