//! The index under construction: identifiers of documents and fields, token
//! statistics, and the trie of postings.

use crate::counts::{
    counts_positive, keys_increasing, list_count, table_count, CountList, CountRow, CountTable,
};
use crate::documents::{find_key, first_key_index};
use crate::errors::MinisearchIndexrsError;
use crate::serializer::{
    flat_children, flat_path, has_bad_label, map_json, occurrences, renders_walk, stats_of,
    FieldStats, TreeNode,
};
use crate::trie::{
    empty_trie, lemma_root_walk_wf, root_walk, walk_wf, trie_contents, trie_get, trie_insert, trie_walk, walk_after_insert,
    Posting, PostingTrie, WalkStep,
};
use vstd::prelude::*;
use vstd::utf8::{decode_utf8, encode_utf8};

verus! {

/// Which fields of the documents are indexed (a field's id is its position
/// in `fields`) and which are stored verbatim.
pub struct IndexConfig {
    pub fields: Vec<String>,
    pub store_fields: Vec<String>,
}

/// A scalar value of a document field, as the JSON input gives it. A number
/// is kept as its JSON text; an array or an object as its JSON text too.
#[derive(Debug, PartialEq, Eq)]
pub enum FieldValue {
    Null,
    Bool(bool),
    Number(String),
    Text(String),
    Composite(String),
}

/// A document: its fields by name, in input order.
pub type Document = Vec<(String, FieldValue)>;

/// A token of a document: its text, the field and the document it comes from.
pub type DocumentToken = (String, usize, usize);

/// The lower-cased form of a text, as `str::to_lowercase` gives it.
pub uninterp spec fn lower_of(s: Seq<char>) -> Seq<char>;

/// Relies on str::to_lowercase: the result depends on the characters alone.
#[verifier::external_body]
fn lowercase(s: &str) -> (r: String)
    ensures
        r@ == lower_of(s@),
{
    s.to_lowercase()
}

/// Normalizes a term before it enters the trie.
pub fn process_term(term: &str) -> (r: String)
    ensures
        r@ == lower_of(term@),
{
    lowercase(term)
}

/// The trie key of a token: the UTF-8 bytes of its normalized form.
pub open spec fn term_key(token: Seq<char>) -> Seq<u8> {
    encode_utf8(lower_of(token))
}

/// The postings after one more occurrence `p` of the term `key`: appended to
/// the term's list, or the start of a new list.
pub open spec fn add_posting(m: Map<Seq<u8>, Seq<Posting>>, key: Seq<u8>, p: Posting) -> Map<
    Seq<u8>,
    Seq<Posting>,
> {
    if m.contains_key(key) {
        m.insert(key, m[key].push(p))
    } else {
        m.insert(key, seq![p])
    }
}

/// A token as specifications see it: its characters, field and document.
pub type TokenView = (Seq<char>, usize, usize);

pub open spec fn token_views(toks: Seq<DocumentToken>) -> Seq<TokenView> {
    toks.map_values(|t: DocumentToken| (t.0@, t.1, t.2))
}

/// The postings after the tokens `toks`, in order.
pub open spec fn postings_after(m: Map<Seq<u8>, Seq<Posting>>, toks: Seq<TokenView>) -> Map<
    Seq<u8>,
    Seq<Posting>,
>
    decreases toks.len(),
{
    if toks.len() == 0 {
        m
    } else {
        let t = toks.last();
        add_posting(postings_after(m, toks.drop_last()), term_key(t.0), (t.2, t.1))
    }
}

/// The walk of the trie after one more occurrence `p` of the term `key`,
/// as `add_token` makes it: one insert of the one-element list, and, when
/// the term had a list already, a second insert of that list extended.
pub open spec fn walk_add_posting(
    w: Seq<WalkStep>,
    m: Map<Seq<u8>, Seq<Posting>>,
    key: Seq<u8>,
    p: Posting,
) -> Seq<WalkStep> {
    let first = walk_after_insert(w, key, seq![p]);
    if m.contains_key(key) {
        walk_after_insert(first, key, m[key].push(p))
    } else {
        first
    }
}

/// The walk of the trie after the tokens `toks`, in order, starting from a
/// trie with walk `w` and postings `m`.
pub open spec fn walk_after(w: Seq<WalkStep>, m: Map<Seq<u8>, Seq<Posting>>, toks: Seq<TokenView>) -> Seq<
    WalkStep,
>
    decreases toks.len(),
{
    if toks.len() == 0 {
        w
    } else {
        let t = toks.last();
        walk_add_posting(
            walk_after(w, m, toks.drop_last()),
            postings_after(m, toks.drop_last()),
            term_key(t.0),
            (t.2, t.1),
        )
    }
}

pub proof fn lemma_walk_after_concat(
    w: Seq<WalkStep>,
    m: Map<Seq<u8>, Seq<Posting>>,
    a: Seq<TokenView>,
    b: Seq<TokenView>,
)
    ensures
        walk_after(w, m, a + b) == walk_after(walk_after(w, m, a), postings_after(m, a), b),
    decreases b.len(),
{
    if b.len() == 0 {
        assert(a + b =~= a);
    } else {
        assert((a + b).drop_last() =~= a + b.drop_last());
        lemma_walk_after_concat(w, m, a, b.drop_last());
        lemma_postings_after_concat(m, a, b.drop_last());
    }
}

/// No postings at all.
pub open spec fn no_postings() -> Map<Seq<u8>, Seq<Posting>> {
    Map::empty()
}

pub proof fn lemma_postings_after_concat(
    m: Map<Seq<u8>, Seq<Posting>>,
    a: Seq<TokenView>,
    b: Seq<TokenView>,
)
    ensures
        postings_after(m, a + b) == postings_after(postings_after(m, a), b),
    decreases b.len(),
{
    if b.len() == 0 {
        assert(a + b =~= a);
    } else {
        assert((a + b).drop_last() =~= a + b.drop_last());
        lemma_postings_after_concat(m, a, b.drop_last());
    }
}

pub proof fn lemma_tokens_concat(a: Seq<TokenView>, b: Seq<TokenView>, d: usize, f: usize)
    ensures
        tokens_in_field(a + b, f) == tokens_in_field(a, f) + tokens_in_field(b, f),
        tokens_in_document_field(a + b, d, f) == tokens_in_document_field(a, d, f)
            + tokens_in_document_field(b, d, f),
    decreases b.len(),
{
    if b.len() == 0 {
        assert(a + b =~= a);
    } else {
        assert((a + b).drop_last() =~= a + b.drop_last());
        lemma_tokens_concat(a, b.drop_last(), d, f);
    }
}

/// How many of the tokens `toks` belong to field `f`.
pub open spec fn tokens_in_field(toks: Seq<TokenView>, f: usize) -> nat
    decreases toks.len(),
{
    if toks.len() == 0 {
        0
    } else {
        tokens_in_field(toks.drop_last(), f) + if toks.last().1 == f {
            1nat
        } else {
            0nat
        }
    }
}

/// How many of the tokens `toks` belong to field `f` of document `d`.
pub open spec fn tokens_in_document_field(toks: Seq<TokenView>, d: usize, f: usize) -> nat
    decreases toks.len(),
{
    if toks.len() == 0 {
        0
    } else {
        tokens_in_document_field(toks.drop_last(), d, f) + if toks.last().1 == f && toks.last().2
            == d {
            1nat
        } else {
            0nat
        }
    }
}

/// Copies a list of strings.
pub fn copy_strings(v: &Vec<String>) -> (r: Vec<String>)
    ensures
        r@ == v@,
{
    let mut r: Vec<String> = Vec::new();
    for i in 0..v.len()
        invariant
            r@ == v@.take(i as int),
    {
        r.push(v[i].clone());
        assert(r@ =~= v@.take(i + 1));
    }
    assert(v@.take(v@.len() as int) =~= v@);
    r
}

/// The values of the fields `names` that a document holds, in the order of
/// `names`: for each name, the first pair of the document under it.
pub open spec fn stored_values(doc: Seq<(String, FieldValue)>, names: Seq<String>) -> Seq<
    (String, FieldValue),
>
    decreases names.len(),
{
    if names.len() == 0 {
        seq![]
    } else {
        let rest = stored_values(doc, names.drop_last());
        let p = first_key_index(doc, names.last()@);
        if p >= 0 {
            rest.push(doc[p])
        } else {
            rest
        }
    }
}

pub open spec fn stored_view(s: Seq<(usize, Document)>) -> Seq<(usize, Seq<(String, FieldValue)>)> {
    s.map_values(|e: (usize, Document)| (e.0, e.1@))
}

/// Copies a field value.
pub fn copy_value(v: &FieldValue) -> (r: FieldValue)
    ensures
        r == *v,
{
    match v {
        FieldValue::Null => FieldValue::Null,
        FieldValue::Bool(b) => FieldValue::Bool(*b),
        FieldValue::Number(s) => FieldValue::Number(s.clone()),
        FieldValue::Text(s) => FieldValue::Text(s.clone()),
        FieldValue::Composite(s) => FieldValue::Composite(s.clone()),
    }
}

/// The counter that grouped rows hold for the pair `(o, i)` (0 when absent).
pub open spec fn rows_count(rows: Seq<(usize, Vec<(usize, usize)>)>, o: usize, i: usize) -> nat
    decreases rows.len(),
{
    if rows.len() == 0 {
        0
    } else if rows.last().0 == o {
        list_count(rows.last().1@, i)
    } else {
        rows_count(rows.drop_last(), o, i)
    }
}

proof fn lemma_rows_count(r: Seq<(usize, Vec<(usize, usize)>)>, rows: Seq<CountRow>, o: usize, i: usize)
    requires
        r.len() == rows.len(),
        forall|a: int| 0 <= a < r.len() ==> (#[trigger] r[a]).0 == rows[a].key && r[a].1@ == rows[a].counts.cells@,
    ensures
        rows_count(r, o, i) == table_count(rows, o, i),
    decreases r.len(),
{
    if r.len() > 0 {
        lemma_rows_count(r.drop_last(), rows.drop_last(), o, i);
    }
}

/// Grouped rows are sorted by their first key, and each row is a non-empty
/// sorted list of positive counters.
pub open spec fn rows_sorted(r: Seq<(usize, Vec<(usize, usize)>)>) -> bool {
    &&& forall|a: int, b: int| 0 <= a < b < r.len() ==> r[a].0 < r[b].0
    &&& forall|a: int|
        0 <= a < r.len() ==> keys_increasing((#[trigger] r[a]).1@) && counts_positive(r[a].1@)
            && r[a].1@.len() > 0
}

/// Grouped rows as plain values.
pub open spec fn rows_view(r: Seq<(usize, Vec<(usize, usize)>)>) -> Seq<(usize, Seq<(usize, usize)>)> {
    r.map_values(|x: (usize, Vec<(usize, usize)>)| (x.0, x.1@))
}

proof fn lemma_rows_count_at(r: Seq<(usize, Vec<(usize, usize)>)>, a: int, i: usize)
    requires
        rows_sorted(r),
        0 <= a < r.len(),
    ensures
        rows_count(r, r[a].0, i) == list_count(r[a].1@, i),
    decreases r.len(),
{
    if a < r.len() - 1 {
        lemma_rows_count_at(r.drop_last(), a, i);
    }
}

proof fn lemma_rows_count_absent(r: Seq<(usize, Vec<(usize, usize)>)>, o: usize, i: usize)
    requires
        forall|a: int| 0 <= a < r.len() ==> r[a].0 != o,
    ensures
        rows_count(r, o, i) == 0,
    decreases r.len(),
{
    if r.len() > 0 {
        lemma_rows_count_absent(r.drop_last(), o, i);
    }
}

/// Sorted grouped rows are determined by what they count.
pub proof fn lemma_rows_unique(r1: Seq<(usize, Vec<(usize, usize)>)>, r2: Seq<(usize, Vec<(usize, usize)>)>)
    requires
        rows_sorted(r1),
        rows_sorted(r2),
        forall|o: usize, i: usize| rows_count(r1, o, i) == rows_count(r2, o, i),
    ensures
        rows_view(r1) == rows_view(r2),
    decreases r1.len() + r2.len(),
{
    if r1.len() == 0 && r2.len() == 0 {
        assert(rows_view(r1) =~= rows_view(r2));
    } else if r1.len() == 0 || r2.len() == 0 {
        let (r, other) = if r1.len() == 0 {
            (r2, r1)
        } else {
            (r1, r2)
        };
        let last = r[r.len() - 1];
        lemma_rows_count_at(r, r.len() - 1, last.1@[0].0);
        crate::counts::lemma_list_count_at(last.1@, 0);
        lemma_rows_count_absent(other, last.0, last.1@[0].0);
    } else {
        let l1 = r1[r1.len() - 1];
        let l2 = r2[r2.len() - 1];
        lemma_rows_count_at(r1, r1.len() - 1, l2.1@[0].0);
        lemma_rows_count_at(r2, r2.len() - 1, l2.1@[0].0);
        lemma_rows_count_at(r1, r1.len() - 1, l1.1@[0].0);
        lemma_rows_count_at(r2, r2.len() - 1, l1.1@[0].0);
        crate::counts::lemma_list_count_at(l1.1@, 0);
        crate::counts::lemma_list_count_at(l2.1@, 0);
        if l1.0 < l2.0 {
            lemma_rows_count_absent(r1, l2.0, l2.1@[0].0);
        } else if l2.0 < l1.0 {
            lemma_rows_count_absent(r2, l1.0, l1.1@[0].0);
        }
        assert(l1.0 == l2.0);
        assert forall|i: usize| list_count(l1.1@, i) == list_count(l2.1@, i) by {
            lemma_rows_count_at(r1, r1.len() - 1, i);
            lemma_rows_count_at(r2, r2.len() - 1, i);
        }
        crate::counts::lemma_lists_unique(l1.1@, l2.1@);
        let s1 = r1.drop_last();
        let s2 = r2.drop_last();
        assert(rows_sorted(s1));
        assert(rows_sorted(s2));
        assert forall|o: usize, i: usize| rows_count(s1, o, i) == rows_count(s2, o, i) by {
            if o == l1.0 {
                assert(forall|a: int| 0 <= a < s1.len() ==> s1[a].0 < l1.0);
                assert(forall|a: int| 0 <= a < s2.len() ==> s2[a].0 < l2.0);
                lemma_rows_count_absent(s1, o, i);
                lemma_rows_count_absent(s2, o, i);
            } else {
                assert(rows_count(r1, o, i) == rows_count(s1, o, i));
                assert(rows_count(r2, o, i) == rows_count(s2, o, i));
            }
        }
        lemma_rows_unique(s1, s2);
        assert(rows_view(s1).len() == s1.len() && rows_view(s2).len() == s2.len());
        assert(r1.len() == r2.len());
        assert forall|a: int| 0 <= a < r1.len() implies rows_view(r1)[a] == rows_view(r2)[a] by {
            if a < r1.len() - 1 {
                assert(r1[a] == s1[a] && r2[a] == s2[a]);
                assert(rows_view(s1)[a] == rows_view(s2)[a]);
            }
        }
        assert(rows_view(r1) =~= rows_view(r2));
    }
}

/// The per-document token counts, grouped by document: for each document
/// that has tokens, its fields with their counts.
pub fn field_length_json(field_length_src: CountTable) -> (r: Vec<(usize, Vec<(usize, usize)>)>)
    requires
        field_length_src.wf(),
    ensures
        rows_sorted(r@),
        forall|d: usize, f: usize| #[trigger] rows_count(r@, d, f) == field_length_src.count(d, f),
{
    let ghost rows = field_length_src.rows@;
    let mut rest = field_length_src.rows;
    let mut out: Vec<(usize, Vec<(usize, usize)>)> = Vec::new();
    while rest.len() > 0
        invariant
            crate::counts::rows_wf(rows),
            out@.len() + rest@.len() == rows.len(),
            rest@ =~= rows.subrange(out@.len() as int, rows.len() as int),
            forall|a: int|
                0 <= a < out@.len() ==> (#[trigger] out@[a]).0 == rows[a].key && out@[a].1@
                    == rows[a].counts.cells@,
        decreases rest@.len(),
    {
        let row = rest.remove(0);
        assert(row == rows[out@.len() as int]);
        let CountRow { key, counts } = row;
        let CountList { cells } = counts;
        out.push((key, cells));
    }
    proof {
        assert forall|d: usize, f: usize| #[trigger] rows_count(out@, d, f) == table_count(rows, d, f) by {
            lemma_rows_count(out@, rows, d, f);
        }
    }
    out
}

/// The nested tree renders the postings: every non-empty term is reached
/// by its text and carries the statistics of its occurrence list, and every
/// node with statistics stands for a term.
pub open spec fn tree_holds(t: TreeNode, postings: Map<Seq<u8>, Seq<Posting>>) -> bool {
    let flat = flat_children(t.children@, 1);
    &&& forall|key: Seq<u8>| #[trigger]
        postings.contains_key(key) && key.len() > 0 ==> exists|i: int|
            0 <= i < flat.len() && flat_path(flat, i) == decode_utf8(key) && flat[i].2 is Some
                && stats_of(flat[i].2->0@, postings[key])
    &&& forall|i: int|
        0 <= i < flat.len() && (#[trigger] flat[i]).2 is Some ==> {
            let key = encode_utf8(flat_path(flat, i));
            &&& postings.contains_key(key)
            &&& stats_of(flat[i].2->0@, postings[key])
        }
}

/// How many of the tokens `toks` are the term `key` in field `f` of
/// document `d`.
pub open spec fn term_occurrences(toks: Seq<TokenView>, key: Seq<u8>, d: usize, f: usize) -> nat
    decreases toks.len(),
{
    if toks.len() == 0 {
        0
    } else {
        let t = toks.last();
        term_occurrences(toks.drop_last(), key, d, f) + if term_key(t.0) == key && t.2 == d && t.1
            == f {
            1nat
        } else {
            0nat
        }
    }
}

/// A term has an occurrence list exactly when some token is that term, and
/// the list holds each of its `(document, field)` pairs as often as the
/// tokens do.
pub proof fn lemma_postings_count(toks: Seq<TokenView>, key: Seq<u8>, d: usize, f: usize)
    ensures
        postings_after(no_postings(), toks).contains_key(key) <==> exists|i: int|
            0 <= i < toks.len() && term_key(toks[i].0) == key,
        postings_after(no_postings(), toks).contains_key(key) ==> occurrences(
            postings_after(no_postings(), toks)[key],
            d,
            f,
        ) == term_occurrences(toks, key, d, f),
    decreases toks.len(),
{
    if toks.len() > 0 {
        let rest = toks.drop_last();
        let t = toks.last();
        lemma_postings_count(rest, key, d, f);
        let before = postings_after(no_postings(), rest);
        let after = postings_after(no_postings(), toks);
        assert(after == add_posting(before, term_key(t.0), (t.2, t.1)));
        assert(term_occurrences(toks, key, d, f) == term_occurrences(rest, key, d, f) + if term_key(
            t.0,
        ) == key && t.2 == d && t.1 == f {
            1nat
        } else {
            0nat
        });
        if term_key(t.0) == key {
            if before.contains_key(key) {
                let list = before[key].push((t.2, t.1));
                assert(list.drop_last() =~= before[key]);
                assert(after[key] == list);
                assert(occurrences(list, d, f) == occurrences(before[key], d, f) + if (t.2, t.1) == (
                d,
                f,
                ) {
                    1nat
                } else {
                    0nat
                });
            } else {
                let list = seq![(t.2, t.1)];
                assert(after[key] == list);
                assert(occurrences(list, d, f) == occurrences(list.drop_last(), d, f) + if (t.2, t.1)
                    == (d, f) {
                    1nat
                } else {
                    0nat
                });
                assert(seq![(t.2, t.1)].drop_last() =~= Seq::<Posting>::empty());
                assert(forall|i: int| 0 <= i < rest.len() ==> term_key(#[trigger] rest[i].0) != key);
                assert(term_occurrences(rest, key, d, f) == 0) by {
                    lemma_term_occurrences_absent(rest, key, d, f);
                }
            }
            assert(term_key(toks[toks.len() - 1].0) == key);
        } else {
            assert(after.contains_key(key) == before.contains_key(key));
            if before.contains_key(key) {
                assert(after[key] == before[key]);
            }
            if exists|i: int| 0 <= i < toks.len() && term_key(toks[i].0) == key {
                let i = choose|i: int| 0 <= i < toks.len() && term_key(toks[i].0) == key;
                assert(i < rest.len());
                assert(rest[i] == toks[i]);
            }
            if exists|i: int| 0 <= i < rest.len() && term_key(rest[i].0) == key {
                let i = choose|i: int| 0 <= i < rest.len() && term_key(rest[i].0) == key;
                assert(toks[i] == rest[i]);
            }
        }
    }
}

proof fn lemma_term_occurrences_absent(toks: Seq<TokenView>, key: Seq<u8>, d: usize, f: usize)
    requires
        forall|i: int| 0 <= i < toks.len() ==> term_key(#[trigger] toks[i].0) != key,
    ensures
        term_occurrences(toks, key, d, f) == 0,
    decreases toks.len(),
{
    if toks.len() > 0 {
        assert(term_key(toks[toks.len() - 1].0) != key);
        lemma_term_occurrences_absent(toks.drop_last(), key, d, f);
    }
}

/// The statistics that the finished tree gives a term count exactly
/// the term's occurrences among the tokens: for each field, `ds` lists each
/// document whose field holds the term, with the number of times it does,
/// and no other, and `df` is the number of those documents.
pub proof fn lemma_term_statistics(toks: Seq<TokenView>, key: Seq<u8>, stats: Seq<FieldStats>)
    requires
        postings_after(no_postings(), toks).contains_key(key),
        stats_of(stats, postings_after(no_postings(), toks)[key]),
    ensures
        forall|a: int| 0 <= a < stats.len() ==> (#[trigger] stats[a]).df == stats[a].ds@.len(),
        forall|a: int, d: usize|
            0 <= a < stats.len() ==> ((exists|b: int|
                0 <= b < stats[a].ds@.len() && #[trigger] stats[a].ds@[b].0 == d) <==> term_occurrences(
                toks,
                key,
                d,
                stats[a].field_id,
            ) > 0),
        forall|a: int, b: int|
            0 <= a < stats.len() && 0 <= b < stats[a].ds@.len() ==> (#[trigger] stats[a].ds@[b]).1
                == term_occurrences(toks, key, stats[a].ds@[b].0, stats[a].field_id),
        forall|a: int, b: int, c: int|
            0 <= a < stats.len() && 0 <= b < c < stats[a].ds@.len() ==> (#[trigger] stats[a].ds@[b]).0
                < (#[trigger] stats[a].ds@[c]).0,
        forall|f: usize, d: usize|
            term_occurrences(toks, key, d, f) > 0 ==> exists|a: int|
                0 <= a < stats.len() && (#[trigger] stats[a]).field_id == f,
{
    let occ = postings_after(no_postings(), toks)[key];
    assert forall|a: int, d: usize| 0 <= a < stats.len() implies ((exists|b: int|
        0 <= b < stats[a].ds@.len() && #[trigger] stats[a].ds@[b].0 == d) <==> term_occurrences(
        toks,
        key,
        d,
        stats[a].field_id,
    ) > 0) by {
        lemma_postings_count(toks, key, d, stats[a].field_id);
        crate::counts::lemma_list_count_positive(stats[a].ds@, d);
        assert(list_count(stats[a].ds@, d) == occurrences(occ, d, stats[a].field_id));
    }
    assert forall|a: int, b: int| 0 <= a < stats.len() && 0 <= b < stats[a].ds@.len() implies (
    #[trigger] stats[a].ds@[b]).1 == term_occurrences(toks, key, stats[a].ds@[b].0, stats[a].field_id) by {
        let d = stats[a].ds@[b].0;
        lemma_postings_count(toks, key, d, stats[a].field_id);
        crate::counts::lemma_list_count_at(stats[a].ds@, b);
        assert(list_count(stats[a].ds@, d) == occurrences(occ, d, stats[a].field_id));
    }
    assert forall|f: usize, d: usize| term_occurrences(toks, key, d, f) > 0 implies exists|a: int|
        0 <= a < stats.len() && (#[trigger] stats[a]).field_id == f by {
        lemma_postings_count(toks, key, d, f);
        assert(occurrences(occ, d, f) > 0);
    }
}

/// The finished index in the shape of the minisearch format: the counts,
/// the identifiers, the token statistics, the nested term tree and the
/// stored fields. The average length of a field is its token total divided
/// by the document count.
pub struct MinisearchIndex {
    pub document_count: usize,
    pub next_id: usize,
    pub document_ids: Vec<FieldValue>,
    pub field_ids: Vec<(String, usize)>,
    pub field_token_totals: Vec<(usize, usize)>,
    pub field_length: Vec<(usize, Vec<(usize, usize)>)>,
    pub index: TreeNode,
    pub stored_fields: Vec<(usize, Document)>,
}

/// `m` is the finished form of the index `ix`: its counts, identifiers and
/// statistics as `ix` holds them, and its term tree rendering the walk of
/// `ix`'s trie.
pub open spec fn finished_from(m: MinisearchIndex, ix: Index) -> bool {
    &&& m.document_count == ix.document_count()
    &&& m.next_id == ix.document_count()
    &&& m.document_ids@ == ix.document_ids()
    &&& m.field_ids@.len() == ix.field_names().len()
    &&& forall|i: int|
        0 <= i < m.field_ids@.len() ==> (#[trigger] m.field_ids@[i]).0 == ix.field_names()[i]
            && m.field_ids@[i].1 == i
    &&& keys_increasing(m.field_token_totals@)
    &&& counts_positive(m.field_token_totals@)
    &&& forall|f: usize| #[trigger] list_count(m.field_token_totals@, f) == ix.field_tokens(f)
    &&& rows_sorted(m.field_length@)
    &&& forall|d: usize, f: usize| #[trigger]
        rows_count(m.field_length@, d, f) == ix.document_field_tokens(d, f)
    &&& m.index.stats is None
    &&& renders_walk(flat_children(m.index.children@, 1), ix.walk())
    &&& tree_holds(m.index, ix.postings())
    &&& stored_view(m.stored_fields@) == ix.stored()
}

/// An index under construction.
pub struct Index {
    fields: Vec<String>,
    store_fields: Vec<String>,
    document_ids: Vec<FieldValue>,
    next_id: usize,
    num_tokens: usize,
    field_num_tokens: CountList,
    field_length: CountTable,
    map: PostingTrie,
    stored_fields: Vec<(usize, Document)>,
}

impl Index {
    /// The names of the indexed fields; a field's id is its position.
    pub closed spec fn field_names(&self) -> Seq<String> {
        self.fields@
    }

    /// The names of the fields whose values are stored verbatim.
    pub closed spec fn stored_field_names(&self) -> Seq<String> {
        self.store_fields@
    }

    /// The identifiers that the registered documents came with, by short id.
    pub closed spec fn document_ids(&self) -> Seq<FieldValue> {
        self.document_ids@
    }

    /// The number of registered documents, which is also the next short id.
    pub closed spec fn document_count(&self) -> nat {
        self.next_id as nat
    }

    /// The number of tokens recorded in all.
    pub closed spec fn token_count(&self) -> nat {
        self.num_tokens as nat
    }

    /// The number of tokens recorded for field `f` over the whole corpus.
    pub closed spec fn field_tokens(&self, f: usize) -> nat {
        self.field_num_tokens.count(f)
    }

    /// The number of tokens recorded for field `f` of document `d`.
    pub closed spec fn document_field_tokens(&self, d: usize, f: usize) -> nat {
        self.field_length.count(d, f)
    }

    /// Each term of the trie, as bytes, with its occurrence list.
    pub closed spec fn postings(&self) -> Map<Seq<u8>, Seq<Posting>> {
        trie_contents(self.map)
    }

    /// The shape of the trie, as its depth-first walk.
    pub closed spec fn walk(&self) -> Seq<WalkStep> {
        trie_walk(self.map)
    }

    /// The stored field values, by short id.
    pub closed spec fn stored(&self) -> Seq<(usize, Seq<(String, FieldValue)>)> {
        stored_view(self.stored_fields@)
    }

    /// The two indexes differ at most in their postings.
    pub closed spec fn same_but_postings(&self, other: Index) -> bool {
        &&& self.fields == other.fields
        &&& self.store_fields == other.store_fields
        &&& self.document_ids == other.document_ids
        &&& self.next_id == other.next_id
        &&& self.num_tokens == other.num_tokens
        &&& self.field_num_tokens == other.field_num_tokens
        &&& self.field_length == other.field_length
        &&& self.stored_fields == other.stored_fields
    }

    pub closed spec fn wf(&self) -> bool {
        &&& walk_wf(trie_walk(self.map))
        &&& self.field_num_tokens.wf()
        &&& self.field_length.wf()
        &&& self.document_ids@.len() == self.next_id
        &&& forall|f: usize| #[trigger] self.field_num_tokens.count(f) <= self.num_tokens
        &&& forall|d: usize, f: usize| #[trigger] self.field_length.count(d, f) <= self.num_tokens
    }

    /// An empty index for the configuration.
    pub fn new(config: &IndexConfig) -> (r: Index)
        ensures
            r.wf(),
            r.field_names() == config.fields@,
            r.stored_field_names() == config.store_fields@,
            r.document_ids().len() == 0,
            r.document_count() == 0,
            r.token_count() == 0,
            forall|f: usize| #[trigger] r.field_tokens(f) == 0,
            forall|d: usize, f: usize| #[trigger] r.document_field_tokens(d, f) == 0,
            r.postings().dom() == Set::<Seq<u8>>::empty(),
            r.walk() == root_walk(),
            r.stored().len() == 0,
    {
        proof {
            lemma_root_walk_wf();
        }
        Index {
            fields: copy_strings(&config.fields),
            store_fields: copy_strings(&config.store_fields),
            document_ids: Vec::new(),
            next_id: 0,
            num_tokens: 0,
            field_num_tokens: CountList::new(),
            field_length: CountTable::new(),
            map: empty_trie(),
            stored_fields: Vec::new(),
        }
    }

    /// Registers a document by the identifier it came with and returns the short
    /// id assigned to it: the next one in sequence.
    pub fn insert_document(&mut self, id: FieldValue) -> (r: usize)
        requires
            old(self).wf(),
            old(self).document_count() < usize::MAX,
        ensures
            final(self).wf(),
            r == old(self).document_count(),
            final(self).document_count() == old(self).document_count() + 1,
            final(self).document_ids() == old(self).document_ids().push(id),
            final(self).field_names() == old(self).field_names(),
            final(self).stored_field_names() == old(self).stored_field_names(),
            final(self).token_count() == old(self).token_count(),
            forall|f: usize| #[trigger]
                final(self).field_tokens(f) == old(self).field_tokens(f),
            forall|d: usize, f: usize| #[trigger]
                final(self).document_field_tokens(d, f) == old(self).document_field_tokens(d, f),
            final(self).postings() == old(self).postings(),
            final(self).walk() == old(self).walk(),
            final(self).stored() == old(self).stored(),
    {
        let small_id = self.next_id;
        self.document_ids.push(id);
        self.next_id = self.next_id + 1;
        small_id
    }

    /// Appends one occurrence of `token` in field `field_id` of document
    /// `document_id` to the token's occurrence list.
    pub fn add_token(&mut self, document_id: usize, token: &str, field_id: usize)
        requires
            old(self).wf(),
        ensures
            final(self).wf(),
            final(self).postings() == add_posting(
                old(self).postings(),
                encode_utf8(token@),
                (document_id, field_id),
            ),
            final(self).walk() == walk_add_posting(
                old(self).walk(),
                old(self).postings(),
                encode_utf8(token@),
                (document_id, field_id),
            ),
            final(self).same_but_postings(*old(self)),
            final(self).field_names() == old(self).field_names(),
            final(self).stored_field_names() == old(self).stored_field_names(),
            final(self).document_ids() == old(self).document_ids(),
            final(self).document_count() == old(self).document_count(),
            final(self).token_count() == old(self).token_count(),
            forall|f: usize| #[trigger]
                final(self).field_tokens(f) == old(self).field_tokens(f),
            forall|d: usize, f: usize| #[trigger]
                final(self).document_field_tokens(d, f) == old(self).document_field_tokens(d, f),
            final(self).stored() == old(self).stored(),
    {
        let posting: Posting = (document_id, field_id);
        let key = token.as_bytes();
        let mut fresh: Vec<Posting> = Vec::new();
        fresh.push(posting);
        let ghost before = trie_contents(self.map);
        let ghost walk_before = trie_walk(self.map);
        assert(fresh@ =~= seq![posting]);
        let previous = trie_insert(&mut self.map, key, fresh);
        if let Some(mut list) = previous {
            list.push(posting);
            trie_insert(&mut self.map, key, list);
        }
        assert(trie_contents(self.map) =~= add_posting(before, encode_utf8(token@), posting));
        assert(trie_walk(self.map) == walk_add_posting(
            walk_before,
            before,
            encode_utf8(token@),
            posting,
        ));
    }

    /// Records the tokens: each one counts towards its field and its
    /// document's field, and its normalized form gains an occurrence.
    pub fn add_document_tokens(&mut self, document_tokens: Vec<DocumentToken>) -> (r: Result<
        (),
        MinisearchIndexrsError,
    >)
        requires
            old(self).wf(),
            old(self).token_count() + document_tokens@.len() <= usize::MAX,
        ensures
            r is Ok,
            final(self).wf(),
            final(self).token_count() == old(self).token_count() + document_tokens@.len(),
            forall|f: usize| #[trigger]
                final(self).field_tokens(f) == old(self).field_tokens(f) + tokens_in_field(
                    token_views(document_tokens@),
                    f,
                ),
            forall|d: usize, f: usize| #[trigger]
                final(self).document_field_tokens(d, f) == old(self).document_field_tokens(d, f)
                    + tokens_in_document_field(token_views(document_tokens@), d, f),
            final(self).postings() == postings_after(old(self).postings(), token_views(document_tokens@)),
            final(self).walk() == walk_after(
                old(self).walk(),
                old(self).postings(),
                token_views(document_tokens@),
            ),
            final(self).field_names() == old(self).field_names(),
            final(self).stored_field_names() == old(self).stored_field_names(),
            final(self).document_ids() == old(self).document_ids(),
            final(self).document_count() == old(self).document_count(),
            final(self).stored() == old(self).stored(),
    {
        let ghost start = *self;
        let n = document_tokens.len();
        for k in 0..n
            invariant
                n == document_tokens@.len(),
                self.wf(),
                start.num_tokens + n <= usize::MAX,
                self.num_tokens == start.num_tokens + k,
                forall|f: usize| #[trigger]
                    self.field_num_tokens.count(f) == start.field_num_tokens.count(f)
                        + tokens_in_field(token_views(document_tokens@).take(k as int), f),
                forall|d: usize, f: usize| #[trigger]
                    self.field_length.count(d, f) == start.field_length.count(d, f)
                        + tokens_in_document_field(token_views(document_tokens@).take(k as int), d, f),
                trie_contents(self.map) == postings_after(
                    trie_contents(start.map),
                    token_views(document_tokens@).take(k as int),
                ),
                trie_walk(self.map) == walk_after(
                    trie_walk(start.map),
                    trie_contents(start.map),
                    token_views(document_tokens@).take(k as int),
                ),
                self.fields == start.fields,
                self.store_fields == start.store_fields,
                self.document_ids == start.document_ids,
                self.next_id == start.next_id,
                self.stored_fields == start.stored_fields,
        {
            let token = &document_tokens[k].0;
            let field_id = document_tokens[k].1;
            let small_id = document_tokens[k].2;
            assert(token_views(document_tokens@).take(k + 1).drop_last() =~= token_views(
                document_tokens@,
            ).take(k as int));
            self.field_num_tokens.increment(field_id);
            self.field_length.increment(small_id, field_id);
            self.num_tokens = self.num_tokens + 1;
            let term = process_term(token.as_str());
            self.add_token(small_id, term.as_str(), field_id);
        }
        assert(token_views(document_tokens@).take(n as int) =~= token_views(document_tokens@));
        Ok(())
    }

    /// The number of registered documents.
    pub fn document_count_value(&self) -> (r: usize)
        ensures
            r == self.document_count(),
    {
        self.next_id
    }

    /// The identifiers that the registered documents came with, by short id.
    pub fn document_ids_value(&self) -> (r: &Vec<FieldValue>)
        ensures
            r@ == self.document_ids(),
    {
        &self.document_ids
    }

    /// The occurrence list of a term, as the trie holds it.
    pub fn postings_of(&self, term: &str) -> (r: Option<Vec<Posting>>)
        ensures
            r is Some <==> self.postings().contains_key(encode_utf8(term@)),
            r is Some ==> r->0@ == self.postings()[encode_utf8(term@)],
    {
        match trie_get(&self.map, term.as_bytes()) {
            None => None,
            Some(list) => {
                let mut copy: Vec<Posting> = Vec::new();
                for i in 0..list.len()
                    invariant
                        copy@ == list@.take(i as int),
                {
                    copy.push(list[i]);
                    assert(copy@ =~= list@.take(i + 1));
                }
                assert(list@.take(list@.len() as int) =~= list@);
                Some(copy)
            },
        }
    }

    /// The number of tokens recorded in all.
    pub fn token_count_value(&self) -> (r: usize)
        ensures
            r == self.token_count(),
    {
        self.num_tokens
    }

    /// The two indexes differ at most in their stored fields.
    pub closed spec fn same_but_stored(&self, other: Index) -> bool {
        &&& self.fields == other.fields
        &&& self.store_fields == other.store_fields
        &&& self.document_ids == other.document_ids
        &&& self.next_id == other.next_id
        &&& self.num_tokens == other.num_tokens
        &&& self.field_num_tokens == other.field_num_tokens
        &&& self.field_length == other.field_length
        &&& self.map == other.map
    }

    /// Keeps the values of the stored fields that document `small_id` holds;
    /// when no field is stored, nothing is kept.
    pub fn store_document_fields(&mut self, small_id: usize, document: &Document)
        requires
            old(self).wf(),
        ensures
            final(self).wf(),
            final(self).same_but_stored(*old(self)),
            final(self).field_names() == old(self).field_names(),
            final(self).stored_field_names() == old(self).stored_field_names(),
            final(self).document_ids() == old(self).document_ids(),
            final(self).document_count() == old(self).document_count(),
            final(self).token_count() == old(self).token_count(),
            forall|f: usize| #[trigger]
                final(self).field_tokens(f) == old(self).field_tokens(f),
            forall|d: usize, f: usize| #[trigger]
                final(self).document_field_tokens(d, f) == old(self).document_field_tokens(d, f),
            final(self).postings() == old(self).postings(),
            old(self).stored_field_names().len() == 0 ==> final(self).stored() == old(self).stored(),
            old(self).stored_field_names().len() > 0 ==> final(self).stored() == old(self).stored().push(
                (small_id, stored_values(document@, old(self).stored_field_names())),
            ),
            final(self).walk() == old(self).walk(),
    {
        if self.store_fields.len() == 0 {
            return;
        }
        let mut values: Document = Vec::new();
        let n = self.store_fields.len();
        for i in 0..n
            invariant
                n == self.store_fields@.len(),
                values@ == stored_values(document@, self.store_fields@.take(i as int)),
        {
            assert(self.store_fields@.take(i + 1).drop_last() =~= self.store_fields@.take(i as int));
            if let Some(p) = find_key(document, &self.store_fields[i]) {
                let value = copy_value(&document[p].1);
                values.push((document[p].0.clone(), value));
            }
        }
        assert(self.store_fields@.take(n as int) =~= self.store_fields@);
        let ghost before = self.stored_fields@;
        self.stored_fields.push((small_id, values));
        assert(stored_view(self.stored_fields@) =~= stored_view(before).push((small_id, values@)));
    }

    /// Finishes the index: its counts, identifiers and statistics as they
    /// stand, and the trie flattened into the nested term tree. Fails when a
    /// label of the trie is not valid UTF-8.
    pub fn into_minisearch_json(self) -> (r: Result<MinisearchIndex, MinisearchIndexrsError>)
        requires
            self.wf(),
        ensures
            r is Err ==> r == Err::<MinisearchIndex, MinisearchIndexrsError>(
                MinisearchIndexrsError::TermDecoding,
            ),
            r is Err <==> has_bad_label(self.walk()),
            r is Ok ==> finished_from(r->Ok_0, self),
    {
        let field_ids = self.field_ids();
        let Index {
            fields: _,
            store_fields: _,
            document_ids,
            next_id,
            num_tokens: _,
            field_num_tokens,
            field_length,
            map,
            stored_fields,
        } = self;
        let tree = map_json(map);
        match tree {
            Err(e) => Err(e),
            Ok(index) => {
                let CountList { cells } = field_num_tokens;
                Ok(
                    MinisearchIndex {
                        document_count: next_id,
                        next_id,
                        document_ids,
                        field_ids,
                        field_token_totals: cells,
                        field_length: field_length_json(field_length),
                        index,
                        stored_fields,
                    },
                )
            },
        }
    }

    /// The indexed fields with their ids: each configured field name with its
    /// position.
    pub fn field_ids(&self) -> (r: Vec<(String, usize)>)
        ensures
            r@.len() == self.field_names().len(),
            forall|i: int|
                0 <= i < r@.len() ==> (#[trigger] r@[i]).0 == self.field_names()[i] && r@[i].1
                    == i,
    {
        let mut r: Vec<(String, usize)> = Vec::new();
        for i in 0..self.fields.len()
            invariant
                r@.len() == i,
                forall|j: int|
                    0 <= j < i ==> (#[trigger] r@[j]).0 == self.fields@[j] && r@[j].1 == j,
        {
            r.push((self.fields[i].clone(), i));
        }
        r
    }
}

} // verus!
