//! From input documents to the finished index: the text of each document,
//! its tokens, and the all-or-nothing build of the whole corpus.

use crate::counts::{counts_positive, keys_increasing, lemma_lists_unique, list_count};
use crate::errors::MinisearchIndexrsError;
use crate::index::{
    copy_value, lemma_postings_after_concat, lemma_rows_unique, lemma_walk_after_concat, walk_after, lemma_tokens_concat, no_postings,
    postings_after, rows_count, rows_sorted, rows_view, stored_values, stored_view,
    tokens_in_document_field, tokens_in_field, tree_holds, Document, DocumentToken, FieldValue,
    Index, IndexConfig, MinisearchIndex, TokenView,
};
use crate::serializer::{
    flat_children, flat_view, has_bad_label, lemma_render_unique, renders_walk,
};
use crate::tokenizer::{terms_of, tokenize, Tokenizer};
use crate::trie::{root_walk, WalkStep};
use vstd::prelude::*;

verus! {

/// The position of the first pair of `doc` whose key is `name` (-1 if none).
pub open spec fn first_key_index<V>(doc: Seq<(String, V)>, name: Seq<char>) -> int
    decreases doc.len(),
{
    if doc.len() == 0 {
        -1
    } else {
        let p = first_key_index(doc.drop_last(), name);
        if p >= 0 {
            p
        } else if doc.last().0@ == name {
            doc.len() - 1
        } else {
            -1
        }
    }
}

pub proof fn lemma_first_key_index_bounds<V>(doc: Seq<(String, V)>, name: Seq<char>)
    ensures
        -1 <= first_key_index(doc, name) < doc.len(),
        first_key_index(doc, name) >= 0 ==> doc[first_key_index(doc, name)].0@ == name,
        first_key_index(doc, name) == -1 ==> forall|j: int|
            0 <= j < doc.len() ==> (#[trigger] doc[j]).0@ != name,
    decreases doc.len(),
{
    if doc.len() > 0 {
        lemma_first_key_index_bounds(doc.drop_last(), name);
        if first_key_index(doc.drop_last(), name) == -1 && doc.last().0@ != name {
            assert forall|j: int| 0 <= j < doc.len() implies (#[trigger] doc[j]).0@ != name by {
                if j < doc.len() - 1 {
                    assert(doc[j] == doc.drop_last()[j]);
                }
            }
        }
    }
}

pub proof fn lemma_first_key_index_prefix<V>(doc: Seq<(String, V)>, k: int, name: Seq<char>)
    requires
        0 <= k <= doc.len(),
        first_key_index(doc.take(k), name) >= 0,
    ensures
        first_key_index(doc, name) == first_key_index(doc.take(k), name),
    decreases doc.len() - k,
{
    if k < doc.len() {
        assert(doc.drop_last().take(k) =~= doc.take(k));
        lemma_first_key_index_prefix(doc.drop_last(), k, name);
    } else {
        assert(doc.take(k) =~= doc);
    }
}

/// Finds the first pair of `doc` whose key is `name`.
pub fn find_key<V>(doc: &Vec<(String, V)>, name: &String) -> (r: Option<usize>)
    ensures
        r is Some <==> first_key_index(doc@, name@) >= 0,
        r is Some ==> r->0 == first_key_index(doc@, name@),
        r is Some ==> r->0 < doc@.len() && doc@[r->0 as int].0@ == name@,
{
    let n = doc.len();
    let mut i: usize = 0;
    while i < n
        invariant
            n == doc@.len(),
            i <= n,
            first_key_index(doc@.take(i as int), name@) == -1,
        decreases n - i,
    {
        assert(doc@.take(i + 1).drop_last() =~= doc@.take(i as int));
        if doc[i].0 == *name {
            proof {
                lemma_first_key_index_prefix(doc@, i + 1, name@);
            }
            return Some(i);
        }
        i += 1;
    }
    assert(doc@.take(n as int) =~= doc@);
    None
}

/// The text that a field value contributes, if its kind is indexed: null
/// gives the empty text, a number its JSON text, a string itself.
pub open spec fn text_value(v: FieldValue) -> Option<Seq<char>> {
    match v {
        FieldValue::Null => Some(Seq::<char>::empty()),
        FieldValue::Number(s) => Some(s@),
        FieldValue::Text(s) => Some(s@),
        _ => None,
    }
}

/// A key kept in the text form of a document: `id` or a configured field.
pub open spec fn kept_key(k: Seq<char>, fields: Seq<String>) -> bool {
    k == "id"@ || exists|i: int| 0 <= i < fields.len() && fields[i]@ == k
}

/// The text form of a document: its pairs whose key is kept and whose value
/// has an indexed kind, in order, the value turned into text. A value of
/// another kind is left out, and the build goes on without it.
pub open spec fn text_document(doc: Seq<(String, FieldValue)>, fields: Seq<String>) -> Seq<
    (Seq<char>, Seq<char>),
>
    decreases doc.len(),
{
    if doc.len() == 0 {
        seq![]
    } else {
        let rest = text_document(doc.drop_last(), fields);
        let (k, v) = doc.last();
        if kept_key(k@, fields) && text_value(v) is Some {
            rest.push((k@, text_value(v)->0))
        } else {
            rest
        }
    }
}

pub open spec fn text_pairs(doc: Seq<(String, String)>) -> Seq<(Seq<char>, Seq<char>)> {
    doc.map_values(|p: (String, String)| (p.0@, p.1@))
}

fn copy_text(v: &FieldValue) -> (r: Option<String>)
    ensures
        r is Some <==> text_value(*v) is Some,
        r is Some ==> r->0@ == text_value(*v)->0,
{
    match v {
        FieldValue::Null => Some(String::new()),
        FieldValue::Number(s) => Some(s.clone()),
        FieldValue::Text(s) => Some(s.clone()),
        _ => None,
    }
}

fn is_kept(key: &String, fields: &Vec<String>) -> (r: bool)
    ensures
        r == kept_key(key@, fields@),
{
    let id_key = String::from_str("id");
    proof {
        reveal_strlit("id");
    }
    if *key == id_key {
        return true;
    }
    let n = fields.len();
    for i in 0..n
        invariant
            n == fields@.len(),
            key@ != "id"@,
            forall|j: int| 0 <= j < i ==> fields@[j]@ != key@,
    {
        if fields[i] == *key {
            return true;
        }
    }
    false
}

/// Turns a document into text: keeps `id` and the configured fields, and of
/// those the values that are null, numbers or strings.
pub fn json_document_to_text_document(json_document: &Vec<(String, FieldValue)>, fields: &Vec<
    String,
>) -> (r: Vec<(String, String)>)
    ensures
        text_pairs(r@) == text_document(json_document@, fields@),
{
    let n = json_document.len();
    let mut r: Vec<(String, String)> = Vec::new();
    for i in 0..n
        invariant
            n == json_document@.len(),
            text_pairs(r@) == text_document(json_document@.take(i as int), fields@),
    {
        let (k, v) = &json_document[i];
        assert(json_document@.take(i + 1).drop_last() =~= json_document@.take(i as int));
        if is_kept(k, fields) {
            if let Some(text) = copy_text(v) {
                r.push((k.clone(), text));
                assert(text_pairs(r@) =~= text_document(json_document@.take(i + 1), fields@));
            }
        }
    }
    assert(json_document@.take(n as int) =~= json_document@);
    r
}

/// The position of the first pair of a text document whose key is `name`
/// (-1 if none).
pub open spec fn text_key_index(doc: Seq<(Seq<char>, Seq<char>)>, name: Seq<char>) -> int
    decreases doc.len(),
{
    if doc.len() == 0 {
        -1
    } else {
        let p = text_key_index(doc.drop_last(), name);
        if p >= 0 {
            p
        } else if doc.last().0 == name {
            doc.len() - 1
        } else {
            -1
        }
    }
}

proof fn lemma_text_key_index(doc: Seq<(String, String)>, name: Seq<char>)
    ensures
        text_key_index(text_pairs(doc), name) == first_key_index(doc, name),
    decreases doc.len(),
{
    if doc.len() > 0 {
        assert(text_pairs(doc.drop_last()) =~= text_pairs(doc).drop_last());
        lemma_text_key_index(doc.drop_last(), name);
    }
}

/// The text of field `name` in a text document: the first value under that
/// name, or the empty text.
pub open spec fn text_in(doc: Seq<(Seq<char>, Seq<char>)>, name: Seq<char>) -> Seq<char> {
    let p = text_key_index(doc, name);
    if 0 <= p < doc.len() {
        doc[p].1
    } else {
        Seq::<char>::empty()
    }
}

/// The tokens of one field's text.
pub open spec fn field_terms(text: Seq<char>, field: usize, doc: usize) -> Seq<TokenView> {
    terms_of(text).map_values(|t: Seq<char>| (t, field, doc))
}

/// The tokens of a document, field by field in the order of `fields`.
pub open spec fn document_tokens(
    fields: Seq<(String, usize)>,
    doc: Seq<(Seq<char>, Seq<char>)>,
    document_id: usize,
) -> Seq<TokenView>
    decreases fields.len(),
{
    if fields.len() == 0 {
        seq![]
    } else {
        let (name, id) = fields.last();
        document_tokens(fields.drop_last(), doc, document_id) + field_terms(
            text_in(doc, name@),
            id,
            document_id,
        )
    }
}

/// The tokens of a document: for each field, in order, the terms of its
/// text (a missing field has none), tagged with the field and the document.
pub fn get_document_tokens(
    tokenizer: &Tokenizer,
    field_ids: &Vec<(String, usize)>,
    document: &Vec<(String, String)>,
    document_id: usize,
) -> (r: Vec<DocumentToken>)
    ensures
        r@.map_values(|t: DocumentToken| (t.0@, t.1, t.2)) == document_tokens(
            field_ids@,
            text_pairs(document@),
            document_id,
        ),
{
    let empty = String::new();
    let n = field_ids.len();
    let mut r: Vec<DocumentToken> = Vec::new();
    for i in 0..n
        invariant
            n == field_ids@.len(),
            empty@.len() == 0,
            r@.map_values(|t: DocumentToken| (t.0@, t.1, t.2)) == document_tokens(
                field_ids@.take(i as int),
                text_pairs(document@),
                document_id,
            ),
    {
        let (name, field_id) = &field_ids[i];
        assert(field_ids@.take(i + 1).drop_last() =~= field_ids@.take(i as int));
        let text = match find_key(document, name) {
            Some(p) => &document[p].1,
            None => &empty,
        };
        proof {
            lemma_text_key_index(document@, name@);
            lemma_first_key_index_bounds(document@, name@);
        }
        assert(text@ == text_in(text_pairs(document@), name@));
        let terms = tokenize(tokenizer, text.as_str());
        let ghost before = r@;
        let m = terms.len();
        for j in 0..m
            invariant
                m == terms@.len(),
                m == terms_of(text@).len(),
                forall|q: int| 0 <= q < m ==> (#[trigger] terms@[q])@ == terms_of(text@)[q],
                r@.len() == before.len() + j,
                forall|q: int| 0 <= q < before.len() ==> r@[q] == before[q],
                forall|q: int|
                    0 <= q < j ==> (#[trigger] r@[before.len() + q]) == (
                        terms@[q],
                        *field_id,
                        document_id,
                    ),
        {
            r.push((terms[j].clone(), *field_id, document_id));
        }
        let ghost lhs = r@.map_values(|t: DocumentToken| (t.0@, t.1, t.2));
        let ghost old_part = before.map_values(|t: DocumentToken| (t.0@, t.1, t.2));
        let ghost new_part = field_terms(text@, *field_id, document_id);
        assert forall|q: int| 0 <= q < lhs.len() implies #[trigger] lhs[q] == (old_part
            + new_part)[q] by {
            if q >= before.len() {
                let q2 = q - before.len();
                assert(r@[before.len() + q2] == (terms@[q2], *field_id, document_id));
            }
        }
        assert(lhs =~= old_part + new_part);
    }
    assert(field_ids@.take(n as int) =~= field_ids@);
    r
}


/// The document has an `id` field.
pub open spec fn has_id(doc: Seq<(String, FieldValue)>) -> bool {
    first_key_index(doc, "id"@) >= 0
}

/// The value of the document's first `id` field.
pub open spec fn id_of(doc: Seq<(String, FieldValue)>) -> FieldValue {
    doc[first_key_index(doc, "id"@)].1
}

/// The document without its first `id` field.
pub open spec fn without_id(doc: Seq<(String, FieldValue)>) -> Seq<(String, FieldValue)> {
    doc.remove(first_key_index(doc, "id"@))
}

/// Each configured field name with its position, which is its id.
pub open spec fn field_pairs(names: Seq<String>) -> Seq<(String, usize)> {
    Seq::new(names.len(), |i: int| (names[i], i as usize))
}

/// For a configuration whose field names are distinct, the field ids
/// of the finished index map the configured names one to one onto
/// `0 .. n`, each name to its position in the configuration.
pub proof fn lemma_field_ids_bijection(names: Seq<String>, ids: Seq<(String, usize)>)
    requires
        ids == field_pairs(names),
        names.len() <= usize::MAX,
        forall|i: int, j: int| 0 <= i < j < names.len() ==> names[i]@ != names[j]@,
    ensures
        ids.len() == names.len(),
        forall|i: int| 0 <= i < names.len() ==> #[trigger] ids[i] == (names[i], i as usize),
        forall|i: int| 0 <= i < ids.len() ==> (#[trigger] ids[i]).1 < names.len(),
        forall|i: int, j: int|
            0 <= i < ids.len() && 0 <= j < ids.len() && (#[trigger] ids[i]).0@ == (
            #[trigger] ids[j]).0@ ==> i == j,
        forall|i: int, j: int|
            0 <= i < ids.len() && 0 <= j < ids.len() && (#[trigger] ids[i]).1 == (
            #[trigger] ids[j]).1 ==> i == j,
{
}

/// The tokens of a corpus, document by document: document `i` gets short id
/// `i`, and its fields other than `id` are tokenized.
pub open spec fn corpus_tokens(docs: Seq<Document>, names: Seq<String>) -> Seq<TokenView>
    decreases docs.len(),
{
    if docs.len() == 0 {
        seq![]
    } else {
        corpus_tokens(docs.drop_last(), names) + document_tokens(
            field_pairs(names),
            text_document(without_id(docs.last()@), names),
            (docs.len() - 1) as usize,
        )
    }
}

/// The shape of the trie after the corpus went in, token by token, from an
/// empty trie.
pub open spec fn corpus_walk(docs: Seq<Document>, names: Seq<String>) -> Seq<WalkStep> {
    walk_after(root_walk(), no_postings(), corpus_tokens(docs, names))
}

pub proof fn lemma_corpus_tokens_grow(docs: Seq<Document>, names: Seq<String>, k: int)
    requires
        0 <= k <= docs.len(),
    ensures
        corpus_tokens(docs.take(k), names).len() <= corpus_tokens(docs, names).len(),
    decreases docs.len() - k,
{
    if k < docs.len() {
        assert(docs.drop_last().take(k) =~= docs.take(k));
        lemma_corpus_tokens_grow(docs.drop_last(), names, k);
    } else {
        assert(docs.take(k) =~= docs);
    }
}

/// What the stored fields of a corpus are: when some fields are stored, for
/// each document its values of them.
pub open spec fn stored_corpus(docs: Seq<Document>, store: Seq<String>) -> Seq<
    (usize, Seq<(String, FieldValue)>),
> {
    if store.len() == 0 {
        seq![]
    } else {
        Seq::new(docs.len(), |i: int| (i as usize, stored_values(without_id(docs[i]@), store)))
    }
}

fn strip_id(doc: &Document, p: usize) -> (r: Document)
    requires
        p < doc@.len(),
    ensures
        r@ == doc@.remove(p as int),
{
    let mut r: Document = Vec::new();
    let n = doc.len();
    for j in 0..n
        invariant
            n == doc@.len(),
            p < n,
            j <= p ==> r@ == doc@.take(j as int),
            j > p ==> r@ == doc@.take(j as int).remove(p as int),
    {
        if j != p {
            let value = copy_value(&doc[j].1);
            r.push((doc[j].0.clone(), value));
        }
        assert(j + 1 <= p ==> r@ =~= doc@.take(j + 1));
        assert(j + 1 > p ==> r@ =~= doc@.take(j + 1).remove(p as int));
    }
    assert(doc@.take(n as int) =~= doc@);
    r
}

/// Builds the index of a corpus. Every document must have an `id` field,
/// else nothing is built. Documents are registered in order, so document
/// `i` gets short id `i`; then their configured fields are tokenized and
/// recorded, and their stored fields kept.
pub fn create_index(docs: Vec<Document>, config: &IndexConfig) -> (r: Result<
    Index,
    MinisearchIndexrsError,
>)
    ensures
        (r == Err::<Index, MinisearchIndexrsError>(MinisearchIndexrsError::MissingId)) <==> exists|
            i: int,
        | 0 <= i < docs@.len() && !has_id(#[trigger] docs@[i]@),
        (r == Err::<Index, MinisearchIndexrsError>(MinisearchIndexrsError::TooManyTokens)) <==> (
        (forall|i: int| 0 <= i < docs@.len() ==> has_id(#[trigger] docs@[i]@)) && corpus_tokens(
            docs@,
            config.fields@,
        ).len() > usize::MAX),
        r is Err ==> r->Err_0 != MinisearchIndexrsError::TermDecoding,
        r is Ok ==> {
            let ix = r->Ok_0;
            let toks = corpus_tokens(docs@, config.fields@);
            &&& ix.wf()
            &&& ix.field_names() == config.fields@
            &&& ix.stored_field_names() == config.store_fields@
            &&& ix.document_count() == docs@.len()
            &&& ix.document_ids().len() == docs@.len()
            &&& forall|i: int|
                0 <= i < docs@.len() ==> #[trigger] ix.document_ids()[i] == id_of(docs@[i]@)
            &&& ix.token_count() == toks.len()
            &&& ix.postings() == postings_after(no_postings(), toks)
            &&& ix.walk() == corpus_walk(docs@, config.fields@)
            &&& forall|f: usize| #[trigger] ix.field_tokens(f) == tokens_in_field(toks, f)
            &&& forall|d: usize, f: usize| #[trigger]
                ix.document_field_tokens(d, f) == tokens_in_document_field(toks, d, f)
            &&& ix.stored() == stored_corpus(docs@, config.store_fields@)
        },
{
    let id_key = String::from_str("id");
    proof {
        reveal_strlit("id");
    }
    let n = docs.len();
    for i in 0..n
        invariant
            n == docs@.len(),
            id_key@ == "id"@,
            forall|j: int| 0 <= j < i ==> has_id(#[trigger] docs@[j]@),
    {
        if find_key(&docs[i], &id_key).is_none() {
            return Err(MinisearchIndexrsError::MissingId);
        }
    }
    let names = &config.fields;
    let ghost store = config.store_fields@;
    let mut index = Index::new(config);
    let field_ids = index.field_ids();
    assert(field_ids@ =~= field_pairs(names@));
    let tokenizer = Tokenizer::new();
    assert(index.postings() =~= postings_after(no_postings(), corpus_tokens(docs@.take(0), names@)));
    assert(stored_corpus(docs@.take(0), store) =~= index.stored());
    for i in 0..n
        invariant
            n == docs@.len(),
            id_key@ == "id"@,
            forall|j: int| 0 <= j < n ==> has_id(#[trigger] docs@[j]@),
            index.wf(),
            index.field_names() == names@,
            index.stored_field_names() == store,
            store == config.store_fields@,
            names@ == config.fields@,
            field_ids@ == field_pairs(names@),
            index.document_count() == i,
            index.document_ids().len() == i,
            forall|j: int| 0 <= j < i ==> #[trigger] index.document_ids()[j] == id_of(docs@[j]@),
            index.token_count() == corpus_tokens(docs@.take(i as int), names@).len(),
            index.postings() == postings_after(no_postings(), corpus_tokens(docs@.take(i as int), names@)),
            index.walk() == walk_after(root_walk(), no_postings(), corpus_tokens(docs@.take(i as int), names@)),
            forall|f: usize| #[trigger]
                index.field_tokens(f) == tokens_in_field(corpus_tokens(docs@.take(i as int), names@), f),
            forall|d: usize, f: usize| #[trigger]
                index.document_field_tokens(d, f) == tokens_in_document_field(
                    corpus_tokens(docs@.take(i as int), names@),
                    d,
                    f,
                ),
            index.stored() == stored_corpus(docs@.take(i as int), store),
    {
        let doc = &docs[i];
        let p = match find_key(doc, &id_key) {
            Some(p) => p,
            None => {
                return Err(MinisearchIndexrsError::MissingId);
            },
        };
        let ghost before = index;
        let ghost prefix = corpus_tokens(docs@.take(i as int), names@);
        let small = index.insert_document(copy_value(&doc[p].1));
        let stripped = strip_id(doc, p);
        let text = json_document_to_text_document(&stripped, names);
        let toks = get_document_tokens(&tokenizer, &field_ids, &text, small);
        let ghost added = document_tokens(
            field_pairs(names@),
            text_document(without_id(docs@[i as int]@), names@),
            i,
        );
        assert(docs@.take(i + 1).drop_last() =~= docs@.take(i as int));
        assert(corpus_tokens(docs@.take(i + 1), names@) == prefix + added);
        assert(crate::index::token_views(toks@) == added);
        assert(toks@.len() == added.len());
        if toks.len() > usize::MAX - index.token_count_value() {
            proof {
                assert(index.token_count() == prefix.len());
                assert((prefix + added).len() > usize::MAX);
                lemma_corpus_tokens_grow(docs@, names@, i + 1);
                assert(corpus_tokens(docs@, config.fields@).len() > usize::MAX);
                assert(forall|j: int| 0 <= j < docs@.len() ==> has_id(#[trigger] docs@[j]@));
            }
            return Err(MinisearchIndexrsError::TooManyTokens);
        }
        let ghost mid = index;
        assert(before.walk() == walk_after(root_walk(), no_postings(), prefix));
        assert(before.postings() == postings_after(no_postings(), prefix));
        assert(mid.walk() == before.walk());
        assert(mid.postings() == before.postings());
        index.add_document_tokens(toks);
        assert(index.walk() == walk_after(mid.walk(), mid.postings(), added));
        index.store_document_fields(small, &stripped);
        proof {
            lemma_postings_after_concat(no_postings(), prefix, added);
            lemma_walk_after_concat(root_walk(), no_postings(), prefix, added);
            assert(index.walk() == walk_after(root_walk(), no_postings(), prefix + added));
            assert forall|f: usize| #[trigger]
                index.field_tokens(f) == tokens_in_field(prefix + added, f) by {
                lemma_tokens_concat(prefix, added, 0, f);
            }
            assert forall|d: usize, f: usize| #[trigger]
                index.document_field_tokens(d, f) == tokens_in_document_field(prefix + added, d, f) by {
                lemma_tokens_concat(prefix, added, d, f);
            }
            assert(index.stored() =~= stored_corpus(docs@.take(i + 1), store));
        }
    }
    assert(docs@.take(n as int) =~= docs@);
    let total = index.token_count_value();
    assert(total == corpus_tokens(docs@, names@).len());
    Ok(index)
}


/// `m` is the finished index of the corpus `docs` under `config`.
pub open spec fn built_from(m: MinisearchIndex, docs: Seq<Document>, config: IndexConfig) -> bool {
    let toks = corpus_tokens(docs, config.fields@);
    let postings = postings_after(no_postings(), toks);
    &&& m.document_count == docs.len()
    &&& m.next_id == docs.len()
    &&& m.document_ids@.len() == docs.len()
    &&& forall|i: int| 0 <= i < docs.len() ==> #[trigger] m.document_ids@[i] == id_of(docs[i]@)
    &&& m.field_ids@ == field_pairs(config.fields@)
    &&& keys_increasing(m.field_token_totals@)
    &&& counts_positive(m.field_token_totals@)
    &&& forall|f: usize| #[trigger] list_count(m.field_token_totals@, f) == tokens_in_field(toks, f)
    &&& rows_sorted(m.field_length@)
    &&& forall|d: usize, f: usize| #[trigger]
        rows_count(m.field_length@, d, f) == tokens_in_document_field(toks, d, f)
    &&& m.index.stats is None
    &&& renders_walk(flat_children(m.index.children@, 1), corpus_walk(docs, config.fields@))
    &&& tree_holds(m.index, postings)
    &&& stored_view(m.stored_fields@) == stored_corpus(docs, config.store_fields@)
}

/// Builds the index of a corpus and finishes it in the shape of the
/// minisearch format; nothing is produced when any step fails.
pub fn build_minisearch_index(docs: Vec<Document>, config: &IndexConfig) -> (r: Result<
    MinisearchIndex,
    MinisearchIndexrsError,
>)
    ensures
        (r == Err::<MinisearchIndex, MinisearchIndexrsError>(MinisearchIndexrsError::MissingId))
            <==> exists|i: int| 0 <= i < docs@.len() && !has_id(#[trigger] docs@[i]@),
        (r == Err::<MinisearchIndex, MinisearchIndexrsError>(MinisearchIndexrsError::TooManyTokens))
            <==> ((forall|i: int| 0 <= i < docs@.len() ==> has_id(#[trigger] docs@[i]@))
            && corpus_tokens(docs@, config.fields@).len() > usize::MAX),
        (r == Err::<MinisearchIndex, MinisearchIndexrsError>(MinisearchIndexrsError::TermDecoding))
            <==> ((forall|i: int| 0 <= i < docs@.len() ==> has_id(#[trigger] docs@[i]@))
            && corpus_tokens(docs@, config.fields@).len() <= usize::MAX && has_bad_label(
            corpus_walk(docs@, config.fields@),
        )),
        r is Ok ==> built_from(r->Ok_0, docs@, *config),
        docs@.len() == 0 ==> r is Ok,
{
    let ghost input = docs@;
    proof {
        if input.len() == 0 {
            assert(corpus_tokens(input, config.fields@) =~= Seq::<TokenView>::empty());
            assert(!has_bad_label(root_walk())) by {
                assert(root_walk()[0].1 =~= Seq::<u8>::empty());
                assert(vstd::utf8::valid_utf8(root_walk()[0].1));
            }
        }
    }
    let index = create_index(docs, config)?;
    let ghost names = index.field_names();
    let r = index.into_minisearch_json();
    if let Ok(m) = &r {
        assert(m.field_ids@ =~= field_pairs(names));
    }
    r
}

/// An empty corpus gives an empty index: no documents, no token statistics,
/// no stored fields and a term tree without any node below the root.
pub proof fn lemma_empty_corpus(config: IndexConfig, m: MinisearchIndex)
    requires
        built_from(m, Seq::<Document>::empty(), config),
    ensures
        m.document_count == 0,
        m.next_id == 0,
        m.document_ids@.len() == 0,
        m.field_token_totals@.len() == 0,
        m.field_length@.len() == 0,
        m.index.stats is None,
        m.index.children@.len() == 0,
        m.stored_fields@.len() == 0,
{
    let docs = Seq::<Document>::empty();
    let toks = corpus_tokens(docs, config.fields@);
    assert(toks =~= Seq::<TokenView>::empty());
    assert(corpus_walk(docs, config.fields@) == root_walk());
    lemma_lists_unique(m.field_token_totals@, Seq::<(usize, usize)>::empty());
    let no_rows = Seq::<(usize, Vec<(usize, usize)>)>::empty();
    lemma_rows_unique(m.field_length@, no_rows);
    assert(rows_view(m.field_length@).len() == m.field_length@.len());
    let cs = m.index.children@;
    if cs.len() > 0 {
        assert(flat_children(cs, 1).len() >= 1);
    }
    assert(stored_view(m.stored_fields@).len() == m.stored_fields@.len());
}

/// Building the same corpus under the same configuration twice gives
/// the same index: the same counts, identifiers, token statistics and stored
/// fields, and term trees with the same walk (depths, fragments and
/// statistics, in order), which fixes the nested tree.
pub proof fn lemma_build_deterministic(
    docs: Seq<Document>,
    config: IndexConfig,
    m1: MinisearchIndex,
    m2: MinisearchIndex,
)
    requires
        built_from(m1, docs, config),
        built_from(m2, docs, config),
    ensures
        m1.document_count == m2.document_count,
        m1.next_id == m2.next_id,
        m1.document_ids@ == m2.document_ids@,
        m1.field_ids@ == m2.field_ids@,
        m1.field_token_totals@ == m2.field_token_totals@,
        rows_view(m1.field_length@) == rows_view(m2.field_length@),
        m1.index.stats == m2.index.stats,
        flat_view(flat_children(m1.index.children@, 1)) == flat_view(
            flat_children(m2.index.children@, 1),
        ),
        stored_view(m1.stored_fields@) == stored_view(m2.stored_fields@),
{
    let toks = corpus_tokens(docs, config.fields@);
    assert(m1.document_ids@ =~= m2.document_ids@);
    assert forall|f: usize| list_count(m1.field_token_totals@, f) == list_count(
        m2.field_token_totals@,
        f,
    ) by {
        assert(list_count(m1.field_token_totals@, f) == tokens_in_field(toks, f));
        assert(list_count(m2.field_token_totals@, f) == tokens_in_field(toks, f));
    }
    lemma_lists_unique(m1.field_token_totals@, m2.field_token_totals@);
    assert forall|o: usize, i: usize| rows_count(m1.field_length@, o, i) == rows_count(
        m2.field_length@,
        o,
        i,
    ) by {
        assert(rows_count(m1.field_length@, o, i) == tokens_in_document_field(toks, o, i));
        assert(rows_count(m2.field_length@, o, i) == tokens_in_document_field(toks, o, i));
    }
    lemma_rows_unique(m1.field_length@, m2.field_length@);
    lemma_render_unique(
        flat_children(m1.index.children@, 1),
        flat_children(m2.index.children@, 1),
        corpus_walk(docs, config.fields@),
    );
}

} // verus!
