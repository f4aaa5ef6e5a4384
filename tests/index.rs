use minisearch_indexrs::counts::CountTable;
use minisearch_indexrs::documents::{get_document_tokens, json_document_to_text_document};
use minisearch_indexrs::errors::MinisearchIndexrsError;
use minisearch_indexrs::index::{
    field_length_json, process_term, FieldValue, Index, IndexConfig,
};
use minisearch_indexrs::serializer::term_stats;
use minisearch_indexrs::tokenizer::{tokenize, Tokenizer};

fn config(fields: &[&str], store: &[&str]) -> IndexConfig {
    IndexConfig {
        fields: fields.iter().map(|s| s.to_string()).collect(),
        store_fields: store.iter().map(|s| s.to_string()).collect(),
    }
}

#[test]
fn test_insert_document() {
    let mut index = Index::new(&config(&["author", "title"], &["author", "title"]));

    index.insert_document(FieldValue::Text("id1".to_string()));
    index.insert_document(FieldValue::Text("id2".to_string()));
    index.insert_document(FieldValue::Text("id3".to_string()));
    index.insert_document(FieldValue::Number("4".to_string()));

    assert_eq!(index.document_count_value(), 4);
    assert_eq!(
        index.document_ids_value(),
        &vec![
            FieldValue::Text("id1".to_string()),
            FieldValue::Text("id2".to_string()),
            FieldValue::Text("id3".to_string()),
            FieldValue::Number("4".to_string()),
        ]
    );
}

#[test]
fn test_add_document_tokens() {
    let mut index = Index::new(&config(&["author", "title"], &["author", "title"]));
    index
        .add_document_tokens(vec![
            ("foo".to_owned(), 0, 0),
            ("bar".to_owned(), 1, 0),
            ("foo".to_owned(), 0, 1),
            ("baz".to_owned(), 1, 1),
        ])
        .unwrap();
    assert_eq!(index.postings_of("foo"), Some(vec![(0, 0), (1, 0)]));
    assert_eq!(index.postings_of("bar"), Some(vec![(0, 1)]));
    assert_eq!(index.postings_of("baz"), Some(vec![(1, 1)]));
}

#[test]
fn add_document_tokens_lowercases_terms_and_counts_tokens() {
    let mut index = Index::new(&config(&["a", "b"], &[]));
    index
        .add_document_tokens(vec![
            ("Foo".to_owned(), 0, 0),
            ("FOO".to_owned(), 1, 0),
            ("foo".to_owned(), 0, 0),
        ])
        .unwrap();
    assert_eq!(index.postings_of("foo"), Some(vec![(0, 0), (0, 1), (0, 0)]));
    assert_eq!(index.postings_of("Foo"), None);
    assert_eq!(index.token_count_value(), 3);
}

#[test]
fn add_token_appends_to_an_existing_list() {
    let mut index = Index::new(&config(&["a"], &[]));
    index.add_token(3, "x", 0);
    index.add_token(5, "x", 0);
    index.add_token(3, "x", 0);
    assert_eq!(index.postings_of("x"), Some(vec![(3, 0), (5, 0), (3, 0)]));
}

#[test]
fn field_ids_follow_configuration_order() {
    let index = Index::new(&config(&["title", "author", "year"], &[]));
    assert_eq!(
        index.field_ids(),
        vec![
            ("title".to_string(), 0),
            ("author".to_string(), 1),
            ("year".to_string(), 2)
        ]
    );
}

#[test]
fn process_term_lowercases() {
    assert_eq!(process_term("HeLLo"), "hello");
    assert_eq!(process_term("ÉTÉ"), "été");
}

#[test]
fn tokenize_splits_on_punctuation_and_separators() {
    let t = Tokenizer::new();
    assert_eq!(tokenize(&t, "Hello, World!"), vec!["Hello", "World"]);
    assert_eq!(tokenize(&t, "  a--b  "), vec!["a", "b"]);
    assert_eq!(tokenize(&t, "x\u{3000}y\u{00A0}z"), vec!["x", "y", "z"]);
    assert_eq!(tokenize(&t, "123"), vec!["123"]);
}

#[test]
fn tokenize_drops_empty_terms() {
    let t = Tokenizer::new();
    assert_eq!(tokenize(&t, ""), Vec::<String>::new());
    assert_eq!(tokenize(&t, "!!!"), Vec::<String>::new());
    assert_eq!(tokenize(&t, ",lead"), vec!["lead"]);
}

#[test]
fn text_document_keeps_id_and_configured_scalar_fields() {
    let doc = vec![
        ("id".to_string(), FieldValue::Text("x".to_string())),
        ("a".to_string(), FieldValue::Null),
        ("b".to_string(), FieldValue::Number("12.5".to_string())),
        ("c".to_string(), FieldValue::Text("other".to_string())),
        ("d".to_string(), FieldValue::Bool(true)),
        ("e".to_string(), FieldValue::Composite("[1]".to_string())),
    ];
    let fields = vec!["a".to_string(), "b".to_string(), "d".to_string(), "e".to_string()];
    assert_eq!(
        json_document_to_text_document(&doc, &fields),
        vec![
            ("id".to_string(), "x".to_string()),
            ("a".to_string(), "".to_string()),
            ("b".to_string(), "12.5".to_string()),
        ]
    );
}

#[test]
fn document_tokens_go_field_by_field() {
    let t = Tokenizer::new();
    let field_ids = vec![("b".to_string(), 1), ("a".to_string(), 0), ("z".to_string(), 2)];
    let doc = vec![
        ("a".to_string(), "one two".to_string()),
        ("b".to_string(), "three".to_string()),
    ];
    assert_eq!(
        get_document_tokens(&t, &field_ids, &doc, 7),
        vec![
            ("three".to_string(), 1, 7),
            ("one".to_string(), 0, 7),
            ("two".to_string(), 0, 7),
        ]
    );
}

#[test]
fn term_stats_count_per_field_and_document() {
    let stats = term_stats(&vec![(1, 0), (0, 0), (1, 0), (0, 1), (4, 0)]);
    assert_eq!(stats.len(), 2);
    assert_eq!(stats[0].field_id, 0);
    assert_eq!(stats[0].df, 3);
    assert_eq!(stats[0].ds, vec![(0, 1), (1, 2), (4, 1)]);
    assert_eq!(stats[1].field_id, 1);
    assert_eq!(stats[1].df, 1);
    assert_eq!(stats[1].ds, vec![(0, 1)]);
}

#[test]
fn term_stats_keep_every_field_of_a_shared_term() {
    let stats = term_stats(&vec![(0, 0), (0, 1)]);
    assert_eq!(stats.len(), 2);
    assert_eq!((stats[0].field_id, stats[0].df, stats[0].ds.clone()), (0, 1, vec![(0, 1)]));
    assert_eq!((stats[1].field_id, stats[1].df, stats[1].ds.clone()), (1, 1, vec![(0, 1)]));
}

#[test]
fn test_field_length_json() {
    let mut table = CountTable::new();
    for _ in 0..4 {
        table.increment(1, 1);
    }
    for _ in 0..5 {
        table.increment(3, 1);
    }
    for _ in 0..6 {
        table.increment(3, 2);
    }
    let json = field_length_json(table);
    assert_eq!(json, vec![(1, vec![(1, 4)]), (3, vec![(1, 5), (2, 6)])]);
}

#[test]
fn count_table_keeps_keys_sorted() {
    let mut table = CountTable::new();
    table.increment(5, 2);
    table.increment(1, 9);
    table.increment(5, 0);
    table.increment(1, 9);
    let rows = field_length_json(table);
    assert_eq!(rows, vec![(1, vec![(9, 2)]), (5, vec![(0, 1), (2, 1)])]);
}

#[test]
fn error_messages() {
    assert_eq!(
        MinisearchIndexrsError::MissingId.message(),
        "item to index does not have an id field"
    );
}
