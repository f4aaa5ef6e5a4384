use minisearch_indexrs::documents::build_minisearch_index;
use minisearch_indexrs::errors::MinisearchIndexrsError;
use minisearch_indexrs::index::{FieldValue, IndexConfig, MinisearchIndex};
use minisearch_indexrs::serializer::{map_json, TreeNode};
use patricia_tree::PatriciaMap;
use serde_json::Value;

type JsonObject = serde_json::Map<String, Value>;

fn tree_json(node: &TreeNode) -> JsonObject {
    let mut obj = JsonObject::new();
    if let Some(stats) = &node.stats {
        let mut fields = JsonObject::new();
        for s in stats {
            let mut ds = JsonObject::new();
            for (doc, count) in &s.ds {
                ds.insert(doc.to_string(), Value::from(*count));
            }
            let mut entry = JsonObject::new();
            entry.insert("df".to_string(), Value::from(s.df));
            entry.insert("ds".to_string(), Value::Object(ds));
            fields.insert(s.field_id.to_string(), Value::Object(entry));
        }
        obj.insert(String::new(), Value::Object(fields));
    }
    for child in &node.children {
        obj.insert(child.fragment.clone(), Value::Object(tree_json(&child.node)));
    }
    obj
}

fn index_json(node: &TreeNode) -> Value {
    let mut obj = JsonObject::new();
    obj.insert("_prefix".to_string(), Value::from(""));
    obj.insert("_tree".to_string(), Value::Object(tree_json(node)));
    Value::Object(obj)
}

fn value_json(v: &FieldValue) -> Value {
    match v {
        FieldValue::Null => Value::Null,
        FieldValue::Bool(b) => Value::Bool(*b),
        FieldValue::Number(s) | FieldValue::Composite(s) => serde_json::from_str(s).unwrap(),
        FieldValue::Text(s) => Value::from(s.clone()),
    }
}

fn minisearch_json(m: &MinisearchIndex) -> Value {
    let mut h = JsonObject::new();
    h.insert("documentCount".to_string(), Value::from(m.document_count));
    h.insert("nextId".to_string(), Value::from(m.next_id));
    let mut ids = JsonObject::new();
    for (i, id) in m.document_ids.iter().enumerate() {
        ids.insert(i.to_string(), value_json(id));
    }
    h.insert("documentIds".to_string(), Value::Object(ids));
    let mut field_ids = JsonObject::new();
    for (name, id) in &m.field_ids {
        field_ids.insert(name.clone(), Value::from(*id));
    }
    h.insert("fieldIds".to_string(), Value::Object(field_ids));
    let mut avg = JsonObject::new();
    for (field, total) in &m.field_token_totals {
        let a = if m.document_count == 0 { 0.0 } else { *total as f64 / m.document_count as f64 };
        avg.insert(field.to_string(), Value::from(a));
    }
    h.insert("averageFieldLength".to_string(), Value::Object(avg));
    let mut lengths = JsonObject::new();
    for (doc, fields) in &m.field_length {
        let mut inner = JsonObject::new();
        for (field, count) in fields {
            inner.insert(field.to_string(), Value::from(*count));
        }
        lengths.insert(doc.to_string(), Value::Object(inner));
    }
    h.insert("fieldLength".to_string(), Value::Object(lengths));
    h.insert("index".to_string(), index_json(&m.index));
    let mut stored = JsonObject::new();
    for (doc, values) in &m.stored_fields {
        let mut inner = JsonObject::new();
        for (name, v) in values {
            inner.insert(name.clone(), value_json(v));
        }
        stored.insert(doc.to_string(), Value::Object(inner));
    }
    h.insert("storedFields".to_string(), Value::Object(stored));
    Value::Object(h)
}

fn text(s: &str) -> FieldValue {
    FieldValue::Text(s.to_string())
}

fn doc(pairs: Vec<(&str, FieldValue)>) -> Vec<(String, FieldValue)> {
    pairs.into_iter().map(|(k, v)| (k.to_string(), v)).collect()
}

fn config(fields: &[&str], store: &[&str]) -> IndexConfig {
    IndexConfig {
        fields: fields.iter().map(|s| s.to_string()).collect(),
        store_fields: store.iter().map(|s| s.to_string()).collect(),
    }
}

fn parse(s: &str) -> Value {
    serde_json::from_str(s).unwrap()
}

#[test]
fn test_integration() {
    let docs = vec![
        doc(vec![("id", text("bar")), ("a", text("1")), ("b", text("123")), ("c", text("124"))]),
        doc(vec![("id", text("foo")), ("a", text("a")), ("b", text("b")), ("c", text("cd"))]),
    ];
    let out = build_minisearch_index(docs, &config(&["a", "b"], &["a"])).unwrap();
    let expected = parse(
        r#"{
           "averageFieldLength" : { "0" : 1.0, "1" : 1.0 },
           "documentCount" : 2,
           "documentIds" : { "0" : "bar", "1" : "foo" },
           "fieldIds" : { "a" : 0, "b" : 1 },
           "fieldLength" : { "0" : { "0" : 1, "1" : 1 }, "1" : { "0" : 1, "1" : 1 } },
           "index" : {
              "_prefix" : "",
              "_tree" : {
                 "1" : {
                    "" : { "0" : { "df" : 1, "ds" : { "0" : 1 } } },
                    "23" : { "" : { "1" : { "df" : 1, "ds" : { "0" : 1 } } } }
                 },
                 "a" : { "" : { "0" : { "df" : 1, "ds" : { "1" : 1 } } } },
                 "b" : { "" : { "1" : { "df" : 1, "ds" : { "1" : 1 } } } }
              }
           },
           "nextId" : 2,
           "storedFields": { "0": { "a": "1" }, "1": { "a": "a" } }
        }"#,
    );
    assert_eq!(minisearch_json(&out), expected);
}

#[test]
fn test_map_json() {
    let mut map = PatriciaMap::new();
    map.insert("harry", vec![(0, 0), (1, 0)]);
    map.insert("potter", vec![(0, 0), (1, 0)]);
    map.insert("and", vec![(0, 0), (1, 0)]);
    map.insert("the", vec![(0, 0), (1, 0)]);
    map.insert("philosopher", vec![(0, 0)]);
    map.insert("s", vec![(0, 0)]);
    map.insert("stone", vec![(0, 0)]);
    map.insert("chamber", vec![(1, 0)]);
    map.insert("of", vec![(1, 0), (2, 0)]);
    map.insert("secrets", vec![(1, 0)]);
    map.insert("homo", vec![(2, 0)]);
    map.insert("deus", vec![(2, 0)]);
    map.insert("a", vec![(2, 0), (3, 0)]);
    map.insert("history", vec![(2, 0)]);
    map.insert("tomorrow", vec![(2, 0)]);
    map.insert("to", vec![(3, 0)]);
    map.insert("kill", vec![(3, 0)]);
    map.insert("mockingbird", vec![(3, 0)]);
    map.insert("life", vec![(4, 0), (4, 0)]);
    map.insert("after", vec![(4, 0)]);
    let json = index_json(&map_json(map).unwrap());
    let one = |d: u32| format!(r#"{{ "": {{ "0": {{ "df": 1, "ds": {{ "{}": 1 }} }} }} }}"#, d);
    let two = |a: u32, b: u32| {
        format!(r#"{{ "": {{ "0": {{ "df": 2, "ds": {{ "{}": 1, "{}": 1 }} }} }} }}"#, a, b)
    };
    let expected = parse(&format!(
        r#"{{
          "_prefix" : "",
          "_tree" : {{
             "a" : {{
                "" : {{ "0" : {{ "df" : 2, "ds" : {{ "2" : 1, "3" : 1 }} }} }},
                "fter" : {a4},
                "nd" : {and}
             }},
             "chamber" : {c1},
             "deus" : {d2},
             "h" : {{ "arry" : {harry}, "istory" : {h2}, "omo" : {o2} }},
             "kill" : {k3},
             "life" : {{ "" : {{ "0" : {{ "df" : 1, "ds" : {{ "4" : 2 }} }} }} }},
             "mockingbird" : {m3},
             "of" : {of},
             "p" : {{ "hilosopher" : {p0}, "otter" : {potter} }},
             "s" : {{
                "" : {{ "0" : {{ "df" : 1, "ds" : {{ "0" : 1 }} }} }},
                "ecrets" : {s1},
                "tone" : {t0}
             }},
             "t" : {{
                "he" : {the},
                "o" : {{
                   "" : {{ "0" : {{ "df" : 1, "ds" : {{ "3" : 1 }} }} }},
                   "morrow" : {tm2}
                }}
             }}
          }}
        }}"#,
        a4 = one(4),
        and = two(0, 1),
        c1 = one(1),
        d2 = one(2),
        harry = two(0, 1),
        h2 = one(2),
        o2 = one(2),
        k3 = one(3),
        m3 = one(3),
        of = two(1, 2),
        p0 = one(0),
        potter = two(0, 1),
        s1 = one(1),
        t0 = one(0),
        the = two(0, 1),
        tm2 = one(2),
    ));
    assert_eq!(json, expected);
}

#[test]
fn shared_term_keeps_the_statistics_of_every_field() {
    let docs = vec![doc(vec![("id", text("d")), ("a", text("x")), ("b", text("x x"))])];
    let out = build_minisearch_index(docs, &config(&["a", "b"], &[])).unwrap();
    let expected = parse(
        r#"{ "_prefix": "", "_tree": { "x": { "": {
            "0": { "df": 1, "ds": { "0": 1 } },
            "1": { "df": 1, "ds": { "0": 2 } } } } } }"#,
    );
    assert_eq!(index_json(&out.index), expected);
}

#[test]
fn empty_corpus_gives_an_empty_index() {
    let out = build_minisearch_index(Vec::new(), &config(&["a", "b"], &["a"])).unwrap();
    let expected = parse(
        r#"{ "documentCount": 0, "nextId": 0, "documentIds": {}, "fieldIds": { "a": 0, "b": 1 },
             "averageFieldLength": {}, "fieldLength": {},
             "index": { "_prefix": "", "_tree": {} }, "storedFields": {} }"#,
    );
    assert_eq!(minisearch_json(&out), expected);
}

#[test]
fn a_document_without_id_aborts_the_build() {
    let docs = vec![
        doc(vec![("id", text("a")), ("a", text("x"))]),
        doc(vec![("a", text("y"))]),
    ];
    assert!(matches!(
        build_minisearch_index(docs, &config(&["a"], &[])),
        Err(MinisearchIndexrsError::MissingId)
    ));
}

#[test]
fn a_label_split_inside_a_character_fails_the_build() {
    let docs = vec![doc(vec![("id", text("a")), ("a", text("élan ère"))])];
    assert!(matches!(
        build_minisearch_index(docs, &config(&["a"], &[])),
        Err(MinisearchIndexrsError::TermDecoding)
    ));
}

#[test]
fn building_twice_gives_the_same_output() {
    let make = || {
        vec![
            doc(vec![("id", FieldValue::Number("7".to_string())), ("t", text("The cat, the hat"))]),
            doc(vec![("id", FieldValue::Null), ("t", text("Hat trick")), ("s", FieldValue::Bool(true))]),
        ]
    };
    let cfg = config(&["t", "s"], &["s", "t"]);
    let first = serde_json::to_string(&minisearch_json(&build_minisearch_index(make(), &cfg).unwrap())).unwrap();
    let second = serde_json::to_string(&minisearch_json(&build_minisearch_index(make(), &cfg).unwrap())).unwrap();
    assert_eq!(first, second);
    let v = parse(&first);
    assert_eq!(v["documentIds"], parse(r#"{ "0": 7, "1": null }"#));
    assert_eq!(v["fieldLength"], parse(r#"{ "0": { "0": 4 }, "1": { "0": 2 } }"#));
    assert_eq!(v["averageFieldLength"], parse(r#"{ "0": 3.0 }"#));
    assert_eq!(v["storedFields"], parse(r#"{ "0": { "t": "The cat, the hat" }, "1": { "s": true, "t": "Hat trick" } }"#));
    assert_eq!(
        v["index"]["_tree"]["t"]["he"],
        parse(r#"{ "": { "0": { "df": 1, "ds": { "0": 2 } } } }"#)
    );
    assert_eq!(
        v["index"]["_tree"]["hat"],
        parse(r#"{ "": { "0": { "df": 2, "ds": { "0": 1, "1": 1 } } } }"#)
    );
}

#[test]
fn id_field_is_not_indexed_as_text() {
    let docs = vec![doc(vec![("id", text("alpha")), ("id2", text("beta"))])];
    let out = build_minisearch_index(docs, &config(&["id", "id2"], &[])).unwrap();
    assert_eq!(
        index_json(&out.index),
        parse(r#"{ "_prefix": "", "_tree": { "beta": { "": { "1": { "df": 1, "ds": { "0": 1 } } } } } }"#)
    );
}
