//! Snapshot persistence: the canonical document, the tolerant reader, and
//! the legacy shape.

use inflyte_monitor::record::{Record, RecordSet};
use inflyte_monitor::snapshot::{parse_snapshot, serialize_snapshot, StoreError};

fn rec(name: &str, comment: Option<&str>, rating: Option<u8>) -> Record {
    Record {
        name: name.to_string(),
        comment: comment.map(|c| c.to_string()),
        rating,
    }
}

fn set_of(records: Vec<Record>) -> RecordSet {
    let mut rs = RecordSet::new();
    for r in records {
        rs.insert(r);
    }
    rs
}

fn same_records(a: &RecordSet, b: &RecordSet) -> bool {
    a.records.len() == b.records.len()
        && a.records
            .iter()
            .zip(b.records.iter())
            .all(|(x, y)| x.name == y.name && x.comment == y.comment && x.rating == y.rating)
}

#[test]
fn canonical_document_shape() {
    let rs = set_of(vec![rec("Ana", Some("Great track!"), Some(3)), rec("Ben", None, None)]);
    let doc = serialize_snapshot(&rs);
    assert_eq!(
        doc,
        "{\"records\":[{\"name\":\"Ana\",\"comment\":\"Great track!\",\"stars\":3},{\"name\":\"Ben\"}]}"
    );
}

#[test]
fn round_trip_empty() {
    let rs = set_of(vec![]);
    let doc = serialize_snapshot(&rs);
    assert_eq!(doc, "{\"records\":[]}");
    let back = parse_snapshot(&doc).unwrap();
    assert!(same_records(&rs, &back));
}

#[test]
fn round_trip_single() {
    let rs = set_of(vec![rec("Ana", None, None)]);
    let back = parse_snapshot(&serialize_snapshot(&rs)).unwrap();
    assert!(same_records(&rs, &back));
}

#[test]
fn round_trip_many_entries() {
    let mut records = Vec::new();
    for i in 0..120 {
        let comment = if i % 2 == 0 { Some(format!("comment {}", i)) } else { None };
        let rating = if i % 3 == 0 { Some((i % 5 + 1) as u8) } else { None };
        records.push(Record { name: format!("Dj {}", i), comment, rating });
    }
    let rs = set_of(records);
    assert_eq!(rs.records.len(), 120);
    let back = parse_snapshot(&serialize_snapshot(&rs)).unwrap();
    assert!(same_records(&rs, &back));
}

#[test]
fn round_trip_escapes_and_unicode() {
    let rs = set_of(vec![
        rec("A \"quoted\" name", Some("back\\slash and\nnewline\ttab"), Some(255)),
        rec("Caf\u{e9} \u{1f3b5}", Some("l\u{e4}uft"), None),
    ]);
    let back = parse_snapshot(&serialize_snapshot(&rs)).unwrap();
    assert!(same_records(&rs, &back));
}

#[test]
fn reader_accepts_whitespace_and_null() {
    let doc = "{\n  \"records\": [\n    {\n      \"name\": \"Ana\",\n      \"comment\": null,\n      \"stars\": 2\n    },\n    {\n      \"name\": \"Ben\",\n      \"comment\": \"hi\",\n      \"stars\": null\n    }\n  ]\n}";
    let rs = parse_snapshot(doc).unwrap();
    assert_eq!(rs.records.len(), 2);
    assert_eq!(rs.records[0].name, "Ana");
    assert_eq!(rs.records[0].comment, None);
    assert_eq!(rs.records[0].rating, Some(2));
    assert_eq!(rs.records[1].name, "Ben");
    assert_eq!(rs.records[1].comment.as_deref(), Some("hi"));
    assert_eq!(rs.records[1].rating, None);
}

#[test]
fn reader_accepts_short_escapes() {
    let doc = "{\"records\":[{\"name\":\"A\\u0041 \\\"x\\\" \\n\\t\\/\"}]}";
    let rs = parse_snapshot(doc).unwrap();
    assert_eq!(rs.records.len(), 1);
    assert_eq!(rs.records[0].name, "AA \"x\" \n\t/");
}

#[test]
fn legacy_names_upgrade_in_memory() {
    let doc = "{\n  \"djs\": [\n    \"Ana\",\n    \"Ben\",\n    \"Carl\"\n  ]\n}";
    let rs = parse_snapshot(doc).unwrap();
    let names: Vec<&str> = rs.records.iter().map(|r| r.name.as_str()).collect();
    assert_eq!(names, vec!["Ana", "Ben", "Carl"]);
    for r in &rs.records {
        assert_eq!(r.comment, None);
        assert_eq!(r.rating, None);
    }
}

#[test]
fn duplicate_members_collapse_on_load() {
    let doc = "{\"records\":[{\"name\":\"Ana\"},{\"name\":\"Ana\"},{\"name\":\"Ben\"}]}";
    let rs = parse_snapshot(doc).unwrap();
    assert_eq!(rs.records.len(), 2);
}

#[test]
fn malformed_documents_are_rejected() {
    for doc in [
        "",
        "{",
        "[]",
        "{\"records\":}",
        "{\"records\":[{\"name\":1}]}",
        "{\"records\":[{\"name\":\"A\"}]} trailing",
        "{\"records\":[{\"name\":\"A\",\"stars\":999}]}",
        "{\"other\":[]}",
        "{\"djs\":[1]}",
    ] {
        assert_eq!(parse_snapshot(doc).unwrap_err(), StoreError::MalformedSnapshot);
    }
}
