use journal::manifest::Manifest;

#[test]
fn empty_manifest_prints_as_empty_object() {
    let m = Manifest::new();
    assert_eq!(m.to_json(), b"{}".to_vec());
}

#[test]
fn manifest_prints_pretty_object() {
    let mut m = Manifest::new();
    m.set(b"ws/a".to_vec(), b"d1".to_vec());
    m.set(b"ws/b".to_vec(), b"d2".to_vec());
    let expected = b"{\n  \"ws/a\": \"d1\",\n  \"ws/b\": \"d2\"\n}".to_vec();
    assert_eq!(m.to_json(), expected);
}

#[test]
fn set_replaces_existing_key_in_place() {
    let mut m = Manifest::new();
    m.set(b"ws/a".to_vec(), b"d1".to_vec());
    m.set(b"ws/b".to_vec(), b"d2".to_vec());
    m.set(b"ws/a".to_vec(), b"d3".to_vec());
    assert_eq!(m.len(), 2);
    assert_eq!(m.lookup(b"ws/a").unwrap(), &b"d3".to_vec());
    assert_eq!(m.lookup(b"ws/b").unwrap(), &b"d2".to_vec());
    assert!(m.lookup(b"ws/c").is_none());
}

#[test]
fn manifest_round_trips_through_json() {
    let mut m = Manifest::new();
    m.set(b"alpha/one.md".to_vec(), b"0011aabb".to_vec());
    m.set(b"beta/two.md".to_vec(), b"ccdd2233".to_vec());
    let json = m.to_json();
    let back = Manifest::from_json(&json).unwrap();
    assert_eq!(back.to_json(), json);
    assert_eq!(back.lookup(b"alpha/one.md").unwrap(), &b"0011aabb".to_vec());
    assert_eq!(back.lookup(b"beta/two.md").unwrap(), &b"ccdd2233".to_vec());
}

#[test]
fn manifest_escapes_special_bytes() {
    let mut m = Manifest::new();
    m.set(b"a\"b\\c".to_vec(), b"d\n1".to_vec());
    let json = m.to_json();
    let expected = b"{\n  \"a\\\"b\\\\c\": \"d\\n1\"\n}".to_vec();
    assert_eq!(json, expected);
    let back = Manifest::from_json(&json).unwrap();
    assert_eq!(back.lookup(b"a\"b\\c").unwrap(), &b"d\n1".to_vec());
}

#[test]
fn from_json_accepts_whitespace_and_unicode_escapes() {
    let json = b" { \"k\" : \"a\\u0001b\" } ";
    let m = Manifest::from_json(json).unwrap();
    assert_eq!(m.lookup(b"k").unwrap(), &b"a\x01b".to_vec());
}

#[test]
fn from_json_keeps_last_duplicate_key() {
    let json = b"{\n  \"k\": \"old\",\n  \"k\": \"new\"\n}";
    let m = Manifest::from_json(json).unwrap();
    assert_eq!(m.len(), 1);
    assert_eq!(m.lookup(b"k").unwrap(), &b"new".to_vec());
}

#[test]
fn from_json_rejects_malformed_documents() {
    assert!(Manifest::from_json(b"").is_none());
    assert!(Manifest::from_json(b"[]").is_none());
    assert!(Manifest::from_json(b"{").is_none());
    assert!(Manifest::from_json(b"{\"k\": 1}").is_none());
    assert!(Manifest::from_json(b"{\"k\": \"v\"} x").is_none());
    assert!(Manifest::from_json(b"{\"k\" \"v\"}").is_none());
    assert!(Manifest::from_json(b"{\"k\": \"v\",}").is_none());
}

#[test]
fn from_json_empty_object() {
    let m = Manifest::from_json(b"  {  }  ").unwrap();
    assert_eq!(m.len(), 0);
}
