use logbrin::augment::DateAugmenter;
use logbrin::record::{Record, Value};

#[test]
fn serializer_canonical_form() {
    let mut rec = Record::new();
    rec.insert(b"timestamp".to_vec(), Value::Int(1673776800000));
    rec.insert(b"level".to_vec(), Value::Text(b"INFO".to_vec()));
    rec.insert(b"message".to_vec(), Value::Text(b"hello".to_vec()));
    assert_eq!(
        rec.serialize(),
        br#"{"timestamp":1673776800000,"level":"INFO","message":"hello"}"#.to_vec()
    );
}

#[test]
fn serializer_escapes_meta_bytes() {
    let mut rec = Record::new();
    rec.insert(b"m".to_vec(), Value::Text(b"a\"b\\c\nd".to_vec()));
    assert_eq!(rec.serialize(), br#"{"m":"a\"b\\c\nd"}"#.to_vec());
}

#[test]
fn serializer_negative_integers() {
    let mut rec = Record::new();
    rec.insert(b"t".to_vec(), Value::Int(-42));
    assert_eq!(rec.serialize(), br#"{"t":-42}"#.to_vec());
}

#[test]
fn empty_record_serializes_to_braces() {
    assert_eq!(Record::new().serialize(), b"{}".to_vec());
}

#[test]
fn insert_replaces_in_place() {
    let mut rec = Record::new();
    rec.insert(b"a".to_vec(), Value::Int(1));
    rec.insert(b"b".to_vec(), Value::Int(2));
    rec.insert(b"a".to_vec(), Value::Int(9));
    assert_eq!(rec.serialize(), br#"{"a":9,"b":2}"#.to_vec());
    match rec.get(b"a") {
        Some(Value::Int(v)) => assert_eq!(*v, 9),
        _ => panic!("the value under a should be 9"),
    }
}

#[test]
fn take_removes_the_field() {
    let mut rec = Record::new();
    rec.insert(b"a".to_vec(), Value::Int(1));
    rec.insert(b"b".to_vec(), Value::Int(2));
    match rec.take(b"a") {
        Some(Value::Int(v)) => assert_eq!(v, 1),
        _ => panic!("a should have been present"),
    }
    assert!(rec.get(b"a").is_none());
    assert_eq!(rec.serialize(), br#"{"b":2}"#.to_vec());
}

#[test]
fn date_augmenter_fixed_offset() {
    // 10:00 at +01:00 is 09:00 UTC, one hour before the UTC reading.
    let aug = DateAugmenter {
        default_timezone: Some(3600),
        fmt: "%y/%m/%d %H:%M:%S".to_string(),
        key: b"timestamp".to_vec(),
    };
    let mut rec = Record::new();
    rec.insert(b"timestamp".to_vec(), Value::Text(b"23/01/15 10:00:00".to_vec()));
    aug.augment_at(&mut rec, 0);
    match rec.get(b"timestamp") {
        Some(Value::Int(v)) => assert_eq!(*v, 1673773200000),
        _ => panic!("timestamp should be an integer"),
    }
}

#[test]
fn date_augmenter_zone_aware() {
    let aug = DateAugmenter {
        default_timezone: None,
        fmt: "%Y-%m-%d %H:%M:%S %z".to_string(),
        key: b"t".to_vec(),
    };
    let mut rec = Record::new();
    rec.insert(b"t".to_vec(), Value::Text(b"2023-01-15 10:00:00 +0100".to_vec()));
    aug.augment_at(&mut rec, 0);
    match rec.get(b"t") {
        Some(Value::Int(v)) => assert_eq!(*v, 1673773200000),
        _ => panic!("t should be an integer"),
    }
}

#[test]
fn date_augmenter_unparseable_takes_clock() {
    let aug = DateAugmenter {
        default_timezone: Some(0),
        fmt: "%y/%m/%d %H:%M:%S".to_string(),
        key: b"t".to_vec(),
    };
    let mut rec = Record::new();
    rec.insert(b"t".to_vec(), Value::Text(b"not a date".to_vec()));
    aug.augment_at(&mut rec, 424242);
    match rec.get(b"t") {
        Some(Value::Int(v)) => assert_eq!(*v, 424242),
        _ => panic!("t should be an integer"),
    }
}

#[test]
fn serialize_then_parse_round_trip() {
    let mut rec = Record::new();
    rec.insert(b"timestamp".to_vec(), Value::Int(1673776800000));
    rec.insert(b"level".to_vec(), Value::Text(b"INFO".to_vec()));
    rec.insert(b"message".to_vec(), Value::Text(b"say \"hi\" \\ there\n".to_vec()));
    rec.insert(b"neg".to_vec(), Value::Int(-7));
    let line = rec.serialize();
    let back = Record::parse(&line).expect("the canonical line should parse");
    assert_eq!(back.serialize(), line);
    match back.get(b"timestamp") {
        Some(Value::Int(v)) => assert_eq!(*v, 1673776800000),
        _ => panic!("timestamp should come back as the same integer"),
    }
    match back.get(b"message") {
        Some(Value::Text(t)) => assert_eq!(t, b"say \"hi\" \\ there\n"),
        _ => panic!("message should come back unescaped"),
    }
}

#[test]
fn parse_rejects_junk() {
    assert!(Record::parse(b"").is_none());
    assert!(Record::parse(b"not a record").is_none());
    assert!(Record::parse(b"{").is_none());
    assert!(Record::parse(br#"{"a":}"#).is_none());
    assert!(Record::parse(br#"{"a":1"#).is_none());
    assert!(Record::parse(br#"{"a":1}x"#).is_none());
    assert!(Record::parse(br#"{"":1}"#).is_none());
    assert!(Record::parse(b"{}").is_some());
    assert!(Record::parse(br#"{"a":1,"b":"x"}"#).is_some());
}
