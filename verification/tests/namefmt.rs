use logbrin::name::{parse_name, sealed_name, temp_name};
use logbrin::num::push_dec_i64;

fn dec(i: i64) -> Vec<u8> {
    let mut v = Vec::new();
    push_dec_i64(i, &mut v);
    v
}

#[test]
fn decimal_formatting() {
    assert_eq!(dec(0), b"0".to_vec());
    assert_eq!(dec(7), b"7".to_vec());
    assert_eq!(dec(1673776800000), b"1673776800000".to_vec());
    assert_eq!(dec(-1), b"-1".to_vec());
    assert_eq!(dec(i64::MAX), b"9223372036854775807".to_vec());
    assert_eq!(dec(i64::MIN), b"-9223372036854775808".to_vec());
}

#[test]
fn parse_sealed_names() {
    assert_eq!(parse_name(b"100-200-aaaaaaaa.json.zst"), Some((100, 200)));
    assert_eq!(parse_name(b"150-250-bbbbbbbb.json.zst"), Some((150, 250)));
    assert_eq!(parse_name(b"100-200"), Some((100, 200)));
    assert_eq!(
        parse_name(b"1673776800000-1673776800000-Ab3dEf9h.json.zst"),
        Some((1673776800000, 1673776800000))
    );
}

#[test]
fn parse_negative_spans() {
    assert_eq!(parse_name(b"-5--3-aaaaaaaa.json.zst"), Some((-5, -3)));
    assert_eq!(parse_name(b"-9223372036854775808-0-xyzw1234.json.zst"), Some((i64::MIN, 0)));
}

#[test]
fn parse_rejects_inflight_and_noise() {
    assert_eq!(parse_name(b".part-abcd1234.json.zst"), None);
    assert_eq!(parse_name(b"notanumber"), None);
    assert_eq!(parse_name(b"100"), None);
    assert_eq!(parse_name(b"100-"), None);
    assert_eq!(parse_name(b"100-200x"), None);
    assert_eq!(parse_name(b""), None);
    assert_eq!(parse_name(b"--1-2"), None);
}

#[test]
fn parse_rejects_overflow() {
    assert_eq!(parse_name(b"99999999999999999999-1-aaaaaaaa.json.zst"), None);
    assert_eq!(parse_name(b"1-99999999999999999999-aaaaaaaa.json.zst"), None);
    assert_eq!(parse_name(b"9223372036854775807-0-aaaaaaaa.json.zst"), Some((i64::MAX, 0)));
}

#[test]
fn composed_names_round_trip() {
    let sfx = b"Ab3dEf9h".to_vec();
    let sealed = sealed_name(-42, 17, &sfx);
    assert_eq!(sealed, b"-42-17-Ab3dEf9h.json.zst".to_vec());
    assert_eq!(parse_name(&sealed), Some((-42, 17)));
    let temp = temp_name(&sfx);
    assert_eq!(temp, b".part-Ab3dEf9h.json.zst".to_vec());
    assert_eq!(parse_name(&temp), None);
}
