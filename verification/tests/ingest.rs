use logbrin::augment::{DateAugmenter, PathAugmenter};
use logbrin::name::parse_name;
use logbrin::parse::{LineParser, ParseError, RegexParser};
use logbrin::pipeline::ingest_line_at;
use logbrin::record::Value;
use logbrin::writer::{LogWriter, PartitionWriter};
use logbrin::index::IndexSearcher;
use logbrin::regex::Query;
use logbrin::search::search_partition_data;

const DEFAULT_PATTERN: &str =
    r"(?<timestamp>[\d/]{8} [\d:]{8}) (?<level>[A-Z]+) (?<component>[^:]+): (?<message>.*)$";

fn default_parser() -> RegexParser {
    RegexParser::new(DEFAULT_PATTERN).expect("default pattern should compile")
}

fn default_date() -> DateAugmenter {
    DateAugmenter {
        default_timezone: Some(0),
        fmt: "%y/%m/%d %H:%M:%S".to_string(),
        key: b"timestamp".to_vec(),
    }
}

fn path_of(name: &str) -> PathAugmenter {
    PathAugmenter { value: name.as_bytes().to_vec() }
}

fn is_alnum8(s: &[u8]) -> bool {
    s.len() == 8 && s.iter().all(|b| b.is_ascii_alphanumeric())
}

#[test]
fn ingest_roundtrip() {
    let parser = default_parser();
    let date = default_date();
    let path = path_of("x.log");
    // A zero threshold seals on the first write.
    let mut writer = PartitionWriter::new(b"idx".to_vec(), 0);
    let line = b"23/01/15 10:00:00 INFO net: hello";
    let seg = ingest_line_at(&parser, &date, &path, &mut writer, line, 42)
        .expect("ingest should succeed")
        .expect("the segment should seal");

    let name = String::from_utf8(seg.final_name.clone()).unwrap();
    let parts: Vec<&str> = name.splitn(3, '-').collect();
    assert_eq!(parts[0], "1673776800000");
    assert_eq!(parts[1], "1673776800000");
    let tail = parts[2];
    assert!(tail.ends_with(".json.zst"));
    assert!(is_alnum8(&tail.as_bytes()[..tail.len() - ".json.zst".len()]));
    assert_eq!(parse_name(&seg.final_name), Some((1673776800000, 1673776800000)));

    let temp = String::from_utf8(seg.temp_name.clone()).unwrap();
    assert!(temp.starts_with(".part-"));
    assert!(temp.ends_with(".json.zst"));
    assert_eq!(parse_name(&seg.temp_name), None);

    let content = zstd::stream::decode_all(&seg.data[..]).expect("frame should decode");
    assert_eq!(
        content,
        br#"{"timestamp":1673776800000,"level":"INFO","component":"net","message":"hello","filename":"x.log"}
"#
        .to_vec()
    );
}

#[test]
fn missing_timestamp_key_falls_back_to_clock() {
    let parser = default_parser();
    let date = default_date();
    let path = path_of("y.log");
    let mut writer = PartitionWriter::new(b"idx".to_vec(), 1 << 20);
    let line = b"this line matches nothing";
    let sealed = ingest_line_at(&parser, &date, &path, &mut writer, line, 777)
        .expect("ingest should succeed");
    assert!(sealed.is_none());
    assert_eq!(writer.min_time, 777);
    assert_eq!(writer.max_time, 777);
    let f = writer.temp_file.as_ref().expect("a segment should be in flight");
    assert_eq!(
        f.writer.target,
        br#"{"message":"this line matches nothing","timestamp":777,"filename":"y.log"}
"#
        .to_vec()
    );
    assert_eq!(f.writer.bytes, f.writer.target.len());
}

#[test]
fn unmatched_line_parses_to_message_record() {
    let parser = default_parser();
    let rec = parser.parse(b"free text").expect("parse should not fail");
    match rec.get(b"message") {
        Some(Value::Text(t)) => assert_eq!(t, b"free text"),
        other => panic!("message field missing or wrong: {:?}", other.is_some()),
    }
    assert!(rec.get(b"timestamp").is_none());
}

#[test]
fn unnamed_participating_group_traps() {
    let parser = RegexParser::new("(a)(?<x>b)").expect("pattern should compile");
    match parser.parse(b"ab") {
        Err(ParseError::UnnamedGroup) => {},
        _ => panic!("an unnamed participating group should trap"),
    }
}

#[test]
fn rollover() {
    let mut writer = PartitionWriter::new(b"idx".to_vec(), 80);
    // Each write adds its 40 bytes and a newline: 41 input bytes.
    let rec40 = [b'r'; 40];
    let first = writer.write_log(&rec40, 10);
    assert!(first.is_none());
    let seg = writer.write_log(&rec40, 20).expect("the second write should seal at 82 > 80");
    assert_eq!(seg.min_time, 10);
    assert_eq!(seg.max_time, 20);
    let content = zstd::stream::decode_all(&seg.data[..]).expect("frame should decode");
    assert_eq!(content.len(), 82);
    let third = writer.write_log(&rec40, 30);
    assert!(third.is_none());
    assert!(writer.temp_file.is_some());
    assert_eq!(writer.min_time, 30);
    assert_eq!(writer.max_time, 30);
}

#[test]
fn threshold_is_strict() {
    // 41 input bytes against a threshold of exactly 41: no seal, the
    // count must be strictly greater.
    let mut writer = PartitionWriter::new(b"idx".to_vec(), 41);
    let rec40 = [b'x'; 40];
    assert!(writer.write_log(&rec40, 1).is_none());
    assert!(writer.write_log(&rec40, 2).is_some());
}

#[test]
fn span_covers_all_records() {
    let mut writer = PartitionWriter::new(b"idx".to_vec(), 10);
    assert!(writer.write_log(b"aaaa", 500).is_none());
    assert!(writer.write_log(b"bbbb", -3).is_none());
    let seg = writer.write_log(b"cccc", 120).expect("should seal at 15 > 10");
    assert_eq!(seg.min_time, -3);
    assert_eq!(seg.max_time, 500);
    assert_eq!(parse_name(&seg.final_name), Some((-3, 500)));
}

#[test]
fn end_to_end_ingest_index_search() {
    let parser = default_parser();
    let date = default_date();
    let path = path_of("z.log");
    // Seal after every line: one partition per record.
    let mut writer = PartitionWriter::new(b"idx".to_vec(), 0);
    let lines: [&[u8]; 3] = [
        b"23/01/15 10:00:00 INFO net: alpha",
        b"23/01/15 11:00:00 WARN disk: beta",
        b"23/01/15 12:00:00 INFO net: gamma",
    ];
    let mut segs = Vec::new();
    for (i, line) in lines.iter().enumerate() {
        let seg = ingest_line_at(&parser, &date, &path, &mut writer, line, i as i64)
            .expect("ingest should succeed")
            .expect("each line should seal its own segment");
        segs.push(seg);
    }

    let names: Vec<Vec<u8>> = segs.iter().map(|s| s.final_name.clone()).collect();
    let index = IndexSearcher::from_names(&names);
    assert_eq!(index.len(), 3);

    // 10:00 and 11:00 UTC on that day, in epoch milliseconds.
    let h10 = 1673776800000i64;
    let h11 = h10 + 3600000;
    let plan = index.overlapping(h10, h11);
    assert_eq!(plan.len(), 2);

    let q = Query::compile("INFO").expect("pattern should compile");
    let mut hits = Vec::new();
    for &i in &plan {
        let meta = index.partition_at(i);
        let seg = segs
            .iter()
            .find(|s| s.final_name == meta.name)
            .expect("every indexed name came from a sealed segment");
        let (content, ranges) = search_partition_data(&q, &seg.data).expect("search should run");
        for &(s, e) in &ranges {
            hits.push(content[s..e].to_vec());
        }
    }
    assert_eq!(hits.len(), 1);
    assert!(String::from_utf8(hits[0].clone()).unwrap().contains("alpha"));
}
