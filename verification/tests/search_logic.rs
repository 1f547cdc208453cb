use logbrin::regex::Query;
use logbrin::search::{line_of_offset, line_starts, search_batch, search_partition_data};

fn ranges(pattern: &str, content: &[u8]) -> Vec<(usize, usize)> {
    let q = Query::compile(pattern).expect("pattern should compile");
    search_batch(&q, content).expect("search should run")
}

fn emitted(pattern: &str, content: &[u8]) -> Vec<Vec<u8>> {
    ranges(pattern, content).iter().map(|&(s, e)| content[s..e].to_vec()).collect()
}

#[test]
fn line_starts_layout() {
    assert_eq!(line_starts(b"aXb\ncYd\naZb\n"), vec![0, 3, 7, 11]);
    assert_eq!(line_starts(b""), vec![0]);
    assert_eq!(line_starts(b"abc"), vec![0]);
    assert_eq!(line_starts(b"\n"), vec![0, 0]);
}

#[test]
fn offsets_map_to_lines() {
    let l = vec![0usize, 3, 7, 11];
    assert_eq!(line_of_offset(&l, 0), 0);
    assert_eq!(line_of_offset(&l, 2), 0);
    assert_eq!(line_of_offset(&l, 3), 1);
    assert_eq!(line_of_offset(&l, 9), 2);
    assert_eq!(line_of_offset(&l, 100), 3);
}

#[test]
fn line_boundary_match() {
    assert_eq!(emitted("X|Z", b"aXb\ncYd\naZb\n"), vec![b"aXb\n".to_vec(), b"aZb\n".to_vec()]);
}

#[test]
fn first_line_of_batch_starts_at_zero() {
    let rs = ranges("hit", b"hit\nmiss\nhit again\n");
    assert_eq!(rs[0].0, 0);
    assert_eq!(emitted("hit", b"hit\nmiss\nhit again\n"), vec![
        b"hit\n".to_vec(),
        b"hit again\n".to_vec()
    ]);
}

#[test]
fn no_match_no_output() {
    assert_eq!(ranges("zebra", b"aXb\ncYd\n"), Vec::<(usize, usize)>::new());
}

#[test]
fn two_matches_one_line_emitted_once() {
    assert_eq!(emitted("X", b"aXbXc\nplain\n"), vec![b"aXbXc\n".to_vec()]);
}

#[test]
fn match_crossing_newline_attributes_to_start() {
    // The pattern spans the newline between the two lines; only the
    // line holding the match's start is emitted.
    assert_eq!(emitted("b\\ncd", b"ab\ncd\nef\n"), vec![b"ab\n".to_vec()]);
}

#[test]
fn emission_in_byte_order() {
    let rs = ranges("x", b"x1\nq\nx2\nq\nx3\n");
    assert_eq!(rs.len(), 3);
    for w in rs.windows(2) {
        assert!(w[0].0 <= w[1].0);
        assert!(w[0].1 <= w[1].0);
    }
}

#[test]
fn partition_search_decompresses_and_matches() {
    let content = b"aXb\ncYd\naZb\n".to_vec();
    let data = zstd::stream::encode_all(&content[..], 1).expect("compress");
    let q = Query::compile("X|Z").expect("pattern should compile");
    let (got, rs) = search_partition_data(&q, &data).expect("search should run");
    assert_eq!(got, content);
    let lines: Vec<Vec<u8>> = rs.iter().map(|&(s, e)| got[s..e].to_vec()).collect();
    assert_eq!(lines, vec![b"aXb\n".to_vec(), b"aZb\n".to_vec()]);
}

#[test]
fn partition_search_rejects_garbage() {
    let q = Query::compile("x").expect("pattern should compile");
    assert!(search_partition_data(&q, b"not a frame").is_err());
}

#[test]
fn invalid_pattern_is_a_compile_error() {
    assert!(Query::compile("(").is_err());
}
