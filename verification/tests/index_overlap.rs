use logbrin::index::IndexSearcher;

fn index_of(names: &[&[u8]]) -> IndexSearcher {
    let owned: Vec<Vec<u8>> = names.iter().map(|n| n.to_vec()).collect();
    IndexSearcher::from_names(&owned)
}

#[test]
fn overlap_filter_scenario() {
    let idx = index_of(&[
        b"100-200-aaaaaaaa.json.zst",
        b"150-250-bbbbbbbb.json.zst",
        b"300-400-cccccccc.json.zst",
    ]);
    assert_eq!(idx.len(), 3);
    let plan = idx.overlapping(210, 260);
    assert_eq!(plan.len(), 1);
    let p = idx.partition_at(plan[0]);
    assert_eq!(p.start, 150);
    assert_eq!(p.end, 250);
    assert_eq!(p.name, b"150-250-bbbbbbbb.json.zst".to_vec());
}

#[test]
fn loader_skips_inflight_and_noise() {
    let idx = index_of(&[
        b".part-aaaaaaaa.json.zst",
        b"100-200-aaaaaaaa.json.zst",
        b"README",
    ]);
    assert_eq!(idx.len(), 1);
    assert_eq!(idx.partition_at(0).start, 100);
}

#[test]
fn index_is_sorted_by_span() {
    let idx = index_of(&[
        b"300-400-cccccccc.json.zst",
        b"100-250-dddddddd.json.zst",
        b"100-200-aaaaaaaa.json.zst",
        b"-5-10-eeeeeeee.json.zst",
    ]);
    let spans: Vec<(i64, i64)> =
        (0..idx.len()).map(|i| (idx.partition_at(i).start, idx.partition_at(i).end)).collect();
    assert_eq!(spans, vec![(-5, 10), (100, 200), (100, 250), (300, 400)]);
}

#[test]
fn window_edges_are_inclusive() {
    let idx = index_of(&[b"100-200-aaaaaaaa.json.zst"]);
    assert_eq!(idx.overlapping(200, 300).len(), 1);
    assert_eq!(idx.overlapping(201, 300).len(), 0);
    assert_eq!(idx.overlapping(0, 100).len(), 1);
    assert_eq!(idx.overlapping(0, 99).len(), 0);
    assert_eq!(idx.overlapping(i64::MIN, i64::MAX).len(), 1);
}
