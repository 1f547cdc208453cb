use vstd::prelude::*;
use crate::name::{parse_name, spec_parse_name};
use vstd::slice::slice_to_vec;

verus! {

/// One sealed partition as the loader records it: the span parsed
/// from the entry name, and the name itself.
pub struct PartitionMeta {
    pub start: i64,
    pub end: i64,
    pub name: Vec<u8>,
}

impl View for PartitionMeta {
    type V = (i64, i64, Seq<u8>);

    open spec fn view(&self) -> (i64, i64, Seq<u8>) {
        (self.start, self.end, self.name@)
    }
}

/// Lexicographic order on `(start, end)`, the index's sort key.
pub open spec fn key_le(p: (i64, i64, Seq<u8>), q: (i64, i64, Seq<u8>)) -> bool {
    p.0 < q.0 || (p.0 == q.0 && p.1 <= q.1)
}

pub open spec fn spec_sorted(s: Seq<(i64, i64, Seq<u8>)>) -> bool {
    forall|i: int, j: int| 0 <= i < j < s.len() ==> key_le(#[trigger] s[i], #[trigger] s[j])
}

/// The entries a directory listing yields, in listing order: each
/// name that parses, with its span.
pub open spec fn spec_index_entries(ns: Seq<Seq<u8>>) -> Seq<(i64, i64, Seq<u8>)>
    decreases ns.len(),
{
    if ns.len() == 0 {
        Seq::empty()
    } else {
        spec_index_entries(ns.drop_last()) + match spec_parse_name(ns.last()) {
            Some((a, b)) => seq![(a, b, ns.last())],
            None => Seq::empty(),
        }
    }
}

/// Stable insertion into a sorted sequence: the new entry lands after
/// every entry not greater than it.
pub open spec fn spec_insert(s: Seq<(i64, i64, Seq<u8>)>, m: (i64, i64, Seq<u8>)) -> Seq<
    (i64, i64, Seq<u8>),
>
    decreases s.len(),
{
    if s.len() == 0 {
        seq![m]
    } else if !key_le(s[0], m) {
        seq![m] + s
    } else {
        seq![s[0]] + spec_insert(s.subrange(1, s.len() as int), m)
    }
}

/// The sort the loader applies to the entries.
pub open spec fn spec_sort(e: Seq<(i64, i64, Seq<u8>)>) -> Seq<(i64, i64, Seq<u8>)>
    decreases e.len(),
{
    if e.len() == 0 {
        Seq::empty()
    } else {
        spec_insert(spec_sort(e.drop_last()), e.last())
    }
}

pub proof fn lemma_spec_insert_props(s: Seq<(i64, i64, Seq<u8>)>, m: (i64, i64, Seq<u8>))
    requires
        spec_sorted(s),
    ensures
        spec_insert(s, m).len() == s.len() + 1,
        spec_sorted(spec_insert(s, m)),
        forall|x: (i64, i64, Seq<u8>)|
            #[trigger] spec_insert(s, m).contains(x) <==> (s.contains(x) || x == m),
    decreases s.len(),
{
    let r = spec_insert(s, m);
    if s.len() == 0 {
        assert forall|x: (i64, i64, Seq<u8>)| #[trigger] r.contains(x) implies (s.contains(x) || x
            == m) by {
            let k = choose|k: int| 0 <= k < r.len() && r[k] == x;
            assert(r[k] == m);
        }
        assert(r.contains(m)) by {
            assert(r[0] == m);
        }
    } else if !key_le(s[0], m) {
        assert(r == seq![m] + s);
        assert forall|i: int, j: int| 0 <= i < j < r.len() implies key_le(
            #[trigger] r[i],
            #[trigger] r[j],
        ) by {
            if i == 0 {
                assert(r[j] == s[j - 1]);
                if j >= 2 {
                    assert(key_le(s[0], s[j - 1]));
                }
            } else {
                assert(r[i] == s[i - 1] && r[j] == s[j - 1]);
            }
        }
        assert forall|x: (i64, i64, Seq<u8>)| #[trigger] r.contains(x) implies (s.contains(x) || x
            == m) by {
            let k = choose|k: int| 0 <= k < r.len() && r[k] == x;
            if k > 0 {
                assert(s[k - 1] == x);
            }
        }
        assert forall|x: (i64, i64, Seq<u8>)| s.contains(x) || x == m implies #[trigger] r.contains(
            x,
        ) by {
            if s.contains(x) {
                let k = choose|k: int| 0 <= k < s.len() && s[k] == x;
                assert(r[k + 1] == x);
            } else {
                assert(r[0] == m);
            }
        }
    } else {
        let tl = s.subrange(1, s.len() as int);
        assert(spec_sorted(tl)) by {
            assert(forall|i: int, j: int|
                0 <= i < j < tl.len() ==> tl[i] == s[i + 1] && tl[j] == s[j + 1]);
        }
        lemma_spec_insert_props(tl, m);
        let rt = spec_insert(tl, m);
        assert(r == seq![s[0]] + rt);
        assert forall|i: int, j: int| 0 <= i < j < r.len() implies key_le(
            #[trigger] r[i],
            #[trigger] r[j],
        ) by {
            if i == 0 {
                assert(r[j] == rt[j - 1]);
                assert(rt.contains(rt[j - 1]));
                if rt[j - 1] == m {
                    assert(key_le(s[0], m));
                } else {
                    assert(tl.contains(rt[j - 1]));
                    let k = choose|k: int| 0 <= k < tl.len() && tl[k] == rt[j - 1];
                    assert(tl[k] == s[k + 1]);
                    assert(key_le(s[0], s[k + 1]));
                }
            } else {
                assert(r[i] == rt[i - 1] && r[j] == rt[j - 1]);
            }
        }
        assert forall|x: (i64, i64, Seq<u8>)| #[trigger] r.contains(x) implies (s.contains(x) || x
            == m) by {
            let k = choose|k: int| 0 <= k < r.len() && r[k] == x;
            if k == 0 {
                assert(s[0] == x);
            } else {
                assert(rt[k - 1] == x);
                assert(rt.contains(x));
                if tl.contains(x) {
                    let k2 = choose|k2: int| 0 <= k2 < tl.len() && tl[k2] == x;
                    assert(s[k2 + 1] == x);
                }
            }
        }
        assert forall|x: (i64, i64, Seq<u8>)| s.contains(x) || x == m implies #[trigger] r.contains(
            x,
        ) by {
            if s.contains(x) {
                let k = choose|k: int| 0 <= k < s.len() && s[k] == x;
                if k == 0 {
                    assert(r[0] == x);
                } else {
                    assert(tl[k - 1] == x);
                    assert(tl.contains(x));
                    assert(rt.contains(x));
                    let k2 = choose|k2: int| 0 <= k2 < rt.len() && rt[k2] == x;
                    assert(r[k2 + 1] == x);
                }
            } else {
                assert(rt.contains(m));
                let k2 = choose|k2: int| 0 <= k2 < rt.len() && rt[k2] == m;
                assert(r[k2 + 1] == m);
            }
        }
    }
}

/// The loader's sort: ordered, and holding exactly the entries.
pub proof fn lemma_spec_sort_props(e: Seq<(i64, i64, Seq<u8>)>)
    ensures
        spec_sort(e).len() == e.len(),
        spec_sorted(spec_sort(e)),
        forall|x: (i64, i64, Seq<u8>)| #[trigger] spec_sort(e).contains(x) <==> e.contains(x),
    decreases e.len(),
{
    if e.len() > 0 {
        let pre = e.drop_last();
        lemma_spec_sort_props(pre);
        lemma_spec_insert_props(spec_sort(pre), e.last());
        assert forall|x: (i64, i64, Seq<u8>)| #[trigger] spec_sort(e).contains(x) implies
            e.contains(x) by {
            if spec_sort(pre).contains(x) {
                assert(pre.contains(x));
                let k = choose|k: int| 0 <= k < pre.len() && pre[k] == x;
                assert(e[k] == x);
            } else {
                assert(e[e.len() - 1] == x);
            }
        }
        assert forall|x: (i64, i64, Seq<u8>)| e.contains(x) implies #[trigger] spec_sort(
            e,
        ).contains(x) by {
            let k = choose|k: int| 0 <= k < e.len() && e[k] == x;
            if k < e.len() - 1 {
                assert(pre[k] == x);
                assert(pre.contains(x));
            }
        }
    }
}

/// The partition index: spans parsed from names, sorted by span.
/// Spans of distinct partitions may overlap; the index is a coarse
/// skip structure, not a strict sort of records.
pub struct IndexSearcher {
    pub partitions: Vec<PartitionMeta>,
}

impl View for IndexSearcher {
    type V = Seq<(i64, i64, Seq<u8>)>;

    open spec fn view(&self) -> Seq<(i64, i64, Seq<u8>)> {
        self.partitions@.map_values(|p: PartitionMeta| p@)
    }
}

/// Whether `p` sorts at or before `q` by the `(start, end)` key.
pub fn key_le_exec(p: &PartitionMeta, q: &PartitionMeta) -> (r: bool)
    ensures
        r == key_le(p@, q@),
{
    p.start < q.start || (p.start == q.start && p.end <= q.end)
}

/// Whether the span `[start, end]` meets the closed window `[from, to]`.
pub open spec fn spec_overlaps(p: (i64, i64, Seq<u8>), from: i64, to: i64) -> bool {
    p.0 <= to && p.1 >= from
}

impl IndexSearcher {
    /// Builds the index from a directory listing: parses each entry
    /// name, keeps those that parse, and sorts them by span.
    pub fn from_names(names: &Vec<Vec<u8>>) -> (r: IndexSearcher)
        ensures
            r@ == spec_sort(spec_index_entries(names.deep_view())),
    {
        let ghost ns = names.deep_view();
        let mut parts: Vec<PartitionMeta> = Vec::new();
        let mut i: usize = 0;
        while i < names.len()
            invariant
                i <= names@.len(),
                ns == names.deep_view(),
                ns.len() == names@.len(),
                forall|j: int| 0 <= j < ns.len() ==> #[trigger] ns[j] == names@[j]@,
                parts@.map_values(|p: PartitionMeta| p@) == spec_sort(
                    spec_index_entries(ns.take(i as int)),
                ),
                spec_sorted(parts@.map_values(|p: PartitionMeta| p@)),
            decreases names@.len() - i,
        {
            let ghost cur = parts@.map_values(|p: PartitionMeta| p@);
            proof {
                assert(ns.take(i + 1).drop_last() =~= ns.take(i as int));
                assert(ns.take(i + 1).last() == ns[i as int]);
            }
            let nm = &names[i];
            match parse_name(nm.as_slice()) {
                None => {
                    proof {
                        assert(spec_index_entries(ns.take(i + 1)) =~= spec_index_entries(
                            ns.take(i as int),
                        ));
                    }
                },
                Some((a, b)) => {
                    let meta = PartitionMeta { start: a, end: b, name: slice_to_vec(nm.as_slice()) };
                    let ghost entries1 = spec_index_entries(ns.take(i + 1));
                    proof {
                        assert(entries1 =~= spec_index_entries(ns.take(i as int)) + seq![meta@]);
                        assert(entries1.drop_last() =~= spec_index_entries(ns.take(i as int)));
                        assert(spec_sort(entries1) == spec_insert(cur, meta@));
                        lemma_spec_insert_props(cur, meta@);
                    }
                    let mut pos: usize = 0;
                    while pos < parts.len() && key_le_exec(&parts[pos], &meta)
                        invariant
                            pos <= parts@.len(),
                            cur == parts@.map_values(|p: PartitionMeta| p@),
                            cur.len() == parts@.len(),
                            forall|k: int| 0 <= k < pos ==> key_le(#[trigger] cur[k], meta@),
                        decreases parts@.len() - pos,
                    {
                        proof {
                            assert(cur[pos as int] == parts@[pos as int]@);
                        }
                        pos = pos + 1;
                    }
                    proof {
                        assert(pos < parts@.len() ==> !key_le(cur[pos as int], meta@));
                        lemma_insert_position(cur, meta@, pos as int);
                    }
                    parts.insert(pos, meta);
                    proof {
                        assert(parts@.map_values(|p: PartitionMeta| p@) =~= cur.take(pos as int)
                            + seq![meta@] + cur.skip(pos as int));
                        lemma_spec_insert_props(cur, meta@);
                    }
                },
            }
            i = i + 1;
        }
        proof {
            assert(ns.take(ns.len() as int) =~= ns);
        }
        IndexSearcher { partitions: parts }
    }

    /// *Index completeness*: the positions of exactly those
    /// partitions whose span meets the closed window `[from, to]`,
    /// in index order.
    pub fn overlapping(&self, from: i64, to: i64) -> (r: Vec<usize>)
        ensures
            forall|k1: int, k2: int| 0 <= k1 < k2 < r@.len() ==> r@[k1] < r@[k2],
            forall|k: int| 0 <= k < r@.len() ==> (#[trigger] r@[k]) < self@.len(),
            forall|k: int|
                0 <= k < r@.len() ==> spec_overlaps(#[trigger] self@[r@[k] as int], from, to),
            forall|j: int|
                0 <= j < self@.len() && spec_overlaps(#[trigger] self@[j], from, to)
                    ==> r@.contains(j as usize),
    {
        let mut r: Vec<usize> = Vec::new();
        let mut i: usize = 0;
        while i < self.partitions.len()
            invariant
                i <= self.partitions@.len() == self@.len(),
                forall|k1: int, k2: int| 0 <= k1 < k2 < r@.len() ==> r@[k1] < r@[k2],
                forall|k: int| 0 <= k < r@.len() ==> (#[trigger] r@[k]) < i,
                forall|k: int|
                    0 <= k < r@.len() ==> spec_overlaps(#[trigger] self@[r@[k] as int], from, to),
                forall|j: int|
                    0 <= j < i && spec_overlaps(#[trigger] self@[j], from, to) ==> r@.contains(
                        j as usize,
                    ),
            decreases self.partitions@.len() - i,
        {
            let ghost prev = r@;
            let p = &self.partitions[i];
            proof {
                assert(self@[i as int] == p@);
            }
            if p.start <= to && p.end >= from {
                r.push(i);
                proof {
                    assert(r@ == prev.push(i));
                    assert forall|k1: int, k2: int| 0 <= k1 < k2 < r@.len() implies r@[k1]
                        < r@[k2] by {
                        assert(r@[k1] == prev[k1]);
                        if k2 < prev.len() {
                            assert(r@[k2] == prev[k2]);
                        } else {
                            assert(r@[k2] == i);
                        }
                    }
                    assert forall|k: int| 0 <= k < r@.len() implies (#[trigger] r@[k]) < i + 1 by {
                        if k < prev.len() {
                            assert(r@[k] == prev[k]);
                        } else {
                            assert(r@[k] == i);
                        }
                    }
                    assert forall|k: int| 0 <= k < r@.len() implies spec_overlaps(
                        #[trigger] self@[r@[k] as int],
                        from,
                        to,
                    ) by {
                        if k < prev.len() {
                            assert(r@[k] == prev[k]);
                            assert(spec_overlaps(self@[prev[k] as int], from, to));
                        } else {
                            assert(r@[k] == i);
                        }
                    }
                    assert forall|j: int|
                        0 <= j < i + 1 && spec_overlaps(#[trigger] self@[j], from, to) implies
                        r@.contains(j as usize) by {
                        if j < i {
                            let k = choose|k: int| 0 <= k < prev.len() && prev[k] == j as usize;
                            assert(r@[k] == j as usize);
                        } else {
                            assert(r@[r@.len() - 1] == j as usize);
                        }
                    }
                }
            } else {
                proof {
                    assert forall|j: int|
                        0 <= j < i + 1 && spec_overlaps(#[trigger] self@[j], from, to) implies
                        r@.contains(j as usize) by {
                        assert(j != i);
                    }
                }
            }
            i = i + 1;
        }
        r
    }

    /// The partition at a scan-plan position.
    pub fn partition_at(&self, i: usize) -> (r: &PartitionMeta)
        requires
            i < self@.len(),
        ensures
            r@ == self@[i as int],
    {
        &self.partitions[i]
    }

    pub fn len(&self) -> (n: usize)
        ensures
            n == self@.len(),
    {
        self.partitions.len()
    }
}

/// Where the stable insertion lands: after the entries not greater.
proof fn lemma_insert_position(s: Seq<(i64, i64, Seq<u8>)>, m: (i64, i64, Seq<u8>), pos: int)
    requires
        0 <= pos <= s.len(),
        forall|k: int| 0 <= k < pos ==> key_le(#[trigger] s[k], m),
        pos < s.len() ==> !key_le(s[pos], m),
    ensures
        spec_insert(s, m) == s.take(pos) + seq![m] + s.skip(pos),
    decreases s.len(),
{
    if s.len() == 0 {
        assert(spec_insert(s, m) =~= s.take(pos) + seq![m] + s.skip(pos));
    } else if pos == 0 {
        assert(!key_le(s[0], m));
        assert(spec_insert(s, m) =~= s.take(0) + seq![m] + s.skip(0));
    } else {
        let tl = s.subrange(1, s.len() as int);
        assert(forall|k: int| 0 <= k < pos - 1 ==> #[trigger] tl[k] == s[k + 1]);
        assert(pos - 1 < tl.len() ==> !key_le(tl[pos - 1], m));
        lemma_insert_position(tl, m, pos - 1);
        assert(spec_insert(s, m) == seq![s[0]] + (tl.take(pos - 1) + seq![m] + tl.skip(pos - 1)));
        assert(seq![s[0]] + (tl.take(pos - 1) + seq![m] + tl.skip(pos - 1)) =~= s.take(pos)
            + seq![m] + s.skip(pos));
    }
}

} // verus!
