use vstd::prelude::*;
use crate::codec::NL;
use crate::regex::{match_seq, Query, SearchError};
use crate::writer::{decompress_frame, zstd_frame_of, CodecError};

verus! {

/// The newline positions of `b` from `from` on, ascending.
pub open spec fn spec_nl_tail(b: Seq<u8>, from: int) -> Seq<usize>
    decreases b.len() - from,
{
    if from < 0 || from >= b.len() {
        Seq::empty()
    } else if b[from] == NL {
        seq![from as usize] + spec_nl_tail(b, from + 1)
    } else {
        spec_nl_tail(b, from + 1)
    }
}

/// Where the lines of a batch begin to be looked up: 0, then every
/// newline position, ascending.
pub open spec fn spec_line_starts(b: Seq<u8>) -> Seq<usize> {
    seq![0usize] + spec_nl_tail(b, 0)
}

proof fn lemma_nl_tail_props(b: Seq<u8>, from: int)
    requires
        0 <= from <= b.len(),
        b.len() <= usize::MAX,
    ensures
        forall|k: int|
            0 <= k < spec_nl_tail(b, from).len() ==> from <= #[trigger] spec_nl_tail(b, from)[k]
                < b.len() && b[spec_nl_tail(b, from)[k] as int] == NL,
        forall|k1: int, k2: int|
            0 <= k1 < k2 < spec_nl_tail(b, from).len() ==> spec_nl_tail(b, from)[k1] < spec_nl_tail(
                b,
                from,
            )[k2],
    decreases b.len() - from,
{
    if from < b.len() {
        lemma_nl_tail_props(b, from + 1);
        let t = spec_nl_tail(b, from);
        let tl = spec_nl_tail(b, from + 1);
        if b[from] == NL {
            assert(t == seq![from as usize] + tl);
            assert forall|k: int| 0 <= k < t.len() implies from <= #[trigger] t[k] < b.len()
                && b[t[k] as int] == NL by {
                if k > 0 {
                    assert(t[k] == tl[k - 1]);
                }
            }
            assert forall|k1: int, k2: int| 0 <= k1 < k2 < t.len() implies t[k1] < t[k2] by {
                assert(t[k2] == tl[k2 - 1]);
                if k1 > 0 {
                    assert(t[k1] == tl[k1 - 1]);
                }
            }
        }
    }
}

/// The line-start vector is nonempty, begins at 0, and lists newline
/// positions in ascending order.
pub proof fn lemma_line_starts_props(b: Seq<u8>)
    requires
        b.len() <= usize::MAX,
    ensures
        spec_line_starts(b).len() >= 1,
        spec_line_starts(b)[0] == 0,
        forall|k: int|
            1 <= k < spec_line_starts(b).len() ==> #[trigger] spec_line_starts(b)[k] < b.len()
                && b[spec_line_starts(b)[k] as int] == NL,
        forall|k1: int, k2: int|
            0 <= k1 < k2 < spec_line_starts(b).len() ==> spec_line_starts(b)[k1]
                <= spec_line_starts(b)[k2],
{
    lemma_nl_tail_props(b, 0);
    let l = spec_line_starts(b);
    let t = spec_nl_tail(b, 0);
    assert forall|k: int| 1 <= k < l.len() implies #[trigger] l[k] < b.len() && b[l[k] as int]
        == NL by {
        assert(l[k] == t[k - 1]);
    }
    assert forall|k1: int, k2: int| 0 <= k1 < k2 < l.len() implies l[k1] <= l[k2] by {
        assert(l[k2] == t[k2 - 1]);
        if k1 > 0 {
            assert(l[k1] == t[k1 - 1]);
        }
    }
}

/// Builds the line-start vector of a batch: 0, then every newline
/// position, found by a single scan.
pub fn line_starts(batch: &[u8]) -> (r: Vec<usize>)
    ensures
        r@ == spec_line_starts(batch@),
{
    let mut out: Vec<usize> = Vec::new();
    out.push(0);
    let mut i: usize = 0;
    while i < batch.len()
        invariant
            i <= batch@.len(),
            out@ + spec_nl_tail(batch@, i as int) == spec_line_starts(batch@),
        decreases batch@.len() - i,
    {
        if batch[i] == NL {
            proof {
                assert(spec_nl_tail(batch@, i as int) == seq![i as usize] + spec_nl_tail(
                    batch@,
                    i + 1,
                ));
            }
            out.push(i);
            proof {
                assert(out@ + spec_nl_tail(batch@, i + 1) =~= spec_line_starts(batch@));
            }
        } else {
            proof {
                assert(spec_nl_tail(batch@, i as int) == spec_nl_tail(batch@, i + 1));
            }
        }
        i = i + 1;
    }
    proof {
        assert(out@ =~= out@ + spec_nl_tail(batch@, batch@.len() as int));
    }
    out
}

/// The line an offset falls in: the greatest position whose line
/// start is at or before the offset.  A match starting exactly on a
/// newline byte is counted into the line that newline begins.
pub open spec fn spec_lineno(l: Seq<usize>, off: usize) -> int
    decreases l.len(),
{
    if l.len() <= 1 {
        0
    } else if l.last() <= off {
        l.len() - 1
    } else {
        spec_lineno(l.drop_last(), off)
    }
}

proof fn lemma_lineno_char(l: Seq<usize>, off: usize)
    requires
        l.len() >= 1,
        l[0] == 0,
        forall|k1: int, k2: int| 0 <= k1 < k2 < l.len() ==> l[k1] <= l[k2],
    ensures
        0 <= spec_lineno(l, off) < l.len(),
        l[spec_lineno(l, off)] <= off,
        forall|k: int| spec_lineno(l, off) < k < l.len() ==> l[k] > off,
    decreases l.len(),
{
    if l.len() > 1 && l.last() > off {
        let hd = l.drop_last();
        assert(forall|k: int| 0 <= k < hd.len() ==> hd[k] == l[k]);
        lemma_lineno_char(hd, off);
        assert forall|k: int| spec_lineno(l, off) < k < l.len() implies l[k] > off by {
            if k < l.len() - 1 {
                assert(hd[k] > off);
            }
        }
    }
}

/// Finds the line of `off` by binary search over the sorted starts.
pub fn line_of_offset(l: &Vec<usize>, off: usize) -> (j: usize)
    requires
        l@.len() >= 1,
        l@[0] == 0,
        forall|k1: int, k2: int| 0 <= k1 < k2 < l@.len() ==> l@[k1] <= l@[k2],
    ensures
        j == spec_lineno(l@, off),
        j < l@.len(),
{
    proof {
        lemma_lineno_char(l@, off);
    }
    let mut lo: usize = 0;
    let mut hi: usize = l.len();
    while hi - lo > 1
        invariant
            0 <= lo < hi <= l@.len(),
            l@[lo as int] <= off,
            hi < l@.len() ==> l@[hi as int] > off,
        decreases hi - lo,
    {
        let mid = lo + (hi - lo) / 2;
        if l[mid] <= off {
            lo = mid;
        } else {
            hi = mid;
        }
    }
    proof {
        let s = spec_lineno(l@, off);
        if lo < s {
            assert(l@[s] > off);
        }
        if lo > s {
            assert(l@[lo as int] > off);
        }
    }
    lo
}

/// Which lines hold at least one match start.
pub open spec fn spec_marks(l: Seq<usize>, ms: Seq<(usize, usize)>) -> Seq<bool> {
    Seq::new(
        l.len(),
        |j: int|
            exists|i: int| 0 <= i < ms.len() && spec_lineno(l, (#[trigger] ms[i]).0) == j,
    )
}

/// Marks, in a bitset over lines, each line where a match starts.
pub fn mark_lines(l: &Vec<usize>, ms: &Vec<(usize, usize)>) -> (bits: Vec<bool>)
    requires
        l@.len() >= 1,
        l@[0] == 0,
        forall|k1: int, k2: int| 0 <= k1 < k2 < l@.len() ==> l@[k1] <= l@[k2],
    ensures
        bits@ == spec_marks(l@, ms@),
{
    let mut bits: Vec<bool> = Vec::new();
    let mut j: usize = 0;
    while j < l.len()
        invariant
            j <= l@.len(),
            bits@.len() == j,
            forall|k: int| 0 <= k < j ==> !(#[trigger] bits@[k]),
        decreases l@.len() - j,
    {
        bits.push(false);
        j = j + 1;
    }
    let mut i: usize = 0;
    while i < ms.len()
        invariant
            i <= ms@.len(),
            bits@.len() == l@.len() >= 1,
            l@[0] == 0,
            forall|k1: int, k2: int| 0 <= k1 < k2 < l@.len() ==> l@[k1] <= l@[k2],
            forall|k: int|
                0 <= k < bits@.len() ==> (#[trigger] bits@[k] == exists|i2: int|
                    0 <= i2 < i && spec_lineno(l@, (#[trigger] ms@[i2]).0) == k),
        decreases ms@.len() - i,
    {
        let ghost prev = bits@;
        let m = ms[i];
        let j = line_of_offset(l, m.0);
        bits.set(j, true);
        proof {
            assert forall|k: int| 0 <= k < bits@.len() implies (#[trigger] bits@[k] == exists|
                i2: int,
            | 0 <= i2 < i + 1 && spec_lineno(l@, (#[trigger] ms@[i2]).0) == k) by {
                if k == j {
                    assert(spec_lineno(l@, ms@[i as int].0) == k);
                } else {
                    assert(bits@[k] == prev[k]);
                    if bits@[k] {
                        let i2 = choose|i2: int|
                            0 <= i2 < i && spec_lineno(l@, (#[trigger] ms@[i2]).0) == k;
                        assert(0 <= i2 < i + 1 && spec_lineno(l@, ms@[i2].0) == k);
                    }
                }
            }
        }
        i = i + 1;
    }
    proof {
        assert(bits@ =~= spec_marks(l@, ms@));
    }
    bits
}

/// The byte range a line occupies in the emitted output: from just
/// past the preceding newline (from 0 for a line starting the batch),
/// through its own terminating newline.
pub open spec fn spec_range(l: Seq<usize>, j: int, blen: usize) -> (usize, usize) {
    (
        if l[j] == 0 {
            0usize
        } else {
            (l[j] + 1) as usize
        },
        if j + 1 < l.len() {
            (l[j + 1] + 1) as usize
        } else {
            blen
        },
    )
}

/// The marked line numbers, ascending.
pub open spec fn spec_marked(bits: Seq<bool>) -> Seq<int>
    decreases bits.len(),
{
    if bits.len() == 0 {
        Seq::empty()
    } else if bits.last() {
        spec_marked(bits.drop_last()).push(bits.len() - 1)
    } else {
        spec_marked(bits.drop_last())
    }
}

/// Every marked line, and only those, once each, ascending.
pub proof fn lemma_marked_props(bits: Seq<bool>)
    ensures
        forall|k1: int, k2: int|
            0 <= k1 < k2 < spec_marked(bits).len() ==> spec_marked(bits)[k1] < spec_marked(
                bits,
            )[k2],
        forall|k: int|
            0 <= k < spec_marked(bits).len() ==> 0 <= #[trigger] spec_marked(bits)[k] < bits.len()
                && bits[spec_marked(bits)[k]],
        forall|j: int| 0 <= j < bits.len() && bits[j] ==> spec_marked(bits).contains(j),
    decreases bits.len(),
{
    if bits.len() > 0 {
        let hd = bits.drop_last();
        lemma_marked_props(hd);
        let g = spec_marked(bits);
        let gh = spec_marked(hd);
        assert forall|j: int| 0 <= j < bits.len() && bits[j] implies g.contains(j) by {
            if j < bits.len() - 1 {
                assert(hd[j]);
                assert(gh.contains(j));
                let k = choose|k: int| 0 <= k < gh.len() && gh[k] == j;
                assert(g[k] == j);
            } else {
                assert(bits.last());
                assert(g[g.len() - 1] == j);
            }
        }
        if bits.last() {
            assert forall|k: int| 0 <= k < g.len() implies 0 <= #[trigger] g[k] < bits.len()
                && bits[g[k]] by {
                if k < g.len() - 1 {
                    assert(g[k] == gh[k]);
                    assert(hd[gh[k]] == bits[gh[k]]);
                }
            }
            assert forall|k1: int, k2: int| 0 <= k1 < k2 < g.len() implies g[k1] < g[k2] by {
                assert(g[k1] == gh[k1]);
                if k2 < g.len() - 1 {
                    assert(g[k2] == gh[k2]);
                }
            }
        } else {
            assert forall|k: int| 0 <= k < g.len() implies 0 <= #[trigger] g[k] < bits.len()
                && bits[g[k]] by {
                assert(g[k] == gh[k]);
                assert(hd[gh[k]] == bits[gh[k]]);
            }
        }
    }
}

/// The ranges of the marked lines, in line order.
pub open spec fn spec_gather(l: Seq<usize>, bits: Seq<bool>, blen: usize) -> Seq<(usize, usize)> {
    spec_marked(bits).map_values(|j: int| spec_range(l, j, blen))
}

/// Collects the byte ranges of the marked lines, ascending.
pub fn gather_ranges(batch: &[u8], l: &Vec<usize>, bits: &Vec<bool>) -> (r: Vec<(usize, usize)>)
    requires
        l@ == spec_line_starts(batch@),
        bits@.len() == l@.len(),
    ensures
        r@ == spec_gather(l@, bits@, batch@.len() as usize),
        forall|k: int|
            0 <= k < r@.len() ==> (#[trigger] r@[k]).0 <= r@[k].1 <= batch@.len(),
{
    let blen = batch.len();
    proof {
        lemma_line_starts_props(batch@);
    }
    let mut r: Vec<(usize, usize)> = Vec::new();
    let mut j: usize = 0;
    while j < bits.len()
        invariant
            j <= bits@.len() == l@.len(),
            l@ == spec_line_starts(batch@),
            blen == batch@.len(),
            r@ == spec_gather(l@, bits@.take(j as int), blen),
            forall|k: int| 0 <= k < r@.len() ==> (#[trigger] r@[k]).0 <= r@[k].1 <= blen,
        decreases bits@.len() - j,
    {
        let ghost pre = bits@.take(j as int);
        proof {
            assert(bits@.take(j + 1).drop_last() =~= pre);
            assert(bits@.take(j + 1).last() == bits@[j as int]);
            lemma_line_starts_props(batch@);
        }
        if bits[j] {
            let start: usize = if l[j] == 0 {
                0
            } else {
                proof {
                    assert(l@[j as int] < batch@.len());
                }
                l[j] + 1
            };
            let end: usize = if j + 1 < l.len() {
                proof {
                    assert(l@[j + 1] < batch@.len());
                }
                l[j + 1] + 1
            } else {
                blen
            };
            proof {
                if j + 1 < l@.len() {
                    assert(l@[j as int] <= l@[j + 1]);
                } else {
                    assert(l@[j as int] <= batch@.len());
                }
            }
            r.push((start, end));
            proof {
                assert((start, end) == spec_range(l@, j as int, blen));
                assert(spec_marked(bits@.take(j + 1)) == spec_marked(pre).push(j as int));
                assert(r@ =~= spec_gather(l@, bits@.take(j + 1), blen));
            }
        } else {
            proof {
                assert(spec_marked(bits@.take(j + 1)) == spec_marked(pre));
                assert(r@ =~= spec_gather(l@, bits@.take(j + 1), blen));
            }
        }
        j = j + 1;
    }
    proof {
        assert(bits@.take(bits@.len() as int) =~= bits@);
    }
    r
}

proof fn lemma_marked_none(bits: Seq<bool>)
    requires
        forall|j: int| 0 <= j < bits.len() ==> !bits[j],
    ensures
        spec_marked(bits).len() == 0,
    decreases bits.len(),
{
    if bits.len() > 0 {
        lemma_marked_none(bits.drop_last());
    }
}

/// *Match order per partition*: the emitted ranges stand in the byte
/// order of the decompressed stream — their line numbers strictly
/// ascend, and their byte starts never go backwards.
pub proof fn lemma_match_order(pattern: Seq<char>, b: Seq<u8>)
    requires
        b.len() <= usize::MAX,
    ensures
        ({
            let rs = spec_search_batch(pattern, b);
            forall|k1: int, k2: int| 0 <= k1 < k2 < rs.len() ==> (#[trigger] rs[k1]).0 <= (
            #[trigger] rs[k2]).0
        }),
{
    let l = spec_line_starts(b);
    lemma_line_starts_props(b);
    let bits = spec_marks(l, match_seq(pattern, b));
    lemma_marked_props(bits);
    let ml = spec_marked(bits);
    let rs = spec_search_batch(pattern, b);
    assert forall|k1: int, k2: int| 0 <= k1 < k2 < rs.len() implies (#[trigger] rs[k1]).0 <= (
    #[trigger] rs[k2]).0 by {
        assert(rs[k1] == spec_range(l, ml[k1], b.len() as usize));
        assert(rs[k2] == spec_range(l, ml[k2], b.len() as usize));
        assert(ml[k1] < ml[k2]);
        assert(l[ml[k1]] <= l[ml[k2]]);
    }
}

/// *Match identity, attribution half*: a line number stands among the
/// emitted ones exactly when some match's start offset falls in it.
pub proof fn lemma_match_identity(pattern: Seq<char>, b: Seq<u8>)
    ensures
        ({
            let l = spec_line_starts(b);
            let ms = match_seq(pattern, b);
            let ml = spec_marked(spec_marks(l, ms));
            forall|j: int|
                0 <= j < l.len() ==> (ml.contains(j) <==> exists|i: int|
                    0 <= i < ms.len() && spec_lineno(l, (#[trigger] ms[i]).0) == j)
        }),
{
    let l = spec_line_starts(b);
    let ms = match_seq(pattern, b);
    let bits = spec_marks(l, ms);
    lemma_marked_props(bits);
    let ml = spec_marked(bits);
    assert forall|j: int| 0 <= j < l.len() implies (ml.contains(j) <==> exists|i: int|
        0 <= i < ms.len() && spec_lineno(l, (#[trigger] ms[i]).0) == j) by {
        if ml.contains(j) {
            let k = choose|k: int| 0 <= k < ml.len() && ml[k] == j;
            assert(bits[ml[k]]);
            assert(bits[j]);
        }
        if bits[j] {
            assert(ml.contains(j));
        }
    }
}

/// *No match, no output*: a batch without a single match of the
/// pattern emits nothing.
pub proof fn lemma_no_match_no_output(pattern: Seq<char>, b: Seq<u8>)
    requires
        match_seq(pattern, b).len() == 0,
    ensures
        spec_search_batch(pattern, b).len() == 0,
{
    let l = spec_line_starts(b);
    let bits = spec_marks(l, match_seq(pattern, b));
    assert(forall|j: int| 0 <= j < bits.len() ==> !bits[j]);
    lemma_marked_none(bits);
}

/// *Emitted once*: however many matches fall in one line, its range
/// stands at most once in the output — the emitted line numbers are
/// mutually distinct.
pub proof fn lemma_line_emitted_once(pattern: Seq<char>, b: Seq<u8>)
    ensures
        ({
            let ml = spec_marked(spec_marks(spec_line_starts(b), match_seq(pattern, b)));
            forall|k1: int, k2: int| 0 <= k1 < k2 < ml.len() ==> ml[k1] != ml[k2]
        }),
{
    lemma_marked_props(spec_marks(spec_line_starts(b), match_seq(pattern, b)));
}

/// *Attribution by start offset*: which lines are marked depends on
/// the matches' start offsets alone, so a match crossing a newline
/// counts for the line where it starts.
pub proof fn lemma_attribution_by_start(
    l: Seq<usize>,
    ms1: Seq<(usize, usize)>,
    ms2: Seq<(usize, usize)>,
)
    requires
        ms1.len() == ms2.len(),
        forall|i: int| 0 <= i < ms1.len() ==> (#[trigger] ms1[i]).0 == (#[trigger] ms2[i]).0,
    ensures
        spec_marks(l, ms1) == spec_marks(l, ms2),
{
    let b1 = spec_marks(l, ms1);
    let b2 = spec_marks(l, ms2);
    assert forall|j: int| 0 <= j < l.len() implies b1[j] == b2[j] by {
        if exists|i: int| 0 <= i < ms1.len() && spec_lineno(l, (#[trigger] ms1[i]).0) == j {
            let i = choose|i: int| 0 <= i < ms1.len() && spec_lineno(l, (#[trigger] ms1[i]).0) == j;
            assert(spec_lineno(l, ms2[i].0) == j);
        }
        if exists|i: int| 0 <= i < ms2.len() && spec_lineno(l, (#[trigger] ms2[i]).0) == j {
            let i = choose|i: int| 0 <= i < ms2.len() && spec_lineno(l, (#[trigger] ms2[i]).0) == j;
            assert(spec_lineno(l, ms1[i].0) == j);
        }
    }
    assert(b1 =~= b2);
}

/// The whole batch logic: the ranges of exactly those lines holding
/// at least one match start, in on-disk order.
pub open spec fn spec_search_batch(pattern: Seq<char>, b: Seq<u8>) -> Seq<(usize, usize)> {
    let l = spec_line_starts(b);
    spec_gather(l, spec_marks(l, match_seq(pattern, b)), b.len() as usize)
}

/// Scans one batch of whole lines: locates line starts, marks each
/// line where a match of the query starts, and returns the marked
/// lines' byte ranges in on-disk order, each range within the batch.
pub fn search_batch(q: &Query, batch: &[u8]) -> (r: Result<Vec<(usize, usize)>, SearchError>)
    ensures
        r matches Ok(rs) ==> rs@ == spec_search_batch(q.pat(), batch@),
        r matches Ok(rs) ==> forall|k: int|
            0 <= k < rs@.len() ==> (#[trigger] rs@[k]).0 <= rs@[k].1 <= batch@.len(),
{
    let ms = match q.find_matches(batch) {
        Ok(ms) => ms,
        Err(e) => {
            return Err(e);
        },
    };
    let blen = batch.len();
    let l = line_starts(batch);
    proof {
        assert(batch@.len() == blen);
        lemma_line_starts_props(batch@);
    }
    let bits = mark_lines(&l, &ms);
    let r = gather_ranges(batch, &l, &bits);
    Ok(r)
}

/// What stops one partition from being searched.
#[derive(Debug)]
pub enum PartitionReadError {
    Codec(CodecError),
    Engine(SearchError),
}

/// Searches one whole sealed partition from its compressed bytes:
/// decompresses the frame, then runs the batch logic over the whole
/// content.  Returns the content and the matching lines' byte ranges
/// in on-disk order, each range within the content.  A codec error
/// comes only of bytes that are no frame of the codec's.
pub fn search_partition_data(q: &Query, data: &[u8]) -> (r: Result<
    (Vec<u8>, Vec<(usize, usize)>),
    PartitionReadError,
>)
    ensures
        r matches Ok((content, rs)) ==> rs@ == spec_search_batch(q.pat(), content@) && forall|
            k: int,
        | 0 <= k < rs@.len() ==> (#[trigger] rs@[k]).0 <= rs@[k].1 <= content@.len(),
        forall|c: Seq<u8>|
            data@ == zstd_frame_of(c) ==> (r matches Ok((content, rs)) ==> content@ == c),
        (exists|c: Seq<u8>| data@ == zstd_frame_of(c)) ==> !(r matches Err(
            PartitionReadError::Codec(_),
        )),
{
    let content = match decompress_frame(data) {
        Ok(c) => c,
        Err(e) => {
            return Err(PartitionReadError::Codec(e));
        },
    };
    let rs = match search_batch(q, content.as_slice()) {
        Ok(rs) => rs,
        Err(e) => {
            return Err(PartitionReadError::Engine(e));
        },
    };
    Ok((content, rs))
}

} // verus!
