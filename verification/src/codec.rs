use vstd::prelude::*;
use crate::num::{dec_i64, push_dec_i64};
use crate::record::{Record, SpecValue, Value};

verus! {

pub const QUOTE: u8 = 34;

pub const BSL: u8 = 92;

pub const NL: u8 = 10;

pub const COLON: u8 = 58;

pub const COMMA: u8 = 44;

pub const LBRACE: u8 = 123;

pub const RBRACE: u8 = 125;

/// How one byte of a text value is written: quote, backslash and
/// newline take a backslash escape, every other byte stands as itself.
pub open spec fn esc_byte(b: u8) -> Seq<u8> {
    if b == QUOTE {
        seq![BSL, QUOTE]
    } else if b == BSL {
        seq![BSL, BSL]
    } else if b == NL {
        seq![BSL, 110u8]
    } else {
        seq![b]
    }
}

/// The escaped form of a text value.
pub open spec fn esc(s: Seq<u8>) -> Seq<u8>
    decreases s.len(),
{
    if s.len() == 0 {
        Seq::empty()
    } else {
        esc_byte(s[0]) + esc(s.subrange(1, s.len() as int))
    }
}

pub proof fn lemma_esc_append(a: Seq<u8>, b: Seq<u8>)
    ensures
        esc(a + b) == esc(a) + esc(b),
    decreases a.len(),
{
    if a.len() == 0 {
        assert(a + b =~= b);
        assert(esc(a) + esc(b) =~= esc(b));
    } else {
        let tl = a.subrange(1, a.len() as int);
        lemma_esc_append(tl, b);
        assert((a + b).subrange(1, (a + b).len() as int) =~= tl + b);
        assert((a + b)[0] == a[0]);
        assert(esc(a + b) == esc_byte(a[0]) + (esc(tl) + esc(b)));
        assert(esc_byte(a[0]) + (esc(tl) + esc(b)) =~= (esc_byte(a[0]) + esc(tl)) + esc(b));
    }
}

/// The canonical one-line form of one value.
pub open spec fn ser_value(v: SpecValue) -> Seq<u8> {
    match v {
        SpecValue::Text(s) => seq![QUOTE] + esc(s) + seq![QUOTE],
        SpecValue::Int(i) => dec_i64(i),
    }
}

/// The canonical form of one field: `"name":value`.
pub open spec fn ser_field(f: (Seq<u8>, SpecValue)) -> Seq<u8> {
    seq![QUOTE] + f.0 + seq![QUOTE, COLON] + ser_value(f.1)
}

/// The comma-separated field list.
pub open spec fn ser_fields(fs: Seq<(Seq<u8>, SpecValue)>) -> Seq<u8>
    decreases fs.len(),
{
    if fs.len() == 0 {
        Seq::empty()
    } else if fs.len() == 1 {
        ser_field(fs[0])
    } else {
        ser_field(fs[0]) + seq![COMMA] + ser_fields(fs.subrange(1, fs.len() as int))
    }
}

/// The canonical one-line encoding of a record: a braced mapping with
/// quoted names, values as quoted text or bare integers.  It holds no
/// newline byte, so the record writer's terminating newline frames it.
pub open spec fn spec_serialize(fs: Seq<(Seq<u8>, SpecValue)>) -> Seq<u8> {
    seq![LBRACE] + ser_fields(fs) + seq![RBRACE]
}

pub proof fn lemma_ser_fields_push(fs: Seq<(Seq<u8>, SpecValue)>, f: (Seq<u8>, SpecValue))
    ensures
        fs.len() == 0 ==> ser_fields(fs.push(f)) == ser_field(f),
        fs.len() > 0 ==> ser_fields(fs.push(f)) == ser_fields(fs) + seq![COMMA] + ser_field(f),
    decreases fs.len(),
{
    let w = fs.push(f);
    if fs.len() == 0 {
        assert(w.len() == 1);
        assert(w[0] == f);
    } else {
        let tl = fs.subrange(1, fs.len() as int);
        lemma_ser_fields_push(tl, f);
        assert(w.subrange(1, w.len() as int) =~= tl.push(f));
        assert(w[0] == fs[0]);
        if fs.len() == 1 {
            assert(ser_fields(w) == ser_field(fs[0]) + seq![COMMA] + ser_fields(tl.push(f)));
            assert(ser_fields(tl.push(f)) == ser_field(f));
            assert(ser_fields(fs) == ser_field(fs[0]));
        } else {
            assert(ser_fields(w) == ser_field(fs[0]) + seq![COMMA] + (ser_fields(tl) + seq![COMMA]
                + ser_field(f)));
            assert(ser_field(fs[0]) + seq![COMMA] + (ser_fields(tl) + seq![COMMA] + ser_field(f))
                =~= (ser_field(fs[0]) + seq![COMMA] + ser_fields(tl)) + seq![COMMA] + ser_field(
                f,
            ));
        }
    }
}

/// Appends the escaped form of `s` to `out`.
fn push_escaped(s: &[u8], out: &mut Vec<u8>)
    ensures
        final(out)@ == old(out)@ + esc(s@),
{
    let mut i: usize = 0;
    while i < s.len()
        invariant
            i <= s@.len(),
            out@ == old(out)@ + esc(s@.take(i as int)),
        decreases s@.len() - i,
    {
        let b = s[i];
        if b == QUOTE {
            out.push(BSL);
            out.push(QUOTE);
        } else if b == BSL {
            out.push(BSL);
            out.push(BSL);
        } else if b == NL {
            out.push(BSL);
            out.push(110u8);
        } else {
            out.push(b);
        }
        proof {
            assert(s@.take(i + 1) =~= s@.take(i as int) + seq![s@[i as int]]);
            lemma_esc_append(s@.take(i as int), seq![s@[i as int]]);
            assert(seq![s@[i as int]].subrange(1, 1) =~= Seq::<u8>::empty());
            assert(esc(Seq::<u8>::empty()) =~= Seq::<u8>::empty());
            assert(esc(seq![s@[i as int]]) =~= esc_byte(s@[i as int]));
            assert(out@ =~= old(out)@ + esc(s@.take(i + 1)));
        }
        i = i + 1;
    }
    proof {
        assert(s@.take(s@.len() as int) =~= s@);
    }
}

fn push_value(v: &Value, out: &mut Vec<u8>)
    ensures
        final(out)@ == old(out)@ + ser_value(v.view()),
{
    match v {
        Value::Text(s) => {
            out.push(QUOTE);
            push_escaped(s.as_slice(), out);
            out.push(QUOTE);
            assert(out@ =~= old(out)@ + ser_value(v.view()));
        },
        Value::Int(i) => {
            push_dec_i64(*i, out);
        },
    }
}

impl Record {
    /// Serializes the record as one line of text, newline excluded:
    /// the writer frames records with the terminating newline.
    pub fn serialize(&self) -> (r: Vec<u8>)
        ensures
            r@ == spec_serialize(self@),
    {
        let mut out: Vec<u8> = Vec::new();
        out.push(LBRACE);
        assert(out@ =~= seq![LBRACE] + ser_fields(self@.take(0)));
        let n = self.len();
        let mut i: usize = 0;
        while i < n
            invariant
                i <= n == self@.len(),
                out@ == seq![LBRACE] + ser_fields(self@.take(i as int)),
            decreases n - i,
        {
            if i > 0 {
                out.push(COMMA);
            }
            let (k, v) = self.field_at(i);
            out.push(QUOTE);
            let mut j: usize = 0;
            let ghost mid = out@;
            while j < k.len()
                invariant
                    j <= k@.len(),
                    out@ == mid + k@.take(j as int),
                decreases k@.len() - j,
            {
                out.push(k[j]);
                assert(out@ =~= mid + k@.take(j + 1));
                j = j + 1;
            }
            assert(k@.take(k@.len() as int) =~= k@);
            out.push(QUOTE);
            out.push(COLON);
            push_value(v, &mut out);
            proof {
                lemma_ser_fields_push(self@.take(i as int), self@[i as int]);
                assert(self@.take(i + 1) =~= self@.take(i as int).push(self@[i as int]));
                assert(ser_field(self@[i as int]) == seq![QUOTE] + k@ + seq![QUOTE, COLON]
                    + ser_value(v.view()));
                assert(out@ =~= seq![LBRACE] + ser_fields(self@.take(i + 1)));
            }
            i = i + 1;
        }
        out.push(RBRACE);
        proof {
            assert(self@.take(self@.len() as int) =~= self@);
            assert(out@ =~= spec_serialize(self@));
        }
        out
    }
}

/// Reading an escaped text run from `p` up to its closing quote:
/// backslash escapes for quote, backslash and newline, any other byte
/// as itself; a raw newline or a dangling escape fails.
pub open spec fn spec_parse_text(s: Seq<u8>, p: int) -> Option<(Seq<u8>, int)>
    decreases s.len() - p,
{
    if p < 0 || p >= s.len() {
        None
    } else if s[p] == QUOTE {
        Some((Seq::empty(), p + 1))
    } else if s[p] == BSL {
        if p + 1 < s.len() && (s[p + 1] == QUOTE || s[p + 1] == BSL || s[p + 1] == 110) {
            let b: u8 = if s[p + 1] == 110 {
                NL
            } else {
                s[p + 1]
            };
            match spec_parse_text(s, p + 2) {
                Some((v, e)) => Some((seq![b] + v, e)),
                None => None,
            }
        } else {
            None
        }
    } else if s[p] == NL {
        None
    } else {
        match spec_parse_text(s, p + 1) {
            Some((v, e)) => Some((seq![s[p]] + v, e)),
            None => None,
        }
    }
}

/// Where a maximal run of field-name bytes starting at `p` ends.
pub open spec fn key_run_end(s: Seq<u8>, p: int) -> int
    decreases s.len() - p,
{
    if 0 <= p < s.len() && crate::record::is_key_byte(s[p]) {
        key_run_end(s, p + 1)
    } else {
        p
    }
}

/// Reading a field name from `p` (after its opening quote) up to its
/// closing quote.
pub open spec fn spec_parse_key(s: Seq<u8>, p: int) -> Option<(Seq<u8>, int)> {
    let e = key_run_end(s, p);
    if 0 <= p < e && e < s.len() && s[e] == QUOTE {
        Some((s.subrange(p, e), e + 1))
    } else {
        None
    }
}

/// Reading one value from `p`: quoted text, or a bare integer that
/// fits an `i64`.
pub open spec fn spec_parse_value(s: Seq<u8>, p: int) -> Option<(SpecValue, int)> {
    if p < 0 || p >= s.len() {
        None
    } else if s[p] == QUOTE {
        match spec_parse_text(s, p + 1) {
            Some((v, e)) => Some((SpecValue::Text(v), e)),
            None => None,
        }
    } else if crate::num::signed_run_ok(s, p) && i64::MIN <= crate::num::signed_val(s, p)
        <= i64::MAX {
        Some((SpecValue::Int(crate::num::signed_val(s, p)), crate::num::signed_end(s, p)))
    } else {
        None
    }
}

/// Reading the comma-separated field list from `p`, stopping at the
/// closing brace (whose position is returned).
pub open spec fn spec_parse_fields(s: Seq<u8>, p: int) -> Option<(Seq<(Seq<u8>, SpecValue)>, int)>
    decreases s.len() - p,
{
    if p < 0 || p >= s.len() || s[p] != QUOTE {
        None
    } else {
        match spec_parse_key(s, p + 1) {
            None => None,
            Some((k, p1)) => {
                if p1 < s.len() && s[p1] == COLON {
                    match spec_parse_value(s, p1 + 1) {
                        None => None,
                        Some((v, p2)) => {
                            if p2 < s.len() && s[p2] == RBRACE {
                                Some((seq![(k, v)], p2))
                            } else if p2 < s.len() && s[p2] == COMMA && p2 >= p {
                                match spec_parse_fields(s, p2 + 1) {
                                    Some((fs, e)) => Some((seq![(k, v)] + fs, e)),
                                    None => None,
                                }
                            } else {
                                None
                            }
                        },
                    }
                } else {
                    None
                }
            },
        }
    }
}

/// Reading one whole serialized record: the braced field list, with
/// nothing before or after.
pub open spec fn spec_parse_record(s: Seq<u8>) -> Option<Seq<(Seq<u8>, SpecValue)>> {
    if s.len() < 2 || s[0] != LBRACE {
        None
    } else if s[1] == RBRACE {
        if s.len() == 2 {
            Some(Seq::empty())
        } else {
            None
        }
    } else {
        match spec_parse_fields(s, 1) {
            Some((fs, e)) => if e == s.len() - 1 {
                Some(fs)
            } else {
                None
            },
            None => None,
        }
    }
}

/// The serialized form of a record never holds a raw newline, so one
/// record occupies exactly one line of a segment.
pub proof fn lemma_esc_no_newline(s: Seq<u8>)
    ensures
        forall|j: int| 0 <= j < esc(s).len() ==> #[trigger] esc(s)[j] != NL,
    decreases s.len(),
{
    if s.len() > 0 {
        lemma_esc_no_newline(s.subrange(1, s.len() as int));
        assert forall|j: int| 0 <= j < esc(s).len() implies #[trigger] esc(s)[j] != NL by {
            let hd = esc_byte(s[0]);
            if j < hd.len() {
                assert(esc(s)[j] == hd[j]);
            } else {
                assert(esc(s)[j] == esc(s.subrange(1, s.len() as int))[j - hd.len()]);
            }
        }
    }
}

proof fn lemma_key_run_end_props(s: Seq<u8>, p: int)
    requires
        0 <= p <= s.len(),
    ensures
        p <= key_run_end(s, p) <= s.len(),
        forall|j: int| p <= j < key_run_end(s, p) ==> crate::record::is_key_byte(#[trigger] s[j]),
        key_run_end(s, p) < s.len() ==> !crate::record::is_key_byte(s[key_run_end(s, p)]),
    decreases s.len() - p,
{
    if p < s.len() && crate::record::is_key_byte(s[p]) {
        lemma_key_run_end_props(s, p + 1);
    }
}

/// Reads an escaped text run from `p` up to its closing quote.
fn parse_text(s: &[u8], p: usize) -> (r: Option<(Vec<u8>, usize)>)
    requires
        p <= s@.len(),
    ensures
        match spec_parse_text(s@, p as int) {
            Some((sv, se)) => r matches Some((v, e)) && v@ == sv && e == se && p < se <= s@.len(),
            None => r is None,
        },
    decreases s@.len() - p,
{
    if p >= s.len() {
        return None;
    }
    let b = s[p];
    if b == QUOTE {
        Some((Vec::new(), p + 1))
    } else if b == BSL {
        if p + 1 < s.len() && (s[p + 1] == QUOTE || s[p + 1] == BSL || s[p + 1] == 110) {
            let c: u8 = if s[p + 1] == 110 {
                NL
            } else {
                s[p + 1]
            };
            match parse_text(s, p + 2) {
                Some((v, e)) => {
                    let mut w = v;
                    w.insert(0, c);
                    proof {
                        assert(w@ =~= seq![c] + w@.subrange(1, w@.len() as int));
                    }
                    Some((w, e))
                },
                None => None,
            }
        } else {
            None
        }
    } else if b == NL {
        None
    } else {
        match parse_text(s, p + 1) {
            Some((v, e)) => {
                let mut w = v;
                w.insert(0, b);
                proof {
                    assert(w@ =~= seq![b] + w@.subrange(1, w@.len() as int));
                }
                Some((w, e))
            },
            None => None,
        }
    }
}

/// Reads a field name from `p` (after its opening quote) up to its
/// closing quote.
fn parse_key(s: &[u8], p: usize) -> (r: Option<(Vec<u8>, usize)>)
    requires
        p <= s@.len(),
    ensures
        match spec_parse_key(s@, p as int) {
            Some((k, e)) => r matches Some((kv, ev)) && kv@ == k && ev == e && p < e <= s@.len(),
            None => r is None,
        },
{
    proof {
        lemma_key_run_end_props(s@, p as int);
    }
    let ghost ke = key_run_end(s@, p as int);
    let mut i: usize = p;
    while i < s.len() && crate::record::key_byte(s[i])
        invariant
            p <= i <= ke <= s@.len(),
            ke == key_run_end(s@, p as int),
            forall|j: int| p <= j < ke ==> crate::record::is_key_byte(#[trigger] s@[j]),
            ke < s@.len() ==> !crate::record::is_key_byte(s@[ke as int]),
            i < ke ==> crate::record::is_key_byte(s@[i as int]),
            (i == ke) == !(i < s@.len() && crate::record::is_key_byte(s@[i as int])),
        decreases s@.len() - i,
    {
        i = i + 1;
    }
    if p < i && i < s.len() && s[i] == QUOTE {
        let kv = vstd::slice::slice_to_vec(vstd::slice::slice_subrange(s, p, i));
        Some((kv, i + 1))
    } else {
        None
    }
}

/// Reads one value from `p`: quoted text or a bare integer.
fn parse_value(s: &[u8], p: usize) -> (r: Option<(Value, usize)>)
    requires
        p <= s@.len(),
    ensures
        match spec_parse_value(s@, p as int) {
            Some((v, e)) => r matches Some((vv, ev)) && vv.view() == v && ev == e && p < e
                <= s@.len(),
            None => r is None,
        },
{
    if p >= s.len() {
        return None;
    }
    if s[p] == QUOTE {
        match parse_text(s, p + 1) {
            Some((v, e)) => Some((Value::Text(v), e)),
            None => None,
        }
    } else {
        match crate::num::parse_i64_run(s, p) {
            Some((v, e)) => Some((Value::Int(v), e)),
            None => None,
        }
    }
}

/// Reads the field list from `p`, stopping at the closing brace.
fn parse_fields(s: &[u8], p: usize) -> (r: Option<(Vec<(Vec<u8>, Value)>, usize)>)
    requires
        p <= s@.len(),
    ensures
        match spec_parse_fields(s@, p as int) {
            Some((fs, e)) => r matches Some((fv, ev)) && fv@.map_values(
                |f: (Vec<u8>, Value)| (f.0@, f.1.view()),
            ) == fs && ev == e && p < e < s@.len(),
            None => r is None,
        },
    decreases s@.len() - p,
{
    if p >= s.len() || s[p] != QUOTE {
        return None;
    }
    let first = match parse_key(s, p + 1) {
        Some(x) => x,
        None => {
            return None;
        },
    };
    let (k, p1) = first;
    if !(p1 < s.len() && s[p1] == COLON) {
        return None;
    }
    let second = match parse_value(s, p1 + 1) {
        Some(x) => x,
        None => {
            return None;
        },
    };
    let (v, p2) = second;
    if p2 < s.len() && s[p2] == RBRACE {
        let mut out: Vec<(Vec<u8>, Value)> = Vec::new();
        out.push((k, v));
        proof {
            assert(out@.map_values(|f: (Vec<u8>, Value)| (f.0@, f.1.view())) =~= seq![
                (k@, v.view()),
            ]);
        }
        Some((out, p2))
    } else if p2 < s.len() && s[p2] == COMMA {
        match parse_fields(s, p2 + 1) {
            Some((rest, e)) => {
                let mut out = rest;
                out.insert(0, (k, v));
                proof {
                    let m = |f: (Vec<u8>, Value)| (f.0@, f.1.view());
                    assert(out@.map_values(m) =~= seq![(k@, v.view())] + out@.subrange(
                        1,
                        out@.len() as int,
                    ).map_values(m));
                    assert(out@.subrange(1, out@.len() as int) =~= rest@);
                }
                Some((out, e))
            },
            None => None,
        }
    } else {
        None
    }
}

impl Record {
    /// Reads one serialized record line back into a record: the
    /// inverse of `serialize` on canonical lines, `None` on anything
    /// that is not one.
    pub fn parse(s: &[u8]) -> (r: Option<Record>)
        ensures
            match spec_parse_record(s@) {
                Some(fs) => r matches Some(rec) && rec@ == fs,
                None => r is None,
            },
    {
        if s.len() < 2 || s[0] != LBRACE {
            return None;
        }
        if s[1] == RBRACE {
            if s.len() == 2 {
                let rec = Record::from_fields(Vec::new());
                proof {
                    assert(rec@ =~= Seq::<(Seq<u8>, SpecValue)>::empty());
                }
                return Some(rec);
            } else {
                return None;
            }
        }
        match parse_fields(s, 1) {
            Some((fv, e)) => {
                if e == s.len() - 1 {
                    Some(Record::from_fields(fv))
                } else {
                    None
                }
            },
            None => None,
        }
    }
}

proof fn lemma_parse_text_of_esc(s: Seq<u8>, p: int, v: Seq<u8>)
    requires
        0 <= p,
        p + esc(v).len() < s.len(),
        s.subrange(p, p + esc(v).len()) =~= esc(v),
        s[p + esc(v).len()] == QUOTE,
    ensures
        spec_parse_text(s, p) == Some((v, p + esc(v).len() + 1)),
    decreases v.len(),
{
    if v.len() == 0 {
        assert(s[p] == QUOTE);
    } else {
        let hd = esc_byte(v[0]);
        let tl = v.subrange(1, v.len() as int);
        assert(esc(v) == hd + esc(tl));
        let q = p + hd.len();
        assert forall|k: int| 0 <= k < esc(tl).len() implies #[trigger] s.subrange(
            q,
            q + esc(tl).len(),
        )[k] == esc(tl)[k] by {
            assert(s.subrange(q, q + esc(tl).len())[k] == s[q + k]);
            assert(s[q + k] == s.subrange(p, p + esc(v).len())[hd.len() + k]);
            assert(esc(v)[hd.len() + k] == esc(tl)[k]);
        }
        assert(s.subrange(q, q + esc(tl).len()) =~= esc(tl));
        lemma_parse_text_of_esc(s, q, tl);
        assert(s[p] == s.subrange(p, p + esc(v).len())[0]);
        assert(s[p] == hd[0]);
        if v[0] == QUOTE || v[0] == BSL || v[0] == NL {
            assert(s[p] == BSL);
            assert(s[p + 1] == s.subrange(p, p + esc(v).len())[1]);
            assert(s[p + 1] == hd[1]);
            assert(spec_parse_text(s, p + 2) == Some((tl, p + esc(v).len() + 1)));
            assert(seq![v[0]] + tl =~= v);
        } else {
            assert(s[p] == v[0]);
            assert(s[p] != QUOTE && s[p] != BSL && s[p] != NL);
            assert(spec_parse_text(s, p + 1) == Some((tl, p + esc(v).len() + 1)));
            assert(seq![v[0]] + tl =~= v);
        }
    }
}

proof fn lemma_key_run_end_exact(s: Seq<u8>, p: int, e: int)
    requires
        0 <= p <= e <= s.len(),
        forall|j: int| p <= j < e ==> crate::record::is_key_byte(#[trigger] s[j]),
        e < s.len() ==> !crate::record::is_key_byte(s[e]),
    ensures
        key_run_end(s, p) == e,
    decreases e - p,
{
    if p < e {
        lemma_key_run_end_exact(s, p + 1, e);
    }
}

proof fn lemma_parse_key_of_ser(s: Seq<u8>, p: int, k: Seq<u8>)
    requires
        0 <= p,
        crate::record::spec_key_wf(k),
        p + k.len() < s.len(),
        s.subrange(p, p + k.len()) =~= k,
        s[p + k.len()] == QUOTE,
    ensures
        spec_parse_key(s, p) == Some((k, p + k.len() + 1)),
{
    assert forall|j: int| p <= j < p + k.len() implies crate::record::is_key_byte(
        #[trigger] s[j],
    ) by {
        assert(s.subrange(p, p + k.len())[j - p] == s[j]);
        assert(k[j - p] == s[j]);
    }
    assert(!crate::record::is_key_byte(QUOTE));
    lemma_key_run_end_exact(s, p, p + k.len());
    assert(s.subrange(p, p + k.len()) == k);
}

proof fn lemma_parse_value_of_ser(s: Seq<u8>, p: int, v: SpecValue)
    requires
        0 <= p,
        p + ser_value(v).len() < s.len(),
        s.subrange(p, p + ser_value(v).len()) =~= ser_value(v),
        v is Int ==> i64::MIN <= v->Int_0 <= i64::MAX,
        v is Int ==> !crate::num::is_digit(s[p + ser_value(v).len()]),
        v is Text ==> s[p + ser_value(v).len()] != QUOTE,
    ensures
        spec_parse_value(s, p) == Some((v, p + ser_value(v).len())),
{
    match v {
        SpecValue::Text(t) => {
            let body = ser_value(v);
            assert(s[p] == body[0]);
            assert(s[p] == QUOTE);
            assert forall|k: int| 0 <= k < esc(t).len() implies #[trigger] s.subrange(
                p + 1,
                p + 1 + esc(t).len(),
            )[k] == esc(t)[k] by {
                assert(s.subrange(p + 1, p + 1 + esc(t).len())[k] == s[p + 1 + k]);
                assert(s[p + 1 + k] == s.subrange(p, p + body.len())[1 + k]);
                assert(body[1 + k] == esc(t)[k]);
            }
            assert(s.subrange(p + 1, p + 1 + esc(t).len()) =~= esc(t));
            assert(s[p + 1 + esc(t).len()] == s.subrange(p, p + body.len())[body.len() - 1]);
            assert(s[p + 1 + esc(t).len()] == QUOTE);
            lemma_parse_text_of_esc(s, p + 1, t);
        },
        SpecValue::Int(i) => {
            let d = crate::num::dec_i64(i);
            assert(ser_value(v) == d);
            crate::name::lemma_signed_at(s, p, i as i64, p + d.len());
            assert(s[p] == s.subrange(p, p + d.len())[0]);
            crate::num::lemma_dec_digits_are_digits(
                if i < 0 {
                    (-i) as nat
                } else {
                    i as nat
                },
            );
            assert(s[p] != QUOTE);
        },
    }
}

proof fn lemma_parse_fields_of_ser(s: Seq<u8>, p: int, fs: Seq<(Seq<u8>, SpecValue)>)
    requires
        0 <= p,
        fs.len() >= 1,
        crate::record::spec_fields_wf(fs),
        forall|i: int|
            0 <= i < fs.len() ==> ((#[trigger] fs[i]).1 is Int ==> i64::MIN <= fs[i].1->Int_0
                <= i64::MAX),
        p + ser_fields(fs).len() < s.len(),
        s.subrange(p, p + ser_fields(fs).len()) =~= ser_fields(fs),
        s[p + ser_fields(fs).len()] == RBRACE,
    ensures
        spec_parse_fields(s, p) == Some((fs, p + ser_fields(fs).len())),
    decreases fs.len(),
{
    let f0 = fs[0];
    let body = ser_fields(fs);
    let fb = ser_field(f0);
    assert forall|k: int| 0 <= k < fb.len() implies #[trigger] s[p + k] == fb[k] by {
        assert(s[p + k] == s.subrange(p, p + body.len())[k]);
        if fs.len() == 1 {
        } else {
            assert(body == fb + seq![COMMA] + ser_fields(fs.subrange(1, fs.len() as int)));
            assert(body[k] == fb[k]);
        }
    }
    assert(s[p + 0] == fb[0]);
    assert(s[p] == QUOTE);
    let k0 = f0.0;
    assert forall|j: int| 0 <= j < k0.len() implies #[trigger] s.subrange(
        p + 1,
        p + 1 + k0.len(),
    )[j] == k0[j] by {
        let kk = 1 + j;
        assert(s[p + kk] == fb[kk]);
        assert(fb[kk] == k0[j]);
        assert(s.subrange(p + 1, p + 1 + k0.len())[j] == s[p + 1 + j]);
        assert(p + kk == p + 1 + j);
    }
    assert(s.subrange(p + 1, p + 1 + k0.len()) =~= k0);
    let ke = 1 + k0.len() as int;
    assert(s[p + ke] == fb[ke]);
    assert(s[p + 1 + k0.len()] == QUOTE);
    lemma_parse_key_of_ser(s, p + 1, k0);
    let p1 = p + 1 + k0.len() + 1;
    assert(s[p + (ke + 1)] == fb[ke + 1]);
    assert(p + (ke + 1) == p1);
    assert(s[p1] == COLON);
    let vb = ser_value(f0.1);
    let p2 = p1 + 1 + vb.len();
    assert(p2 == p + fb.len());
    assert forall|j: int| 0 <= j < vb.len() implies #[trigger] s.subrange(p1 + 1, p2)[j] == vb[j] by {
        let kk = ke + 2 + j;
        assert(s[p + kk] == fb[kk]);
        assert(fb[kk] == vb[j]);
        assert(s.subrange(p1 + 1, p2)[j] == s[p1 + 1 + j]);
        assert(p + kk == p1 + 1 + j);
    }
    assert(s.subrange(p1 + 1, p2) =~= vb);
    if fs.len() == 1 {
        assert(p2 == p + body.len());
        assert(s[p2] == RBRACE);
        assert(!crate::num::is_digit(RBRACE));
        assert(RBRACE != QUOTE);
        lemma_parse_value_of_ser(s, p1 + 1, f0.1);
        assert(seq![(k0, f0.1)] =~= fs);
    } else {
        let tl = fs.subrange(1, fs.len() as int);
        assert(body == fb + seq![COMMA] + ser_fields(tl));
        assert(s[p2] == s.subrange(p, p + body.len())[fb.len() as int]);
        assert(s[p2] == COMMA);
        assert(!crate::num::is_digit(COMMA));
        assert(COMMA != QUOTE);
        lemma_parse_value_of_ser(s, p1 + 1, f0.1);
        assert(crate::record::spec_fields_wf(tl)) by {
            assert(forall|i: int| 0 <= i < tl.len() ==> #[trigger] tl[i] == fs[i + 1]);
        }
        assert forall|j: int| 0 <= j < ser_fields(tl).len() implies #[trigger] s.subrange(
            p2 + 1,
            p2 + 1 + ser_fields(tl).len(),
        )[j] == ser_fields(tl)[j] by {
            assert(s.subrange(p2 + 1, p2 + 1 + ser_fields(tl).len())[j] == s[p2 + 1 + j]);
            assert(s[p2 + 1 + j] == s.subrange(p, p + body.len())[fb.len() + 1 + j]);
            assert(body[fb.len() + 1 + j] == ser_fields(tl)[j]);
        }
        assert(s.subrange(p2 + 1, p2 + 1 + ser_fields(tl).len()) =~= ser_fields(tl));
        assert(s[p2 + 1 + ser_fields(tl).len()] == RBRACE);
        assert(forall|i: int| 0 <= i < tl.len() ==> #[trigger] tl[i] == fs[i + 1]);
        lemma_parse_fields_of_ser(s, p2 + 1, tl);
        assert(seq![(k0, f0.1)] + tl =~= fs);
    }
}

/// *Idempotent reserialization*: a well-formed record's canonical
/// line parses back to exactly the record it came from, every field
/// included — the timestamp integer and filename among them.
pub proof fn lemma_serialize_round_trip(fs: Seq<(Seq<u8>, SpecValue)>)
    requires
        crate::record::spec_fields_wf(fs),
        forall|i: int|
            0 <= i < fs.len() ==> ((#[trigger] fs[i]).1 is Int ==> i64::MIN <= fs[i].1->Int_0
                <= i64::MAX),
    ensures
        spec_parse_record(spec_serialize(fs)) == Some(fs),
{
    let s = spec_serialize(fs);
    assert(s[0] == LBRACE);
    if fs.len() == 0 {
        assert(s =~= seq![LBRACE, RBRACE]);
    } else {
        let body = ser_fields(fs);
        let bl = body.len() as int;
        assert(s.len() == bl + 2);
        assert forall|k: int| 0 <= k < bl implies #[trigger] s.subrange(1, 1 + bl)[k]
            == body[k] by {
            assert(s.subrange(1, 1 + bl)[k] == s[1 + k]);
        }
        assert(s.subrange(1, 1 + bl) =~= body);
        assert(s[1 + bl] == RBRACE);
        lemma_parse_fields_of_ser(s, 1, fs);
        assert(s[1] == body[0]);
        assert(body[0] == ser_field(fs[0])[0]) by {
            if fs.len() > 1 {
                assert(body == ser_field(fs[0]) + seq![COMMA] + ser_fields(
                    fs.subrange(1, fs.len() as int),
                ));
            }
        }
        assert(s[1] == QUOTE);
        assert(s[1] != RBRACE);
    }
}


proof fn lemma_ser_value_no_newline(v: SpecValue)
    ensures
        forall|j: int| 0 <= j < ser_value(v).len() ==> #[trigger] ser_value(v)[j] != NL,
{
    match v {
        SpecValue::Text(t) => {
            lemma_esc_no_newline(t);
            let b = ser_value(v);
            assert forall|j: int| 0 <= j < b.len() implies #[trigger] b[j] != NL by {
                if 1 <= j < b.len() - 1 {
                    assert(b[j] == esc(t)[j - 1]);
                }
            }
        },
        SpecValue::Int(i) => {
            let mag: nat = if i < 0 {
                (-i) as nat
            } else {
                i as nat
            };
            crate::num::lemma_dec_digits_are_digits(mag);
            let b = ser_value(v);
            assert forall|j: int| 0 <= j < b.len() implies #[trigger] b[j] != NL by {
                if i < 0 {
                    if j > 0 {
                        assert(b[j] == crate::num::dec_digits(mag)[j - 1]);
                        assert(crate::num::is_digit(b[j]));
                    }
                } else {
                    assert(b[j] == crate::num::dec_digits(mag)[j]);
                    assert(crate::num::is_digit(b[j]));
                }
            }
        },
    }
}

proof fn lemma_ser_field_no_newline(f: (Seq<u8>, SpecValue))
    requires
        crate::record::spec_key_wf(f.0),
    ensures
        forall|j: int| 0 <= j < ser_field(f).len() ==> #[trigger] ser_field(f)[j] != NL,
{
    lemma_ser_value_no_newline(f.1);
    let b = ser_field(f);
    let kl = f.0.len() as int;
    assert forall|j: int| 0 <= j < b.len() implies #[trigger] b[j] != NL by {
        if 1 <= j < 1 + kl {
            assert(b[j] == f.0[j - 1]);
            assert(crate::record::is_key_byte(b[j]));
        } else if j >= 3 + kl {
            assert(b[j] == ser_value(f.1)[j - 3 - kl]);
        }
    }
}

proof fn lemma_ser_fields_no_newline(fs: Seq<(Seq<u8>, SpecValue)>)
    requires
        crate::record::spec_fields_wf(fs),
    ensures
        forall|j: int| 0 <= j < ser_fields(fs).len() ==> #[trigger] ser_fields(fs)[j] != NL,
    decreases fs.len(),
{
    if fs.len() == 1 {
        lemma_ser_field_no_newline(fs[0]);
    } else if fs.len() > 1 {
        let tl = fs.subrange(1, fs.len() as int);
        assert(crate::record::spec_fields_wf(tl)) by {
            assert(forall|i: int| 0 <= i < tl.len() ==> #[trigger] tl[i] == fs[i + 1]);
        }
        lemma_ser_fields_no_newline(tl);
        lemma_ser_field_no_newline(fs[0]);
        let b = ser_fields(fs);
        let fb = ser_field(fs[0]);
        assert forall|j: int| 0 <= j < b.len() implies #[trigger] b[j] != NL by {
            if j < fb.len() {
                assert(b[j] == fb[j]);
            } else if j > fb.len() {
                assert(b[j] == ser_fields(tl)[j - fb.len() - 1]);
            } else {
                assert(b[j] == COMMA);
            }
        }
    }
}

/// A well-formed record's serialized line holds no raw newline, so
/// the writer's terminating newline frames exactly one record per
/// line of a segment.
pub proof fn lemma_serialize_no_newline(fs: Seq<(Seq<u8>, SpecValue)>)
    requires
        crate::record::spec_fields_wf(fs),
    ensures
        forall|j: int|
            0 <= j < spec_serialize(fs).len() ==> #[trigger] spec_serialize(fs)[j] != NL,
{
    lemma_ser_fields_no_newline(fs);
    let b = spec_serialize(fs);
    assert forall|j: int| 0 <= j < b.len() implies #[trigger] b[j] != NL by {
        if 1 <= j < b.len() - 1 {
            assert(b[j] == ser_fields(fs)[j - 1]);
        }
    }
}

} // verus!
