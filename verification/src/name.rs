use vstd::prelude::*;
use crate::num::{
    dec_digits, dec_i64, is_digit, lemma_dec_digits_are_digits, lemma_digit_run_end_exact,
    lemma_digits_val_of_dec, parse_i64_run, push_dec_i64, signed_end, signed_run_ok, signed_val,
    DASH,
};

verus! {

/// A random suffix byte: an ASCII letter or digit.
pub open spec fn is_alnum(b: u8) -> bool {
    (48 <= b <= 57) || (65 <= b <= 90) || (97 <= b <= 122)
}

pub open spec fn is_alnum8(s: Seq<u8>) -> bool {
    s.len() == 8 && forall|j: int| 0 <= j < s.len() ==> is_alnum(#[trigger] s[j])
}

/// The bytes of `".part-"`.
pub open spec fn temp_prefix() -> Seq<u8> {
    seq![46u8, 112u8, 97u8, 114u8, 116u8, 45u8]
}

/// The bytes of `".json.zst"`.
pub open spec fn name_ext() -> Seq<u8> {
    seq![46u8, 106u8, 115u8, 111u8, 110u8, 46u8, 122u8, 115u8, 116u8]
}

/// The in-flight segment name `.part-<suffix>.json.zst`.
pub open spec fn spec_temp_name(sfx: Seq<u8>) -> Seq<u8> {
    temp_prefix() + sfx + name_ext()
}

/// The sealed segment name `<min>-<max>-<suffix>.json.zst`.
pub open spec fn spec_sealed_name(min: i64, max: i64, sfx: Seq<u8>) -> Seq<u8> {
    dec_i64(min as int) + seq![DASH] + dec_i64(max as int) + seq![DASH] + sfx + name_ext()
}

/// What the index loader reads out of a directory entry name: the first
/// two dash-separated components as signed 64-bit integers.  A name
/// whose first component is not a signed integer (such as an in-flight
/// `.part-` name), whose second is not, or whose second is not followed
/// by a dash or the end, is skipped.
pub open spec fn spec_parse_name(s: Seq<u8>) -> Option<(i64, i64)> {
    if !signed_run_ok(s, 0) {
        None
    } else {
        let e0 = signed_end(s, 0);
        let v0 = signed_val(s, 0);
        if !(e0 < s.len() && s[e0] == DASH) {
            None
        } else if !signed_run_ok(s, e0 + 1) {
            None
        } else {
            let e1 = signed_end(s, e0 + 1);
            let v1 = signed_val(s, e0 + 1);
            if !(e1 == s.len() || s[e1] == DASH) {
                None
            } else if !(i64::MIN <= v0 <= i64::MAX && i64::MIN <= v1 <= i64::MAX) {
                None
            } else {
                Some((v0 as i64, v1 as i64))
            }
        }
    }
}

fn push_ext(out: &mut Vec<u8>)
    ensures
        final(out)@ == old(out)@ + name_ext(),
{
    out.push(46u8);
    out.push(106u8);
    out.push(115u8);
    out.push(111u8);
    out.push(110u8);
    out.push(46u8);
    out.push(122u8);
    out.push(115u8);
    out.push(116u8);
    assert(out@ =~= old(out)@ + name_ext());
}

/// Composes the in-flight name `.part-<suffix>.json.zst`.
pub fn temp_name(sfx: &Vec<u8>) -> (r: Vec<u8>)
    ensures
        r@ == spec_temp_name(sfx@),
{
    let mut out: Vec<u8> = Vec::new();
    out.push(46u8);
    out.push(112u8);
    out.push(97u8);
    out.push(114u8);
    out.push(116u8);
    out.push(45u8);
    assert(out@ =~= temp_prefix());
    let mut i: usize = 0;
    while i < sfx.len()
        invariant
            i <= sfx@.len(),
            out@ == temp_prefix() + sfx@.take(i as int),
        decreases sfx@.len() - i,
    {
        out.push(sfx[i]);
        assert(out@ =~= temp_prefix() + sfx@.take(i + 1));
        i = i + 1;
    }
    assert(sfx@.take(sfx@.len() as int) =~= sfx@);
    push_ext(&mut out);
    out
}

/// Composes the sealed name `<min>-<max>-<suffix>.json.zst`.
pub fn sealed_name(min: i64, max: i64, sfx: &Vec<u8>) -> (r: Vec<u8>)
    ensures
        r@ == spec_sealed_name(min, max, sfx@),
{
    let mut out: Vec<u8> = Vec::new();
    push_dec_i64(min, &mut out);
    out.push(DASH);
    push_dec_i64(max, &mut out);
    out.push(DASH);
    let ghost head = dec_i64(min as int) + seq![DASH] + dec_i64(max as int) + seq![DASH];
    assert(out@ =~= head);
    let mut i: usize = 0;
    while i < sfx.len()
        invariant
            i <= sfx@.len(),
            out@ == head + sfx@.take(i as int),
        decreases sfx@.len() - i,
    {
        out.push(sfx[i]);
        assert(out@ =~= head + sfx@.take(i + 1));
        i = i + 1;
    }
    assert(sfx@.take(sfx@.len() as int) =~= sfx@);
    push_ext(&mut out);
    assert(out@ =~= spec_sealed_name(min, max, sfx@));
    out
}

/// Parses a directory entry name as the index loader does.
pub fn parse_name(s: &[u8]) -> (r: Option<(i64, i64)>)
    ensures
        r == spec_parse_name(s@),
{
    let first = match parse_i64_run(s, 0) {
        None => {
            return None;
        },
        Some(f) => f,
    };
    let (v0, e0) = first;
    if !(e0 < s.len() && s[e0] == DASH) {
        return None;
    }
    let second = match parse_i64_run(s, e0 + 1) {
        None => {
            return None;
        },
        Some(sn) => sn,
    };
    let (v1, e1) = second;
    if !(e1 == s.len() || s[e1] == DASH) {
        return None;
    }
    Some((v0, v1))
}

/// The dash-free decimal body of a signed number parses back to it.
pub proof fn lemma_signed_at(s: Seq<u8>, p: int, v: i64, e: int)
    requires
        0 <= p,
        p + dec_i64(v as int).len() == e <= s.len(),
        s.subrange(p, e) =~= dec_i64(v as int),
        e < s.len() ==> !is_digit(s[e]),
    ensures
        signed_run_ok(s, p),
        signed_end(s, p) == e,
        signed_val(s, p) == v,
{
    if v < 0 {
        let mag = (-(v as int)) as nat;
        lemma_dec_digits_are_digits(mag);
        lemma_digits_val_of_dec(mag);
        let d = dec_i64(v as int);
        assert(d == seq![DASH] + dec_digits(mag));
        assert(d[0] == DASH);
        assert(s[p] == s.subrange(p, e)[0]);
        assert(s[p] == DASH);
        assert(forall|k: int| 0 <= k < e - (p + 1) ==> #[trigger] s.subrange(p + 1, e)[k] == s[
            p + 1 + k] && s[p + 1 + k] == s.subrange(p, e)[1 + k] && s.subrange(p, e)[1 + k] == d[
            1 + k] && d[1 + k] == dec_digits(mag)[k]);
        assert(s.subrange(p + 1, e) =~= dec_digits(mag));
        assert forall|j: int| p + 1 <= j < e implies is_digit(#[trigger] s[j]) by {
            assert(s.subrange(p + 1, e)[j - (p + 1)] == s[j]);
            assert(s.subrange(p + 1, e)[j - (p + 1)] == dec_digits(mag)[j - (p + 1)]);
        }
        lemma_digit_run_end_exact(s, p + 1, e);
        assert(!is_digit(DASH));
    } else {
        let mag = v as nat;
        lemma_dec_digits_are_digits(mag);
        lemma_digits_val_of_dec(mag);
        assert(s.subrange(p, e) =~= dec_digits(mag));
        assert(s[p] == s.subrange(p, e)[0]);
        assert forall|j: int| p <= j < e implies is_digit(#[trigger] s[j]) by {
            assert(s.subrange(p, e)[j - p] == s[j]);
            assert(s.subrange(p, e)[j - p] == dec_digits(mag)[j - p]);
        }
        assert(s[p] == dec_digits(mag)[0]);
        assert(is_digit(s[p]));
        assert(s[p] != DASH);
        lemma_digit_run_end_exact(s, p, e);
    }
}

/// *Filename self-description, naming half*: a sealed name parses back
/// to exactly the `min` and `max` it was composed from, whatever the
/// suffix holds.
pub proof fn lemma_parse_sealed_name(min: i64, max: i64, sfx: Seq<u8>)
    ensures
        spec_parse_name(spec_sealed_name(min, max, sfx)) == Some((min, max)),
{
    let s = spec_sealed_name(min, max, sfx);
    let d0 = dec_i64(min as int);
    let d1 = dec_i64(max as int);
    let e0 = d0.len() as int;
    let e1 = e0 + 1 + d1.len();
    assert(s.subrange(0, e0) =~= d0);
    assert(s[e0] == DASH);
    assert(!is_digit(DASH));
    lemma_signed_at(s, 0, min, e0);
    assert(s.subrange(e0 + 1, e1) =~= d1);
    assert(s[e1] == DASH);
    lemma_signed_at(s, e0 + 1, max, e1);
}

/// *Atomicity, loader half*: an in-flight `.part-` name never parses,
/// so the index loader never records an in-flight segment.
pub proof fn lemma_parse_temp_name_none(sfx: Seq<u8>)
    ensures
        spec_parse_name(spec_temp_name(sfx)) is None,
{
    let s = spec_temp_name(sfx);
    assert(s[0] == 46u8);
    assert(!is_digit(46u8) && 46u8 != DASH);
}

} // verus!
