use vstd::prelude::*;
use vstd::arithmetic::div_mod::lemma_fundamental_div_mod;

verus! {

/// ASCII codes used by the decimal grammar.
pub const DASH: u8 = 45;

pub open spec fn is_digit(b: u8) -> bool {
    48 <= b <= 57
}

/// The decimal digit string of a natural number, most significant digit first.
pub open spec fn dec_digits(n: nat) -> Seq<u8>
    decreases n,
{
    if n < 10 {
        seq![(n + 48) as u8]
    } else {
        dec_digits(n / 10).push((n % 10 + 48) as u8)
    }
}

/// The decimal string of a signed number: a leading dash for negatives.
pub open spec fn dec_i64(i: int) -> Seq<u8> {
    if i < 0 {
        seq![DASH] + dec_digits((-i) as nat)
    } else {
        dec_digits(i as nat)
    }
}

/// The value of a digit string, read left to right.
pub open spec fn digits_val(ds: Seq<u8>) -> int
    decreases ds.len(),
{
    if ds.len() == 0 {
        0
    } else {
        digits_val(ds.drop_last()) * 10 + (ds.last() - 48)
    }
}

pub proof fn lemma_dec_digits_are_digits(n: nat)
    ensures
        dec_digits(n).len() >= 1,
        forall|j: int| 0 <= j < dec_digits(n).len() ==> is_digit(#[trigger] dec_digits(n)[j]),
    decreases n,
{
    if n >= 10 {
        lemma_dec_digits_are_digits(n / 10);
    }
}

pub proof fn lemma_digits_val_of_dec(n: nat)
    ensures
        digits_val(dec_digits(n)) == n,
    decreases n,
{
    if n < 10 {
        let ds = dec_digits(n);
        assert(ds == seq![(n + 48) as u8]);
        assert(ds.len() == 1);
        assert(ds.drop_last() =~= Seq::<u8>::empty());
        assert(ds.last() == (n + 48) as u8);
        assert(digits_val(ds) == digits_val(ds.drop_last()) * 10 + (ds.last() - 48));
        assert(digits_val(ds.drop_last()) == 0);
    } else {
        lemma_digits_val_of_dec(n / 10);
        let ds = dec_digits(n);
        assert(ds == dec_digits(n / 10).push((n % 10 + 48) as u8));
        assert(ds.drop_last() =~= dec_digits(n / 10));
        assert(ds.last() == (n % 10 + 48) as u8);
        lemma_fundamental_div_mod(n as int, 10);
    }
}

pub proof fn lemma_digits_val_nonneg(ds: Seq<u8>)
    requires
        forall|j: int| 0 <= j < ds.len() ==> is_digit(#[trigger] ds[j]),
    ensures
        digits_val(ds) >= 0,
    decreases ds.len(),
{
    if ds.len() > 0 {
        lemma_digits_val_nonneg(ds.drop_last());
    }
}

/// Appends the decimal digits of `n` to `out`.
pub fn push_dec_u64(n: u64, out: &mut Vec<u8>)
    ensures
        final(out)@ == old(out)@ + dec_digits(n as nat),
    decreases n,
{
    if n < 10 {
        out.push((n + 48) as u8);
        assert(out@ =~= old(out)@ + dec_digits(n as nat));
    } else {
        push_dec_u64(n / 10, out);
        out.push((n % 10 + 48) as u8);
        assert(out@ =~= old(out)@ + dec_digits(n as nat));
    }
}

/// Appends the decimal form of `i`, with a leading dash when negative.
pub fn push_dec_i64(i: i64, out: &mut Vec<u8>)
    ensures
        final(out)@ == old(out)@ + dec_i64(i as int),
{
    if i < 0 {
        out.push(DASH);
        let mag: u64 = if i == i64::MIN {
            9223372036854775808u64
        } else {
            (-i) as u64
        };
        assert(mag == (-(i as int)) as nat);
        push_dec_u64(mag, out);
        assert(out@ =~= old(out)@ + dec_i64(i as int));
    } else {
        push_dec_u64(i as u64, out);
    }
}

/// Where a maximal run of decimal digits starting at `p` ends.
pub open spec fn digit_run_end(s: Seq<u8>, p: int) -> int
    decreases s.len() - p,
{
    if 0 <= p < s.len() && is_digit(s[p]) {
        digit_run_end(s, p + 1)
    } else {
        p
    }
}

pub proof fn lemma_digit_run_end_props(s: Seq<u8>, p: int)
    requires
        0 <= p <= s.len(),
    ensures
        p <= digit_run_end(s, p) <= s.len(),
        forall|j: int| p <= j < digit_run_end(s, p) ==> is_digit(#[trigger] s[j]),
        digit_run_end(s, p) < s.len() ==> !is_digit(s[digit_run_end(s, p)]),
    decreases s.len() - p,
{
    if p < s.len() && is_digit(s[p]) {
        lemma_digit_run_end_props(s, p + 1);
    }
}

/// A digit run over known digits ends exactly where they stop.
pub proof fn lemma_digit_run_end_exact(s: Seq<u8>, p: int, e: int)
    requires
        0 <= p <= e <= s.len(),
        forall|j: int| p <= j < e ==> is_digit(#[trigger] s[j]),
        e < s.len() ==> !is_digit(s[e]),
    ensures
        digit_run_end(s, p) == e,
    decreases e - p,
{
    if p < e {
        lemma_digit_run_end_exact(s, p + 1, e);
    }
}

/// Whether position `p` of `s` starts an optional dash followed by at
/// least one digit.
pub open spec fn signed_run_ok(s: Seq<u8>, p: int) -> bool {
    0 <= p < s.len() && {
        let d = if s[p] == DASH {
            p + 1
        } else {
            p
        };
        d < s.len() && is_digit(s[d]) && digit_run_end(s, d) > d
    }
}

/// The position just past the signed digit run starting at `p`.
pub open spec fn signed_end(s: Seq<u8>, p: int) -> int {
    if s[p] == DASH {
        digit_run_end(s, p + 1)
    } else {
        digit_run_end(s, p)
    }
}

/// The mathematical value of the signed digit run starting at `p`.
pub open spec fn signed_val(s: Seq<u8>, p: int) -> int {
    if s[p] == DASH {
        -digits_val(s.subrange(p + 1, digit_run_end(s, p + 1)))
    } else {
        digits_val(s.subrange(p, digit_run_end(s, p)))
    }
}

/// Magnitude bound on parsed numbers: `2^63`, the widest magnitude an
/// `i64` can hold (on the negative side).
pub const MAX_MAG: u64 = 9223372036854775808u64;

/// Reads the digit run starting at `p` (all of `s[p..]` up to the first
/// non-digit), returning its value when it fits in `u64` magnitude
/// `MAX_MAG`, together with the run's end.  `None` when the magnitude
/// overflows `MAX_MAG`; the end is returned either way.
fn read_digit_run(s: &[u8], p: usize) -> (r: (Option<u64>, usize))
    requires
        p <= s@.len(),
    ensures
        r.1 == digit_run_end(s@, p as int),
        r.0 matches Some(v) ==> v == digits_val(s@.subrange(p as int, r.1 as int)) && v <= MAX_MAG,
        r.0 is None ==> digits_val(s@.subrange(p as int, r.1 as int)) > MAX_MAG,
{
    proof {
        lemma_digit_run_end_props(s@, p as int);
    }
    let ghost e = digit_run_end(s@, p as int);
    let mut i: usize = p;
    let mut acc: u64 = 0;
    let mut over: bool = false;
    while i < s.len() && 48 <= s[i] && s[i] <= 57
        invariant
            p <= i <= e <= s@.len(),
            e == digit_run_end(s@, p as int),
            forall|j: int| p <= j < e ==> is_digit(#[trigger] s@[j]),
            e < s@.len() ==> !is_digit(s@[e]),
            i < e ==> is_digit(s@[i as int]),
            i == e || i < e,
            !over ==> acc == digits_val(s@.subrange(p as int, i as int)) && acc <= MAX_MAG,
            over ==> digits_val(s@.subrange(p as int, i as int)) > MAX_MAG,
            i > p || (acc == 0 && !over),
            (i == e) == !(i < s@.len() && is_digit(s@[i as int])),
        decreases e - i,
    {
        let d: u64 = (s[i] - 48) as u64;
        proof {
            assert(s@.subrange(p as int, i + 1).drop_last() =~= s@.subrange(p as int, i as int));
            lemma_digits_val_nonneg(s@.subrange(p as int, i as int));
        }
        if over {
            proof {
                let pre = s@.subrange(p as int, i as int);
                let cur = s@.subrange(p as int, i + 1);
                assert(digits_val(cur) == digits_val(pre) * 10 + (s@[i as int] - 48));
            }
        } else if acc > MAX_MAG / 10 || (acc == MAX_MAG / 10 && d > MAX_MAG % 10) {
            over = true;
            proof {
                assert(digits_val(s@.subrange(p as int, i + 1)) == acc * 10 + d);
                assert(acc * 10 + d > MAX_MAG) by (nonlinear_arith)
                    requires
                        acc > MAX_MAG / 10 || (acc == MAX_MAG / 10 && d > MAX_MAG % 10),
                        MAX_MAG == 9223372036854775808,
                        d < 10,
                ;
            }
        } else {
            proof {
                assert(acc * 10 + d <= MAX_MAG) by (nonlinear_arith)
                    requires
                        acc <= MAX_MAG / 10,
                        acc == MAX_MAG / 10 ==> d <= MAX_MAG % 10,
                        MAX_MAG == 9223372036854775808,
                        d < 10,
                ;
            }
            acc = acc * 10 + d;
        }
        i = i + 1;
    }
    if over {
        proof {
            assert(s@.subrange(p as int, e as int) =~= s@.subrange(p as int, i as int));
        }
        (None, i)
    } else {
        proof {
            assert(s@.subrange(p as int, e as int) =~= s@.subrange(p as int, i as int));
        }
        (Some(acc), i)
    }
}

/// Parses the signed decimal run starting at `p` as an `i64`, returning
/// the value and the position just past it.  `None` when no digits
/// start there or the value does not fit an `i64`.
pub fn parse_i64_run(s: &[u8], p: usize) -> (r: Option<(i64, usize)>)
    requires
        p <= s@.len(),
    ensures
        r matches Some((v, e)) ==> signed_run_ok(s@, p as int) && e == signed_end(s@, p as int)
            && v == signed_val(s@, p as int) && p < e <= s@.len(),
        r is None ==> !(signed_run_ok(s@, p as int) && i64::MIN <= signed_val(s@, p as int)
            <= i64::MAX),
{
    if p >= s.len() {
        return None;
    }
    let neg = s[p] == DASH;
    let d0: usize = if neg {
        p + 1
    } else {
        p
    };
    if d0 >= s.len() || s[d0] < 48 || s[d0] > 57 {
        proof {
            if d0 < s@.len() {
                lemma_digit_run_end_props(s@, d0 as int);
            }
        }
        return None;
    }
    let (mag, e) = read_digit_run(s, d0);
    proof {
        lemma_digit_run_end_props(s@, d0 as int);
        lemma_digits_val_nonneg(s@.subrange(d0 as int, e as int));
    }
    match mag {
        None => {
            proof {
                assert(digits_val(s@.subrange(d0 as int, e as int)) > MAX_MAG);
            }
            None
        },
        Some(v) => {
            if neg {
                if v == MAX_MAG {
                    Some((i64::MIN, e))
                } else {
                    Some((-(v as i64), e))
                }
            } else {
                if v <= 9223372036854775807u64 {
                    Some((v as i64, e))
                } else {
                    proof {
                        assert(signed_val(s@, p as int) == v);
                    }
                    None
                }
            }
        },
    }
}

} // verus!
