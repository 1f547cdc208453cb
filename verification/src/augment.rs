use vstd::prelude::*;
use crate::record::{is_key_byte, spec_insert_field, spec_key_wf, spec_lookup, Record, SpecValue,
    Value};
use vstd::slice::slice_to_vec;

verus! {

/// The naive reading of `s` by the strftime-style format `fmt`, as
/// milliseconds since the epoch with no zone applied; `None` when `s`
/// does not parse.  A function of the two strings alone.
pub uninterp spec fn naive_parse_ms(fmt: Seq<char>, s: Seq<u8>) -> Option<i64>;

/// The zone-aware reading of `s` by `fmt`, converted to UTC
/// milliseconds since the epoch; `None` when `s` does not parse.  A
/// function of the two strings alone.
pub uninterp spec fn aware_parse_ms(fmt: Seq<char>, s: Seq<u8>) -> Option<i64>;

/// Relies on chrono's `NaiveDateTime::parse_from_str`, then
/// `and_utc().timestamp_millis()`: the naive reading of the text by
/// the format, deterministic in its inputs.
#[verifier::external_body]
fn parse_naive(fmt: &str, s: &[u8]) -> (r: Option<i64>)
    ensures
        r == naive_parse_ms(fmt@, s@),
{
    let txt = std::str::from_utf8(s).ok()?;
    chrono::NaiveDateTime::parse_from_str(txt, fmt).ok().map(|dt| dt.and_utc().timestamp_millis())
}

/// Relies on chrono's `DateTime::parse_from_str` and
/// `timestamp_millis`: the zone-aware reading of the text by the
/// format in UTC milliseconds, deterministic in its inputs.
#[verifier::external_body]
fn parse_aware(fmt: &str, s: &[u8]) -> (r: Option<i64>)
    ensures
        r == aware_parse_ms(fmt@, s@),
{
    let txt = std::str::from_utf8(s).ok()?;
    chrono::DateTime::parse_from_str(txt, fmt).ok().map(|dt| dt.timestamp_millis())
}

/// Relies on chrono's `Utc::now`: the wall clock in UTC milliseconds.
/// Nothing is promised of the clock's value.
#[verifier::external_body]
pub fn now_ms() -> i64 {
    chrono::Utc::now().timestamp_millis()
}

/// The bytes of `"filename"`, the field the path augmenter writes.
pub open spec fn spec_filename_key() -> Seq<u8> {
    seq![102u8, 105u8, 108u8, 101u8, 110u8, 97u8, 109u8, 101u8]
}

pub fn filename_key() -> (k: Vec<u8>)
    ensures
        k@ == spec_filename_key(),
        spec_key_wf(k@),
{
    let mut k: Vec<u8> = Vec::new();
    k.push(102u8);
    k.push(105u8);
    k.push(108u8);
    k.push(101u8);
    k.push(110u8);
    k.push(97u8);
    k.push(109u8);
    k.push(101u8);
    proof {
        assert(k@ =~= spec_filename_key());
        assert forall|j: int| 0 <= j < k@.len() implies is_key_byte(#[trigger] k@[j]) by {
            assert(k@ == spec_filename_key());
        }
    }
    k
}

/// A post-processing step over a parsed record.  The clock argument
/// of `spec_augment` stands for whatever `now` the step read; a step
/// that never reads the clock ignores it.
pub trait Augmenter {
    /// The step's own well-formedness (a usable key, for one).
    spec fn inv(&self) -> bool;

    spec fn spec_augment(
        &self,
        fs: Seq<(Seq<u8>, SpecValue)>,
        now: i64,
    ) -> Seq<(Seq<u8>, SpecValue)>;

    fn augment(&self, rec: &mut Record)
        requires
            old(rec).wf(),
            self.inv(),
        ensures
            final(rec).wf(),
            exists|now: i64| final(rec)@ == self.spec_augment(old(rec)@, now),
    ;
}

/// Normalizes the timestamp field: reads the text under `key` by
/// `fmt` (at the fixed offset when one is configured, else
/// zone-aware), and stores it back under `key` as UTC milliseconds;
/// when the field is missing, not text, or unparseable, the wall
/// clock stands in.
pub struct DateAugmenter {
    /// A fixed zone offset in seconds east of UTC; `None` to read the
    /// zone out of the text itself.
    pub default_timezone: Option<i32>,
    pub fmt: String,
    pub key: Vec<u8>,
}

/// What the date augmenter computes, given clock reading `now`.
pub open spec fn spec_date_augment(
    tz: Option<i32>,
    fmt: Seq<char>,
    key: Seq<u8>,
    fs: Seq<(Seq<u8>, SpecValue)>,
    now: i64,
) -> Seq<(Seq<u8>, SpecValue)> {
    let parsed: Option<i64> = match spec_lookup(fs, key) {
        Some(SpecValue::Text(s)) => match tz {
            Some(off) => match naive_parse_ms(fmt, s) {
                Some(ms) => if i64::MIN <= ms - off * 1000 <= i64::MAX {
                    Some((ms - off * 1000) as i64)
                } else {
                    None
                },
                None => None,
            },
            None => aware_parse_ms(fmt, s),
        },
        _ => None,
    };
    spec_insert_field(
        fs,
        key,
        SpecValue::Int(
            match parsed {
                Some(ms) => ms as int,
                None => now as int,
            },
        ),
    )
}

impl DateAugmenter {
    /// The date augmentation against an explicit clock reading.
    pub fn augment_at(&self, rec: &mut Record, now: i64)
        requires
            old(rec).wf(),
            spec_key_wf(self.key@),
        ensures
            final(rec)@ == spec_date_augment(
                self.default_timezone,
                self.fmt@,
                self.key@,
                old(rec)@,
                now,
            ),
            final(rec).wf(),
    {
        let parsed: Option<i64> = match rec.get(self.key.as_slice()) {
            Some(Value::Text(s)) => {
                match self.default_timezone {
                    Some(off) => {
                        match parse_naive(self.fmt.as_str(), s.as_slice()) {
                            Some(ms) => ms.checked_sub((off as i64) * 1000),
                            None => None,
                        }
                    },
                    None => parse_aware(self.fmt.as_str(), s.as_slice()),
                }
            },
            _ => None,
        };
        let ts: i64 = match parsed {
            Some(ms) => ms,
            None => now,
        };
        rec.insert(slice_to_vec(self.key.as_slice()), Value::Int(ts));
    }
}

impl Augmenter for DateAugmenter {
    open spec fn inv(&self) -> bool {
        spec_key_wf(self.key@)
    }

    open spec fn spec_augment(
        &self,
        fs: Seq<(Seq<u8>, SpecValue)>,
        now: i64,
    ) -> Seq<(Seq<u8>, SpecValue)> {
        spec_date_augment(self.default_timezone, self.fmt@, self.key@, fs, now)
    }

    fn augment(&self, rec: &mut Record) {
        let now = now_ms();
        self.augment_at(rec, now);
        proof {
            assert(rec@ == self.spec_augment(old(rec)@, now));
        }
    }
}

/// Attaches the source filename: inserts or overwrites the field
/// `filename` with the configured value.  It cannot fail.
pub struct PathAugmenter {
    pub value: Vec<u8>,
}

impl PathAugmenter {
    pub fn augment_value(&self, rec: &mut Record)
        requires
            old(rec).wf(),
        ensures
            final(rec)@ == spec_insert_field(
                old(rec)@,
                spec_filename_key(),
                SpecValue::Text(self.value@),
            ),
            final(rec).wf(),
    {
        rec.insert(filename_key(), Value::Text(slice_to_vec(self.value.as_slice())));
    }
}

impl Augmenter for PathAugmenter {
    open spec fn inv(&self) -> bool {
        true
    }

    open spec fn spec_augment(
        &self,
        fs: Seq<(Seq<u8>, SpecValue)>,
        now: i64,
    ) -> Seq<(Seq<u8>, SpecValue)> {
        spec_insert_field(fs, spec_filename_key(), SpecValue::Text(self.value@))
    }

    fn augment(&self, rec: &mut Record) {
        self.augment_value(rec);
        proof {
            assert(rec@ == self.spec_augment(old(rec)@, 0i64));
        }
    }
}

} // verus!
