use vstd::prelude::*;
use crate::augment::{
    now_ms, spec_date_augment, spec_filename_key, DateAugmenter, PathAugmenter,
};
use crate::codec::spec_serialize;
use crate::parse::{spec_parse_line, LineParser, ParseError, RegexParser};
use crate::record::{lemma_lookup_insert_other, lemma_lookup_insert_same, spec_insert_field,
    spec_lookup, SpecValue, Value};
use crate::writer::{LogWriter, PartitionWriter, SealedSegment, spec_content};

verus! {

/// What stops one line from being ingested.
#[derive(Debug)]
pub enum IngestError {
    Parse(ParseError),
    /// The serialized record would push the segment past what a
    /// machine-sized byte count can hold.
    TooLarge,
}

/// The record one input line becomes on the ingest path, given clock
/// reading `now`, with its partition key: parsed by the extraction
/// pattern, timestamp normalized, filename attached, then serialized.
/// `None` traps a pattern bug (an unnamed participating group) or a
/// timestamp key that the augmenters left non-integer.
pub open spec fn spec_ingested(
    pat: Seq<char>,
    tz: Option<i32>,
    fmt: Seq<char>,
    key: Seq<u8>,
    pathval: Seq<u8>,
    line: Seq<u8>,
    now: i64,
) -> Option<(i64, Seq<u8>)> {
    match spec_parse_line(pat, line) {
        None => None,
        Some(f0) => {
            let f1 = spec_date_augment(tz, fmt, key, f0, now);
            let f2 = spec_insert_field(f1, spec_filename_key(), SpecValue::Text(pathval));
            match spec_lookup(f2, key) {
                Some(SpecValue::Int(t)) => Some((t as i64, spec_serialize(f2))),
                _ => None,
            }
        },
    }
}

/// Ingests one line against an explicit clock reading: parse,
/// normalize the timestamp, attach the filename, serialize, and hand
/// the line with its partition key to the writer; returns the sealed
/// segment when this write crossed the threshold.
pub fn ingest_line_at(
    parser: &RegexParser,
    date: &DateAugmenter,
    path: &PathAugmenter,
    writer: &mut PartitionWriter,
    line: &[u8],
    now: i64,
) -> (r: Result<Option<SealedSegment>, IngestError>)
    requires
        parser.wf(),
        crate::record::spec_key_wf(date.key@),
        date.key@ != spec_filename_key(),
        old(writer).inv(),
    ensures
        final(writer).inv(),
        final(writer).max_size == old(writer).max_size,
        ({
            let ing = spec_ingested(
                parser.pat(),
                date.default_timezone,
                date.fmt@,
                date.key@,
                path.value@,
                line@,
                now,
            );
            match r {
                Ok(opt) => {
                    &&& ing matches Some((ts, out))
                    &&& ({
                        let recs = old(writer).pending().push((ts, out));
                        let content = spec_content(recs);
                        match opt {
                            Some(seg) => content.len() > old(writer).cap() && seg.wf()
                                && seg.records@ == recs && seg.max_size@ == old(writer).cap()
                                && final(writer).pending().len() == 0,
                            None => content.len() <= old(writer).cap() && final(writer).pending()
                                == recs,
                        }
                    })
                },
                Err(IngestError::Parse(e)) => *final(writer) == *old(writer) && (e
                    is UnnamedGroup ==> spec_parse_line(parser.pat(), line@) is None),
                Err(IngestError::TooLarge) => *final(writer) == *old(writer) && (ing matches Some(
                    (ts, out),
                ) && spec_content(old(writer).pending()).len() + out.len() + 1 > usize::MAX),
            }
        }),
{
    let mut rec = match parser.parse(line) {
        Ok(rec) => rec,
        Err(e) => {
            return Err(IngestError::Parse(e));
        },
    };
    let ghost f0 = rec@;
    date.augment_at(&mut rec, now);
    let ghost f1 = rec@;
    path.augment_value(&mut rec);
    let ghost f2 = rec@;
    proof {
        lemma_lookup_insert_other(f1, spec_filename_key(), SpecValue::Text(path.value@), date.key@);
        lemma_lookup_insert_same(
            f0,
            date.key@,
            spec_lookup(f1, date.key@).unwrap(),
        );
        assert(spec_lookup(f1, date.key@) matches Some(pv) && pv is Int) by {
            let parsed: Option<i64> = match spec_lookup(f0, date.key@) {
                Some(SpecValue::Text(s)) => match date.default_timezone {
                    Some(off) => match crate::augment::naive_parse_ms(date.fmt@, s) {
                        Some(ms) => if i64::MIN <= ms - off * 1000 <= i64::MAX {
                            Some((ms - off * 1000) as i64)
                        } else {
                            None
                        },
                        None => None,
                    },
                    None => crate::augment::aware_parse_ms(date.fmt@, s),
                },
                _ => None,
            };
            let tv = SpecValue::Int(
                match parsed {
                    Some(ms) => ms as int,
                    None => now as int,
                },
            );
            lemma_lookup_insert_same(f0, date.key@, tv);
        }
        assert(spec_lookup(f2, date.key@) == spec_lookup(f1, date.key@));
    }
    let ts: i64 = match rec.get(date.key.as_slice()) {
        Some(v) => match v {
            Value::Int(t) => *t,
            Value::Text(_) => vstd::pervasive::unreached(),
        },
        None => vstd::pervasive::unreached(),
    };
    let out = rec.serialize();
    let cur: usize = match &writer.temp_file {
        Some(f) => f.writer.bytes,
        None => 0,
    };
    if usize::MAX - cur < 1 || out.len() > usize::MAX - cur - 1 {
        return Err(IngestError::TooLarge);
    }
    Ok(writer.write_log(out.as_slice(), ts))
}

/// Ingests one line against the wall clock.
pub fn ingest_line(
    parser: &RegexParser,
    date: &DateAugmenter,
    path: &PathAugmenter,
    writer: &mut PartitionWriter,
    line: &[u8],
) -> (r: Result<Option<SealedSegment>, IngestError>)
    requires
        parser.wf(),
        crate::record::spec_key_wf(date.key@),
        date.key@ != spec_filename_key(),
        old(writer).inv(),
    ensures
        final(writer).inv(),
        final(writer).max_size == old(writer).max_size,
        r matches Ok(opt) ==> exists|now: i64|
            #[trigger] spec_ingested(
                parser.pat(),
                date.default_timezone,
                date.fmt@,
                date.key@,
                path.value@,
                line@,
                now,
            ) matches Some((ts, out)) && {
                let recs = old(writer).pending().push((ts, out));
                let content = spec_content(recs);
                match opt {
                    Some(seg) => content.len() > old(writer).cap() && seg.wf() && seg.records@
                        == recs && final(writer).pending().len() == 0,
                    None => content.len() <= old(writer).cap() && final(writer).pending() == recs,
                }
            },
        r matches Err(IngestError::Parse(e)) ==> *final(writer) == *old(writer) && (e
            is UnnamedGroup ==> spec_parse_line(parser.pat(), line@) is None),
        r matches Err(IngestError::TooLarge) ==> *final(writer) == *old(writer) && exists|now: i64|
            #[trigger] spec_ingested(
                parser.pat(),
                date.default_timezone,
                date.fmt@,
                date.key@,
                path.value@,
                line@,
                now,
            ) matches Some((ts, out)) && spec_content(old(writer).pending()).len() + out.len() + 1
            > usize::MAX,
{
    let now = now_ms();
    let r = ingest_line_at(parser, date, path, writer, line, now);
    proof {
        if r is Ok {
            assert(spec_ingested(
                parser.pat(),
                date.default_timezone,
                date.fmt@,
                date.key@,
                path.value@,
                line@,
                now,
            ) is Some);
        }
    }
    r
}

/// *Size bound*: a sealed segment is never empty, and the measured
/// input bytes of its uncompressed content strictly exceeded the
/// size threshold when it sealed.
pub proof fn lemma_sealed_size_bound(seg: &SealedSegment)
    requires
        seg.wf(),
    ensures
        seg.records@.len() >= 1,
        spec_content(seg.records@).len() > seg.max_size@,
{
}

/// *Filename self-description*: a sealed segment's name parses back
/// to exactly the `min` and `max` of its records' timestamps; its
/// frame decompresses to the newline-terminated serialized records;
/// and every record's timestamp field lies within `[min, max]`.
pub proof fn lemma_sealed_self_description(
    seg: &SealedSegment,
    recs: Seq<Seq<(Seq<u8>, SpecValue)>>,
    key: Seq<u8>,
)
    requires
        seg.wf(),
        recs.len() == seg.records@.len(),
        forall|i: int|
            0 <= i < recs.len() ==> (#[trigger] seg.records@[i]).1 == spec_serialize(recs[i])
                && spec_lookup(recs[i], key) == Some(
                SpecValue::Int(seg.records@[i].0 as int),
            ),
    ensures
        crate::name::spec_parse_name(seg.final_name@) == Some((seg.min_time, seg.max_time)),
        seg.data@ == crate::writer::zstd_frame_of(spec_content(seg.records@)),
        seg.min_time <= seg.max_time,
        forall|i: int|
            0 <= i < recs.len() ==> seg.min_time <= (#[trigger] seg.records@[i]).0
                <= seg.max_time && spec_lookup(recs[i], key) == Some(
                SpecValue::Int(seg.records@[i].0 as int),
            ),
{
    crate::writer::lemma_time_bounds(seg.records@);
    let sfx = choose|sfx: Seq<u8>|
        crate::name::is_alnum8(sfx) && seg.final_name@ == crate::name::spec_sealed_name(
            seg.min_time,
            seg.max_time,
            sfx,
        );
    crate::name::lemma_parse_sealed_name(seg.min_time, seg.max_time, sfx);
}

} // verus!
