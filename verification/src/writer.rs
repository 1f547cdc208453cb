use vstd::prelude::*;
use crate::codec::NL;
use crate::name::{is_alnum8, sealed_name, spec_sealed_name, spec_temp_name, temp_name};
use rand::distr::SampleString;

verus! {

/// An error from the byte-stream codec, carrying its rendered message.
#[derive(Debug)]
pub struct CodecError {
    pub message: String,
}

/// What an outside byte-stream codec turns a byte run into: one
/// compressed frame, checksummed, a function of the content alone.
pub uninterp spec fn zstd_frame_of(content: Seq<u8>) -> Seq<u8>;

/// Relies on rand's `Alphanumeric` distribution and `SampleString`:
/// eight samples, each an ASCII letter or digit.
#[verifier::external_body]
fn random_suffix() -> (r: Vec<u8>)
    ensures
        is_alnum8(r@),
{
    rand::distr::Alphanumeric.sample_string(&mut rand::rng(), 8).into_bytes()
}

/// Relies on zstd's streaming encoder: `finish` returns one frame at
/// compression level 1 with the frame checksum enabled, holding
/// exactly the bytes written, a function of the content alone.
/// Compressing into a memory buffer with a fixed valid level cannot
/// fail, so success is promised.
#[verifier::external_body]
fn compress_frame(content: &[u8]) -> (r: Result<Vec<u8>, CodecError>)
    ensures
        r is Ok,
        r matches Ok(f) ==> f@ == zstd_frame_of(content@),
{
    let mut enc = zstd::stream::write::Encoder::new(Vec::new(), 1).map_err(
        |e| CodecError { message: e.to_string() },
    )?;
    enc.include_checksum(true).map_err(|e| CodecError { message: e.to_string() })?;
    std::io::Write::write_all(&mut enc, content).map_err(
        |e| CodecError { message: e.to_string() },
    )?;
    enc.finish().map_err(|e| CodecError { message: e.to_string() })
}

/// Relies on zstd's streaming decoder: decoding a frame the encoder
/// produced gives back exactly the bytes that were compressed.
#[verifier::external_body]
pub fn decompress_frame(data: &[u8]) -> (r: Result<Vec<u8>, CodecError>)
    ensures
        r is Ok <== exists|c: Seq<u8>| data@ == zstd_frame_of(c),
        r matches Ok(out) ==> forall|c: Seq<u8>| data@ == zstd_frame_of(c) ==> out@ == c,
{
    zstd::stream::decode_all(data).map_err(|e| CodecError { message: e.to_string() })
}

/// Counts the logical bytes presented to `write` since construction,
/// before compression, so the partition writer can bound uncompressed
/// payload per segment whatever the compression ratio.
pub struct MeasuringWriter {
    pub bytes: usize,
    pub target: Vec<u8>,
}

impl MeasuringWriter {
    pub fn new(target: Vec<u8>) -> (r: MeasuringWriter)
        ensures
            r.bytes == 0,
            r.target@ == target@,
    {
        MeasuringWriter { bytes: 0, target }
    }

    pub fn write(&mut self, buf: &[u8])
        requires
            old(self).bytes + buf@.len() <= usize::MAX,
        ensures
            final(self).bytes == old(self).bytes + buf@.len(),
            final(self).target@ == old(self).target@ + buf@,
    {
        let mut i: usize = 0;
        while i < buf.len()
            invariant
                i <= buf@.len(),
                self.bytes == old(self).bytes,
                old(self).bytes + buf@.len() <= usize::MAX,
                self.target@ == old(self).target@ + buf@.take(i as int),
            decreases buf@.len() - i,
        {
            self.target.push(buf[i]);
            assert(self.target@ =~= old(self).target@ + buf@.take(i + 1));
            i = i + 1;
        }
        assert(buf@.take(buf@.len() as int) =~= buf@);
        self.bytes = self.bytes + buf.len();
    }

    pub fn write_byte(&mut self, b: u8)
        requires
            old(self).bytes + 1 <= usize::MAX,
        ensures
            final(self).bytes == old(self).bytes + 1,
            final(self).target@ == old(self).target@.push(b),
    {
        self.target.push(b);
        self.bytes = self.bytes + 1;
    }

    /// The wrapped sink is a byte buffer, so there is nothing to force
    /// out; kept so the seal path mirrors the write/flush interface.
    pub fn flush(&mut self)
        ensures
            *final(self) == *old(self),
    {
    }
}

/// The bytes a segment holds: each record's line, newline-terminated.
pub open spec fn spec_content(recs: Seq<(i64, Seq<u8>)>) -> Seq<u8>
    decreases recs.len(),
{
    if recs.len() == 0 {
        Seq::empty()
    } else {
        spec_content(recs.drop_last()) + recs.last().1 + seq![NL]
    }
}

/// The least timestamp among the records; `i64::MAX` when empty.
pub open spec fn spec_min_time(recs: Seq<(i64, Seq<u8>)>) -> i64
    decreases recs.len(),
{
    if recs.len() == 0 {
        i64::MAX
    } else if recs.last().0 < spec_min_time(recs.drop_last()) {
        recs.last().0
    } else {
        spec_min_time(recs.drop_last())
    }
}

/// The greatest timestamp among the records; `i64::MIN` when empty.
pub open spec fn spec_max_time(recs: Seq<(i64, Seq<u8>)>) -> i64
    decreases recs.len(),
{
    if recs.len() == 0 {
        i64::MIN
    } else if recs.last().0 > spec_max_time(recs.drop_last()) {
        recs.last().0
    } else {
        spec_max_time(recs.drop_last())
    }
}

/// Every record's timestamp lies between the segment's bounds.
pub proof fn lemma_time_bounds(recs: Seq<(i64, Seq<u8>)>)
    requires
        recs.len() > 0,
    ensures
        spec_min_time(recs) <= spec_max_time(recs),
        forall|i: int|
            0 <= i < recs.len() ==> spec_min_time(recs) <= (#[trigger] recs[i]).0 <= spec_max_time(
                recs,
            ),
    decreases recs.len(),
{
    if recs.len() > 1 {
        lemma_time_bounds(recs.drop_last());
        assert(forall|i: int| 0 <= i < recs.len() - 1 ==> recs[i] == recs.drop_last()[i]);
    }
}

pub proof fn lemma_content_push(recs: Seq<(i64, Seq<u8>)>, r: (i64, Seq<u8>))
    ensures
        spec_content(recs.push(r)) == spec_content(recs) + r.1 + seq![NL],
        spec_min_time(recs.push(r)) == if r.0 < spec_min_time(recs) {
            r.0
        } else {
            spec_min_time(recs)
        },
        spec_max_time(recs.push(r)) == if r.0 > spec_max_time(recs) {
            r.0
        } else {
            spec_max_time(recs)
        },
{
    assert(recs.push(r).drop_last() =~= recs);
    assert(recs.push(r).last() == r);
}

/// A sealed partition segment, ready to be written out: content
/// compressed into one frame, the final name encoding its time span.
pub struct SealedSegment {
    pub temp_name: Vec<u8>,
    pub final_name: Vec<u8>,
    pub data: Vec<u8>,
    pub min_time: i64,
    pub max_time: i64,
    pub records: Ghost<Seq<(i64, Seq<u8>)>>,
    pub max_size: Ghost<nat>,
}

impl SealedSegment {
    /// *Size bound* and *filename self-description*, at the segment:
    /// the segment is not empty, its uncompressed payload is strictly
    /// over the size threshold, its frame decodes to its records'
    /// newline-terminated lines, and its name carries their exact
    /// timestamp span.
    pub open spec fn wf(&self) -> bool {
        &&& self.records@.len() >= 1
        &&& self.min_time == spec_min_time(self.records@)
        &&& self.max_time == spec_max_time(self.records@)
        &&& spec_content(self.records@).len() > self.max_size@
        &&& self.data@ == zstd_frame_of(spec_content(self.records@))
        &&& (exists|sfx: Seq<u8>|
            is_alnum8(sfx) && self.final_name@ == spec_sealed_name(
                self.min_time,
                self.max_time,
                sfx,
            ))
        &&& (exists|sfx: Seq<u8>| is_alnum8(sfx) && self.temp_name@ == spec_temp_name(sfx))
    }
}

/// The sink a partition writer accepts records through.
pub trait LogWriter {
    spec fn writer_inv(&self) -> bool;

    /// The records of the segment now in flight, oldest first.
    spec fn pending(&self) -> Seq<(i64, Seq<u8>)>;

    /// The uncompressed-byte threshold over which a segment seals.
    spec fn cap(&self) -> nat;

    /// Appends one record line and its timestamp to the in-flight
    /// segment, opening one when none is, and seals the segment — if
    /// and only if its measured input bytes pass the threshold.
    fn write_log(&mut self, log_line: &[u8], timestamp: i64) -> (r: Option<SealedSegment>)
        requires
            old(self).writer_inv(),
            spec_content(old(self).pending()).len() + log_line@.len() + 1 <= usize::MAX,
        ensures
            final(self).writer_inv(),
            final(self).cap() == old(self).cap(),
            ({
                let recs = old(self).pending().push((timestamp, log_line@));
                let content = spec_content(recs);
                match r {
                    Some(seg) => content.len() > old(self).cap() && seg.wf()
                        && seg.records@ == recs && seg.max_size@ == old(self).cap()
                        && final(self).pending().len() == 0,
                    None => content.len() <= old(self).cap() && final(self).pending() == recs,
                }
            }),
    ;
}

/// The open segment of a partition writer: its in-flight name and the
/// measuring sink its records go through.
pub struct OutputFile {
    pub temp_name: Vec<u8>,
    pub writer: MeasuringWriter,
}

/// Splits records into size-bounded segments by timestamp span, after
/// the fashion of a block range index: spans of distinct segments may
/// overlap, and each sealed name declares its own span.
pub struct PartitionWriter {
    pub directory: Vec<u8>,
    pub max_size: usize,
    pub temp_file: Option<OutputFile>,
    pub min_time: i64,
    pub max_time: i64,
    pub records: Ghost<Seq<(i64, Seq<u8>)>>,
}

impl PartitionWriter {
    pub open spec fn inv(&self) -> bool {
        match self.temp_file {
            None => self.records@.len() == 0 && self.min_time == i64::MAX && self.max_time
                == i64::MIN,
            Some(f) => {
                &&& self.records@.len() >= 1
                &&& f.writer.target@ == spec_content(self.records@)
                &&& f.writer.bytes == f.writer.target@.len()
                &&& self.min_time == spec_min_time(self.records@)
                &&& self.max_time == spec_max_time(self.records@)
                &&& (exists|sfx: Seq<u8>| is_alnum8(sfx) && f.temp_name@ == spec_temp_name(sfx))
            },
        }
    }

    /// A writer with no open segment, over the given directory, that
    /// seals a segment once its measured bytes exceed `max_size`.
    pub fn new(directory: Vec<u8>, max_size: usize) -> (r: PartitionWriter)
        ensures
            r.inv(),
            r.temp_file is None,
            r.pending() == Seq::<(i64, Seq<u8>)>::empty(),
            r.directory@ == directory@,
            r.cap() == max_size,
    {
        PartitionWriter {
            directory,
            max_size,
            temp_file: None,
            min_time: i64::MAX,
            max_time: i64::MIN,
            records: Ghost(Seq::empty()),
        }
    }
}

impl LogWriter for PartitionWriter {
    open spec fn writer_inv(&self) -> bool {
        self.inv()
    }

    open spec fn pending(&self) -> Seq<(i64, Seq<u8>)> {
        self.records@
    }

    open spec fn cap(&self) -> nat {
        self.max_size as nat
    }

    fn write_log(&mut self, log_line: &[u8], timestamp: i64) -> (r: Option<SealedSegment>) {
        let ghost pre = *self;
        let mut cur: Option<OutputFile> = None;
        core::mem::swap(&mut cur, &mut self.temp_file);
        let mut file: OutputFile = match cur {
            Some(f) => f,
            None => {
                let sfx = random_suffix();
                OutputFile { temp_name: temp_name(&sfx), writer: MeasuringWriter::new(Vec::new()) }
            },
        };
        if timestamp < self.min_time {
            self.min_time = timestamp;
        }
        if timestamp > self.max_time {
            self.max_time = timestamp;
        }
        file.writer.write(log_line);
        file.writer.write_byte(NL);
        proof {
            self.records@ = pre.records@.push((timestamp, log_line@));
            lemma_content_push(pre.records@, (timestamp, log_line@));
            assert(file.writer.target@ =~= spec_content(self.records@));
        }
        if file.writer.bytes > self.max_size {
            file.writer.flush();
            let sfx2 = random_suffix();
            let fname = sealed_name(self.min_time, self.max_time, &sfx2);
            let data = match compress_frame(file.writer.target.as_slice()) {
                Ok(d) => d,
                Err(_) => vstd::pervasive::unreached(),
            };
            proof {
                lemma_time_bounds(self.records@);
            }
            let seg = SealedSegment {
                temp_name: file.temp_name,
                final_name: fname,
                data,
                min_time: self.min_time,
                max_time: self.max_time,
                records: Ghost(self.records@),
                max_size: Ghost(self.max_size as nat),
            };
            self.min_time = i64::MAX;
            self.max_time = i64::MIN;
            proof {
                self.records@ = Seq::empty();
            }
            Some(seg)
        } else {
            self.temp_file = Some(file);
            None
        }
    }
}

} // verus!
