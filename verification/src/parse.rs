use vstd::prelude::*;
use crate::record::{
    is_key_byte, key_wf, spec_insert_field, spec_key_wf, Record, SpecValue, Value,
};
use crate::regex::{capture_names_of, captures_of, pattern_wf, CompileError, Query};
use vstd::slice::{slice_subrange, slice_to_vec};

verus! {

/// A line that cannot become a record: a participating group without
/// a usable name (a pattern bug), or an engine fault.
#[derive(Debug)]
pub enum ParseError {
    UnnamedGroup,
    Engine(String),
}

/// The bytes of `"message"`, the fallback field for unmatched lines.
pub open spec fn spec_message_key() -> Seq<u8> {
    seq![109u8, 101u8, 115u8, 115u8, 97u8, 103u8, 101u8]
}

pub fn message_key() -> (k: Vec<u8>)
    ensures
        k@ == spec_message_key(),
        spec_key_wf(k@),
{
    let mut k: Vec<u8> = Vec::new();
    k.push(109u8);
    k.push(101u8);
    k.push(115u8);
    k.push(115u8);
    k.push(97u8);
    k.push(103u8);
    k.push(101u8);
    proof {
        assert(k@ =~= spec_message_key());
        assert forall|j: int| 0 <= j < k@.len() implies is_key_byte(#[trigger] k@[j]) by {
            assert(k@ == spec_message_key());
        }
    }
    k
}

/// Folding the participating groups from index `i` on into the field
/// list `acc`: each named group adds its substring of the line under
/// its name; a group that participated without a usable name traps.
pub open spec fn spec_caps_fold(
    names: Seq<Option<Seq<u8>>>,
    caps: Seq<Option<(usize, usize)>>,
    line: Seq<u8>,
    i: int,
    acc: Seq<(Seq<u8>, SpecValue)>,
) -> Option<Seq<(Seq<u8>, SpecValue)>>
    decreases caps.len() - i,
{
    if i < 0 || i >= caps.len() {
        Some(acc)
    } else {
        match caps[i] {
            None => spec_caps_fold(names, caps, line, i + 1, acc),
            Some(se) => {
                if 0 <= i < names.len() && names[i] is Some && spec_key_wf(names[i].unwrap()) {
                    spec_caps_fold(
                        names,
                        caps,
                        line,
                        i + 1,
                        spec_insert_field(
                            acc,
                            names[i].unwrap(),
                            SpecValue::Text(line.subrange(se.0 as int, se.1 as int)),
                        ),
                    )
                } else {
                    None
                }
            },
        }
    }
}

/// What one line parses to: on a match, the named participating
/// groups' substrings; on no match, the single field
/// `message -> line`.  `None` traps a participating group without a
/// usable name.
pub open spec fn spec_parse_line(pattern: Seq<char>, line: Seq<u8>) -> Option<
    Seq<(Seq<u8>, SpecValue)>,
> {
    match captures_of(pattern, line) {
        None => Some(seq![(spec_message_key(), SpecValue::Text(line))]),
        Some(caps) => spec_caps_fold(capture_names_of(pattern), caps, line, 1, Seq::empty()),
    }
}

/// Turns one input line into a record.
pub trait LineParser {
    /// The parser's own well-formedness.
    spec fn parser_wf(&self) -> bool;

    /// What a line parses to; `None` traps a pattern bug.
    spec fn parse_model(&self, line: Seq<u8>) -> Option<Seq<(Seq<u8>, SpecValue)>>;

    fn parse(&self, line: &[u8]) -> (r: Result<Record, ParseError>)
        requires
            self.parser_wf(),
        ensures
            r matches Ok(rec) ==> Some(rec@) == self.parse_model(line@) && rec.wf(),
            r matches Err(e) ==> (e is UnnamedGroup ==> self.parse_model(line@) is None),
    ;
}

/// A line parser: one compiled extraction pattern and its group
/// names, applied line by line.
pub struct RegexParser {
    query: Query,
    names: Vec<Option<Vec<u8>>>,
}

impl RegexParser {
    /// The extraction pattern's text.
    pub closed spec fn pat(&self) -> Seq<char> {
        self.query.pat()
    }

    pub closed spec fn wf(&self) -> bool {
        self.names.deep_view() == capture_names_of(self.query.pat())
    }

    /// Compiles the extraction pattern and reads its group names:
    /// succeeds exactly when the engine accepts the pattern.
    pub fn new(pattern: &str) -> (r: Result<RegexParser, CompileError>)
        ensures
            r is Ok <==> pattern_wf(pattern@),
            r matches Ok(p) ==> p.wf() && p.pat() == pattern@,
    {
        let query = match Query::compile(pattern) {
            Ok(q) => q,
            Err(e) => {
                return Err(e);
            },
        };
        let names = query.capture_names();
        Ok(RegexParser { query, names })
    }
}

impl LineParser for RegexParser {
    open spec fn parser_wf(&self) -> bool {
        self.wf()
    }

    open spec fn parse_model(&self, line: Seq<u8>) -> Option<Seq<(Seq<u8>, SpecValue)>> {
        spec_parse_line(self.pat(), line)
    }

    /// Parses one line into a record: on a match, every participating
    /// group's substring under the group's name; on no match, the
    /// record `{ message: line }`.  A participating group without a
    /// usable name is a pattern bug: it traps, rendered here as the
    /// designated `UnnamedGroup` refusal rather than a panic, and the
    /// contract proves success impossible on such a line.
    fn parse(&self, line: &[u8]) -> (r: Result<Record, ParseError>) {
        let caps = match self.query.read_captures(line) {
            Err(e) => {
                return Err(ParseError::Engine(e.message));
            },
            Ok(None) => {
                let mut rec = Record::new();
                rec.insert(message_key(), Value::Text(slice_to_vec(line)));
                proof {
                    assert(rec@ =~= seq![(spec_message_key(), SpecValue::Text(line@))]);
                }
                return Ok(rec);
            },
            Ok(Some(caps)) => caps,
        };
        let ghost gnames = self.names.deep_view();
        let ghost gcaps = caps@;
        proof {
            assert(gnames.len() == self.names@.len());
            assert(forall|j: int|
                0 <= j < gnames.len() ==> #[trigger] gnames[j] == self.names@[j].deep_view());
            assert(captures_of(self.pat(), line@) == Some(gcaps));
        }
        let mut rec = Record::new();
        let mut i: usize = 1;
        while i < caps.len()
            invariant
                1 <= i,
                i <= gcaps.len() || i == 1,
                gcaps == caps@,
                captures_of(self.pat(), line@) == Some(gcaps),
                gnames == capture_names_of(self.pat()),
                gnames == self.names.deep_view(),
                gnames.len() == self.names@.len(),
                forall|j: int|
                    0 <= j < gnames.len() ==> #[trigger] gnames[j] == self.names@[j].deep_view(),
                forall|j: int|
                    0 <= j < gcaps.len() ==> (#[trigger] gcaps[j] matches Some(se) ==> se.0 <= se.1
                        <= line@.len()),
                rec.wf(),
                spec_caps_fold(gnames, gcaps, line@, i as int, rec@) == spec_caps_fold(
                    gnames,
                    gcaps,
                    line@,
                    1,
                    Seq::empty(),
                ),
            decreases gcaps.len() - i,
        {
            let ghost acc0 = rec@;
            match caps[i] {
                None => {},
                Some((s, e)) => {
                    proof {
                        assert(gcaps[i as int] == caps@[i as int]);
                    }
                    if i >= self.names.len() {
                        proof {
                            assert(spec_caps_fold(gnames, gcaps, line@, i as int, rec@) is None);
                        }
                        return Err(ParseError::UnnamedGroup);
                    }
                    let nm = match &self.names[i] {
                        None => {
                            proof {
                                assert(gnames[i as int] == self.names@[i as int].deep_view());
                                assert(gnames[i as int] is None);
                                assert(spec_caps_fold(gnames, gcaps, line@, i as int, rec@)
                                    is None);
                            }
                            return Err(ParseError::UnnamedGroup);
                        },
                        Some(nm) => nm,
                    };
                    proof {
                        assert(gnames[i as int] == self.names@[i as int].deep_view());
                        assert(gnames[i as int] == Some(nm@));
                    }
                    if !key_wf(nm.as_slice()) {
                        proof {
                            assert(!spec_key_wf(gnames[i as int].unwrap()));
                            assert(spec_caps_fold(gnames, gcaps, line@, i as int, rec@) is None);
                        }
                        return Err(ParseError::UnnamedGroup);
                    }
                    let val = slice_to_vec(slice_subrange(line, s, e));
                    let key = slice_to_vec(nm.as_slice());
                    rec.insert(key, Value::Text(val));
                    proof {
                        assert(rec@ == spec_insert_field(
                            acc0,
                            gnames[i as int].unwrap(),
                            SpecValue::Text(line@.subrange(s as int, e as int)),
                        ));
                    }
                },
            }
            i = i + 1;
        }
        Ok(rec)
    }
}

} // verus!
