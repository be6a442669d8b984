//! The typed reader and the ingestion runner: a reader binds a decoded
//! line stream to its source path and feed role; the runner drives one
//! reader to exhaustion, counting lines and decoded bytes, parsing each
//! line and collecting the records it carries, under a wall-clock timer.

use vstd::prelude::*;

use crate::classify::ReaderType;
use crate::parse::{parseline, spec_parseline, Record};
use crate::stream::{split_lines, sum_len, LineStream};

verus! {

#[verifier::external_type_specification]
#[verifier::external_body]
pub struct ExStopwatch(stopwatch::Stopwatch);

/// Relies on stopwatch::Stopwatch::start_new: starts a wall-clock timer.
/// Nothing is promised of the clock.
pub assume_specification[ stopwatch::Stopwatch::start_new ]() -> stopwatch::Stopwatch;

/// Relies on stopwatch::Stopwatch::elapsed_ms: the wall-clock
/// milliseconds since the watch was started. Nothing is promised of the
/// clock.
pub assume_specification[ stopwatch::Stopwatch::elapsed_ms ](
    sw: &stopwatch::Stopwatch,
) -> i64;

/// A decoded line stream bound to the path it came from and the role its
/// extension assigned; the unit the rest of the pipeline operates on.
pub struct SearchReader {
    pub reader: LineStream,
    pub reader_type: ReaderType,
    pub path: String,
}

impl SearchReader {
    /// Bind a stream to its source path and feed role.
    pub fn new(reader: LineStream, path: String, reader_type: ReaderType) -> (r: SearchReader)
        ensures
            r.reader == reader,
            r.path == path,
            r.reader_type == reader_type,
    {
        SearchReader { reader, reader_type, path }
    }
}

/// Counters for one reader's traversal: decoded bytes and lines actually
/// yielded by the stream, and the wall-clock time the traversal took.
pub struct RunStats {
    pub bytes_read: usize,
    pub line_count: usize,
    pub elapsed_ms: i64,
}

/// The records parsed from `lines`, in order; lines that carry no record
/// are skipped silently.
pub open spec fn records_of(lines: Seq<Seq<u8>>) -> Seq<(i64, Seq<u8>)>
    decreases lines.len(),
{
    if lines.len() == 0 {
        Seq::empty()
    } else {
        match spec_parseline(lines[0]) {
            Some(r) => seq![r] + records_of(lines.drop_first()),
            None => records_of(lines.drop_first()),
        }
    }
}

/// Splitting off the first line splits off its contribution.
proof fn lemma_cons(l: Seq<u8>, rest: Seq<Seq<u8>>)
    ensures
        records_of(seq![l] + rest) == (match spec_parseline(l) {
            Some(r) => seq![r] + records_of(rest),
            None => records_of(rest),
        }),
        sum_len(seq![l] + rest) == l.len() + sum_len(rest),
        (seq![l] + rest).len() == 1 + rest.len(),
{
    assert((seq![l] + rest)[0] == l);
    assert((seq![l] + rest).drop_first() =~= rest);
}

/// Drive one reader's stream to exhaustion: count every line and its
/// decoded byte length (post-decompression, pre-unescape), parse each
/// line, and collect the records; lines carrying no record are skipped.
/// The wall clock is read around the whole traversal.
pub fn search(reader: SearchReader) -> (r: (RunStats, Vec<Record>))
    ensures
        r.0.bytes_read == sum_len(split_lines(reader.reader.remaining())),
        r.0.line_count == split_lines(reader.reader.remaining()).len(),
        r.1@.map_values(|rec: Record| rec@) == records_of(split_lines(reader.reader.remaining())),
{
    let sw = stopwatch::Stopwatch::start_new();
    let mut stream = reader.reader;
    let ghost init: Seq<u8> = stream.remaining();
    let cap = stream.remaining_len();
    let mut bytes: usize = 0;
    let mut lines: usize = 0;
    let mut records: Vec<Record> = Vec::new();
    proof {
        assert(records@.map_values(|rec: Record| rec@) =~= Seq::<(i64, Seq<u8>)>::empty());
        assert(records_of(split_lines(init)) =~= records@.map_values(|rec: Record| rec@)
            + records_of(split_lines(init)));
    }
    loop
        invariant
            bytes + stream.remaining().len() <= cap,
            lines + stream.remaining().len() <= cap,
            sum_len(split_lines(init)) == bytes + sum_len(split_lines(stream.remaining())),
            split_lines(init).len() == lines + split_lines(stream.remaining()).len(),
            records_of(split_lines(init)) == records@.map_values(|rec: Record| rec@)
                + records_of(split_lines(stream.remaining())),
        ensures
            bytes == sum_len(split_lines(init)),
            lines == split_lines(init).len(),
            records@.map_values(|rec: Record| rec@) == records_of(split_lines(init)),
        decreases stream.remaining().len(),
    {
        let next = stream.next_line();
        match next {
            None => {
                proof {
                    assert(split_lines(stream.remaining()) =~= Seq::<Seq<u8>>::empty());
                    assert(records@.map_values(|rec: Record| rec@) + records_of(
                        split_lines(stream.remaining()),
                    ) =~= records@.map_values(|rec: Record| rec@));
                }
                break;
            },
            Some(line) => {
                proof {
                    lemma_cons(line@, split_lines(stream.remaining()));
                }
                let ghost old_records: Seq<Record> = records@;
                bytes = bytes + line.len();
                lines = lines + 1;
                match parseline(line.as_slice()) {
                    Some(rec) => {
                        let ghost rv = rec@;
                        records.push(rec);
                        proof {
                            assert(records@.map_values(|rec: Record| rec@) =~= old_records
                                .map_values(|rec: Record| rec@).push(rv));
                            assert(old_records.map_values(|rec: Record| rec@).push(rv)
                                + records_of(split_lines(stream.remaining())) =~= old_records
                                .map_values(|rec: Record| rec@) + (seq![rv] + records_of(
                                split_lines(stream.remaining()),
                            )));
                        }
                    },
                    None => {},
                }
            },
        }
    }
    let elapsed = sw.elapsed_ms();
    (RunStats { bytes_read: bytes, line_count: lines, elapsed_ms: elapsed }, records)
}

/// Run the search over each reader in turn, returning each traversal's
/// counters and the records its lines carried, in reader order.
pub fn searchfiles(readers: Vec<SearchReader>) -> (r: Vec<(RunStats, Vec<Record>)>)
    ensures
        r@.len() == readers@.len(),
        forall|i: int|
            #![trigger r@[i]]
            0 <= i < readers@.len() ==> (r@[i].0.bytes_read == sum_len(
                split_lines(readers@[i].reader.remaining()),
            ) && r@[i].0.line_count == split_lines(readers@[i].reader.remaining()).len()
                && r@[i].1@.map_values(|rec: Record| rec@) == records_of(
                split_lines(readers@[i].reader.remaining()),
            )),
{
    let ghost orig: Seq<SearchReader> = readers@;
    let mut rest = readers;
    let mut results: Vec<(RunStats, Vec<Record>)> = Vec::new();
    proof {
        assert(rest@ =~= orig.skip(0));
    }
    while rest.len() > 0
        invariant
            results@.len() + rest@.len() == orig.len(),
            rest@ == orig.skip(results@.len() as int),
            forall|i: int|
                #![trigger results@[i]]
                0 <= i < results@.len() ==> (results@[i].0.bytes_read == sum_len(
                    split_lines(orig[i].reader.remaining()),
                ) && results@[i].0.line_count == split_lines(orig[i].reader.remaining()).len()
                    && results@[i].1@.map_values(|rec: Record| rec@) == records_of(
                    split_lines(orig[i].reader.remaining()),
                )),
        decreases rest@.len(),
    {
        let ghost k: int = results@.len() as int;
        let reader = rest.remove(0);
        proof {
            assert(reader == orig.skip(k)[0]);
            assert(orig.skip(k)[0] == orig[k]);
            assert(rest@ =~= orig.skip(k + 1)) by {
                assert(rest@ == orig.skip(k).remove(0));
            }
        }
        let out = search(reader);
        results.push(out);
    }
    results
}

} // verus!

