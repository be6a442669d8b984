//! The decoding stream factory and the line stream it returns: one file's
//! bytes, gzip-inflated when the name declares it, handed out as decoded
//! text lines with terminators stripped. The stream is finite,
//! single-pass and not restartable.

use vstd::prelude::*;

use crate::bytes::{find_byte, lemma_find_byte};
use crate::classify::Encoding;

verus! {

/// Why reading a file's bytes into the pipeline failed. Every error is
/// fatal to the single file being read; nothing is retried.
#[derive(Clone, Copy, Debug, PartialEq, Eq, Structural)]
pub enum IoError {
    /// The file was not found at its path.
    NotFound,
    /// The platform refused access to the file.
    PermissionDenied,
    /// The gzip header, body or trailer is invalid.
    CorruptStream,
    /// Any other platform read failure.
    ReadFailure,
}

/// A line with its terminator stripped: the trailing carriage return goes
/// with the newline it preceded.
pub open spec fn strip_cr(s: Seq<u8>) -> Seq<u8> {
    if s.len() > 0 && s.last() == 13 {
        s.drop_last()
    } else {
        s
    }
}

/// The lines of `s`: split on each newline with the terminator (and a
/// carriage return before it) stripped; a final unterminated piece is a
/// line as it stands, and a trailing newline opens no empty line.
pub open spec fn split_lines(s: Seq<u8>) -> Seq<Seq<u8>>
    decreases s.len(),
    via split_lines_dec
{
    if s.len() == 0 {
        Seq::empty()
    } else {
        match find_byte(s, 10) {
            Some(i) => seq![strip_cr(s.take(i))] + split_lines(s.skip(i + 1)),
            None => seq![s],
        }
    }
}

#[via_fn]
proof fn split_lines_dec(s: Seq<u8>) {
    if s.len() > 0 {
        lemma_find_byte(s, 10);
    }
}

/// Total length of a sequence of lines.
pub open spec fn sum_len(lines: Seq<Seq<u8>>) -> int
    decreases lines.len(),
{
    if lines.len() == 0 {
        0
    } else {
        lines[0].len() + sum_len(lines.drop_first())
    }
}

/// A lazy sequence of decoded text lines over one file's bytes; the sole
/// owner of those bytes, consumed exactly once, front to back.
pub struct LineStream {
    data: Vec<u8>,
    pos: usize,
}

impl LineStream {
    #[verifier::type_invariant]
    spec fn wf(self) -> bool {
        self.pos <= self.data@.len()
    }

    /// The bytes not yet consumed.
    pub closed spec fn remaining(self) -> Seq<u8> {
        self.data@.skip(self.pos as int)
    }

    /// Wrap already-decoded bytes as a line stream.
    pub fn new(data: Vec<u8>) -> (s: LineStream)
        ensures
            s.remaining() == data@,
    {
        let s = LineStream { data, pos: 0 };
        proof {
            assert(s.remaining() =~= s.data@);
        }
        s
    }

    /// Number of bytes not yet consumed.
    pub fn remaining_len(&self) -> (n: usize)
        ensures
            n == self.remaining().len(),
    {
        proof {
            use_type_invariant(self);
        }
        self.data.len() - self.pos
    }

    /// Pull the next line, terminators stripped; `None` once the bytes
    /// are exhausted. Each pull consumes the line and its terminator.
    pub fn next_line(&mut self) -> (r: Option<Vec<u8>>)
        ensures
            old(self).remaining().len() == 0 ==> (r is None
                && final(self).remaining() == old(self).remaining()),
            old(self).remaining().len() > 0 ==> (r matches Some(l)
                && split_lines(old(self).remaining()) == seq![l@] + split_lines(final(self).remaining())
                && l@.len() + final(self).remaining().len() <= old(self).remaining().len()
                && final(self).remaining().len() < old(self).remaining().len()),
    {
        proof {
            use_type_invariant(&*self);
        }
        let ghost rem: Seq<u8> = self.remaining();
        let n = self.data.len();
        if self.pos == n {
            proof {
                assert(rem.len() == 0);
            }
            return None;
        }
        proof {
            assert(rem.len() == n - self.pos > 0);
            lemma_find_byte(rem, 10);
        }
        let start = self.pos;
        let mut i = start;
        while i < n && self.data[i] != 10
            invariant
                self.wf(),
                n == self.data@.len(),
                start <= i <= n,
                forall|k: int| start <= k < i ==> self.data@[k] != 10,
            decreases n - i,
        {
            i += 1;
        }
        proof {
            assert(forall|k: int| 0 <= k < i - start ==> rem[k] == self.data@[k + start]);
            if i < n {
                assert(rem[i - start] == 10);
                assert(find_byte(rem, 10) == Some(i - start as int));
            } else {
                assert(forall|k: int| 0 <= k < rem.len() ==> rem[k] != 10);
                assert(find_byte(rem, 10) is None);
            }
        }
        if i == n {
            // no terminator: the rest of the bytes are the final line
            let line = self.copy_range(start, n);
            self.pos = n;
            proof {
                assert(line@ =~= rem);
                assert(final(self).remaining() =~= Seq::<u8>::empty());
                assert(split_lines(rem) == seq![rem] + split_lines(final(self).remaining()));
            }
            Some(line)
        } else {
            // strip the newline, and a carriage return just before it
            let end = if i > start && self.data[i - 1] == 13 {
                i - 1
            } else {
                i
            };
            let line = self.copy_range(start, end);
            self.pos = i + 1;
            proof {
                let fc = i - start as int;
                assert(rem.take(fc) =~= self.data@.subrange(start as int, i as int));
                assert(line@ =~= strip_cr(rem.take(fc))) by {
                    if end < i {
                        assert(rem.take(fc).last() == 13);
                        assert(line@ =~= rem.take(fc).drop_last());
                    } else {
                        assert(fc == 0 || rem.take(fc).last() != 13);
                    }
                }
                assert(final(self).remaining() =~= rem.skip(fc + 1));
                assert(split_lines(rem) == seq![line@] + split_lines(final(self).remaining()));
            }
            Some(line)
        }
    }

    /// Copy `self.data[from..to]` into a fresh vector.
    fn copy_range(&self, from: usize, to: usize) -> (r: Vec<u8>)
        requires
            from <= to <= self.data@.len(),
        ensures
            r@ == self.data@.subrange(from as int, to as int),
    {
        let mut r: Vec<u8> = Vec::new();
        let mut j = from;
        while j < to
            invariant
                from <= j <= to <= self.data@.len(),
                r@ == self.data@.subrange(from as int, j as int),
            decreases to - j,
        {
            r.push(self.data[j]);
            proof {
                assert(self.data@.subrange(from as int, j + 1) =~= self.data@.subrange(
                    from as int,
                    j as int,
                ).push(self.data@[j as int]));
            }
            j += 1;
        }
        proof {
            assert(r@ =~= self.data@.subrange(from as int, to as int));
        }
        r
    }
}

/// What flate2's gzip decoder yields on `s`: the inflated bytes when `s`
/// is a well-formed gzip stream, and nothing otherwise.
pub uninterp spec fn gunzip_of(s: Seq<u8>) -> Option<Seq<u8>>;

/// Relies on flate2::read::GzDecoder, driven by io::Read::read_to_end:
/// inflating is a function of the input bytes alone, and an invalid gzip
/// header, body or trailer makes the read fail before any line of the
/// stream could be handed out.
#[verifier::external_body]
fn gunzip(data: &[u8]) -> (r: Option<Vec<u8>>)
    ensures
        r matches Some(v) ==> gunzip_of(data@) == Some(v@),
        r is None ==> gunzip_of(data@) is None,
{
    let mut dec = flate2::read::GzDecoder::new(data);
    let mut out: Vec<u8> = Vec::new();
    match std::io::Read::read_to_end(&mut dec, &mut out) {
        Ok(_) => Some(out),
        Err(_) => None,
    }
}

/// Open a decoding line stream over one file's bytes: raw bytes pass
/// through unchanged, gzip bytes are inflated transparently, and a
/// corrupt gzip stream is surfaced here, before any line is read.
pub fn open_stream(data: Vec<u8>, encoding: Encoding) -> (r: Result<LineStream, IoError>)
    ensures
        encoding is Raw ==> (r matches Ok(s) && s.remaining() == data@),
        encoding is Gzip ==> (gunzip_of(data@) matches Some(v) ==> (r matches Ok(s)
            && s.remaining() == v)),
        encoding is Gzip && gunzip_of(data@) is None ==> r == Err::<LineStream, IoError>(
            IoError::CorruptStream,
        ),
{
    match encoding {
        Encoding::Raw => Ok(LineStream::new(data)),
        Encoding::Gzip => match gunzip(data.as_slice()) {
            Some(v) => Ok(LineStream::new(v)),
            None => Err(IoError::CorruptStream),
        },
    }
}

} // verus!
