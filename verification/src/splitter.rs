//! The splitter itself: `read_until_bytes` scans a byte source up to and
//! including the next delimiter match, and `SplitBufReadByBytesIter` turns
//! repeated scans into a sequence of decoded text segments.

use vstd::prelude::*;
use vstd::utf8::{decode_utf8, valid_utf8};
use crate::automaton::{lemma_scan_bounds, lemma_scan_match_take, scan, step_index};
use crate::reader::{ChunkRead, SplitError};

verus! {

/// Relies on `String::from_utf8`: it succeeds exactly when the bytes are
/// valid UTF-8 (vstd's `valid_utf8`) and then returns their decoding.
#[verifier::external_body]
fn decode_segment(bytes: Vec<u8>) -> (decoded: Result<String, SplitError>)
    ensures
        match decoded {
            Ok(text) => valid_utf8(bytes@) && text@ == decode_utf8(bytes@),
            Err(fault) => !valid_utf8(bytes@) && fault is InvalidUtf8,
        },
{
    match String::from_utf8(bytes) {
        Ok(text) => Ok(text),
        Err(_) => Err(SplitError::InvalidUtf8),
    }
}

/// Splitting, for any buffered byte source.
pub trait SplitByBytes: ChunkRead {
    /// Reads until the delimiter has been matched or the source is done.
    /// On success the result is `(read, state)`: `read` bytes — exactly
    /// those the automaton consumed, the delimiter's bytes included when it
    /// matched — were appended to `buffer` and consumed from the source,
    /// and `state` is the automaton's final match index, equal to the
    /// delimiter's length exactly when a match ended the scan. Transient
    /// interruptions are retried; any other reader fault is surfaced, with
    /// `buffer` keeping what was appended before it.
    fn read_until_bytes(&mut self, delim: &[u8], buffer: &mut Vec<u8>) -> (result: Result<
        (usize, usize),
        SplitError,
    >)
        requires
            delim@.len() >= 1,
        ensures
            ({
                let sc = scan(delim@, 0, old(self).remaining());
                match result {
                    Ok(outcome) => {
                        &&& outcome.0 == sc.0
                        &&& outcome.1 == sc.1
                        &&& final(self).remaining() == old(self).remaining().skip(
                            outcome.0 as int,
                        )
                        &&& final(buffer)@ == old(buffer)@ + old(self).remaining().take(
                            outcome.0 as int,
                        )
                        &&& (old(self).infallible() ==> final(self).infallible())
                    },
                    Err(fault) => {
                        &&& !old(self).infallible()
                        &&& fault is Failed
                        &&& old(buffer)@.is_prefix_of(final(buffer)@)
                    },
                }
            }),
            old(self).infallible() ==> result is Ok,
    {
        proof {
            self.remaining_bounded();
        }
        let ghost source = self.remaining();
        let ghost start = buffer@;
        let ghost was_infallible = self.infallible();
        let mut index: usize = 0;
        let mut total_read: usize = 0;
        proof {
            assert(source.skip(0) =~= source);
            assert(start + source.take(0) =~= start);
        }
        loop
            invariant
                delim@.len() >= 1,
                source.len() <= usize::MAX,
                index < delim@.len(),
                total_read <= source.len(),
                self.remaining() == source.skip(total_read as int),
                buffer@ == start + source.take(total_read as int),
                was_infallible ==> self.infallible(),
                scan(delim@, 0, source).0 == total_read + scan(
                    delim@,
                    index as int,
                    source.skip(total_read as int),
                ).0,
                scan(delim@, 0, source).1 == scan(
                    delim@,
                    index as int,
                    source.skip(total_read as int),
                ).1,
                source == old(self).remaining(),
                start == old(buffer)@,
                was_infallible == old(self).infallible(),
            decreases self.remaining().len(), self.interruptions(),
        {
            let chunk = match self.peek_available() {
                Ok(c) => c,
                Err(fault) => {
                    match fault {
                        SplitError::Interrupted => {
                            continue;
                        },
                        _ => {
                            return Err(fault);
                        },
                    }
                },
            };
            let count = chunk.len();
            if count == 0 {
                return Ok((total_read, index));
            }
            let ghost rem_entry = self.remaining();
            let ghost total_entry = total_read;
            let mut j: usize = 0;
            let mut matched = false;
            while j < count && !matched
                invariant
                    delim@.len() >= 1,
                    source.len() <= usize::MAX,
                    count == chunk@.len(),
                    j <= count,
                    total_entry + count <= source.len(),
                    rem_entry == source.skip(total_entry as int),
                    chunk@ == rem_entry.take(count as int),
                    total_read == total_entry + j,
                    buffer@ == start + source.take(total_read as int),
                    !matched ==> index < delim@.len(),
                    !matched ==> scan(delim@, 0, source).0 == total_read + scan(
                        delim@,
                        index as int,
                        source.skip(total_read as int),
                    ).0,
                    !matched ==> scan(delim@, 0, source).1 == scan(
                        delim@,
                        index as int,
                        source.skip(total_read as int),
                    ).1,
                    matched ==> index == delim@.len() && scan(delim@, 0, source).0 == total_read
                        && scan(delim@, 0, source).1 == index,
                decreases count - j,
            {
                let ghost old_total = total_read;
                let ghost old_index = index;
                let byte = chunk[j];
                buffer.push(byte);
                j = j + 1;
                total_read = total_read + 1;
                if byte == delim[index] {
                    index = index + 1;
                    if index == delim.len() {
                        matched = true;
                    }
                } else {
                    index = 0;
                }
                proof {
                    let pat = delim@;
                    let rem = source.skip(old_total as int);
                    assert(rem[0] == rem_entry[j - 1]);
                    assert(rem[0] == byte);
                    assert(rem.skip(1) =~= source.skip(old_total + 1));
                    assert(source.take(old_total + 1) =~= source.take(old_total as int).push(
                        byte,
                    ));
                    assert(scan(pat, old_index as int, rem).0 == if step_index(
                        pat,
                        old_index as int,
                        byte,
                    ) == pat.len() {
                        1int
                    } else {
                        1 + scan(pat, step_index(pat, old_index as int, byte), rem.skip(1)).0
                    });
                }
            }
            self.advance(j);
            proof {
                assert(self.remaining() =~= source.skip((total_entry + j) as int));
            }
            if matched {
                return Ok((total_read, index));
            }
        }
    }

    /// Consumes the source and hands back the segment iterator for it.
    fn split_by_bytes(self, pattern: &[u8]) -> (splitter: SplitBufReadByBytesIter<'_, Self>)
        requires
            pattern@.len() >= 1,
        ensures
            splitter.pat() == pattern@,
            splitter.src() == self,
    {
        SplitBufReadByBytesIter { buf: self, pattern }
    }
}

impl<B: ChunkRead> SplitByBytes for B {}

/// The iterator over decoded segments: it owns the byte source and borrows
/// the delimiter for the splitting operation's lifetime.
pub struct SplitBufReadByBytesIter<'a, B: ChunkRead> {
    pattern: &'a [u8],
    buf: B,
}

impl<'a, B: ChunkRead> SplitBufReadByBytesIter<'a, B> {
    /// The delimiter this splitter scans for.
    pub closed spec fn pat(&self) -> Seq<u8> {
        self.pattern@
    }

    /// The byte source this splitter owns.
    pub closed spec fn src(&self) -> B {
        self.buf
    }

    /// A splitter is well formed when its delimiter is non-empty.
    pub open spec fn wf(&self) -> bool {
        self.pat().len() >= 1
    }

    /// The next segment: `None` once the source was already exhausted;
    /// otherwise the decoded text up to (not including) the next delimiter
    /// match, or up to the end of the source if no delimiter remains — or
    /// the fault that stopped this segment, a reader failure or bytes that
    /// were not valid UTF-8.
    pub fn next(&mut self) -> (item: Option<Result<String, SplitError>>)
        requires
            old(self).wf(),
        ensures
            final(self).wf(),
            final(self).pat() == old(self).pat(),
            ({
                let pat = old(self).pat();
                let source = old(self).src().remaining();
                let sc = scan(pat, 0, source);
                let matched = sc.1 == pat.len();
                let segment = if matched {
                    source.take(sc.0 - pat.len())
                } else {
                    source.take(sc.0)
                };
                match item {
                    None => source.len() == 0 && final(self).src().remaining() == source,
                    Some(produced) => match produced {
                        Ok(text) => {
                            &&& source.len() > 0
                            &&& valid_utf8(segment)
                            &&& text@ == decode_utf8(segment)
                            &&& final(self).src().remaining() == source.skip(sc.0)
                        },
                        Err(fault) => {
                            ||| {
                                &&& fault is InvalidUtf8
                                &&& source.len() > 0
                                &&& !valid_utf8(segment)
                                &&& final(self).src().remaining() == source.skip(sc.0)
                            }
                            ||| (fault is Failed && !old(self).src().infallible())
                        },
                    },
                }
            }),
            old(self).src().infallible() ==> final(self).src().infallible(),
            old(self).src().infallible() && old(self).src().remaining().len() == 0 ==> item
                is None,
            old(self).src().infallible() && old(self).src().remaining().len() > 0 ==> item
                is Some,
    {
        let mut segment: Vec<u8> = Vec::new();
        let ghost source = self.buf.remaining();
        let outcome = self.buf.read_until_bytes(self.pattern, &mut segment);
        proof {
            lemma_scan_bounds(self.pattern@, 0, source);
        }
        match outcome {
            Err(fault) => Some(Err(fault)),
            Ok((total, state)) => {
                if total == 0 {
                    None
                } else {
                    if state == self.pattern.len() {
                        proof {
                            lemma_scan_match_take(self.pattern@, source);
                        }
                        let keep = segment.len() - self.pattern.len();
                        segment.truncate(keep);
                        proof {
                            assert(segment@ =~= source.take(
                                scan(self.pattern@, 0, source).0 - self.pattern@.len(),
                            ));
                        }
                    }
                    Some(decode_segment(segment))
                }
            },
        }
    }
}

} // verus!
