//! The buffered-reader capability the splitter consumes: peek at the bytes
//! that are currently available, then mark some of them consumed. An
//! in-memory source with a configurable chunk size is provided, together
//! with two wrappers that exercise the fault paths.

use vstd::prelude::*;

verus! {

broadcast use vstd::std_specs::vec::axiom_spec_len;

/// The faults a split can surface. `Interrupted` is transient — the scan
/// retries it silently and never yields it; `Failed` is a reader fault
/// propagated to the caller; `InvalidUtf8` marks one segment whose bytes
/// did not form valid text.
#[derive(Debug, Clone, Copy, PartialEq, Eq)]
pub enum SplitError {
    Interrupted,
    Failed,
    InvalidUtf8,
}

/// A buffered byte source. `remaining()` models the full content still
/// ahead of the cursor, buffered or not, as one finite byte sequence;
/// `infallible()` marks sources whose reads never fail, for which success
/// of every split step is owed.
pub trait ChunkRead: Sized {
    /// The bytes not yet consumed.
    spec fn remaining(&self) -> Seq<u8>;

    /// True of a source whose reads cannot fail.
    spec fn infallible(&self) -> bool;

    /// How many transient interruptions the source may still produce. Each
    /// `Interrupted` answer uses one up, which is what makes a scan's
    /// silent retries terminate.
    spec fn interruptions(&self) -> nat;

    /// The modelled content is finite: its length fits in a `usize`.
    proof fn remaining_bounded(&self)
        ensures
            self.remaining().len() <= usize::MAX,
    ;

    /// Hands out a copy of the bytes currently available without consuming
    /// them: a prefix of `remaining()`, empty only when the source is
    /// exhausted. After `Interrupted` the source is unchanged, so the call
    /// may simply be retried; after any other fault its state is
    /// unspecified.
    fn peek_available(&mut self) -> (chunk: Result<Vec<u8>, SplitError>)
        ensures
            match chunk {
                Ok(c) => {
                    &&& final(self).remaining() == old(self).remaining()
                    &&& final(self).infallible() == old(self).infallible()
                    &&& c@.len() <= old(self).remaining().len()
                    &&& c@ == old(self).remaining().take(c@.len() as int)
                    &&& (c@.len() == 0 ==> old(self).remaining().len() == 0)
                },
                Err(e) => {
                    &&& !old(self).infallible()
                    &&& e !is InvalidUtf8
                    &&& (e is Interrupted ==> final(self).remaining() == old(self).remaining()
                        && final(self).interruptions() < old(self).interruptions())
                },
            },
    ;

    /// Marks `amount` of the previously peeked bytes as consumed.
    fn advance(&mut self, amount: usize)
        requires
            amount <= old(self).remaining().len(),
        ensures
            final(self).remaining() == old(self).remaining().skip(amount as int),
            final(self).infallible() == old(self).infallible(),
    ;
}

/// An in-memory byte source that hands its content out in chunks of a
/// fixed maximum size, so that matching across chunk boundaries is
/// exercised even on in-memory data.
pub struct MemReader {
    data: Vec<u8>,
    cursor: usize,
    chunk_size: usize,
}

impl MemReader {
    #[verifier::type_invariant]
    spec fn well_formed(self) -> bool {
        &&& self.cursor <= self.data@.len()
        &&& self.data@.len() <= usize::MAX
        &&& self.chunk_size >= 1
    }

    /// A reader over `data` that yields at most `chunk_size` bytes per peek.
    pub fn new(data: Vec<u8>, chunk_size: usize) -> (reader: MemReader)
        requires
            chunk_size >= 1,
        ensures
            reader.remaining() == data@,
            reader.infallible(),
            reader.interruptions() == 0,
    {
        proof {
            assert(data@.len() <= usize::MAX) by {
                assert(vstd::std_specs::vec::spec_vec_len(&data) == data@.len());
            }
        }
        let reader = MemReader { data, cursor: 0, chunk_size };
        proof {
            assert(reader.remaining() =~= reader.data@);
        }
        reader
    }
}

impl ChunkRead for MemReader {
    closed spec fn remaining(&self) -> Seq<u8> {
        if self.well_formed() {
            self.data@.skip(self.cursor as int)
        } else {
            Seq::empty()
        }
    }

    closed spec fn infallible(&self) -> bool {
        true
    }

    closed spec fn interruptions(&self) -> nat {
        0
    }

    proof fn remaining_bounded(&self) {
    }

    fn peek_available(&mut self) -> (chunk: Result<Vec<u8>, SplitError>) {
        proof {
            use_type_invariant(&*self);
        }
        let available = self.data.len() - self.cursor;
        let count = if self.chunk_size < available {
            self.chunk_size
        } else {
            available
        };
        let mut out: Vec<u8> = Vec::new();
        let mut i: usize = 0;
        while i < count
            invariant
                self.cursor + count <= self.data@.len(),
                self.data@.len() <= usize::MAX,
                i <= count,
                out@ == self.data@.subrange(self.cursor as int, self.cursor + i),
            decreases count - i,
        {
            out.push(self.data[self.cursor + i]);
            proof {
                assert(out@ =~= self.data@.subrange(self.cursor as int, self.cursor + i + 1));
            }
            i = i + 1;
        }
        proof {
            assert(out@ =~= self.remaining().take(out@.len() as int));
        }
        Ok(out)
    }

    fn advance(&mut self, amount: usize) {
        proof {
            use_type_invariant(&*self);
        }
        let ghost before = self.data@.skip(self.cursor as int);
        self.cursor = self.cursor + amount;
        proof {
            assert(self.data@.skip(self.cursor as int) =~= before.skip(amount as int));
        }
    }
}

/// A source that interrupts a given number of peeks before serving its
/// content: the transient-fault path of the scan, which must retry without
/// losing the partial match.
pub struct InterruptingReader {
    inner: MemReader,
    interruptions: usize,
}

impl InterruptingReader {
    /// A reader over `data` that answers the first `interruptions` peeks
    /// with `Interrupted`, then behaves as the in-memory reader does.
    pub fn new(data: Vec<u8>, chunk_size: usize, interruptions: usize) -> (reader:
        InterruptingReader)
        requires
            chunk_size >= 1,
        ensures
            reader.remaining() == data@,
            reader.interruptions() == interruptions,
            reader.infallible() == (interruptions == 0),
    {
        InterruptingReader { inner: MemReader::new(data, chunk_size), interruptions }
    }
}

impl ChunkRead for InterruptingReader {
    closed spec fn remaining(&self) -> Seq<u8> {
        self.inner.remaining()
    }

    closed spec fn infallible(&self) -> bool {
        self.interruptions == 0
    }

    closed spec fn interruptions(&self) -> nat {
        self.interruptions as nat
    }

    proof fn remaining_bounded(&self) {
        self.inner.remaining_bounded();
    }

    fn peek_available(&mut self) -> (chunk: Result<Vec<u8>, SplitError>) {
        if self.interruptions > 0 {
            self.interruptions = self.interruptions - 1;
            Err(SplitError::Interrupted)
        } else {
            self.inner.peek_available()
        }
    }

    fn advance(&mut self, amount: usize) {
        self.inner.advance(amount)
    }
}

/// A source whose every peek fails: the fault-propagation path of the scan.
pub struct FailingReader {}

impl FailingReader {
    /// A reader that never yields a byte: every peek reports a fault.
    pub fn new() -> (reader: FailingReader)
        ensures
            !reader.infallible(),
    {
        FailingReader {  }
    }
}

impl ChunkRead for FailingReader {
    closed spec fn remaining(&self) -> Seq<u8> {
        Seq::empty()
    }

    closed spec fn infallible(&self) -> bool {
        false
    }

    closed spec fn interruptions(&self) -> nat {
        0
    }

    proof fn remaining_bounded(&self) {
    }

    fn peek_available(&mut self) -> (chunk: Result<Vec<u8>, SplitError>) {
        Err(SplitError::Failed)
    }

    fn advance(&mut self, amount: usize) {
    }
}

} // verus!
