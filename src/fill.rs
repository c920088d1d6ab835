//! Filling a buffer completely from a byte stream whose reads may come up
//! short: the stream is read again for what is still missing until every byte
//! is in, and a read that cannot make progress ends the fill.
use vstd::prelude::*;

verus! {

/// Why a fill cannot be completed.
#[derive(Clone, Copy, Debug, PartialEq, Eq, Structural)]
pub enum FillError {
    /// A read returned no bytes while some were still missing.
    EndOfStream,
    /// A read reported more bytes than were still missing.
    Overrun,
}

/// Where a fill stands after a read was taken in.
#[derive(Clone, Copy, Debug, PartialEq, Eq, Structural)]
pub enum FillStatus {
    /// Some bytes are still missing: read again into the rest of the buffer.
    Pending,
    /// Every byte of the buffer has been read.
    Complete,
}

/// What a read of `n` bytes does to a fill of `len` bytes of which the first
/// `filled` are in: the new count, or why the read is refused.
pub open spec fn after_read(len: nat, filled: nat, n: nat) -> Result<nat, FillError> {
    if n > len - filled {
        Err(FillError::Overrun)
    } else if n == 0 && filled < len {
        Err(FillError::EndOfStream)
    } else {
        Ok(filled + n)
    }
}

/// Progress of one fill of a buffer of `len` bytes: the first `filled` bytes
/// have been read, the rest are still to come.
pub struct FillCursor {
    len: usize,
    filled: usize,
}

impl FillCursor {
    #[verifier::type_invariant]
    spec fn inv(&self) -> bool {
        self.filled <= self.len
    }

    /// The length of the buffer being filled.
    pub closed spec fn spec_len(&self) -> nat {
        self.len as nat
    }

    /// How many bytes, from the start of the buffer, have been read.
    pub closed spec fn spec_filled(&self) -> nat {
        self.filled as nat
    }

    /// Starts the fill of a buffer of `len` bytes, none of them read yet.
    pub fn new(len: usize) -> (r: FillCursor)
        ensures
            r.spec_len() == len,
            r.spec_filled() == 0,
    {
        FillCursor { len, filled: 0 }
    }

    /// The length of the buffer being filled.
    pub fn len(&self) -> (r: usize)
        ensures
            r == self.spec_len(),
    {
        self.len
    }

    /// How many bytes have been read: the next read goes into the buffer
    /// from this position on.
    pub fn filled(&self) -> (r: usize)
        ensures
            r == self.spec_filled(),
            r <= self.spec_len(),
    {
        proof {
            use_type_invariant(self);
        }
        self.filled
    }

    /// How many bytes are still missing.
    pub fn remaining(&self) -> (r: usize)
        ensures
            r == self.spec_len() - self.spec_filled(),
    {
        proof {
            use_type_invariant(self);
        }
        self.len - self.filled
    }

    /// Whether every byte of the buffer has been read.
    pub fn is_complete(&self) -> (r: bool)
        ensures
            r == (self.spec_filled() == self.spec_len()),
    {
        self.filled == self.len
    }

    /// Takes in a read that placed `n` bytes into the buffer right after the
    /// ones already there. A read of no bytes while some are missing, or of
    /// more than are missing, is refused and leaves the fill as it was.
    pub fn record(&mut self, n: usize) -> (r: Result<FillStatus, FillError>)
        ensures
            final(self).spec_len() == old(self).spec_len(),
            final(self).spec_filled() <= final(self).spec_len(),
            match after_read(old(self).spec_len(), old(self).spec_filled(), n as nat) {
                Ok(f) => final(self).spec_filled() == f && r == Ok::<FillStatus, FillError>(
                    if f == old(self).spec_len() {
                        FillStatus::Complete
                    } else {
                        FillStatus::Pending
                    },
                ),
                Err(e) => final(self).spec_filled() == old(self).spec_filled() && r == Err::<
                    FillStatus,
                    FillError,
                >(e),
            },
    {
        proof {
            use_type_invariant(&*self);
        }
        let missing = self.len - self.filled;
        if n > missing {
            Err(FillError::Overrun)
        } else if n == 0 && missing > 0 {
            Err(FillError::EndOfStream)
        } else {
            self.filled = self.filled + n;
            if self.filled == self.len {
                Ok(FillStatus::Complete)
            } else {
                Ok(FillStatus::Pending)
            }
        }
    }
}

/// Where a run of reads of the sizes `reads` takes a fill of `len` bytes that
/// starts with `filled` bytes in: the count at the end, or why a read of it
/// was refused.
pub open spec fn after_reads(len: nat, filled: nat, reads: Seq<nat>) -> Result<nat, FillError>
    decreases reads.len(),
{
    if reads.len() == 0 {
        Ok(filled)
    } else {
        match after_read(len, filled, reads[0]) {
            Ok(f) => after_reads(len, f, reads.drop_first()),
            Err(e) => Err(e),
        }
    }
}

/// The total of the read sizes `reads`.
pub open spec fn sum_of(reads: Seq<nat>) -> nat
    decreases reads.len(),
{
    if reads.len() == 0 {
        0
    } else {
        reads[0] + sum_of(reads.drop_first())
    }
}

/// The read sizes that a stream handing out at most `chunk` bytes per read
/// gives, when `len` bytes are missing and each read asks for all of them.
pub open spec fn chunked_reads(len: nat, chunk: nat) -> Seq<nat>
    decreases len,
{
    if len == 0 || chunk == 0 {
        Seq::empty()
    } else if len <= chunk {
        seq![len]
    } else {
        seq![chunk].add(chunked_reads((len - chunk) as nat, chunk))
    }
}

/// A fill takes in exactly the bytes its accepted reads brought, and never
/// more than the buffer holds: a run of reads that a fill of `len` bytes
/// accepts ends with as many bytes in as the reads sum to, at most `len`.
pub proof fn lemma_fill_counts_every_byte(len: nat, filled: nat, reads: Seq<nat>)
    requires
        filled <= len,
    ensures
        after_reads(len, filled, reads) is Ok ==> after_reads(len, filled, reads) == Ok::<
            nat,
            FillError,
        >(filled + sum_of(reads)) && filled + sum_of(reads) <= len,
    decreases reads.len(),
{
    if reads.len() > 0 {
        if let Ok(f) = after_read(len, filled, reads[0]) {
            lemma_fill_counts_every_byte(len, f, reads.drop_first());
        }
    }
}

/// A buffer longer than any one read of the stream is still filled: when
/// every read brings at most `chunk` bytes, at least one, the reads that
/// follow one another until nothing is missing complete the fill.
pub proof fn lemma_short_reads_complete(len: nat, filled: nat, chunk: nat)
    requires
        filled <= len,
        chunk >= 1,
    ensures
        after_reads(len, filled, chunked_reads((len - filled) as nat, chunk)) == Ok::<
            nat,
            FillError,
        >(len),
    decreases len - filled,
{
    let missing = (len - filled) as nat;
    let reads = chunked_reads(missing, chunk);
    if missing == 0 {
    } else if missing <= chunk {
        assert(reads.drop_first() =~= Seq::<nat>::empty());
        assert(after_read(len, filled, reads[0]) == Ok::<nat, FillError>(len));
        assert(after_reads(len, len, reads.drop_first()) == Ok::<nat, FillError>(len));
    } else {
        lemma_short_reads_complete(len, filled + chunk, chunk);
        assert(reads.drop_first() =~= chunked_reads((missing - chunk) as nat, chunk));
        assert(after_read(len, filled, reads[0]) == Ok::<nat, FillError>(filled + chunk));
    }
}

} // verus!
