//! Readers, and the calls made to them.
use vstd::prelude::*;

verus! {

/// How a read ended, and how many bytes it delivered.
#[derive(Clone, Copy, Debug, PartialEq, Eq, Structural)]
pub enum ReadResult {
    /// The reader has no reason to stop; more bytes may follow.
    Complete(usize),
    /// No more bytes came in time.
    Timeout(usize),
    /// The source has ended.
    EndOfFile(usize),
}

impl ReadResult {
    /// The number of bytes that the result reports.
    pub open spec fn count(self) -> nat {
        match self {
            ReadResult::Complete(n) => n as nat,
            ReadResult::Timeout(n) => n as nat,
            ReadResult::EndOfFile(n) => n as nat,
        }
    }
}

/// A source of bytes.
///
/// The specification functions are the implementer's own description of the source. As they stand
/// here they describe a source of which nothing is known, and every implementation fits them.
pub trait Reader {
    /// What a failed read reports.
    type Error;

    /// Whether one call of `read` may take the reader from `self` to `after`, turn a slice that
    /// holds `request` into one that holds `filled`, and return `result`.
    open spec fn reads(
        &self,
        after: &Self,
        request: Seq<u8>,
        filled: Seq<u8>,
        result: Result<ReadResult, Self::Error>,
    ) -> bool {
        true
    }

    /// Whether every request comes to an end, from now on and however many are made, and the
    /// reader never answers nonempty requests with an empty `Complete` forever.
    open spec fn steady(&self) -> bool {
        false
    }

    /// How many nonempty requests in a row a steady reader may still answer with an empty
    /// `Complete`.
    open spec fn stalls(&self) -> nat {
        0
    }

    /// Whether one request for `requested` bytes, made now, comes to an end, though the reader may
    /// not be steady.
    open spec fn answers(&self, requested: nat) -> bool {
        true
    }

    /// Reads bytes into the front of `data`.
    fn read(&mut self, data: &mut [u8]) -> (result: Result<ReadResult, Self::Error>)
        requires
            old(self).steady() || old(self).answers(old(data)@.len()),
        ensures
            final(data)@.len() == old(data)@.len(),
            old(self).reads(final(self), old(data)@, final(data)@, result),
            old(self).steady() ==> final(self).steady(),
            old(self).steady() && old(data)@.len() > 0 && result == Ok::<ReadResult, Self::Error>(
                ReadResult::Complete(0),
            ) ==> final(self).stalls() < old(self).stalls(),
    ;
}

/// One finished call of [`Reader::read`].
pub ghost struct Call<R: Reader> {
    /// The reader before the call.
    pub before: R,
    /// The reader after the call.
    pub after: R,
    /// What the slice held that the call was given.
    pub request: Seq<u8>,
    /// What the slice held when the call returned.
    pub filled: Seq<u8>,
    /// What the call returned.
    pub result: Result<ReadResult, R::Error>,
}

impl<R: Reader> Call<R> {
    /// Whether the reader allows such a call.
    pub open spec fn allowed(self) -> bool {
        &&& self.filled.len() == self.request.len()
        &&& self.before.reads(&self.after, self.request, self.filled, self.result)
    }

    /// The bytes that the call delivered: as many as it reports, and no more than it had room
    /// for. A call that failed delivered none.
    pub open spec fn received(self) -> Seq<u8> {
        match self.result {
            Ok(result) => self.filled.take(
                vstd::math::min(result.count() as int, self.filled.len() as int),
            ),
            Err(_) => Seq::empty(),
        }
    }
}

/// The bytes that all of `calls` delivered, in order.
pub open spec fn received<R: Reader>(calls: Seq<Call<R>>) -> Seq<u8>
    decreases calls.len(),
{
    if calls.len() == 0 {
        Seq::empty()
    } else {
        received(calls.drop_last()) + calls.last().received()
    }
}

/// Whether `calls` are calls that the reader allows, each made to the reader as the one before
/// left it, that take it from `before` to `after`.
pub open spec fn leads<R: Reader>(calls: Seq<Call<R>>, before: R, after: R) -> bool
    decreases calls.len(),
{
    if calls.len() == 0 {
        before == after
    } else {
        &&& leads(calls.drop_last(), before, calls.last().before)
        &&& calls.last().allowed()
        &&& calls.last().after == after
    }
}

} // verus!
