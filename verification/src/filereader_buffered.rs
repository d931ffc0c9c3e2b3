//! A reader that keeps a buffer between a bursty source and whoever consumes it.
use std::collections::VecDeque;

use vstd::prelude::*;

use crate::filedevice;
use crate::filedevice::{Call, ReadResult, Reader};

verus! {

/// A buffered reader that wraps another [`Reader`] and provides an intermediate ring buffer to
/// absorb timing jitter from bursty input sources like Bluetooth.
///
/// This is particularly useful for BlueZ/Bluetooth audio where data arrives in variable-timed
/// bursts rather than a steady stream.
pub struct BufferedReader<R> {
    inner: R,
    buffer: VecDeque<u8>,
    buffer_capacity: usize,
}

/// What a [`BufferedReader`] consists of.
pub ghost struct Buffering<R> {
    /// The reader that the bytes come from.
    pub inner: R,
    /// The bytes that are buffered, the oldest first.
    pub held: Seq<u8>,
    /// How many bytes may be buffered.
    pub capacity: nat,
}

impl<R> View for BufferedReader<R> {
    type V = Buffering<R>;

    closed spec fn view(&self) -> Buffering<R> {
        Buffering {
            inner: self.inner,
            held: self.buffer@,
            capacity: self.buffer_capacity as nat,
        }
    }
}

/// `len` zero bytes: what a refill hands to the inner reader to be overwritten.
pub open spec fn zeros(len: nat) -> Seq<u8> {
    Seq::new(len, |i: int| 0u8)
}

/// How many bytes a refill asks the inner reader for, with `held` bytes buffered and `requested`
/// bytes still to deliver: enough for the request, or half the capacity if that is more, but only
/// as many as there is room for.
pub open spec fn refill_size(capacity: nat, held: nat, requested: nat) -> nat {
    let space = if held < capacity {
        (capacity - held) as nat
    } else {
        0
    };
    let wanted = if requested < capacity / 2 {
        capacity / 2
    } else {
        requested
    };
    if wanted < space {
        wanted
    } else {
        space
    }
}

/// What a read of `requested` bytes reports once `delivered` of them are there and the inner
/// reader has last answered `fill`; `None` if the inner reader is to be asked again.
pub open spec fn outcome(requested: nat, delivered: nat, fill: ReadResult) -> Option<ReadResult> {
    if delivered >= requested {
        Some(ReadResult::Complete(delivered as usize))
    } else {
        match fill {
            ReadResult::EndOfFile(_) => Some(ReadResult::EndOfFile(delivered as usize)),
            ReadResult::Timeout(_) => Some(ReadResult::Timeout(delivered as usize)),
            ReadResult::Complete(_) => None,
        }
    }
}

impl<R> Buffering<R> {
    /// No more is buffered than the capacity allows, and the capacity is one that can be
    /// allocated.
    pub open spec fn wf(self) -> bool {
        self.held.len() <= self.capacity <= isize::MAX
    }

    /// Whether the buffer alone serves a request for `requested` bytes.
    pub open spec fn suffices(self, requested: nat) -> bool {
        0 < self.held.len() && requested <= self.held.len()
    }

    /// Whether a request for `requested` bytes is served without a call of the inner reader: the
    /// buffer suffices, or nothing is requested and there is no room to read ahead into.
    pub open spec fn serves_alone(self, requested: nat) -> bool {
        self.suffices(requested) || self.capacity == 0 && requested == 0
    }

    /// Whether draining into a slice that holds `data` moves the `count` oldest bytes, as many as
    /// there are and as fit, to its front, and leaves `after` behind and `filled` in the slice.
    pub open spec fn drains(
        self,
        after: Buffering<R>,
        data: Seq<u8>,
        filled: Seq<u8>,
        count: nat,
    ) -> bool {
        &&& count == vstd::math::min(data.len() as int, self.held.len() as int)
        &&& filled == self.held.take(count as int) + data.skip(count as int)
        &&& after.held == self.held.skip(count as int)
        &&& after.inner == self.inner
        &&& after.capacity == self.capacity
    }
}

impl<R: Reader> Buffering<R> {
    /// Whether refilling on behalf of `requested` bytes makes `call`, a call of the inner reader
    /// that is given as many zero bytes to overwrite as are wanted and fit, and leaves `after`
    /// behind, with what the call delivered appended to the buffer.
    pub open spec fn fills(self, after: Buffering<R>, requested: nat, call: Call<R>) -> bool {
        &&& call.allowed()
        &&& call.before == self.inner
        &&& call.after == after.inner
        &&& call.request == zeros(refill_size(self.capacity, self.held.len(), requested))
        &&& after.held == self.held + call.received()
        &&& after.capacity == self.capacity
    }

    /// Whether refilling on behalf of `requested` bytes leaves `after` behind and returns `result`:
    /// without a call where the buffer is full, else with one call, whose result it returns.
    pub open spec fn refills(
        self,
        after: Buffering<R>,
        requested: nat,
        result: Result<ReadResult, R::Error>,
    ) -> bool {
        if self.held.len() >= self.capacity {
            &&& after == self
            &&& result == Ok::<ReadResult, R::Error>(ReadResult::Complete(0))
        } else {
            exists|call: Call<R>| #[trigger]
                self.fills(after, requested, call) && call.result == result
        }
    }

    /// The bytes there are to deliver once `calls` have been made to the inner reader.
    pub open spec fn stream(self, calls: Seq<Call<R>>) -> Seq<u8> {
        self.held + filedevice::received(calls)
    }

    /// How many of `requested` bytes have been delivered once `calls` have been made to the inner
    /// reader.
    pub open spec fn delivered(self, calls: Seq<Call<R>>, requested: nat) -> nat {
        if self.stream(calls).len() < requested {
            self.stream(calls).len()
        } else {
            requested
        }
    }

    /// Whether `call` may come after `calls` on behalf of a request for `requested` bytes: the
    /// inner reader allows it, and it is asked to refill an empty buffer.
    pub open spec fn next(self, calls: Seq<Call<R>>, call: Call<R>, requested: nat) -> bool {
        &&& call.allowed()
        &&& call.request == zeros(
            refill_size(
                self.capacity,
                0,
                (requested - self.delivered(calls, requested)) as nat,
            ),
        )
    }

    /// Whether `calls` are made one after the other on behalf of a request for `requested` bytes,
    /// leave the inner reader as `inner`, and do not end the request.
    pub open spec fn asks(self, calls: Seq<Call<R>>, inner: R, requested: nat) -> bool
        decreases calls.len(),
    {
        if calls.len() == 0 {
            inner == self.inner
        } else {
            let call = calls.last();
            &&& self.asks(calls.drop_last(), call.before, requested)
            &&& self.next(calls.drop_last(), call, requested)
            &&& call.after == inner
            &&& call.result is Ok
            &&& outcome(requested, self.delivered(calls, requested), call.result->Ok_0) is None
        }
    }

    /// Whether a request for `requested` bytes, on behalf of which `calls` have left the inner
    /// reader as `inner`, comes to an end with at most `more` calls besides the next, whatever
    /// the inner reader answers.
    pub open spec fn ends(
        self,
        calls: Seq<Call<R>>,
        inner: R,
        requested: nat,
        more: nat,
    ) -> bool
        decreases more,
    {
        &&& inner.steady() || inner.answers(
            refill_size(
                self.capacity,
                0,
                (requested - self.delivered(calls, requested)) as nat,
            ),
        )
        &&& forall|call: Call<R>| #[trigger]
            self.next(calls, call, requested) && call.before == inner && self.asks(
                calls.push(call),
                call.after,
                requested,
            ) ==> more > 0 && self.ends(
                calls.push(call),
                call.after,
                requested,
                (more - 1) as nat,
            )
    }

    /// Whether a request that came in a slice holding `request` leads to `calls` of the inner
    /// reader and no others, leaves `after` behind and `filled` in the slice, and returns `result`.
    ///
    /// The slice gets the oldest bytes and keeps its own behind them; the rest stays buffered.
    /// This holds of a failed request too: what it returns is the error of the last call.
    pub open spec fn serves(
        self,
        calls: Seq<Call<R>>,
        after: Buffering<R>,
        request: Seq<u8>,
        filled: Seq<u8>,
        result: Result<ReadResult, R::Error>,
    ) -> bool {
        let requested = request.len();
        let stream = self.stream(calls);
        let delivered = self.delivered(calls, requested);
        &&& requested <= usize::MAX
        &&& after.capacity == self.capacity
        &&& filled == stream.take(delivered as int) + request.skip(delivered as int)
        &&& after.held == stream.skip(delivered as int)
        &&& if self.serves_alone(requested) {
            &&& calls.len() == 0
            &&& after.inner == self.inner
            &&& result == Ok::<ReadResult, R::Error>(ReadResult::Complete(requested as usize))
        } else {
            &&& self.capacity > 0
            &&& calls.len() > 0
            &&& self.asks(calls.drop_last(), calls.last().before, requested)
            &&& self.next(calls.drop_last(), calls.last(), requested)
            &&& after.inner == calls.last().after
            &&& match calls.last().result {
                Ok(fill) => {
                    &&& outcome(requested, delivered, fill) is Some
                    &&& result == Ok::<ReadResult, R::Error>(
                        outcome(requested, delivered, fill)->Some_0,
                    )
                },
                Err(error) => result == Err::<ReadResult, R::Error>(error),
            }
        }
    }
}

impl<R: Reader> Buffering<R> {
    /// One more call adds what it delivered to the end of the stream.
    pub proof fn stream_grows(self, calls: Seq<Call<R>>, call: Call<R>)
        ensures
            self.stream(calls.push(call)) == self.stream(calls) + call.received(),
    {
        assert(calls.push(call).drop_last() == calls);
    }

    /// A call that ends the request is the last.
    proof fn concludes(
        self,
        calls: Seq<Call<R>>,
        call: Call<R>,
        after: Buffering<R>,
        request: Seq<u8>,
        filled: Seq<u8>,
        delivered: nat,
        result: Result<ReadResult, R::Error>,
    )
        requires
            request.len() <= usize::MAX,
            self.capacity > 0,
            !self.suffices(request.len()),
            self.asks(calls, call.before, request.len()),
            self.next(calls, call, request.len()),
            after.inner == call.after,
            after.capacity == self.capacity,
            delivered == vstd::math::min(
                request.len() as int,
                (self.stream(calls) + call.received()).len() as int,
            ),
            filled == (self.stream(calls) + call.received()).take(delivered as int)
                + request.skip(delivered as int),
            after.held == (self.stream(calls) + call.received()).skip(delivered as int),
            match call.result {
                Ok(fill) => result is Ok && outcome(request.len(), delivered, fill) == Some(
                    result->Ok_0,
                ),
                Err(error) => result == Err::<ReadResult, R::Error>(error),
            },
        ensures
            self.serves(calls.push(call), after, request, filled, result),
    {
        self.stream_grows(calls, call);
        assert(calls.push(call).drop_last() == calls);
    }

    /// A call that does not end the request is followed by another.
    proof fn asks_again(self, calls: Seq<Call<R>>, call: Call<R>, requested: nat)
        requires
            self.asks(calls, call.before, requested),
            self.next(calls, call, requested),
            call.result is Ok,
            outcome(
                requested,
                self.delivered(calls.push(call), requested),
                call.result->Ok_0,
            ) is None,
        ensures
            self.asks(calls.push(call), call.after, requested),
    {
        assert(calls.push(call).drop_last() == calls);
    }
}

/// Draining `fresh` behind the bytes `earlier`, which are all in the slice already, drains the
/// whole stream.
proof fn drained_behind(
    earlier: Seq<u8>,
    fresh: Seq<u8>,
    request: Seq<u8>,
    data: Seq<u8>,
    count: int,
)
    requires
        earlier.len() <= request.len(),
        data == earlier + request.skip(earlier.len() as int),
        0 <= count <= fresh.len(),
        earlier.len() + count <= request.len(),
    ensures
        data.take(earlier.len() as int) + (fresh.take(count) + data.skip(
            earlier.len() as int,
        ).skip(count)) == (earlier + fresh).take(earlier.len() + count) + request.skip(
            earlier.len() + count,
        ),
        fresh.skip(count) == (earlier + fresh).skip(earlier.len() + count),
{
}

/// Decides, after the inner reader has answered `fill`, what a read of `requested` bytes of which
/// `delivered` are there reports, or `None` if it is to go on.
pub fn read_outcome(requested: usize, delivered: usize, fill: ReadResult) -> (result: Option<
    ReadResult,
>)
    ensures
        result == outcome(requested as nat, delivered as nat, fill),
        result is None <==> delivered < requested && (match fill {
            ReadResult::Complete(_) => true,
            _ => false,
        }),
        match result {
            Some(ReadResult::Complete(n)) => n == delivered && delivered >= requested,
            Some(ReadResult::Timeout(n)) => n == delivered && delivered < requested && (
            match fill {
                ReadResult::Timeout(_) => true,
                _ => false,
            }),
            Some(ReadResult::EndOfFile(n)) => n == delivered && delivered < requested && (
            match fill {
                ReadResult::EndOfFile(_) => true,
                _ => false,
            }),
            None => true,
        },
{
    if delivered >= requested {
        return Some(ReadResult::Complete(delivered));
    }
    // If we hit EOF or timeout and couldn't get more data, return what we have
    match fill {
        ReadResult::EndOfFile(_) => Some(ReadResult::EndOfFile(delivered)),
        ReadResult::Timeout(_) => Some(ReadResult::Timeout(delivered)),
        ReadResult::Complete(_) => None,
    }
}

impl<R: Reader> BufferedReader<R> {
    /// Create a new BufferedReader with the specified buffer capacity.
    ///
    /// # Arguments
    /// * `inner` - The underlying Reader to read from
    /// * `buffer_capacity` - Maximum number of bytes to buffer. This should be
    ///   large enough to absorb timing variations in the input stream.
    ///   A typical value for Bluetooth would be 3-4x the chunk size in bytes.
    pub fn new(inner: R, buffer_capacity: usize) -> (reader: Self)
        requires
            buffer_capacity <= isize::MAX,
        ensures
            reader@ == (Buffering {
                inner,
                held: Seq::<u8>::empty(),
                capacity: buffer_capacity as nat,
            }),
            reader@.wf(),
    {
        BufferedReader {
            inner,
            buffer: VecDeque::with_capacity(buffer_capacity),
            buffer_capacity,
        }
    }

    /// Append to the internal buffer what the inner reader delivered: the first bytes of `chunk`,
    /// as many as `fill` reports.
    fn store(&mut self, chunk: &[u8], fill: ReadResult)
        ensures
            final(self)@.inner == old(self)@.inner,
            final(self)@.capacity == old(self)@.capacity,
            final(self)@.held == old(self)@.held + chunk@.take(
                vstd::math::min(fill.count() as int, chunk@.len() as int),
            ),
    {
        let reported: usize = match fill {
            ReadResult::Complete(n) => n,
            ReadResult::Timeout(n) => n,
            ReadResult::EndOfFile(n) => n,
        };
        let bytes_read: usize = reported.min(chunk.len());
        let mut i: usize = 0;
        while i < bytes_read
            invariant
                i <= bytes_read <= chunk@.len(),
                self.inner == old(self).inner,
                self.buffer_capacity == old(self).buffer_capacity,
                self.buffer@ == old(self).buffer@ + chunk@.take(i as int),
            decreases bytes_read - i,
        {
            self.buffer.push_back(chunk[i]);
            assert(chunk@.take(i + 1) == chunk@.take(i as int).push(chunk@[i as int]));
            i += 1;
        }
    }

    /// Try to fill the internal buffer by reading from the inner reader.
    /// Returns the ReadResult from the inner reader, or Complete if buffer is full.
    fn fill_buffer(&mut self, requested_bytes: usize) -> (result: Result<ReadResult, R::Error>)
        requires
            old(self)@.wf(),
            old(self)@.held.len() < old(self)@.capacity ==> old(self)@.inner.steady()
                || old(self)@.inner.answers(
                refill_size(
                    old(self)@.capacity,
                    old(self)@.held.len(),
                    requested_bytes as nat,
                ),
            ),
        ensures
            final(self)@.wf(),
            old(self)@.refills(final(self)@, requested_bytes as nat, result),
            old(self)@.inner.steady() ==> {
                &&& final(self)@.inner.steady()
                &&& old(self)@.held.len() < old(self)@.capacity && requested_bytes > 0 && result
                    == Ok::<ReadResult, R::Error>(ReadResult::Complete(0))
                    ==> final(self)@.inner.stalls() < old(self)@.inner.stalls()
            },
    {
        // Calculate how much space we have in the buffer
        let space_available: usize = self.buffer_capacity.saturating_sub(self.buffer.len());

        if space_available == 0 {
            // Buffer is full, no need to read
            return Ok(ReadResult::Complete(0));
        }
        // Read into a temporary buffer
        // We want to read enough to satisfy the request plus some extra for buffering

        let bytes_to_read: usize = space_available.min(
            requested_bytes.max(self.buffer_capacity / 2),
        );
        let mut temp_buf: Vec<u8> = vec![0u8; bytes_to_read];
        let ghost request = temp_buf@;
        assert(request == zeros(bytes_to_read as nat));

        let result = self.inner.read(temp_buf.as_mut_slice());
        let ghost call = Call {
            before: old(self).inner,
            after: self.inner,
            request,
            filled: temp_buf@,
            result,
        };
        assert(call.allowed());

        // Append read bytes to our buffer
        match result {
            Ok(fill) => {
                self.store(temp_buf.as_slice(), fill);
                assert(old(self)@.fills(self@, requested_bytes as nat, call));
                Ok(fill)
            },
            Err(error) => {
                assert(old(self)@.fills(self@, requested_bytes as nat, call));
                Err(error)
            },
        }
    }

    /// Drain bytes from the internal buffer into the output slice.
    /// Returns the number of bytes drained.
    fn drain_buffer(&mut self, data: &mut [u8]) -> (drained: usize)
        ensures
            old(self)@.drains(final(self)@, old(data)@, final(data)@, drained as nat),
    {
        let bytes_to_drain: usize = data.len().min(self.buffer.len());
        let mut i: usize = 0;
        while i < bytes_to_drain
            invariant
                i <= bytes_to_drain <= old(data)@.len(),
                bytes_to_drain <= old(self).buffer@.len(),
                self.inner == old(self).inner,
                self.buffer_capacity == old(self).buffer_capacity,
                self.buffer@ == old(self).buffer@.skip(i as int),
                data@ == old(self).buffer@.take(i as int) + old(data)@.skip(i as int),
            decreases bytes_to_drain - i,
        {
            match self.buffer.pop_front() {
                Some(byte) => {
                    data[i] = byte;
                },
                None => {},
            }
            i += 1;
        }
        bytes_to_drain
    }

    /// Returns the current number of bytes in the buffer.
    pub fn buffered_bytes(&self) -> (count: usize)
        ensures
            count == self@.held.len(),
    {
        self.buffer.len()
    }

    /// Returns the buffer capacity.
    pub fn capacity(&self) -> (capacity: usize)
        ensures
            capacity == self@.capacity,
    {
        self.buffer_capacity
    }
}

impl<R: Reader> Reader for BufferedReader<R> {
    type Error = R::Error;

    /// Some calls of the inner reader account for what the read does.
    open spec fn reads(
        &self,
        after: &Self,
        request: Seq<u8>,
        filled: Seq<u8>,
        result: Result<ReadResult, R::Error>,
    ) -> bool {
        exists|calls: Seq<Call<R>>| #[trigger]
            self@.serves(calls, after@, request, filled, result)
    }

    /// With room to buffer at least one byte, a reader that wraps a steady one is steady.
    open spec fn steady(&self) -> bool {
        &&& self@.wf()
        &&& self@.capacity > 0
        &&& self@.inner.steady()
    }

    /// A nonempty request is never answered with an empty `Complete`.
    open spec fn stalls(&self) -> nat {
        0
    }

    /// Whatever the inner reader, the buffer serves the requests for which it suffices. Any other
    /// request takes an inner reader whose answers bring it to an end.
    open spec fn answers(&self, requested: nat) -> bool {
        &&& self@.wf()
        &&& {
            ||| self@.serves_alone(requested)
            ||| self@.capacity > 0 && exists|more: nat| #[trigger]
                self@.ends(Seq::empty(), self@.inner, requested, more)
        }
    }

    /// Fills `data` from the buffer, oldest byte first, and refills the buffer from the inner
    /// reader until `data` is full or the inner reader times out, ends or fails.
    #[verifier::rlimit(30)]
    fn read(&mut self, data: &mut [u8]) -> (result: Result<ReadResult, R::Error>)
        ensures
            final(self)@.wf(),
            final(self)@.held.len() <= final(self)@.capacity,
            final(self)@.capacity == old(self)@.capacity,
            exists|calls: Seq<Call<R>>| #[trigger]
                old(self)@.serves(calls, final(self)@, old(data)@, final(data)@, result),
            match result {
                Ok(ReadResult::Complete(n)) => n == old(data)@.len(),
                Ok(ReadResult::Timeout(n)) => n < old(data)@.len() && final(self)@.held.len()
                    == 0,
                Ok(ReadResult::EndOfFile(n)) => n < old(data)@.len() && final(self)@.held.len()
                    == 0,
                Err(_) => true,
            },
            0 < old(self)@.held.len() && old(data)@.len() <= old(self)@.held.len() ==> {
                &&& result == Ok::<ReadResult, R::Error>(
                    ReadResult::Complete(old(data)@.len() as usize),
                )
                &&& final(data)@ + final(self)@.held == old(self)@.held
                &&& final(self)@.inner == old(self)@.inner
            },
    {
        let requested: usize = data.len();
        let mut total_bytes_read: usize = 0;
        let ghost before = self@;
        let ghost request = data@;
        let ghost mut calls: Seq<Call<R>> = Seq::empty();
        let ghost steady = self.steady();
        let ghost mut more: nat = 0;

        // First, drain any bytes we already have buffered
        if self.buffer.len() > 0 {
            total_bytes_read = self.drain_buffer(data);
            if total_bytes_read >= requested {
                assert(before.serves(
                    calls,
                    self@,
                    request,
                    data@,
                    Ok(ReadResult::Complete(total_bytes_read)),
                ));
                return Ok(ReadResult::Complete(total_bytes_read));
            }
        }
        proof {
            if !steady && before.capacity > 0 {
                more = choose|more: nat| #[trigger]
                    before.ends(calls, before.inner, requested as nat, more);
            }
        }
        // Keep reading until we have enough data or hit EOF/timeout
        loop
            invariant
                before == old(self)@,
                request == old(data)@,
                requested == request.len(),
                before.wf(),
                !before.suffices(requested as nat),
                before.capacity > 0 || requested == 0,
                requested == 0 ==> calls.len() == 0,
                steady == old(self).steady(),
                steady ==> self@.inner.steady(),
                !steady && before.capacity > 0 ==> before.ends(
                    calls,
                    self@.inner,
                    requested as nat,
                    more,
                ),
                before.asks(calls, self@.inner, requested as nat),
                self@.capacity == before.capacity,
                self@.held.len() == 0,
                total_bytes_read == before.stream(calls).len(),
                total_bytes_read < requested || requested == 0 && total_bytes_read == 0,
                data@ == before.stream(calls) + request.skip(total_bytes_read as int),
            decreases
                if steady {
                    requested - total_bytes_read
                } else {
                    more as int
                },
                self@.inner.stalls(),
        {
            let remaining: usize = requested - total_bytes_read;
            let ghost now = self@;
            let fill_result = self.fill_buffer(remaining);
            let ghost earlier = before.stream(calls);
            let ghost fresh = self@.held;
            let ghost call = choose|call: Call<R>| #[trigger]
                now.fills(self@, remaining as nat, call) && call.result == fill_result;
            assert(now.held + call.received() == call.received());
            let fill = match fill_result {
                Ok(fill) => fill,
                Err(error) => {
                    proof {
                        assert((earlier + fresh).take(total_bytes_read as int) == earlier);
                        assert((earlier + fresh).skip(total_bytes_read as int) == fresh);
                        before.concludes(
                            calls,
                            call,
                            self@,
                            request,
                            data@,
                            total_bytes_read as nat,
                            Err(error),
                        );
                    }
                    return Err(error);
                },
            };

            // Drain newly buffered bytes
            let ghost unfilled = data@;
            let (_, rest) = data.split_at_mut(total_bytes_read);
            let newly_drained: usize = self.drain_buffer(rest);
            total_bytes_read += newly_drained;
            proof {
                drained_behind(earlier, fresh, request, unfilled, newly_drained as int);
            }
            assert(data@ == (earlier + fresh).take(total_bytes_read as int) + request.skip(
                total_bytes_read as int,
            ));

            match read_outcome(requested, total_bytes_read, fill) {
                Some(result) => {
                    proof {
                        if before.capacity > 0 {
                            before.concludes(
                                calls,
                                call,
                                self@,
                                request,
                                data@,
                                total_bytes_read as nat,
                                Ok(result),
                            );
                        } else {
                            assert(before.serves(calls, self@, request, data@, Ok(result)));
                        }
                    }
                    return Ok(result);
                },
                None => {
                    proof {
                        before.stream_grows(calls, call);
                        before.asks_again(calls, call, requested as nat);
                        if !steady {
                            assert(before.next(calls, call, requested as nat));
                            more = (more - 1) as nat;
                        }
                        calls = calls.push(call);
                    }
                },
            }
        }
    }
}

} // verus!
