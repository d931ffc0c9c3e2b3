//! What holds of every buffered reader, whatever reader it wraps.
//!
//! The laws are stated of reads that [`Reader::reads`] describes. Every call of
//! [`Reader::read`] is one of them.
use vstd::prelude::*;

use crate::filedevice;
use crate::filedevice::{Call, ReadResult, Reader};
use crate::filereader_buffered;
use crate::filereader_buffered::{BufferedReader, Buffering};

verus! {

/// Whether a reader of this type leaves nothing open: from one state, with one request, only one
/// thing can happen.
pub open spec fn deterministic<R: Reader>() -> bool {
    forall|one: Call<R>, other: Call<R>|
        #![trigger one.allowed(), other.allowed()]
        one.allowed() && other.allowed() && one.before == other.before && one.request
            == other.request ==> one == other
}

/// The calls made on behalf of one request follow one another.
proof fn asked_calls_lead<R: Reader>(
    before: Buffering<R>,
    calls: Seq<Call<R>>,
    inner: R,
    requested: nat,
)
    requires
        before.asks(calls, inner, requested),
    ensures
        filedevice::leads(calls, before.inner, inner),
    decreases calls.len(),
{
    if calls.len() > 0 {
        asked_calls_lead(before, calls.drop_last(), calls.last().before, requested);
    }
}

/// The buffer is empty whenever the inner reader is asked: all that came before is delivered.
proof fn asked_when_empty<R: Reader>(
    before: Buffering<R>,
    calls: Seq<Call<R>>,
    inner: R,
    requested: nat,
)
    requires
        before.asks(calls, inner, requested),
        !before.suffices(requested),
    ensures
        before.stream(calls).len() <= requested,
        before.delivered(calls, requested) == before.stream(calls).len(),
{
    assert(calls.len() == 0 ==> before.stream(calls) == before.held);
}

/// A read, told call by call.
pub ghost struct Account<R: Reader> {
    /// The calls of the inner reader, in order.
    pub calls: Seq<Call<R>>,
    /// How many bytes there are before each call, and after the last.
    pub arrived: Seq<nat>,
    /// The bytes there are in the end.
    pub stream: Seq<u8>,
}

/// What the first of several calls delivered comes first in what all of them delivered.
proof fn received_in_order<R: Reader>(calls: Seq<Call<R>>, i: int)
    requires
        0 <= i < calls.len(),
    ensures
        filedevice::received(calls.take(i + 1)) == filedevice::received(calls.take(i))
            + calls[i].received(),
        filedevice::received(calls.take(i + 1)).is_prefix_of(filedevice::received(calls)),
    decreases calls.len(),
{
    assert(calls.take(i + 1).drop_last() == calls.take(i));
    assert(calls.take(i + 1).last() == calls[i]);
    if i == calls.len() - 1 {
        assert(calls.take(i + 1) == calls);
    } else {
        received_in_order(calls.drop_last(), i);
        assert(calls.drop_last().take(i + 1) == calls.take(i + 1));
        assert(filedevice::received(calls.drop_last()).is_prefix_of(filedevice::received(calls)));
    }
}

/// How many bytes there are to deliver once the first `i` of `calls` have been made.
#[verifier::opaque]
spec fn arrived_at<R: Reader>(before: Buffering<R>, calls: Seq<Call<R>>, i: int) -> nat {
    before.stream(calls.take(i)).len()
}

/// What one of the calls that a read makes is given and brings.
proof fn one_call_of_a_read<R: Reader>(
    before: Buffering<R>,
    after: Buffering<R>,
    request: Seq<u8>,
    filled: Seq<u8>,
    result: Result<ReadResult, R::Error>,
    calls: Seq<Call<R>>,
    i: int,
)
    requires
        before.serves(calls, after, request, filled, result),
        0 <= i < calls.len(),
    ensures
        calls[i].before.reads(
            &calls[i].after,
            calls[i].request,
            calls[i].filled,
            calls[i].result,
        ),
        calls[i].filled.len() == calls[i].request.len(),
        calls[i].request.len() == vstd::math::min(
            before.capacity as int,
            vstd::math::max(
                request.len() - arrived_at(before, calls, i),
                before.capacity as int / 2,
            ),
        ),
        forall|k: int| 0 <= k < calls[i].request.len() ==> #[trigger] calls[i].request[k] == 0,
        arrived_at(before, calls, i + 1) == arrived_at(before, calls, i) + (
        match calls[i].result {
            Ok(ReadResult::Complete(n)) => vstd::math::min(
                n as int,
                calls[i].filled.len() as int,
            ),
            Ok(ReadResult::Timeout(n)) => vstd::math::min(n as int, calls[i].filled.len() as int),
            Ok(ReadResult::EndOfFile(n)) => vstd::math::min(
                n as int,
                calls[i].filled.len() as int,
            ),
            Err(_) => 0,
        }),
        arrived_at(before, calls, i + 1) <= before.stream(calls).len(),
        forall|k: int|
            0 <= k < arrived_at(before, calls, i + 1) - arrived_at(before, calls, i)
                ==> before.stream(calls)[arrived_at(before, calls, i) + k]
                == #[trigger] calls[i].filled[k],
        i == 0 ==> calls[i].before == before.inner,
        i > 0 ==> calls[i - 1].after == calls[i].before,
        i < calls.len() - 1 ==> {
            &&& calls[i].result matches Ok(ReadResult::Complete(_))
            &&& arrived_at(before, calls, i + 1) < request.len()
        },
{
    reveal(arrived_at);
    let earlier = calls.drop_last();
    let stream = before.stream(calls);
    let now = before.stream(calls.take(i));
    let then = before.stream(calls.take(i + 1));
    received_in_order(calls, i);
    if i < calls.len() - 1 {
        asked_one_by_one(before, earlier, calls.last().before, request.len(), i);
        assert(earlier.take(i) == calls.take(i));
        assert(earlier.take(i + 1) == calls.take(i + 1));
        assert(earlier[i] == calls[i]);
        assert(calls.take(i + 1).last() == calls[i]);
    } else {
        assert(calls.take(i) == earlier);
    }
    asked_when_empty(before, calls.take(i), calls[i].before, request.len());
    if i > 0 {
        assert(calls.take(i).last() == calls[i - 1]);
    }
    let brought = calls[i].received();
    assert(then == now + brought);
    assert(then.is_prefix_of(stream)) by {
        assert(stream == before.held + filedevice::received(calls));
    }
    assert forall|k: int| 0 <= k < then.len() - now.len() implies stream[now.len() + k]
        == #[trigger] calls[i].filled[k] by {
        assert(stream[now.len() + k] == then[now.len() + k]);
        assert(then[now.len() + k] == brought[k]);
    }
}

/// The account of a read on behalf of which `calls` are made.
#[verifier::opaque]
spec fn account_of<R: Reader>(before: Buffering<R>, calls: Seq<Call<R>>) -> Account<R> {
    Account {
        calls,
        arrived: Seq::new(calls.len() + 1, |i: int| arrived_at(before, calls, i)),
        stream: before.stream(calls),
    }
}

/// The whole of what a read does, told by the calls it makes of the inner reader.
///
/// - The inner reader is left alone exactly where the buffer is not empty and holds as much as is
///   requested, or where nothing is requested and nothing can be buffered.
/// - Otherwise it is called, each time as the call before left it, with zero bytes to overwrite: as
///   many as the request still lacks or half the capacity, whichever is more, but at most the
///   capacity.
/// - Each call brings the first bytes of its slice, as many as its result says, be it `Complete`,
///   `Timeout` or `EndOfFile`, and at most all of them. A call that fails brings none.
/// - It is called again exactly as long as it answers `Complete` and there are fewer bytes than
///   requested.
/// - The bytes go into the slice in the order in which they came, behind those that were buffered.
///   What does not fit is buffered, and what is not reached in the slice stays as it was.
/// - The result is the error of the last call if it failed; else `Complete` with the length of the
///   slice if there are enough bytes; else the kind of the last answer, with the number of bytes
///   there are.
pub proof fn read_is_accounted_for<R: Reader>(
    before: BufferedReader<R>,
    after: BufferedReader<R>,
    request: Seq<u8>,
    filled: Seq<u8>,
    result: Result<ReadResult, R::Error>,
) -> (account: Account<R>)
    requires
        before.reads(&after, request, filled, result),
    ensures
        account.calls.len() == 0 <==> (0 < before@.held.len() && request.len()
            <= before@.held.len()) || (request.len() == 0 && before@.capacity == 0),
        account.calls.len() == 0 ==> after@.inner == before@.inner,
        account.calls.len() > 0 ==> account.calls[0].before == before@.inner,
        account.calls.len() > 0 ==> after@.inner == account.calls[account.calls.len() - 1].after,
        forall|i: int, j: int|
            #![trigger account.calls[i], account.calls[j]]
            0 <= i < account.calls.len() && j == i + 1 && j < account.calls.len()
                ==> account.calls[i].after == account.calls[j].before,
        forall|i: int|
            #![trigger account.calls[i]]
            0 <= i < account.calls.len() ==> account.calls[i].before.reads(
                &account.calls[i].after,
                account.calls[i].request,
                account.calls[i].filled,
                account.calls[i].result,
            ),
        forall|i: int|
            #![trigger account.calls[i]]
            0 <= i < account.calls.len() ==> {
                &&& account.calls[i].filled.len() == account.calls[i].request.len()
                &&& account.calls[i].request.len() == vstd::math::min(
                    before@.capacity as int,
                    vstd::math::max(
                        request.len() - account.arrived[i],
                        before@.capacity as int / 2,
                    ),
                )
            },
        forall|i: int, k: int|
            #![trigger account.calls[i].request[k]]
            0 <= i < account.calls.len() && 0 <= k < account.calls[i].request.len()
                ==> account.calls[i].request[k] == 0,
        account.arrived.len() == account.calls.len() + 1,
        account.arrived[0] == before@.held.len(),
        account.arrived[account.calls.len() as int] == account.stream.len(),
        forall|i: int|
            #![trigger account.calls[i]]
            0 <= i < account.calls.len() ==> account.arrived[i + 1] == account.arrived[i] + (
            match account.calls[i].result {
                Ok(ReadResult::Complete(n)) => vstd::math::min(
                    n as int,
                    account.calls[i].filled.len() as int,
                ),
                Ok(ReadResult::Timeout(n)) => vstd::math::min(
                    n as int,
                    account.calls[i].filled.len() as int,
                ),
                Ok(ReadResult::EndOfFile(n)) => vstd::math::min(
                    n as int,
                    account.calls[i].filled.len() as int,
                ),
                Err(_) => 0,
            }),
        forall|i: int|
            #![trigger account.calls[i]]
            0 <= i < account.calls.len() - 1 ==> {
                &&& account.calls[i].result matches Ok(ReadResult::Complete(_))
                &&& account.arrived[i + 1] < request.len()
            },
        account.calls.len() > 0 ==> match account.calls[account.calls.len() - 1].result {
            Ok(ReadResult::Complete(_)) => request.len() <= account.stream.len(),
            _ => true,
        },
        before@.held.len() <= account.stream.len(),
        forall|k: int|
            0 <= k < before@.held.len() ==> #[trigger] account.stream[k] == before@.held[k],
        forall|i: int|
            0 <= i < account.arrived.len() ==> #[trigger] account.arrived[i]
                <= account.stream.len(),
        forall|i: int, k: int|
            #![trigger account.calls[i].filled[k]]
            0 <= i < account.calls.len() && 0 <= k < account.arrived[i + 1] - account.arrived[i]
                ==> account.stream[account.arrived[i] + k] == account.calls[i].filled[k],
        filled.len() == request.len(),
        forall|k: int|
            0 <= k < request.len() ==> #[trigger] filled[k] == (if k < account.stream.len() {
                account.stream[k]
            } else {
                request[k]
            }),
        after@.held.len() == vstd::math::max(account.stream.len() - request.len(), 0),
        forall|k: int|
            0 <= k < after@.held.len() ==> #[trigger] after@.held[k] == account.stream[request.len()
                + k],
        after@.capacity == before@.capacity,
        match result {
            Ok(ReadResult::Complete(n)) => {
                &&& n == request.len()
                &&& request.len() <= account.stream.len()
                &&& account.calls.len() > 0 ==> account.calls[account.calls.len() - 1].result is Ok
            },
            Ok(ReadResult::Timeout(n)) => {
                &&& n == account.stream.len()
                &&& account.stream.len() < request.len()
                &&& account.calls.len() > 0
                &&& account.calls[account.calls.len() - 1].result matches Ok(
                    ReadResult::Timeout(_),
                )
            },
            Ok(ReadResult::EndOfFile(n)) => {
                &&& n == account.stream.len()
                &&& account.stream.len() < request.len()
                &&& account.calls.len() > 0
                &&& account.calls[account.calls.len() - 1].result matches Ok(
                    ReadResult::EndOfFile(_),
                )
            },
            Err(error) => {
                &&& account.calls.len() > 0
                &&& account.calls[account.calls.len() - 1].result == Err::<ReadResult, R::Error>(
                    error,
                )
            },
        },
{
    let calls = choose|calls: Seq<Call<R>>| #[trigger]
        before@.serves(calls, after@, request, filled, result);
    let account = account_of(before@, calls);
    reveal(account_of);
    assert(account.arrived[0] == before@.held.len() && account.arrived[account.calls.len() as int]
        == account.stream.len()) by {
        reveal(arrived_at);
        assert(before@.stream(account.calls.take(0)) == before@.held);
        assert(account.calls.take(account.calls.len() as int) == account.calls);
    }
    if account.calls.len() > 0 {
        one_call_of_a_read(before@, after@, request, filled, result, account.calls, 0);
    }
    assert forall|i: int, j: int|
        #![trigger account.calls[i], account.calls[j]]
        0 <= i < account.calls.len() && j == i + 1 && j
        < account.calls.len() implies account.calls[i].after == account.calls[j].before by {
        one_call_of_a_read(before@, after@, request, filled, result, account.calls, j);
    }
    assert forall|i: int|
        #![trigger account.calls[i]]
        0 <= i < account.calls.len() implies account.calls[i].before.reads(
            &account.calls[i].after,
            account.calls[i].request,
            account.calls[i].filled,
            account.calls[i].result,
        ) by {
        one_call_of_a_read(before@, after@, request, filled, result, account.calls, i);
    }
    assert forall|i: int|
        #![trigger account.calls[i]]
        0 <= i < account.calls.len() implies {
            &&& account.calls[i].filled.len() == account.calls[i].request.len()
            &&& account.calls[i].request.len() == vstd::math::min(
                before@.capacity as int,
                vstd::math::max(
                    request.len() - account.arrived[i],
                    before@.capacity as int / 2,
                ),
            )
        } by {
        one_call_of_a_read(before@, after@, request, filled, result, account.calls, i);
    }
    assert forall|i: int, k: int|
        #![trigger account.calls[i].request[k]]
        0 <= i < account.calls.len() && 0 <= k
        < account.calls[i].request.len() implies account.calls[i].request[k] == 0 by {
        one_call_of_a_read(before@, after@, request, filled, result, account.calls, i);
    }
    assert forall|i: int|
        #![trigger account.calls[i]]
        0 <= i < account.calls.len() implies account.arrived[i + 1] == account.arrived[i] + (
        match account.calls[i].result {
            Ok(ReadResult::Complete(n)) => vstd::math::min(
                n as int,
                account.calls[i].filled.len() as int,
            ),
            Ok(ReadResult::Timeout(n)) => vstd::math::min(
                n as int,
                account.calls[i].filled.len() as int,
            ),
            Ok(ReadResult::EndOfFile(n)) => vstd::math::min(
                n as int,
                account.calls[i].filled.len() as int,
            ),
            Err(_) => 0,
        }) by {
        one_call_of_a_read(before@, after@, request, filled, result, account.calls, i);
    }
    assert forall|i: int|
        #![trigger account.calls[i]]
        0 <= i < account.calls.len() - 1 implies {
            &&& account.calls[i].result matches Ok(ReadResult::Complete(_))
            &&& account.arrived[i + 1] < request.len()
        } by {
        one_call_of_a_read(before@, after@, request, filled, result, account.calls, i);
    }
    assert forall|i: int| 0 <= i < account.arrived.len() implies #[trigger] account.arrived[i]
        <= account.stream.len() by {
        if i > 0 {
            one_call_of_a_read(before@, after@, request, filled, result, account.calls, i - 1);
        }
    }
    assert forall|i: int, k: int|
        #![trigger account.calls[i].filled[k]]
        0 <= i < account.calls.len() && 0 <= k < account.arrived[i + 1]
        - account.arrived[i] implies account.stream[account.arrived[i] + k]
        == account.calls[i].filled[k] by {
        one_call_of_a_read(before@, after@, request, filled, result, account.calls, i);
    }
    assert(account.calls.len() == 0 ==> account.stream == before@.held);
    account
}

/// The buffer never holds more than its capacity, and the capacity never changes.
pub proof fn capacity_is_respected<R: Reader>(
    before: BufferedReader<R>,
    after: BufferedReader<R>,
    request: Seq<u8>,
    filled: Seq<u8>,
    result: Result<ReadResult, R::Error>,
)
    requires
        before@.wf(),
        before.reads(&after, request, filled, result),
    ensures
        after@.wf(),
        after@.held.len() <= after@.capacity <= isize::MAX,
        after@.capacity == before@.capacity,
{
    let calls = choose|calls: Seq<Call<R>>| #[trigger]
        before@.serves(calls, after@, request, filled, result);
    if calls.len() > 0 {
        let earlier = calls.drop_last();
        asked_when_empty(before@, earlier, calls.last().before, request.len());
        before@.stream_grows(earlier, calls.last());
        assert(earlier.push(calls.last()) == calls);
    } else {
        assert(before@.stream(calls) == before@.held);
    }
}

/// A read loses no byte, makes up none and changes no order: what it delivers, and after it what
/// is left in the buffer, are what the buffer held, and after it what the inner reader delivered
/// meanwhile. Behind what it delivers, the slice keeps what it held. A read that succeeds reports
/// how many bytes it delivered.
pub proof fn read_loses_nothing<R: Reader>(
    before: BufferedReader<R>,
    after: BufferedReader<R>,
    request: Seq<u8>,
    filled: Seq<u8>,
    result: Result<ReadResult, R::Error>,
) -> (res: (Seq<Call<R>>, nat))
    requires
        before.reads(&after, request, filled, result),
    ensures
        filedevice::leads(res.0, before@.inner, after@.inner),
        res.1 <= request.len(),
        filled.len() == request.len(),
        filled.take(res.1 as int) + after@.held == before@.held + filedevice::received(res.0),
        filled.skip(res.1 as int) == request.skip(res.1 as int),
        result matches Ok(reported) ==> reported.count() == res.1,
{
    let calls = choose|calls: Seq<Call<R>>| #[trigger]
        before@.serves(calls, after@, request, filled, result);
    let stream = before@.stream(calls);
    let delivered = before@.delivered(calls, request.len());
    if calls.len() > 0 {
        asked_calls_lead(before@, calls.drop_last(), calls.last().before, request.len());
    }
    assert(filled.take(delivered as int) == stream.take(delivered as int));
    assert(stream.take(delivered as int) + stream.skip(delivered as int) == stream);
    (calls, delivered)
}

/// A read reports `Complete` only when it has filled the whole slice; in particular, a nonempty
/// request is never answered with an empty `Complete`. A read that reports a timeout or the end of
/// the source has delivered fewer bytes than there was room for, and has emptied the buffer.
pub proof fn complete_means_full<R: Reader>(
    before: BufferedReader<R>,
    after: BufferedReader<R>,
    request: Seq<u8>,
    filled: Seq<u8>,
    result: Result<ReadResult, R::Error>,
)
    requires
        before.reads(&after, request, filled, result),
    ensures
        match result {
            Ok(ReadResult::Complete(n)) => n == request.len(),
            Ok(ReadResult::Timeout(n)) => n < request.len() && after@.held.len() == 0,
            Ok(ReadResult::EndOfFile(n)) => n < request.len() && after@.held.len() == 0,
            Err(_) => true,
        },
{
}

/// The buffer absorbs gaps in the input: as long as it suffices, reads succeed in full, from the
/// buffer alone and oldest byte first, whatever the inner reader would answer.
pub proof fn buffer_bridges_gaps<R: Reader>(
    before: BufferedReader<R>,
    after: BufferedReader<R>,
    request: Seq<u8>,
    filled: Seq<u8>,
    result: Result<ReadResult, R::Error>,
)
    requires
        before.reads(&after, request, filled, result),
        0 < before@.held.len(),
        request.len() <= before@.held.len(),
    ensures
        result == Ok::<ReadResult, R::Error>(ReadResult::Complete(request.len() as usize)),
        filled == before@.held.take(request.len() as int),
        after@.held == before@.held.skip(request.len() as int),
        after@.inner == before@.inner,
        after@.capacity == before@.capacity,
{
    let calls = choose|calls: Seq<Call<R>>| #[trigger]
        before@.serves(calls, after@, request, filled, result);
    assert(before@.stream(calls) == before@.held);
    assert(request.skip(request.len() as int) == Seq::<u8>::empty());
}

/// A read fails only with an error that the inner reader gave it, and passes every such error on:
/// it fails exactly when its last call of the inner reader did, with the same error, and no
/// earlier call of that read failed.
pub proof fn errors_pass_through<R: Reader>(
    before: BufferedReader<R>,
    after: BufferedReader<R>,
    request: Seq<u8>,
    filled: Seq<u8>,
    result: Result<ReadResult, R::Error>,
) -> (calls: Seq<Call<R>>)
    requires
        before.reads(&after, request, filled, result),
    ensures
        before@.serves(calls, after@, request, filled, result),
        filedevice::leads(calls, before@.inner, after@.inner),
        forall|i: int| 0 <= i < calls.len() - 1 ==> (#[trigger] calls[i]).result is Ok,
        result is Err <==> calls.len() > 0 && calls.last().result is Err,
        result is Err ==> result->Err_0 == calls.last().result->Err_0,
{
    let calls = choose|calls: Seq<Call<R>>| #[trigger]
        before@.serves(calls, after@, request, filled, result);
    if calls.len() > 0 {
        let earlier = calls.drop_last();
        asked_calls_lead(before@, earlier, calls.last().before, request.len());
        assert forall|i: int| 0 <= i < earlier.len() implies (#[trigger] calls[i]).result is Ok by {
            asked_one_by_one(before@, earlier, calls.last().before, request.len(), i);
        }
    }
    calls
}

/// What is asked on behalf of one request is asked in order, each call after those before it.
proof fn asked_one_by_one<R: Reader>(
    before: Buffering<R>,
    calls: Seq<Call<R>>,
    inner: R,
    requested: nat,
    i: int,
)
    requires
        before.asks(calls, inner, requested),
        0 <= i < calls.len(),
    ensures
        before.asks(calls.take(i), calls[i].before, requested),
        before.next(calls.take(i), calls[i], requested),
        before.asks(calls.take(i + 1), calls[i].after, requested),
    decreases calls.len(),
{
    assert(calls.drop_last() == calls.take(calls.len() - 1));
    if i < calls.len() - 1 {
        asked_one_by_one(before, calls.drop_last(), calls.last().before, requested, i);
        assert(calls.drop_last().take(i) == calls.take(i));
        assert(calls.drop_last().take(i + 1) == calls.take(i + 1));
    } else {
        assert(calls.take(i + 1) == calls);
    }
}

/// Calls that follow one another can be strung together.
proof fn calls_join<R: Reader>(one: Seq<Call<R>>, two: Seq<Call<R>>, start: R, middle: R, end: R)
    requires
        filedevice::leads(one, start, middle),
        filedevice::leads(two, middle, end),
    ensures
        filedevice::leads(one + two, start, end),
        filedevice::received(one + two) == filedevice::received(one) + filedevice::received(two),
    decreases two.len(),
{
    if two.len() == 0 {
        assert(one + two == one);
    } else {
        calls_join(one, two.drop_last(), start, middle, two.last().before);
        assert((one + two).drop_last() == one + two.drop_last());
    }
}

/// However many reads are made, in whatever portions: as long as none fails, they deliver the
/// bytes that the inner reader delivers, one after the other, without a gap, a repetition or a
/// change of order. What has not been delivered yet is in the buffer.
pub proof fn reads_deliver_the_stream<R: Reader>(
    reads: Seq<Call<BufferedReader<R>>>,
    before: BufferedReader<R>,
    after: BufferedReader<R>,
) -> (calls: Seq<Call<R>>)
    requires
        filedevice::leads(reads, before, after),
        forall|i: int| 0 <= i < reads.len() ==> (#[trigger] reads[i]).result is Ok,
    ensures
        filedevice::leads(calls, before@.inner, after@.inner),
        filedevice::received(reads) + after@.held == before@.held + filedevice::received(calls),
    decreases reads.len(),
{
    if reads.len() == 0 {
        let calls = Seq::<Call<R>>::empty();
        assert(filedevice::received(reads) + after@.held == before@.held + filedevice::received(
            calls,
        ));
        calls
    } else {
        let earlier = reads.drop_last();
        let read = reads.last();
        assert forall|i: int| 0 <= i < earlier.len() implies (#[trigger] earlier[i]).result is Ok by {
            assert(earlier[i] == reads[i]);
        }
        let one = reads_deliver_the_stream(earlier, before, read.before);
        let (two, delivered) = read_loses_nothing(
            read.before,
            after,
            read.request,
            read.filled,
            read.result,
        );
        calls_join(one, two, before@.inner, read.before@.inner, after@.inner);
        assert(read == reads[reads.len() - 1]);
        let held = read.before@.held;
        assert(filedevice::received(reads) + after@.held == filedevice::received(earlier) + (
        read.received() + after@.held));
        assert(filedevice::received(earlier) + (held + filedevice::received(two)) == (
        filedevice::received(earlier) + held) + filedevice::received(two));
        assert((before@.held + filedevice::received(one)) + filedevice::received(two)
            == before@.held + filedevice::received(one + two));
        one + two
    }
}

/// A refill asks for no more than there is room for. Where there is room, it asks for what the
/// request lacks and for half the capacity, or for all that fits.
pub proof fn refill_fits(capacity: nat, held: nat, requested: nat)
    requires
        held <= capacity,
    ensures
        held + filereader_buffered::refill_size(capacity, held, requested) <= capacity,
        filereader_buffered::refill_size(capacity, held, requested) >= vstd::math::min(
            capacity - held,
            requested as int,
        ),
        filereader_buffered::refill_size(capacity, held, requested) >= vstd::math::min(
            capacity - held,
            (capacity / 2) as int,
        ),
        held < capacity && requested > 0 ==> filereader_buffered::refill_size(
            capacity,
            held,
            requested,
        ) > 0,
{
}

/// A refill respects the capacity, which it does not change, and keeps what is buffered in front
/// of what it adds. This holds of a refill that fails too, and whatever number of bytes the inner
/// reader reports.
pub proof fn refill_respects_capacity<R: Reader>(
    before: Buffering<R>,
    after: Buffering<R>,
    requested: nat,
    result: Result<ReadResult, R::Error>,
)
    requires
        before.wf(),
        before.refills(after, requested, result),
    ensures
        after.wf(),
        after.capacity == before.capacity,
        before.held.is_prefix_of(after.held),
{
    if before.held.len() < before.capacity {
        let call = choose|call: Call<R>| #[trigger]
            before.fills(after, requested, call) && call.result == result;
        refill_fits(before.capacity, before.held.len(), requested);
        assert(after.held == before.held + call.received());
    }
}

/// How the output is cut up changes neither the bytes nor their order: draining into one slice and
/// then into another moves the bytes that a single drain into a slice of the joint length moves,
/// and leaves the same bytes buffered. It makes no difference what readers the two buffers, equal
/// at first, belong to.
pub proof fn drain_in_portions<R, S>(
    before: Buffering<R>,
    between: Buffering<R>,
    after: Buffering<R>,
    whole_before: Buffering<S>,
    whole_after: Buffering<S>,
    first: Seq<u8>,
    first_filled: Seq<u8>,
    first_count: nat,
    second: Seq<u8>,
    second_filled: Seq<u8>,
    second_count: nat,
    whole: Seq<u8>,
    whole_filled: Seq<u8>,
    whole_count: nat,
)
    requires
        before.held == whole_before.held,
        whole.len() == first.len() + second.len(),
        before.drains(between, first, first_filled, first_count),
        between.drains(after, second, second_filled, second_count),
        whole_before.drains(whole_after, whole, whole_filled, whole_count),
    ensures
        whole_count == first_count + second_count,
        whole_filled.take(whole_count as int) == first_filled.take(first_count as int)
            + second_filled.take(second_count as int),
        whole_after.held == after.held,
{
}

/// Draining gives back exactly what a refill of an empty buffer put in: with room for all that
/// the inner reader delivered, the slice gets those bytes and keeps its own behind them, and the
/// buffer is empty again. Their number is the one that the inner reader reports, unless it
/// reports more than it was asked for.
pub proof fn drain_returns_the_refill<R: Reader>(
    before: Buffering<R>,
    between: Buffering<R>,
    after: Buffering<R>,
    requested: nat,
    call: Call<R>,
    data: Seq<u8>,
    filled: Seq<u8>,
    count: nat,
)
    requires
        before.held.len() == 0,
        before.capacity > 0,
        before.fills(between, requested, call),
        call.result is Ok,
        between.drains(after, data, filled, count),
        call.received().len() <= data.len(),
    ensures
        before.refills(between, requested, call.result),
        count == call.received().len(),
        call.result->Ok_0.count() <= call.request.len() ==> count == call.result->Ok_0.count(),
        filled.take(count as int) == call.received(),
        filled.take(count as int) == call.filled.take(count as int),
        filled.skip(count as int) == data.skip(count as int),
        after.held.len() == 0,
{
    assert(between.held == call.received());
    assert(call.received() == call.filled.take(count as int));
}

/// Whether a reader of this type always comes to an end, and answers no nonempty request with an
/// empty `Complete`.
pub open spec fn makes_progress<R: Reader>() -> bool {
    &&& forall|reader: R, requested: nat| #[trigger] reader.answers(requested)
    &&& forall|call: Call<R>| #[trigger]
        call.allowed() && call.request.len() > 0 ==> call.result != Ok::<ReadResult, R::Error>(
            ReadResult::Complete(0),
        )
}

/// A request ends when every call that does not end it delivers a byte.
proof fn progress_ends_requests<R: Reader>(
    before: Buffering<R>,
    calls: Seq<Call<R>>,
    inner: R,
    requested: nat,
    more: nat,
)
    requires
        makes_progress::<R>(),
        before.capacity > 0,
        !before.suffices(requested),
        before.asks(calls, inner, requested),
        requested - before.delivered(calls, requested) <= more,
    ensures
        before.ends(calls, inner, requested, more),
    decreases more,
{
    assert forall|call: Call<R>| #[trigger]
        before.next(calls, call, requested) && call.before == inner && before.asks(
            calls.push(call),
            call.after,
            requested,
        ) implies more > 0 && before.ends(
        calls.push(call),
        call.after,
        requested,
        (more - 1) as nat,
    ) by {
        asked_when_empty(before, calls, inner, requested);
        before.stream_grows(calls, call);
        assert(calls.push(call).last() == call);
        assert(call.allowed());
        progress_ends_requests(
            before,
            calls.push(call),
            call.after,
            requested,
            (more - 1) as nat,
        );
    }
}

/// No read waits forever on a source that always makes progress, if there is room to buffer at
/// least one byte.
pub proof fn progress_is_enough<R: Reader>(reader: BufferedReader<R>, requested: nat)
    requires
        makes_progress::<R>(),
        reader@.wf(),
        reader@.capacity > 0,
    ensures
        reader.answers(requested),
{
    if !reader@.suffices(requested) {
        progress_ends_requests(reader@, Seq::empty(), reader@.inner, requested, requested);
    }
}

/// Of two runs of one request, the calls agree as far as both go.
proof fn same_calls_so_far<R: Reader>(
    before: Buffering<R>,
    one: Seq<Call<R>>,
    two: Seq<Call<R>>,
    inner_one: R,
    inner_two: R,
    requested: nat,
    i: int,
)
    requires
        deterministic::<R>(),
        before.asks(one, inner_one, requested),
        before.asks(two, inner_two, requested),
        0 <= i <= one.len(),
        i <= two.len(),
    ensures
        one.take(i) == two.take(i),
    decreases i,
{
    if i > 0 {
        same_calls_so_far(before, one, two, inner_one, inner_two, requested, i - 1);
        asked_one_by_one(before, one, inner_one, requested, i - 1);
        asked_one_by_one(before, two, inner_two, requested, i - 1);
        assert(one[i - 1].allowed() && two[i - 1].allowed());
        assert(one.take(i) == one.take(i - 1).push(one[i - 1]));
        assert(two.take(i) == two.take(i - 1).push(two[i - 1]));
    }
}

/// The call that ends a request is not followed by another.
proof fn no_call_after_the_last<R: Reader>(
    before: Buffering<R>,
    ended: Seq<Call<R>>,
    longer: Seq<Call<R>>,
    after: Buffering<R>,
    inner: R,
    request: Seq<u8>,
    filled: Seq<u8>,
    result: Result<ReadResult, R::Error>,
)
    requires
        deterministic::<R>(),
        before.serves(ended, after, request, filled, result),
        ended.len() > 0,
        before.asks(longer, inner, request.len()),
    ensures
        longer.len() < ended.len(),
{
    if longer.len() >= ended.len() {
        let n = ended.len() - 1;
        let earlier = ended.drop_last();
        same_calls_so_far(
            before,
            earlier,
            longer,
            ended.last().before,
            inner,
            request.len(),
            n,
        );
        assert(earlier.take(n) == earlier);
        asked_one_by_one(before, longer, inner, request.len(), n);
        assert(ended.last().allowed() && longer[n].allowed());
        assert(longer.take(n + 1).drop_last() == earlier);
        assert(longer.take(n + 1) == ended);
    }
}

/// A buffered reader adds no choice of its own: where the inner reader is deterministic, two reads
/// from one state into equal slices do the same.
pub proof fn determinism_carries_over<R: Reader>(
    before: BufferedReader<R>,
    request: Seq<u8>,
    one: Call<BufferedReader<R>>,
    two: Call<BufferedReader<R>>,
)
    requires
        deterministic::<R>(),
        one.allowed(),
        two.allowed(),
        one.before == before,
        two.before == before,
        one.request == request,
        two.request == request,
    ensures
        one.after@ == two.after@,
        one.filled == two.filled,
        one.result == two.result,
{
    let calls_one = choose|calls: Seq<Call<R>>| #[trigger]
        before@.serves(calls, one.after@, request, one.filled, one.result);
    let calls_two = choose|calls: Seq<Call<R>>| #[trigger]
        before@.serves(calls, two.after@, request, two.filled, two.result);
    if before@.serves_alone(request.len()) {
        assert(calls_one == calls_two);
    } else {
        let earlier_one = calls_one.drop_last();
        let earlier_two = calls_two.drop_last();
        let last_one = calls_one.last();
        let last_two = calls_two.last();
        no_call_after_the_last(
            before@,
            calls_one,
            earlier_two,
            one.after@,
            last_two.before,
            request,
            one.filled,
            one.result,
        );
        no_call_after_the_last(
            before@,
            calls_two,
            earlier_one,
            two.after@,
            last_one.before,
            request,
            two.filled,
            two.result,
        );
        let n = earlier_one.len() as int;
        same_calls_so_far(
            before@,
            earlier_one,
            earlier_two,
            last_one.before,
            last_two.before,
            request.len(),
            n,
        );
        assert(earlier_one.take(n) == earlier_one);
        assert(earlier_two.take(n) == earlier_two);
        assert(last_one.allowed() && last_two.allowed());
        assert(calls_one == earlier_one.push(last_one));
        assert(calls_two == earlier_two.push(last_two));
    }
}

/// Timeouts come from the inner reader: where it never times out, no read does.
pub proof fn timeouts_come_from_within<R: Reader>(
    before: BufferedReader<R>,
    after: BufferedReader<R>,
    request: Seq<u8>,
    filled: Seq<u8>,
    result: Result<ReadResult, R::Error>,
)
    requires
        before.reads(&after, request, filled, result),
        forall|call: Call<R>| #[trigger]
            call.before.reads(&call.after, call.request, call.filled, call.result)
                ==> match call.result {
                Ok(ReadResult::Timeout(_)) => false,
                _ => true,
            },
    ensures
        match result {
            Ok(ReadResult::Timeout(_)) => false,
            _ => true,
        },
{
    let account = read_is_accounted_for(before, after, request, filled, result);
    if account.calls.len() > 0 {
        let last = account.calls[account.calls.len() - 1];
        assert(last.before.reads(&last.after, last.request, last.filled, last.result));
    }
}

/// The end of the source comes from the inner reader: where it never ends, no read reports an end.
pub proof fn ends_come_from_within<R: Reader>(
    before: BufferedReader<R>,
    after: BufferedReader<R>,
    request: Seq<u8>,
    filled: Seq<u8>,
    result: Result<ReadResult, R::Error>,
)
    requires
        before.reads(&after, request, filled, result),
        forall|call: Call<R>| #[trigger]
            call.before.reads(&call.after, call.request, call.filled, call.result)
                ==> match call.result {
                Ok(ReadResult::EndOfFile(_)) => false,
                _ => true,
            },
    ensures
        match result {
            Ok(ReadResult::EndOfFile(_)) => false,
            _ => true,
        },
{
    let account = read_is_accounted_for(before, after, request, filled, result);
    if account.calls.len() > 0 {
        let last = account.calls[account.calls.len() - 1];
        assert(last.before.reads(&last.after, last.request, last.filled, last.result));
    }
}

/// Errors come from the inner reader: where it never fails, no read does.
pub proof fn errors_come_from_within<R: Reader>(
    before: BufferedReader<R>,
    after: BufferedReader<R>,
    request: Seq<u8>,
    filled: Seq<u8>,
    result: Result<ReadResult, R::Error>,
)
    requires
        before.reads(&after, request, filled, result),
        forall|call: Call<R>| #[trigger]
            call.before.reads(&call.after, call.request, call.filled, call.result)
                ==> call.result is Ok,
    ensures
        result is Ok,
{
    let account = read_is_accounted_for(before, after, request, filled, result);
    if account.calls.len() > 0 {
        let last = account.calls[account.calls.len() - 1];
        assert(last.before.reads(&last.after, last.request, last.filled, last.result));
    }
}

/// As long as the inner reader answers `Complete`, it is asked again until the slice is full: over
/// a reader that answers nothing else, however short its bursts, every read fills its slice,
/// whatever is buffered and also where the slice is longer than the buffer.
pub proof fn completes_add_up<R: Reader>(
    before: BufferedReader<R>,
    after: BufferedReader<R>,
    request: Seq<u8>,
    filled: Seq<u8>,
    result: Result<ReadResult, R::Error>,
)
    requires
        before.reads(&after, request, filled, result),
        forall|call: Call<R>| #[trigger]
            call.before.reads(&call.after, call.request, call.filled, call.result)
                ==> match call.result {
                Ok(ReadResult::Complete(_)) => true,
                _ => false,
            },
    ensures
        match result {
            Ok(ReadResult::Complete(n)) => n == request.len(),
            _ => false,
        },
{
    let account = read_is_accounted_for(before, after, request, filled, result);
    if account.calls.len() > 0 {
        let last = account.calls[account.calls.len() - 1];
        assert(last.before.reads(&last.after, last.request, last.filled, last.result));
    }
}

/// A read that falls short has asked the inner reader, and tells what it last answered: over a
/// reader that answers nothing but timeouts a short read is a timeout, over one that answers
/// nothing but ends it is an end.
pub proof fn short_reads_tell_the_reason<R: Reader>(
    before: BufferedReader<R>,
    after: BufferedReader<R>,
    request: Seq<u8>,
    filled: Seq<u8>,
    result: Result<ReadResult, R::Error>,
) -> (last: Call<R>)
    requires
        before.reads(&after, request, filled, result),
        match result {
            Ok(ReadResult::Complete(n)) => n < request.len(),
            Ok(ReadResult::Timeout(_)) => true,
            Ok(ReadResult::EndOfFile(_)) => true,
            Err(_) => true,
        },
    ensures
        last.before.reads(&last.after, last.request, last.filled, last.result),
        last.filled.len() == last.request.len(),
        last.after == after@.inner,
        match last.result {
            Ok(ReadResult::Complete(_)) => false,
            Ok(ReadResult::Timeout(_)) => match result {
                Ok(ReadResult::Timeout(n)) => n < request.len(),
                _ => false,
            },
            Ok(ReadResult::EndOfFile(_)) => match result {
                Ok(ReadResult::EndOfFile(n)) => n < request.len(),
                _ => false,
            },
            Err(error) => result == Err::<ReadResult, R::Error>(error),
        },
{
    let account = read_is_accounted_for(before, after, request, filled, result);
    let last = account.calls[account.calls.len() - 1];
    assert(last.before.reads(&last.after, last.request, last.filled, last.result));
    last
}

/// The first answer decides where it fills the slice, times out, ends or fails: with the `n` bytes
/// that it brings, which are the first `n` of the call's slice for each of the three kinds, the
/// read delivers what was buffered and then as many of them as fit, buffers the others, and
/// reports the kind of the answer with the number of bytes delivered, or `Complete` if the slice is
/// full.
pub proof fn first_answer_decides<R: Reader>(
    before: BufferedReader<R>,
    after: BufferedReader<R>,
    request: Seq<u8>,
    filled: Seq<u8>,
    result: Result<ReadResult, R::Error>,
    answer: ReadResult,
    n: usize,
) -> (call: Call<R>)
    requires
        before.reads(&after, request, filled, result),
        before@.held.len() == 0 || before@.held.len() < request.len(),
        before@.capacity > 0,
        n <= before@.capacity,
        n <= vstd::math::max(
            request.len() - before@.held.len(),
            before@.capacity as int / 2,
        ),
        match answer {
            ReadResult::Complete(m) => m == n && before@.held.len() + n >= request.len(),
            ReadResult::Timeout(m) => m == n,
            ReadResult::EndOfFile(m) => m == n,
        },
        forall|call: Call<R>| #[trigger]
            call.before.reads(&call.after, call.request, call.filled, call.result)
                && call.before == before@.inner ==> call.result == Ok::<ReadResult, R::Error>(
                answer,
            ),
    ensures
        call.before == before@.inner,
        call.before.reads(&call.after, call.request, call.filled, call.result),
        call.after == after@.inner,
        n <= call.filled.len(),
        before@.held.len() + n >= request.len() ==> {
            &&& result == Ok::<ReadResult, R::Error>(ReadResult::Complete(request.len() as usize))
            &&& filled + after@.held == before@.held + call.filled.take(n as int)
        },
        before@.held.len() + n < request.len() ==> {
            &&& match answer {
                ReadResult::Complete(_) => false,
                ReadResult::Timeout(_) => match result {
                    Ok(ReadResult::Timeout(m)) => m == before@.held.len() + n,
                    _ => false,
                },
                ReadResult::EndOfFile(_) => match result {
                    Ok(ReadResult::EndOfFile(m)) => m == before@.held.len() + n,
                    _ => false,
                },
            }
            &&& filled == before@.held + call.filled.take(n as int) + request.skip(
                before@.held.len() + n,
            )
            &&& after@.held.len() == 0
        },
{
    let account = read_is_accounted_for(before, after, request, filled, result);
    let call = account.calls[0];
    assert(call.before.reads(&call.after, call.request, call.filled, call.result));
    assert(account.arrived[1] == before@.held.len() + n);
    assert(account.calls.len() == 1);
    assert forall|k: int| 0 <= k < n implies account.stream[before@.held.len() + k]
        == #[trigger] call.filled[k] by {
        assert(account.calls[0].filled[k] == account.stream[account.arrived[0] + k]);
    }
    assert(account.stream == before@.held + call.filled.take(n as int));
    call
}

/// A call brings the first bytes of its slice, as many as its result says, whatever its kind, and
/// at most all of them; a call that fails brings none.
pub proof fn reported_bytes_are_received<R: Reader>(call: Call<R>, n: usize)
    ensures
        ReadResult::Complete(n).count() == n,
        ReadResult::Timeout(n).count() == n,
        ReadResult::EndOfFile(n).count() == n,
        match call.result {
            Ok(ReadResult::Complete(m)) => m == n,
            Ok(ReadResult::Timeout(m)) => m == n,
            Ok(ReadResult::EndOfFile(m)) => m == n,
            Err(_) => false,
        } ==> {
            &&& n <= call.filled.len() ==> call.received() == call.filled.take(n as int)
            &&& n > call.filled.len() ==> call.received() == call.filled
        },
        call.result is Err ==> call.received() == Seq::<u8>::empty(),
{
}

/// Several calls bring what each of them brings, in order.
pub proof fn received_adds_up<R: Reader>(one: Seq<Call<R>>, call: Call<R>, two: Seq<Call<R>>)
    ensures
        filedevice::received(Seq::<Call<R>>::empty()) == Seq::<u8>::empty(),
        filedevice::received(seq![call]) == call.received(),
        filedevice::received(one + two) == filedevice::received(one) + filedevice::received(two),
    decreases two.len(),
{
    assert(seq![call].drop_last() == Seq::<Call<R>>::empty());
    if two.len() == 0 {
        assert(one + two == one);
    } else {
        received_adds_up(one, call, two.drop_last());
        assert((one + two).drop_last() == one + two.drop_last());
    }
}

/// Calls lead from one state of a reader to another exactly if each is one that the reader's own
/// description allows, made to the reader as the call before left it.
pub proof fn calls_that_lead<R: Reader>(calls: Seq<Call<R>>, before: R, after: R)
    ensures
        filedevice::leads(calls, before, after) <==> {
            &&& calls.len() == 0 ==> before == after
            &&& calls.len() > 0 ==> calls[0].before == before
            &&& calls.len() > 0 ==> calls[calls.len() - 1].after == after
            &&& forall|i: int|
                #![trigger calls[i]]
                0 <= i < calls.len() ==> {
                    &&& calls[i].filled.len() == calls[i].request.len()
                    &&& calls[i].before.reads(
                        &calls[i].after,
                        calls[i].request,
                        calls[i].filled,
                        calls[i].result,
                    )
                }
            &&& forall|i: int, j: int|
                #![trigger calls[i], calls[j]]
                0 <= i < calls.len() && j == i + 1 && j < calls.len() ==> calls[i].after
                    == calls[j].before
        },
    decreases calls.len(),
{
    if calls.len() > 0 {
        let earlier = calls.drop_last();
        let last = calls[calls.len() - 1];
        calls_that_lead(earlier, before, last.before);
        assert(calls.last() == last);
        assert(forall|i: int| 0 <= i < earlier.len() ==> #[trigger] earlier[i] == calls[i]);
        assert(last.allowed() <==> last.filled.len() == last.request.len() && last.before.reads(
            &last.after,
            last.request,
            last.filled,
            last.result,
        ));
        if earlier.len() > 0 {
            let previous = calls[earlier.len() - 1];
            assert(earlier[earlier.len() - 1] == previous);
            assert(earlier[0] == calls[0]);
        }
        if filedevice::leads(calls, before, after) {
            assert forall|i: int| #![trigger calls[i]] 0 <= i < calls.len() implies {
                &&& calls[i].filled.len() == calls[i].request.len()
                &&& calls[i].before.reads(
                    &calls[i].after,
                    calls[i].request,
                    calls[i].filled,
                    calls[i].result,
                )
            } by {
                if i < earlier.len() {
                    assert(earlier[i] == calls[i]);
                }
            }
            assert forall|i: int, j: int|
                #![trigger calls[i], calls[j]]
                0 <= i < calls.len() && j == i + 1 && j < calls.len() implies calls[i].after
                == calls[j].before by {
                assert(earlier[i] == calls[i]);
                if j < earlier.len() {
                    assert(earlier[j] == calls[j]);
                }
            }
        }
    }
}

/// What a read reports after an answer: `Complete` with what is delivered if that is enough; else
/// an end after an end, a timeout after a timeout, each with what is delivered; and nothing yet
/// after a `Complete`. The number in the answer makes no difference.
pub proof fn answers_decide_the_outcome(requested: usize, delivered: usize, n: usize)
    ensures
        delivered >= requested ==> forall|fill: ReadResult| #[trigger]
            filereader_buffered::outcome(requested as nat, delivered as nat, fill) == Some(
                ReadResult::Complete(delivered),
            ),
        delivered < requested ==> {
            &&& filereader_buffered::outcome(
                requested as nat,
                delivered as nat,
                ReadResult::Complete(n),
            ) is None
            &&& filereader_buffered::outcome(
                requested as nat,
                delivered as nat,
                ReadResult::Timeout(n),
            ) == Some(ReadResult::Timeout(delivered))
            &&& filereader_buffered::outcome(
                requested as nat,
                delivered as nat,
                ReadResult::EndOfFile(n),
            ) == Some(ReadResult::EndOfFile(delivered))
        },
{
}

/// A refill asks for the greater of what is requested and half the capacity, and for no more than
/// there is room for, in bytes that are zero.
pub proof fn refill_asks_for(capacity: nat, held: nat, requested: nat)
    requires
        held <= capacity,
    ensures
        filereader_buffered::refill_size(capacity, held, requested) == vstd::math::min(
            capacity - held,
            vstd::math::max(requested as int, capacity as int / 2),
        ),
        filereader_buffered::zeros(requested).len() == requested,
        forall|k: int|
            0 <= k < requested ==> #[trigger] filereader_buffered::zeros(requested)[k] == 0,
{
}

/// A drain moves the oldest bytes to the front of the slice, as many as there are and as fit. The
/// others stay buffered in their order, and the slice keeps what is not overwritten.
pub proof fn drain_moves_the_oldest<R>(
    before: Buffering<R>,
    after: Buffering<R>,
    data: Seq<u8>,
    filled: Seq<u8>,
    count: nat,
)
    requires
        before.drains(after, data, filled, count),
    ensures
        count <= data.len(),
        count <= before.held.len(),
        count == data.len() || count == before.held.len(),
        filled.len() == data.len(),
        forall|k: int| 0 <= k < count ==> #[trigger] filled[k] == before.held[k],
        forall|k: int| count <= k < data.len() ==> #[trigger] filled[k] == data[k],
        before.held.len() == count + after.held.len(),
        forall|k: int|
            0 <= k < after.held.len() ==> #[trigger] after.held[k] == before.held[count + k],
        after.inner == before.inner,
        after.capacity == before.capacity,
{
}

/// A refill leaves a full buffer and the inner reader alone. With room, it calls the inner reader
/// once, returns its result, and appends what it brought; a call that fails adds nothing.
pub proof fn refill_appends<R: Reader>(
    before: Buffering<R>,
    after: Buffering<R>,
    requested: nat,
    result: Result<ReadResult, R::Error>,
) -> (call: Call<R>)
    requires
        before.refills(after, requested, result),
    ensures
        before.held.len() >= before.capacity ==> {
            &&& after == before
            &&& result == Ok::<ReadResult, R::Error>(ReadResult::Complete(0))
        },
        before.held.len() < before.capacity ==> {
            &&& call.before == before.inner
            &&& call.after == after.inner
            &&& call.result == result
            &&& call.before.reads(&call.after, call.request, call.filled, call.result)
            &&& call.filled.len() == call.request.len()
            &&& call.request.len() == vstd::math::min(
                before.capacity - before.held.len(),
                vstd::math::max(requested as int, before.capacity as int / 2),
            )
            &&& forall|k: int|
                0 <= k < call.request.len() ==> #[trigger] call.request[k] == 0
            &&& after.capacity == before.capacity
            &&& after.held == before.held + call.filled.take(
                match result {
                    Ok(ReadResult::Complete(n)) => vstd::math::min(
                        n as int,
                        call.filled.len() as int,
                    ),
                    Ok(ReadResult::Timeout(n)) => vstd::math::min(
                        n as int,
                        call.filled.len() as int,
                    ),
                    Ok(ReadResult::EndOfFile(n)) => vstd::math::min(
                        n as int,
                        call.filled.len() as int,
                    ),
                    Err(_) => 0,
                },
            )
        },
{
    choose|call: Call<R>| #[trigger]
        before.fills(after, requested, call) && call.result == result
}

/// Where reads may be made: of a steady reader behind a buffer with room for at least one byte,
/// always; whatever the inner reader, where the buffer is not empty and holds as much as is
/// requested; and where neither anything is requested nor anything can be buffered.
pub proof fn reads_that_return<R: Reader>(reader: BufferedReader<R>, requested: nat)
    requires
        reader@.held.len() <= reader@.capacity <= isize::MAX,
    ensures
        reader@.wf(),
        reader@.capacity > 0 && reader@.inner.steady() ==> reader.steady(),
        0 < reader@.held.len() && requested <= reader@.held.len() ==> reader.answers(requested),
        reader@.capacity == 0 ==> reader.answers(0),
{
}

} // verus!
