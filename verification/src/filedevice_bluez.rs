//! Capture from BlueZ.
use vstd::prelude::*;

verus! {

/// The duration of two chunks of `chunksize` frames at `samplerate` frames per second, in whole
/// milliseconds.
pub open spec fn timeout_millis(chunksize: nat, samplerate: nat) -> nat
    recommends
        samplerate > 0,
{
    (2000 * chunksize) / samplerate
}

/// How many milliseconds to wait for data: the duration of two chunks of `chunksize` frames at
/// `samplerate` frames per second, rounded down.
pub fn read_timeout_millis(chunksize: usize, samplerate: usize) -> (millis: u64)
    requires
        samplerate > 0,
        2000 * chunksize <= u64::MAX,
    ensures
        millis == (2000 * chunksize) / samplerate as int,
        millis == timeout_millis(chunksize as nat, samplerate as nat),
        millis * samplerate <= 2000 * chunksize < (millis + 1) * samplerate,
{
    proof {
        timeout_is_two_chunks(chunksize as nat, samplerate as nat);
    }
    2 * 1000 * chunksize as u64 / samplerate as u64
}

/// At `samplerate` frames per second, the timeout is the greatest number of whole milliseconds in
/// which no more than two chunks of frames go by.
pub proof fn timeout_is_two_chunks(chunksize: nat, samplerate: nat)
    requires
        samplerate > 0,
    ensures
        timeout_millis(chunksize, samplerate) * samplerate <= 2000 * chunksize,
        2000 * chunksize < (timeout_millis(chunksize, samplerate) + 1) * samplerate,
{
    let frames = (2000 * chunksize) as int;
    let rate = samplerate as int;
    let millis = frames / rate;
    vstd::arithmetic::div_mod::lemma_fundamental_div_mod(frames, rate);
    assert(0 <= frames % rate < rate);
    assert(millis * rate <= frames < (millis + 1) * rate) by (nonlinear_arith)
        requires
            frames == rate * millis + frames % rate,
            0 <= frames % rate < rate,
    ;
}

/// The timeout lasts the longer the more frames a chunk has, and the shorter the more frames go by
/// in a second. A chunk of one second's frames gives two seconds.
pub proof fn timeout_is_monotone(
    chunksize: nat,
    larger_chunksize: nat,
    samplerate: nat,
    larger_samplerate: nat,
)
    requires
        0 < samplerate <= larger_samplerate,
        chunksize <= larger_chunksize,
    ensures
        timeout_millis(chunksize, larger_samplerate) <= timeout_millis(
            larger_chunksize,
            samplerate,
        ),
        timeout_millis(samplerate, samplerate) == 2000,
{
    timeout_is_two_chunks(chunksize, larger_samplerate);
    timeout_is_two_chunks(larger_chunksize, samplerate);
    timeout_is_two_chunks(samplerate, samplerate);
    let short = timeout_millis(chunksize, larger_samplerate) as int;
    let long = timeout_millis(larger_chunksize, samplerate) as int;
    let same = timeout_millis(samplerate, samplerate) as int;
    let slow = samplerate as int;
    let fast = larger_samplerate as int;
    let few = (2000 * chunksize) as int;
    let many = (2000 * larger_chunksize) as int;
    assert(short <= long) by (nonlinear_arith)
        requires
            0 <= short,
            0 <= long,
            0 < slow <= fast,
            short * fast <= few,
            few <= many,
            many < (long + 1) * slow,
    ;
    assert(same == 2000) by (nonlinear_arith)
        requires
            0 < slow,
            same * slow <= 2000 * slow,
            2000 * slow < (same + 1) * slow,
    ;
}

} // verus!
