//! Sample codes.
//!
//! A sample is carried as a signed 32-bit code: the binary32 bit pattern of
//! its magnitude, taken as an integer, with the sample's sign in front. Both
//! zeros have code 0. On codes of numbers the integer order is the order of
//! the samples they stand for; a code whose magnitude lies above
//! [`INFINITY`] stands for a value that is not a number, and every
//! comparison with it is false.

use vstd::prelude::*;

verus! {

/// Code of the infinite magnitude, the largest code of a number.
pub const INFINITY: i32 = 0x7F80_0000;

/// Code of unit magnitude: a sample above it clips.
pub const FULL_SCALE: i32 = 0x3F80_0000;

/// Whether a code stands for something that is not a number.
pub open spec fn is_nan(code: i32) -> bool {
    code > INFINITY || code < -INFINITY
}

/// Code of the absolute value of the sample that `code` stands for.
pub open spec fn magnitude(code: i32) -> i32 {
    if code >= 0 {
        code
    } else if code == i32::MIN {
        i32::MAX
    } else {
        (-code) as i32
    }
}

/// `a >= b` on the samples behind two codes: false when either is not a number.
pub open spec fn at_least(a: i32, b: i32) -> bool {
    !is_nan(a) && !is_nan(b) && a >= b
}

/// `a > b` on the samples behind two codes: false when either is not a number.
pub open spec fn greater(a: i32, b: i32) -> bool {
    !is_nan(a) && !is_nan(b) && a > b
}

/// Largest magnitude among the numbers of a buffer, 0 where there is none.
pub open spec fn peak_of(samples: Seq<i32>) -> i32
    decreases samples.len(),
{
    if samples.len() == 0 {
        0
    } else {
        let before = peak_of(samples.drop_last());
        let last = magnitude(samples.last());
        if greater(last, before) {
            last
        } else {
            before
        }
    }
}

/// Tells whether a code stands for something that is not a number.
pub fn sample_is_nan(code: i32) -> (r: bool)
    ensures
        r == is_nan(code),
{
    code > INFINITY || code < -INFINITY
}

/// The code of the absolute value: the code without its sign.
pub fn sample_magnitude(code: i32) -> (r: i32)
    ensures
        r == magnitude(code),
        r >= 0,
        is_nan(r) == is_nan(code),
{
    if code >= 0 {
        code
    } else if code == i32::MIN {
        i32::MAX
    } else {
        -code
    }
}

/// Compares two samples by their codes: `a >= b`, false when either is not a number.
pub fn sample_at_least(a: i32, b: i32) -> (r: bool)
    ensures
        r == at_least(a, b),
{
    !sample_is_nan(a) && !sample_is_nan(b) && a >= b
}

/// Compares two samples by their codes: `a > b`, false when either is not a number.
pub fn sample_greater(a: i32, b: i32) -> (r: bool)
    ensures
        r == greater(a, b),
{
    !sample_is_nan(a) && !sample_is_nan(b) && a > b
}

/// The peak is the code of a number, no smaller than the magnitude of any
/// number in the buffer, and it is 0 or the magnitude of one of them.
pub proof fn lemma_peak_is_maximum(samples: Seq<i32>)
    ensures
        0 <= peak_of(samples) <= INFINITY,
        forall|i: int|
            0 <= i < samples.len() && !is_nan(samples[i]) ==> magnitude(#[trigger] samples[i])
                <= peak_of(samples),
        peak_of(samples) == 0 || exists|i: int|
            0 <= i < samples.len() && !is_nan(samples[i]) && magnitude(#[trigger] samples[i])
                == peak_of(samples),
    decreases samples.len(),
{
    if samples.len() > 0 {
        let front = samples.drop_last();
        lemma_peak_is_maximum(front);
        assert forall|i: int| 0 <= i < samples.len() && !is_nan(samples[i]) implies magnitude(
            #[trigger] samples[i],
        ) <= peak_of(samples) by {
            if i < samples.len() - 1 {
                assert(front[i] == samples[i]);
            }
        }
        if peak_of(samples) != 0 {
            if greater(magnitude(samples.last()), peak_of(front)) {
                assert(magnitude(samples[samples.len() - 1]) == peak_of(samples));
            } else {
                let i = choose|i: int|
                    0 <= i < front.len() && !is_nan(front[i]) && magnitude(#[trigger] front[i])
                        == peak_of(front);
                assert(samples[i] == front[i]);
            }
        }
    }
}

/// The peak of a buffer is zero just when the buffer is silent: each of its
/// samples is zero or not a number.
pub proof fn lemma_peak_of_silence(samples: Seq<i32>)
    ensures
        peak_of(samples) == 0 <==> forall|i: int|
            0 <= i < samples.len() ==> is_nan(#[trigger] samples[i]) || samples[i] == 0,
{
    lemma_peak_is_maximum(samples);
    if peak_of(samples) != 0 {
        let i = choose|i: int|
            0 <= i < samples.len() && !is_nan(samples[i]) && magnitude(#[trigger] samples[i])
                == peak_of(samples);
        assert(samples[i] != 0);
    }
}

/// Peak magnitude of a buffer: the largest absolute value among its
/// numbers, 0 for a buffer without one.
pub fn peak(samples: &[i32]) -> (r: i32)
    ensures
        r == peak_of(samples@),
{
    let mut best: i32 = 0;
    let mut i: usize = 0;
    while i < samples.len()
        invariant
            i <= samples.len(),
            best == peak_of(samples@.take(i as int)),
        decreases samples.len() - i,
    {
        let m = sample_magnitude(samples[i]);
        proof {
            assert(samples@.take(i + 1).drop_last() =~= samples@.take(i as int));
        }
        if sample_greater(m, best) {
            best = m;
        }
        i += 1;
    }
    proof {
        assert(samples@.take(samples.len() as int) =~= samples@);
    }
    best
}

} // verus!
