//! The stages of a repair pass, as far as they decide: which peak a buffer
//! is scaled by, which samples are impulses, which spans are interpolated,
//! and what a finished buffer is reported to hold.

use crate::level::{
    at_least, greater, is_nan, magnitude, peak, peak_of, sample_at_least, sample_greater,
    sample_is_nan, sample_magnitude, FULL_SCALE,
};
use crate::ratio::Ratio;
use vstd::prelude::*;
use vstd::relations::{sorted_by, total_ordering};
use vstd::seq_lib::lemma_sorted_unique;
use vstd::slice::slice_to_vec;

verus! {

/// Parameters of a pass, each as a sample code.
#[derive(Debug, Clone, Copy, PartialEq, Eq, Structural)]
pub struct BaselineConfig {
    /// Peak magnitude that a buffer is scaled to.
    pub target_peak: i32,
    /// Factor on the mean magnitude that gives the adaptive threshold.
    pub impulse_threshold_multiplier: i32,
    /// Least magnitude of an impulse.
    pub impulse_abs_min: i32,
    /// Least jump from the sample before to an impulse.
    pub diff_threshold: i32,
}

impl Default for BaselineConfig {
    /// The documented default: nineteen twentieths, six, a quarter and a
    /// fifth, each as the code of the nearest binary32 value.
    fn default() -> (config: Self)
        ensures
            config == (BaselineConfig {
                target_peak: 0x3F73_3333,
                impulse_threshold_multiplier: 0x40C0_0000,
                impulse_abs_min: 0x3E80_0000,
                diff_threshold: 0x3E4C_CCCD,
            }),
    {
        BaselineConfig {
            target_peak: 0x3F73_3333,
            impulse_threshold_multiplier: 0x40C0_0000,
            impulse_abs_min: 0x3E80_0000,
            diff_threshold: 0x3E4C_CCCD,
        }
    }
}

/// What a finished buffer holds.
#[derive(Debug, Clone, Copy, PartialEq, Eq, Structural)]
pub struct ValidationResult {
    /// Code of the largest magnitude among the numbers of the buffer.
    pub peak: i32,
    /// How many samples exceed unit magnitude.
    pub clipped_samples: usize,
    /// Whether some sample is not a number.
    pub has_nan: bool,
}

/// The two anchors of an interpolation: the samples strictly between
/// `left` and `right` are replaced by the line from one to the other.
#[derive(Debug, Clone, Copy, PartialEq, Eq, Structural)]
pub struct RepairSpan {
    pub left: usize,
    pub right: usize,
}

impl RepairSpan {
    /// The weight of the right anchor in the sample that replaces sample
    /// `index`: its distance from the left anchor over the width of the
    /// span. The left anchor has the rest of the weight.
    pub fn weight(&self, index: usize) -> (w: Ratio)
        requires
            self.left < index < self.right,
        ensures
            w.numerator == index - self.left,
            w.denominator == self.right - self.left,
            w.is_fraction(),
    {
        Ratio { numerator: index - self.left, denominator: self.right - self.left }
    }
}

/// The peak that a buffer is to be scaled by, or `None` where the buffer is
/// left as it is: that is where its peak is zero, as in an empty buffer.
pub fn normalization_peak(input: &[i32]) -> (r: Option<i32>)
    ensures
        r == (if peak_of(input@) > 0 {
            Some(peak_of(input@))
        } else {
            None
        }),
{
    let p = peak(input);
    if p > 0 {
        Some(p)
    } else {
        None
    }
}

/// The adaptive threshold: the larger of the scaled mean magnitude and the
/// least magnitude of an impulse. Where one of the two is not a number, it
/// is the other.
pub open spec fn threshold_of(scaled_mean: i32, floor: i32) -> i32 {
    if is_nan(scaled_mean) {
        floor
    } else if is_nan(floor) {
        scaled_mean
    } else if scaled_mean >= floor {
        scaled_mean
    } else {
        floor
    }
}

/// Computes the adaptive threshold from the scaled mean magnitude of a
/// buffer and the least magnitude of an impulse.
pub fn impulse_threshold(scaled_mean: i32, config: &BaselineConfig) -> (threshold: i32)
    ensures
        threshold == threshold_of(scaled_mean, config.impulse_abs_min),
{
    if sample_is_nan(scaled_mean) {
        config.impulse_abs_min
    } else if sample_is_nan(config.impulse_abs_min) {
        scaled_mean
    } else if scaled_mean >= config.impulse_abs_min {
        scaled_mean
    } else {
        config.impulse_abs_min
    }
}

/// Sample `i` is an impulse.
///
/// `steps[i]` is the code of the difference between sample `i` and the one
/// before it; `surroundings[i]` is the code of the level that sample `i`
/// has to reach to dominate its two neighbours, five halves of the mean of
/// their magnitudes; `scaled_mean` is the code of the mean magnitude of
/// the buffer times the multiplier of the configuration.
pub open spec fn is_impulse(
    input: Seq<i32>,
    steps: Seq<i32>,
    surroundings: Seq<i32>,
    scaled_mean: i32,
    config: BaselineConfig,
    i: int,
) -> bool {
    &&& 1 <= i
    &&& i + 1 < input.len()
    &&& i < steps.len()
    &&& i < surroundings.len()
    &&& at_least(magnitude(input[i]), threshold_of(scaled_mean, config.impulse_abs_min))
    &&& at_least(magnitude(input[i]), config.impulse_abs_min)
    &&& at_least(magnitude(steps[i]), config.diff_threshold)
    &&& at_least(magnitude(input[i]), surroundings[i])
    &&& at_least(magnitude(input[i]), magnitude(input[i - 1]))
    &&& at_least(magnitude(input[i]), magnitude(input[i + 1]))
}

/// A sequence of indices in strictly ascending order.
pub open spec fn is_ascending(indices: Seq<usize>) -> bool {
    forall|a: int, b: int| 0 <= a < b < indices.len() ==> indices[a] < indices[b]
}

/// The impulses of a buffer, in ascending order: the interior samples that
/// reach the adaptive threshold and the least magnitude of an impulse, jump
/// from the sample before by the least jump, dominate their neighbourhood
/// and are local peaks. The first and the last sample are never flagged,
/// so a buffer of fewer than three samples has no impulse.
pub fn detect_impulses(
    input: &[i32],
    steps: &[i32],
    surroundings: &[i32],
    scaled_mean: i32,
    config: &BaselineConfig,
) -> (impulses: Vec<usize>)
    ensures
        is_ascending(impulses@),
        forall|i: usize|
            impulses@.contains(i) <==> is_impulse(
                input@,
                steps@,
                surroundings@,
                scaled_mean,
                *config,
                i as int,
            ),
        input@.len() < 3 ==> impulses@.len() == 0,
{
    let mut impulses: Vec<usize> = Vec::new();
    let n = input.len();
    if n < 3 {
        return impulses;
    }
    let threshold = impulse_threshold(scaled_mean, config);
    let mut i: usize = 1;
    while i < n - 1
        invariant
            n == input@.len(),
            n >= 3,
            1 <= i <= n - 1,
            threshold == threshold_of(scaled_mean, config.impulse_abs_min),
            is_ascending(impulses@),
            forall|k: int| 0 <= k < impulses@.len() ==> impulses@[k] < i,
            forall|j: usize|
                impulses@.contains(j) <==> j < i && is_impulse(
                    input@,
                    steps@,
                    surroundings@,
                    scaled_mean,
                    *config,
                    j as int,
                ),
        decreases n - i,
    {
        let ghost before = impulses@;
        let mut flagged = false;
        if i < steps.len() && i < surroundings.len() {
            let level = sample_magnitude(input[i]);
            flagged = sample_at_least(level, threshold) && sample_at_least(
                level,
                config.impulse_abs_min,
            ) && sample_at_least(sample_magnitude(steps[i]), config.diff_threshold)
                && sample_at_least(level, surroundings[i]) && sample_at_least(
                level,
                sample_magnitude(input[i - 1]),
            ) && sample_at_least(level, sample_magnitude(input[i + 1]));
        }
        if flagged {
            impulses.push(i);
            proof {
                assert forall|j: usize| before.contains(j) implies impulses@.contains(j) by {
                    let k = before.index_of(j);
                    assert(impulses@[k] == j);
                }
            }
        }
        proof {
            assert(flagged == is_impulse(
                input@,
                steps@,
                surroundings@,
                scaled_mean,
                *config,
                i as int,
            ));
            assert forall|j: usize|
                impulses@.contains(j) <==> j < i + 1 && is_impulse(
                    input@,
                    steps@,
                    surroundings@,
                    scaled_mean,
                    *config,
                    j as int,
                ) by {
                if flagged {
                    if j == i {
                        assert(impulses@[before.len() as int] == j);
                    }
                } else {
                    assert(impulses@ == before);
                }
                if j < i {
                    assert(before.contains(j) <==> is_impulse(
                        input@,
                        steps@,
                        surroundings@,
                        scaled_mean,
                        *config,
                        j as int,
                    ));
                }
                if impulses@.contains(j) {
                    let k = impulses@.index_of(j);
                    assert(impulses@[k] == j);
                    if k < before.len() {
                        assert(before[k] == j);
                        assert(before.contains(j));
                    }
                }
            }
        }
        i += 1;
    }
    impulses
}

/// The order of indices.
pub open spec fn index_order() -> spec_fn(usize, usize) -> bool {
    |a: usize, b: usize| a <= b
}

/// Position of the last member of the run of consecutive indices that
/// starts at position `start` of an ascending sequence.
pub open spec fn run_end(sorted: Seq<usize>, start: int) -> int
    decreases sorted.len() - start,
{
    if 0 <= start && start + 1 < sorted.len() && sorted[start + 1] == sorted[start] + 1 {
        run_end(sorted, start + 1)
    } else {
        start
    }
}

/// Anchors of the run of flagged indices from `lo` to `hi` in a buffer of
/// `len` samples: the sample before the run and the sample after it, each
/// held inside the buffer.
pub open spec fn span_of(lo: usize, hi: usize, len: usize) -> RepairSpan {
    RepairSpan {
        left: if lo == 0 {
            0
        } else {
            (lo - 1) as usize
        },
        right: if hi + 1 < len {
            (hi + 1) as usize
        } else {
            (len - 1) as usize
        },
    }
}

/// The spans of the runs of an ascending sequence from position `start`
/// on, without those whose two anchors are one sample.
pub open spec fn spans_from(sorted: Seq<usize>, start: int, len: usize) -> Seq<RepairSpan>
    decreases sorted.len() - start,
{
    if start < 0 || start >= sorted.len() {
        Seq::empty()
    } else {
        let end = run_end(sorted, start);
        if end < start || end >= sorted.len() {
            Seq::empty()
        } else {
            let span = span_of(sorted[start], sorted[end], len);
            let rest = spans_from(sorted, end + 1, len);
            if span.left != span.right {
                seq![span] + rest
            } else {
                rest
            }
        }
    }
}

/// The spans to interpolate for a set of flagged indices: one for each
/// maximal run of consecutive indices, in ascending order.
pub open spec fn repair_spans(impulses: Seq<usize>, len: usize) -> Seq<RepairSpan> {
    spans_from(impulses.sort_by(index_order()), 0, len)
}

/// A run ends at or after its start, inside the sequence.
pub proof fn lemma_run_end_bounds(sorted: Seq<usize>, start: int)
    requires
        0 <= start < sorted.len(),
    ensures
        start <= run_end(sorted, start) < sorted.len(),
    decreases sorted.len() - start,
{
    if start + 1 < sorted.len() && sorted[start + 1] == sorted[start] + 1 {
        lemma_run_end_bounds(sorted, start + 1);
    }
}

/// `sort_unstable` of std on a vector of indices: afterwards the vector
/// holds the same indices, each as often as before, in ascending order.
#[verifier::external_body]
fn sort_indices(indices: &mut Vec<usize>)
    ensures
        final(indices)@.to_multiset() == old(indices)@.to_multiset(),
        sorted_by(final(indices)@, index_order()),
{
    indices.sort_unstable();
}

/// The spans to interpolate in a buffer of `len` samples in which
/// `impulses` are flagged.
///
/// The indices are put in ascending order and cut into maximal runs of
/// consecutive indices. Each run gives one span, from the sample before
/// the run to the sample after it, both held inside the buffer; a run
/// whose two anchors are one sample gives none. No flagged index gives no
/// span.
pub fn repair_impulses(len: usize, impulses: &[usize]) -> (spans: Vec<RepairSpan>)
    requires
        forall|k: int| 0 <= k < impulses@.len() ==> impulses@[k] < len,
    ensures
        spans@ == repair_spans(impulses@, len),
        forall|k: int|
            0 <= k < spans@.len() ==> (#[trigger] spans@[k]).left < spans@[k].right < len,
        impulses@.len() == 0 ==> spans@.len() == 0,
{
    let mut sorted = slice_to_vec(impulses);
    sort_indices(&mut sorted);
    proof {
        impulses@.lemma_sort_by_ensures(index_order());
        assert(total_ordering(index_order()));
        lemma_sorted_unique(sorted@, impulses@.sort_by(index_order()), index_order());
        lemma_sort_keeps_members(impulses@);
        assert forall|k: int| 0 <= k < sorted@.len() implies sorted@[k] < len by {
            assert(sorted@.contains(sorted@[k]));
            let w = impulses@.index_of(sorted@[k]);
            assert(impulses@[w] < len);
        }
    }
    let mut spans: Vec<RepairSpan> = Vec::new();
    let mut start: usize = 0;
    while start < sorted.len()
        invariant
            start <= sorted@.len(),
            sorted_by(sorted@, index_order()),
            forall|k: int| 0 <= k < sorted@.len() ==> sorted@[k] < len,
            spans@ + spans_from(sorted@, start as int, len) == spans_from(sorted@, 0, len),
            forall|k: int|
                0 <= k < spans@.len() ==> (#[trigger] spans@[k]).left < spans@[k].right < len,
        decreases sorted@.len() - start,
    {
        let mut end = start;
        while end + 1 < sorted.len() && sorted[end + 1] == sorted[end] + 1
            invariant
                start <= end < sorted@.len() <= usize::MAX,
                forall|k: int| 0 <= k < sorted@.len() ==> sorted@[k] < len,
                run_end(sorted@, start as int) == run_end(sorted@, end as int),
            decreases sorted@.len() - end,
        {
            end += 1;
        }
        let lo = sorted[start];
        let hi = sorted[end];
        proof {
            assert(index_order()(sorted@[start as int], sorted@[end as int]) || start == end);
            assert(run_end(sorted@, start as int) == end);
        }
        let left = if lo == 0 {
            0
        } else {
            lo - 1
        };
        let right = if hi + 1 < len {
            hi + 1
        } else {
            len - 1
        };
        let ghost before = spans@;
        let ghost rest = spans_from(sorted@, end + 1, len);
        if left != right {
            spans.push(RepairSpan { left, right });
            proof {
                assert(spans@ + rest =~= before + (seq![RepairSpan { left, right }] + rest));
            }
        }
        start = end + 1;
    }
    proof {
        assert(spans@ + Seq::<RepairSpan>::empty() =~= spans@);
    }
    spans
}

/// Sample `i` lies strictly between the anchors of one of the spans, and
/// is therefore replaced.
pub open spec fn is_replaced(spans: Seq<RepairSpan>, i: int) -> bool {
    exists|k: int| 0 <= k < spans.len() && (#[trigger] spans[k]).left < i < spans[k].right
}

/// Inside a run each index is one more than the index before it.
pub proof fn lemma_run_is_consecutive(sorted: Seq<usize>, start: int, k: int)
    requires
        0 <= start <= k <= run_end(sorted, start),
        start < sorted.len(),
    ensures
        k < sorted.len(),
        sorted[k] == sorted[start] + (k - start),
    decreases k - start,
{
    lemma_run_end_bounds(sorted, start);
    if k > start {
        lemma_run_is_consecutive(sorted, start + 1, k);
    }
}

/// Sorting keeps the members of a sequence of indices.
pub proof fn lemma_sort_keeps_members(impulses: Seq<usize>)
    ensures
        forall|x: usize|
            impulses.sort_by(index_order()).contains(x) <==> #[trigger] impulses.contains(x),
        impulses.sort_by(index_order()).len() == impulses.len(),
{
    broadcast use vstd::seq_lib::group_to_multiset_ensures;

    let sorted = impulses.sort_by(index_order());
    impulses.lemma_sort_by_ensures(index_order());
    assert(sorted.len() == sorted.to_multiset().len());
    assert(impulses.len() == impulses.to_multiset().len());
    assert forall|x: usize| sorted.contains(x) <==> #[trigger] impulses.contains(x) by {
        assert(sorted.to_multiset().count(x) == impulses.to_multiset().count(x));
    }
}

proof fn lemma_spans_replace_runs(sorted: Seq<usize>, start: int, len: usize)
    requires
        0 <= start <= sorted.len(),
        forall|k: int| 0 <= k < sorted.len() ==> sorted[k] < len,
    ensures
        forall|i: int|
            is_replaced(spans_from(sorted, start, len), i) <==> 0 < i < len - 1 && exists|k: int|
                start <= k < sorted.len() && #[trigger] sorted[k] == i,
    decreases sorted.len() - start,
{
    let spans = spans_from(sorted, start, len);
    if start < sorted.len() {
        let end = run_end(sorted, start);
        lemma_run_end_bounds(sorted, start);
        lemma_spans_replace_runs(sorted, end + 1, len);
        lemma_run_is_consecutive(sorted, start, end);
        let lo = sorted[start];
        let hi = sorted[end];
        let span = span_of(lo, hi, len);
        let rest = spans_from(sorted, end + 1, len);
        assert forall|i: int|
            is_replaced(spans, i) <==> 0 < i < len - 1 && exists|k: int|
                start <= k < sorted.len() && #[trigger] sorted[k] == i by {
            let inside = span.left < i < span.right;
            assert(inside <==> 0 < i < len - 1 && lo <= i <= hi);
            // the members of the run are the indices from lo to hi
            if lo <= i <= hi {
                let k = start + (i - lo);
                lemma_run_is_consecutive(sorted, start, k);
                assert(sorted[k] == i);
            }
            if exists|k: int| start <= k <= end && #[trigger] sorted[k] == i {
                let k = choose|k: int| start <= k <= end && #[trigger] sorted[k] == i;
                lemma_run_is_consecutive(sorted, start, k);
            }
            // a span list replaces what its first span or the others replace
            if span.left != span.right {
                assert(spans == seq![span] + rest);
                if is_replaced(spans, i) {
                    let k = choose|k: int|
                        0 <= k < spans.len() && (#[trigger] spans[k]).left < i < spans[k].right;
                    if k > 0 {
                        assert(rest[k - 1] == spans[k]);
                        assert(is_replaced(rest, i));
                    }
                }
                if is_replaced(rest, i) {
                    let k = choose|k: int|
                        0 <= k < rest.len() && (#[trigger] rest[k]).left < i < rest[k].right;
                    assert(spans[k + 1] == rest[k]);
                }
                if inside {
                    assert(spans[0] == span);
                }
                assert(is_replaced(spans, i) <==> inside || is_replaced(rest, i));
            } else {
                assert(spans == rest);
                assert(!inside);
            }
            if is_replaced(rest, i) {
                let k = choose|k: int| end + 1 <= k < sorted.len() && #[trigger] sorted[k] == i;
                assert(start <= k < sorted.len() && sorted[k] == i);
            }
            if 0 < i < len - 1 && exists|k: int|
                start <= k < sorted.len() && #[trigger] sorted[k] == i {
                let k = choose|k: int| start <= k < sorted.len() && #[trigger] sorted[k] == i;
                if k <= end {
                    assert(inside);
                } else {
                    assert(end + 1 <= k < sorted.len() && sorted[k] == i);
                    assert(is_replaced(rest, i));
                }
            }
        }
    }
}

/// The samples that the spans replace are the flagged samples other than
/// the first and the last of the buffer: no other sample is touched.
pub proof fn lemma_replaced_are_flagged(impulses: Seq<usize>, len: usize)
    requires
        forall|k: int| 0 <= k < impulses.len() ==> impulses[k] < len,
    ensures
        forall|i: usize|
            is_replaced(repair_spans(impulses, len), i as int) <==> 0 < i < len - 1
                && #[trigger] impulses.contains(i),
{
    let sorted = impulses.sort_by(index_order());
    lemma_sort_keeps_members(impulses);
    assert forall|k: int| 0 <= k < sorted.len() implies sorted[k] < len by {
        assert(sorted.contains(sorted[k]));
        assert(impulses.contains(sorted[k]));
        let w = impulses.index_of(sorted[k]);
        assert(impulses[w] < len);
    }
    lemma_spans_replace_runs(sorted, 0, len);
    assert forall|i: usize|
        is_replaced(repair_spans(impulses, len), i as int) <==> 0 < i < len - 1
            && #[trigger] impulses.contains(i) by {
        if impulses.contains(i) {
            assert(sorted.contains(i));
            let k = sorted.index_of(i);
            assert(0 <= k < sorted.len() && sorted[k] == i as int);
        }
        if exists|k: int| 0 <= k < sorted.len() && #[trigger] sorted[k] == i as int {
            let k = choose|k: int| 0 <= k < sorted.len() && #[trigger] sorted[k] == i as int;
            assert(sorted.contains(i));
        }
    }
}

/// A run ends where the next index is not the successor of its last.
pub proof fn lemma_run_end_is_maximal(sorted: Seq<usize>, start: int)
    requires
        0 <= start < sorted.len(),
    ensures
        run_end(sorted, start) + 1 < sorted.len() ==> sorted[run_end(sorted, start) + 1]
            != sorted[run_end(sorted, start)] + 1,
    decreases sorted.len() - start,
{
    if start + 1 < sorted.len() && sorted[start + 1] == sorted[start] + 1 {
        lemma_run_end_is_maximal(sorted, start + 1);
    }
}

/// A sequence in strictly ascending order is its own sorted form.
pub proof fn lemma_ascending_is_sorted(impulses: Seq<usize>)
    requires
        is_ascending(impulses),
    ensures
        impulses.sort_by(index_order()) == impulses,
{
    impulses.lemma_sort_by_ensures(index_order());
    assert(sorted_by(impulses, index_order()));
    assert(total_ordering(index_order()));
    lemma_sorted_unique(impulses.sort_by(index_order()), impulses, index_order());
}

proof fn lemma_spans_between_runs(sorted: Seq<usize>, start: int, len: usize)
    requires
        is_ascending(sorted),
        forall|k: int| 0 <= k < sorted.len() ==> sorted[k] < len,
        0 <= start <= sorted.len(),
        0 < start < sorted.len() ==> sorted[start - 1] + 1 < sorted[start],
    ensures
        forall|k: int|
            0 <= k < spans_from(sorted, start, len).len() ==> {
                let span = #[trigger] spans_from(sorted, start, len)[k];
                &&& sorted.contains(span.left) ==> span.left == 0
                &&& sorted.contains(span.right) ==> span.right == len - 1
            },
    decreases sorted.len() - start,
{
    let spans = spans_from(sorted, start, len);
    if start < sorted.len() {
        let end = run_end(sorted, start);
        lemma_run_end_bounds(sorted, start);
        lemma_run_end_is_maximal(sorted, start);
        lemma_run_is_consecutive(sorted, start, end);
        lemma_spans_between_runs(sorted, end + 1, len);
        let lo = sorted[start];
        let hi = sorted[end];
        let span = span_of(lo, hi, len);
        let rest = spans_from(sorted, end + 1, len);
        if sorted.contains(span.left) && span.left != 0 {
            let j = sorted.index_of(span.left);
            assert(sorted[j] == lo - 1);
            if j >= start {
                assert(j == start || sorted[start] < sorted[j]);
            } else if j < start - 1 {
                assert(sorted[j] < sorted[start - 1]);
            }
            assert(false);
        }
        if sorted.contains(span.right) && span.right != len - 1 {
            let j = sorted.index_of(span.right);
            assert(sorted[j] == hi + 1);
            if j <= end {
                assert(j == end || sorted[j] < sorted[end]);
            } else if j > end + 1 {
                assert(sorted[end + 1] < sorted[j]);
            }
            assert(false);
        }
        assert forall|k: int| 0 <= k < spans.len() implies {
            let s = #[trigger] spans[k];
            &&& sorted.contains(s.left) ==> s.left == 0
            &&& sorted.contains(s.right) ==> s.right == len - 1
        } by {
            if span.left != span.right {
                assert(spans == seq![span] + rest);
                if k > 0 {
                    assert(spans[k] == rest[k - 1]);
                }
            } else {
                assert(spans == rest);
            }
        }
    }
}

/// For indices flagged once each, the runs are maximal: the left anchor
/// of every span is an unflagged sample or the first sample of the buffer,
/// the right anchor an unflagged sample or the last.
pub proof fn lemma_anchors_are_unflagged(impulses: Seq<usize>, len: usize)
    requires
        is_ascending(impulses),
        forall|k: int| 0 <= k < impulses.len() ==> impulses[k] < len,
    ensures
        forall|k: int|
            0 <= k < repair_spans(impulses, len).len() ==> {
                let span = #[trigger] repair_spans(impulses, len)[k];
                &&& impulses.contains(span.left) ==> span.left == 0
                &&& impulses.contains(span.right) ==> span.right == len - 1
            },
{
    lemma_ascending_is_sorted(impulses);
    lemma_spans_between_runs(impulses, 0, len);
}

/// No flagged index, no span.
pub proof fn lemma_nothing_flagged(len: usize)
    ensures
        repair_spans(Seq::empty(), len) == Seq::<RepairSpan>::empty(),
{
    lemma_sort_keeps_members(Seq::<usize>::empty());
}

/// What a pass decides: the impulses, and the spans that repair them.
#[derive(Debug)]
pub struct BaselineOutput {
    /// Indices of the impulses, in ascending order.
    pub detected_impulses: Vec<usize>,
    /// The spans to interpolate, in ascending order.
    pub repairs: Vec<RepairSpan>,
}

/// Detects the impulses of a normalized buffer and plans their repair.
///
/// The impulses are those of [`detect_impulses`]; the spans are those of
/// [`repair_impulses`] for these impulses. The samples that the spans
/// replace are the impulses and no others, every span lies inside the
/// buffer, and no anchor of a span is itself an impulse.
pub fn run_baseline_pipeline(
    input: &[i32],
    steps: &[i32],
    surroundings: &[i32],
    scaled_mean: i32,
    config: &BaselineConfig,
) -> (output: BaselineOutput)
    ensures
        is_ascending(output.detected_impulses@),
        forall|i: usize|
            output.detected_impulses@.contains(i) <==> is_impulse(
                input@,
                steps@,
                surroundings@,
                scaled_mean,
                *config,
                i as int,
            ),
        output.repairs@ == repair_spans(output.detected_impulses@, input@.len() as usize),
        forall|k: int|
            0 <= k < output.repairs@.len() ==> (#[trigger] output.repairs@[k]).left
                < output.repairs@[k].right < input@.len(),
        forall|i: usize|
            is_replaced(output.repairs@, i as int) <==> is_impulse(
                input@,
                steps@,
                surroundings@,
                scaled_mean,
                *config,
                i as int,
            ),
        forall|k: int|
            0 <= k < output.repairs@.len() ==> {
                let span = #[trigger] output.repairs@[k];
                &&& !is_impulse(
                    input@,
                    steps@,
                    surroundings@,
                    scaled_mean,
                    *config,
                    span.left as int,
                )
                &&& !is_impulse(
                    input@,
                    steps@,
                    surroundings@,
                    scaled_mean,
                    *config,
                    span.right as int,
                )
            },
{
    let detected_impulses = detect_impulses(input, steps, surroundings, scaled_mean, config);
    proof {
        assert forall|k: int| 0 <= k < detected_impulses@.len() implies detected_impulses@[k]
            < input@.len() by {
            assert(detected_impulses@.contains(detected_impulses@[k]));
        }
    }
    let repairs = repair_impulses(input.len(), detected_impulses.as_slice());
    proof {
        lemma_anchors_are_unflagged(detected_impulses@, input@.len() as usize);
        assert forall|k: int| 0 <= k < repairs@.len() implies {
            let span = #[trigger] repairs@[k];
            &&& !detected_impulses@.contains(span.left)
            &&& !detected_impulses@.contains(span.right)
        } by {
            let span = repairs@[k];
            if detected_impulses@.contains(span.left) {
                assert(span.left == 0);
            }
            if detected_impulses@.contains(span.right) {
                assert(span.right == input@.len() - 1);
            }
        }
        lemma_replaced_are_flagged(detected_impulses@, input@.len() as usize);
        assert forall|i: usize|
            is_replaced(repairs@, i as int) <==> is_impulse(
                input@,
                steps@,
                surroundings@,
                scaled_mean,
                *config,
                i as int,
            ) by {
            assert(is_replaced(repairs@, i as int) <==> 0 < i < input@.len() - 1
                && detected_impulses@.contains(i));
        }
    }
    BaselineOutput { detected_impulses, repairs }
}

/// How many samples of a buffer exceed unit magnitude.
pub open spec fn clipped_count(samples: Seq<i32>) -> nat
    decreases samples.len(),
{
    if samples.len() == 0 {
        0
    } else {
        clipped_count(samples.drop_last()) + if greater(magnitude(samples.last()), FULL_SCALE) {
            1nat
        } else {
            0nat
        }
    }
}

/// Whether some sample of a buffer is not a number.
pub open spec fn holds_nan(samples: Seq<i32>) -> bool {
    exists|i: int| 0 <= i < samples.len() && is_nan(#[trigger] samples[i])
}

proof fn lemma_clipped_count_bound(samples: Seq<i32>)
    ensures
        clipped_count(samples) <= samples.len(),
    decreases samples.len(),
{
    if samples.len() > 0 {
        lemma_clipped_count_bound(samples.drop_last());
    }
}

/// Reports on a buffer in one pass: its peak magnitude (0 for an empty
/// buffer), how many samples exceed unit magnitude, and whether any sample
/// is not a number. Such a sample counts towards neither the peak nor the
/// clipped samples.
pub fn validate_output(output: &[i32]) -> (result: ValidationResult)
    ensures
        result.peak == peak_of(output@),
        result.clipped_samples == clipped_count(output@),
        result.has_nan == holds_nan(output@),
{
    let mut peak: i32 = 0;
    let mut clipped_samples: usize = 0;
    let mut has_nan = false;
    let mut i: usize = 0;
    while i < output.len()
        invariant
            i <= output@.len(),
            peak == peak_of(output@.take(i as int)),
            clipped_samples == clipped_count(output@.take(i as int)),
            clipped_samples <= i,
            has_nan == holds_nan(output@.take(i as int)),
        decreases output@.len() - i,
    {
        proof {
            let next = output@.take(i + 1);
            let now = output@.take(i as int);
            assert(next.drop_last() =~= now);
            lemma_clipped_count_bound(next);
            if holds_nan(now) {
                let w = choose|w: int| 0 <= w < now.len() && is_nan(#[trigger] now[w]);
                assert(is_nan(next[w]));
            }
            if is_nan(output@[i as int]) {
                assert(is_nan(next[i as int]));
            }
            if holds_nan(next) {
                let w = choose|w: int| 0 <= w < next.len() && is_nan(#[trigger] next[w]);
                if w < i {
                    assert(is_nan(now[w]));
                }
            }
        }
        let sample = output[i];
        if sample_is_nan(sample) {
            has_nan = true;
        }
        let abs = sample_magnitude(sample);
        if sample_greater(abs, peak) {
            peak = abs;
        }
        if sample_greater(abs, FULL_SCALE) {
            clipped_samples += 1;
        }
        i += 1;
    }
    proof {
        assert(output@.take(output@.len() as int) =~= output@);
    }
    ValidationResult { peak, clipped_samples, has_nan }
}

} // verus!
