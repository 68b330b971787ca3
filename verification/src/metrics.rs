//! Scoring a detection against ground truth: greedy matching of detected
//! clicks to expected ones, and the spans over which the energy of
//! transients is compared.

use crate::ratio::Ratio;
use vstd::prelude::*;

verus! {

/// Recall and precision of a click detection.
#[derive(Debug, Clone, Copy, PartialEq, Eq, Structural)]
pub struct ClickMetrics {
    pub recall: Ratio,
    pub precision: Ratio,
}

/// Two indices lie at most `tolerance` apart.
pub open spec fn within_tolerance(a: usize, b: usize, tolerance: usize) -> bool {
    if a >= b {
        a - b <= tolerance
    } else {
        b - a <= tolerance
    }
}

/// Expected click `j` can take `detection`: it is still unmatched and close enough.
pub open spec fn is_eligible(
    detection: usize,
    expected: Seq<usize>,
    matched: Seq<bool>,
    tolerance: usize,
    j: int,
) -> bool {
    0 <= j < expected.len() && j < matched.len() && !matched[j] && within_tolerance(
        detection,
        expected[j],
        tolerance,
    )
}

/// The first eligible position at or after `from`, or `expected.len()` where there is none.
pub open spec fn first_eligible(
    detection: usize,
    expected: Seq<usize>,
    matched: Seq<bool>,
    tolerance: usize,
    from: int,
) -> int
    decreases expected.len() - from,
{
    if from < 0 || from >= expected.len() {
        expected.len() as int
    } else if is_eligible(detection, expected, matched, tolerance, from) {
        from
    } else {
        first_eligible(detection, expected, matched, tolerance, from + 1)
    }
}

/// Which expected clicks are matched once every detection has been taken in
/// the order given, each claiming the first eligible expected click.
pub open spec fn matched_after(detected: Seq<usize>, expected: Seq<usize>, tolerance: usize) -> Seq<
    bool,
>
    decreases detected.len(),
{
    if detected.len() == 0 {
        Seq::new(expected.len(), |j: int| false)
    } else {
        let before = matched_after(detected.drop_last(), expected, tolerance);
        let j = first_eligible(detected.last(), expected, before, tolerance, 0);
        if j < expected.len() {
            before.update(j, true)
        } else {
            before
        }
    }
}

/// Whether detection `i` finds an expected click to claim.
pub open spec fn is_true_positive(
    detected: Seq<usize>,
    expected: Seq<usize>,
    tolerance: usize,
    i: int,
) -> bool {
    first_eligible(
        detected[i],
        expected,
        matched_after(detected.take(i), expected, tolerance),
        tolerance,
        0,
    ) < expected.len()
}

/// Number of detections that claim an expected click.
pub open spec fn true_positives(detected: Seq<usize>, expected: Seq<usize>, tolerance: usize) -> nat
    decreases detected.len(),
{
    if detected.len() == 0 {
        0
    } else {
        let n = (detected.len() - 1) as int;
        true_positives(detected.drop_last(), expected, tolerance) + if is_true_positive(
            detected,
            expected,
            tolerance,
            n,
        ) {
            1nat
        } else {
            0nat
        }
    }
}

/// Number of `true` entries.
pub open spec fn count_true(flags: Seq<bool>) -> nat
    decreases flags.len(),
{
    if flags.len() == 0 {
        0
    } else {
        count_true(flags.drop_last()) + if flags.last() {
            1nat
        } else {
            0nat
        }
    }
}

/// Recall and precision of `detected` against `expected`.
pub open spec fn click_metrics(detected: Seq<usize>, expected: Seq<usize>, tolerance: usize) -> ClickMetrics {
    let hits = true_positives(detected, expected, tolerance) as usize;
    if detected.len() == 0 && expected.len() == 0 {
        ClickMetrics { recall: Ratio::one(), precision: Ratio::one() }
    } else {
        ClickMetrics {
            recall: if expected.len() == 0 {
                Ratio::one()
            } else {
                Ratio { numerator: hits, denominator: expected.len() as usize }
            },
            precision: if detected.len() == 0 {
                Ratio::zero()
            } else {
                Ratio { numerator: hits, denominator: detected.len() as usize }
            },
        }
    }
}

/// `first_eligible` from 0 is the least eligible position.
pub proof fn lemma_first_eligible_is_least(
    detection: usize,
    expected: Seq<usize>,
    matched: Seq<bool>,
    tolerance: usize,
    from: int,
)
    requires
        0 <= from <= expected.len(),
    ensures
        from <= first_eligible(detection, expected, matched, tolerance, from) <= expected.len(),
        first_eligible(detection, expected, matched, tolerance, from) < expected.len()
            ==> is_eligible(
            detection,
            expected,
            matched,
            tolerance,
            first_eligible(detection, expected, matched, tolerance, from),
        ),
        forall|k: int|
            from <= k < first_eligible(detection, expected, matched, tolerance, from)
                ==> !is_eligible(detection, expected, matched, tolerance, k),
    decreases expected.len() - from,
{
    if from < expected.len() && !is_eligible(detection, expected, matched, tolerance, from) {
        lemma_first_eligible_is_least(detection, expected, matched, tolerance, from + 1);
    }
}

proof fn lemma_count_true_bound(flags: Seq<bool>)
    ensures
        count_true(flags) <= flags.len(),
    decreases flags.len(),
{
    if flags.len() > 0 {
        lemma_count_true_bound(flags.drop_last());
    }
}

proof fn lemma_count_true_set(flags: Seq<bool>, j: int)
    requires
        0 <= j < flags.len(),
        !flags[j],
    ensures
        count_true(flags.update(j, true)) == count_true(flags) + 1,
    decreases flags.len(),
{
    let after = flags.update(j, true);
    if j == flags.len() - 1 {
        assert(after.drop_last() =~= flags.drop_last());
    } else {
        lemma_count_true_set(flags.drop_last(), j);
        assert(after.drop_last() =~= flags.drop_last().update(j, true));
    }
}

proof fn lemma_count_true_none(n: nat)
    ensures
        count_true(Seq::new(n, |j: int| false)) == 0,
    decreases n,
{
    if n > 0 {
        lemma_count_true_none((n - 1) as nat);
        assert(Seq::new(n, |j: int| false).drop_last() =~= Seq::new(
            (n - 1) as nat,
            |j: int| false,
        ));
    }
}

/// Every true positive marks one expected click that was unmarked before:
/// the matched clicks are as many as the true positives, so these exceed
/// neither the number of detections nor that of expected clicks.
pub proof fn lemma_true_positives_bounded(
    detected: Seq<usize>,
    expected: Seq<usize>,
    tolerance: usize,
)
    ensures
        matched_after(detected, expected, tolerance).len() == expected.len(),
        count_true(matched_after(detected, expected, tolerance)) == true_positives(
            detected,
            expected,
            tolerance,
        ),
        true_positives(detected, expected, tolerance) <= detected.len(),
        true_positives(detected, expected, tolerance) <= expected.len(),
    decreases detected.len(),
{
    if detected.len() == 0 {
        lemma_count_true_none(expected.len());
    } else {
        let front = detected.drop_last();
        lemma_true_positives_bounded(front, expected, tolerance);
        let before = matched_after(front, expected, tolerance);
        assert(detected.take(detected.len() - 1) =~= front);
        lemma_first_eligible_is_least(detected.last(), expected, before, tolerance, 0);
        let j = first_eligible(detected.last(), expected, before, tolerance, 0);
        if j < expected.len() {
            lemma_count_true_set(before, j);
        }
    }
    lemma_count_true_bound(matched_after(detected, expected, tolerance));
}

fn is_within_tolerance(a: usize, b: usize, tolerance: usize) -> (r: bool)
    ensures
        r == within_tolerance(a, b, tolerance),
{
    if a >= b {
        a - b <= tolerance
    } else {
        b - a <= tolerance
    }
}

/// Finds the expected click that a detection claims: the first that is
/// unmatched and within the tolerance.
pub fn find_match(detection: usize, expected: &[usize], matched: &Vec<bool>, tolerance: usize) -> (r:
    Option<usize>)
    ensures
        match r {
            Some(j) => j == first_eligible(detection, expected@, matched@, tolerance, 0) && j
                < expected@.len(),
            None => first_eligible(detection, expected@, matched@, tolerance, 0)
                == expected@.len(),
        },
{
    let mut j: usize = 0;
    while j < expected.len()
        invariant
            j <= expected@.len(),
            first_eligible(detection, expected@, matched@, tolerance, 0) == first_eligible(
                detection,
                expected@,
                matched@,
                tolerance,
                j as int,
            ),
        decreases expected@.len() - j,
    {
        if j < matched.len() && !matched[j] && is_within_tolerance(
            detection,
            expected[j],
            tolerance,
        ) {
            return Some(j);
        }
        j += 1;
    }
    None
}

/// Recall and precision of a detection against ground truth.
///
/// Detections are taken in the order given; each claims the first expected
/// click that is still unmatched and at most `tolerance` away, and counts as
/// a true positive if there is one. Recall is the true positives over the
/// expected clicks, one where nothing was expected; precision is the true
/// positives over the detections, zero where nothing was detected; both are
/// one where both lists are empty.
pub fn click_precision_recall(detected: &[usize], expected: &[usize], tolerance: usize) -> (metrics:
    ClickMetrics)
    ensures
        metrics == click_metrics(detected@, expected@, tolerance),
        metrics.recall.is_fraction(),
        metrics.precision.is_fraction(),
{
    if expected.len() == 0 && detected.len() == 0 {
        return ClickMetrics {
            recall: Ratio { numerator: 1, denominator: 1 },
            precision: Ratio { numerator: 1, denominator: 1 },
        };
    }
    let mut matched: Vec<bool> = Vec::new();
    let mut k: usize = 0;
    while k < expected.len()
        invariant
            k <= expected@.len(),
            matched@ =~= Seq::new(k as nat, |j: int| false),
        decreases expected@.len() - k,
    {
        matched.push(false);
        k += 1;
    }
    let mut hits: usize = 0;
    let mut i: usize = 0;
    while i < detected.len()
        invariant
            i <= detected@.len(),
            matched@ == matched_after(detected@.take(i as int), expected@, tolerance),
            matched@.len() == expected@.len(),
            hits == true_positives(detected@.take(i as int), expected@, tolerance),
            hits <= i,
        decreases detected@.len() - i,
    {
        proof {
            assert(detected@.take(i + 1).drop_last() =~= detected@.take(i as int));
            assert(detected@.take(i + 1).take(i as int) =~= detected@.take(i as int));
        }
        match find_match(detected[i], expected, &matched, tolerance) {
            Some(j) => {
                matched.set(j, true);
                hits += 1;
            },
            None => {},
        }
        i += 1;
    }
    proof {
        assert(detected@.take(detected@.len() as int) =~= detected@);
        lemma_true_positives_bounded(detected@, expected@, tolerance);
    }
    let recall = if expected.len() == 0 {
        Ratio { numerator: 1, denominator: 1 }
    } else {
        Ratio { numerator: hits, denominator: expected.len() }
    };
    let precision = if detected.len() == 0 {
        Ratio { numerator: 0, denominator: 1 }
    } else {
        Ratio { numerator: hits, denominator: detected.len() }
    };
    ClickMetrics { recall, precision }
}

/// With nothing expected, nothing is missed: recall is one, and precision is
/// one where nothing was detected either and zero otherwise.
pub proof fn lemma_nothing_expected(detected: Seq<usize>, tolerance: usize)
    ensures
        click_metrics(detected, Seq::empty(), tolerance).recall == Ratio::one(),
        click_metrics(detected, Seq::empty(), tolerance).precision.numerator == 0
            <==> detected.len() > 0,
        detected.len() == 0 ==> click_metrics(detected, Seq::empty(), tolerance).precision
            == Ratio::one(),
{
    lemma_true_positives_bounded(detected, Seq::empty(), tolerance);
}

/// With nothing detected and something expected, recall and precision are zero.
pub proof fn lemma_nothing_detected(expected: Seq<usize>, tolerance: usize)
    requires
        0 < expected.len() <= usize::MAX,
    ensures
        click_metrics(Seq::empty(), expected, tolerance).recall.numerator == 0,
        click_metrics(Seq::empty(), expected, tolerance).recall.denominator == expected.len(),
        click_metrics(Seq::empty(), expected, tolerance).precision == Ratio::zero(),
{
}

/// A region cut to a buffer of `len` samples: the end first, then the start to the end.
pub open spec fn clamped_region(region: (usize, usize), len: usize) -> (usize, usize) {
    let end = if region.1 <= len {
        region.1
    } else {
        len
    };
    let start = if region.0 <= end {
        region.0
    } else {
        end
    };
    (start, end)
}

/// Sample `i` lies in the region, cut to the buffer.
pub open spec fn in_region(region: (usize, usize), len: usize, i: int) -> bool {
    clamped_region(region, len).0 <= i < clamped_region(region, len).1
}

/// Sample `i` lies in one of the regions, each cut to the buffer.
pub open spec fn is_transient(regions: Seq<(usize, usize)>, len: usize, i: int) -> bool {
    exists|k: int| 0 <= k < regions.len() && in_region(#[trigger] regions[k], len, i)
}

/// A sample lies in a region cut to the buffer just when it lies in the
/// region and in the buffer: a cut region never reaches past the buffer,
/// and a region that ends before it starts holds nothing.
pub proof fn lemma_region_cut_to_buffer(region: (usize, usize), len: usize, i: int)
    ensures
        in_region(region, len, i) <==> region.0 <= i < region.1 && i < len,
        clamped_region(region, len).0 <= clamped_region(region, len).1 <= len,
{
}

/// Without regions no sample is transient.
pub proof fn lemma_no_regions(len: usize, i: int)
    ensures
        !is_transient(Seq::empty(), len, i),
{
}

/// One region over the whole buffer holds every sample of it.
pub proof fn lemma_whole_buffer(len: usize, i: int)
    requires
        0 <= i < len,
    ensures
        is_transient(seq![(0usize, len)], len, i),
{
    let regions = seq![(0usize, len)];
    assert(in_region(regions[0], len, i));
}

/// Marks the samples over which the energy of the transients is summed:
/// those that lie in the union of the regions, each region cut to the
/// original buffer. A region that reaches past the buffer is cut, never
/// refused. With regions to compare, the repaired buffer must be at least
/// as long as the original, so that every marked sample is in both.
pub fn transient_mask(original_len: usize, repaired_len: usize, regions: &[(usize, usize)]) -> (mask:
    Vec<bool>)
    requires
        regions@.len() == 0 || repaired_len >= original_len,
    ensures
        mask@.len() == original_len,
        forall|i: int|
            0 <= i < original_len ==> #[trigger] mask@[i] == is_transient(
                regions@,
                original_len,
                i,
            ),
        regions@.len() > 0 ==> mask@.len() <= repaired_len,
{
    let mut mask: Vec<bool> = Vec::new();
    let mut n: usize = 0;
    while n < original_len
        invariant
            n <= original_len,
            mask@.len() == n,
            forall|i: int| 0 <= i < n ==> !(#[trigger] mask@[i]),
        decreases original_len - n,
    {
        mask.push(false);
        n += 1;
    }
    let mut k: usize = 0;
    while k < regions.len()
        invariant
            k <= regions@.len(),
            mask@.len() == original_len,
            forall|i: int|
                0 <= i < original_len ==> #[trigger] mask@[i] == is_transient(
                    regions@.take(k as int),
                    original_len,
                    i,
                ),
        decreases regions@.len() - k,
    {
        let region = regions[k];
        let end = if region.1 <= original_len {
            region.1
        } else {
            original_len
        };
        let start = if region.0 <= end {
            region.0
        } else {
            end
        };
        let ghost earlier = regions@.take(k as int);
        let ghost now = regions@.take(k + 1);
        let mut i = start;
        while i < end
            invariant
                start <= i <= end <= original_len,
                mask@.len() == original_len,
                forall|j: int|
                    0 <= j < original_len ==> #[trigger] mask@[j] == (is_transient(
                        earlier,
                        original_len,
                        j,
                    ) || start <= j < i),
            decreases end - i,
        {
            mask.set(i, true);
            i += 1;
        }
        proof {
            assert((start, end) == clamped_region(region, original_len));
            assert forall|j: int| 0 <= j < original_len implies #[trigger] mask@[j]
                == is_transient(now, original_len, j) by {
                assert(now[k as int] == region);
                if is_transient(earlier, original_len, j) {
                    let w = choose|w: int|
                        0 <= w < earlier.len() && in_region(#[trigger] earlier[w], original_len, j);
                    assert(now[w] == earlier[w]);
                }
                if is_transient(now, original_len, j) {
                    let w = choose|w: int|
                        0 <= w < now.len() && in_region(#[trigger] now[w], original_len, j);
                    if w < k {
                        assert(earlier[w] == now[w]);
                    }
                }
            }
        }
        k += 1;
    }
    proof {
        assert(regions@.take(regions@.len() as int) =~= regions@);
    }
    mask
}

} // verus!
