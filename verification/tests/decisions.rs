//! The library's decisions on plain values.

use vinyl_engine::{
    click_precision_recall, detect_impulses, find_match, impulse_threshold, repair_impulses,
    sample_magnitude, transient_mask, BaselineConfig, ClickMetrics, Ratio, RepairSpan,
};

const ONE: Ratio = Ratio { numerator: 1, denominator: 1 };
const ZERO: Ratio = Ratio { numerator: 0, denominator: 1 };

#[test]
fn both_empty_is_perfect_agreement() {
    for tolerance in [0, 1, 7, usize::MAX] {
        assert_eq!(
            click_precision_recall(&[], &[], tolerance),
            ClickMetrics { recall: ONE, precision: ONE }
        );
    }
}

#[test]
fn nothing_expected_gives_full_recall_and_no_precision() {
    let metrics = click_precision_recall(&[5], &[], 1);
    assert_eq!(metrics.recall, ONE);
    assert_eq!(metrics.precision.numerator, 0);
    assert_eq!(metrics.precision.denominator, 1);
}

#[test]
fn nothing_detected_gives_no_recall_and_no_precision() {
    let metrics = click_precision_recall(&[], &[5], 1);
    assert_eq!(metrics.recall, Ratio { numerator: 0, denominator: 1 });
    assert_eq!(metrics.precision, ZERO);
}

#[test]
fn matching_is_within_the_tolerance() {
    let metrics = click_precision_recall(&[100, 205, 300], &[99, 200, 301, 400], 1);
    assert_eq!(metrics.recall, Ratio { numerator: 2, denominator: 4 });
    assert_eq!(metrics.precision, Ratio { numerator: 2, denominator: 3 });
    let exact = click_precision_recall(&[100, 201], &[100, 200], 0);
    assert_eq!(exact.recall, Ratio { numerator: 1, denominator: 2 });
    assert_eq!(exact.precision, Ratio { numerator: 1, denominator: 2 });
}

#[test]
fn matching_is_greedy_in_the_order_given() {
    // 10 claims 9, the first expected click in reach; 9 then finds 11 too far
    let greedy = click_precision_recall(&[10, 9], &[9, 11], 1);
    assert_eq!(greedy.recall, Ratio { numerator: 1, denominator: 2 });
    assert_eq!(greedy.precision, Ratio { numerator: 1, denominator: 2 });
    // in the other order both find a partner
    let other = click_precision_recall(&[9, 10], &[9, 11], 1);
    assert_eq!(other.recall, Ratio { numerator: 2, denominator: 2 });
    assert_eq!(other.precision, Ratio { numerator: 2, denominator: 2 });
}

#[test]
fn an_expected_click_is_matched_once() {
    let metrics = click_precision_recall(&[5, 5, 5], &[5], 0);
    assert_eq!(metrics.recall, Ratio { numerator: 1, denominator: 1 });
    assert_eq!(metrics.precision, Ratio { numerator: 1, denominator: 3 });
    let far = click_precision_recall(&[0], &[usize::MAX], usize::MAX);
    assert_eq!(far.recall, ONE);
}

#[test]
fn find_match_takes_the_first_unmatched_in_reach() {
    assert_eq!(find_match(10, &[3, 9, 11], &vec![false, false, false], 1), Some(1));
    assert_eq!(find_match(10, &[3, 9, 11], &vec![false, true, false], 1), Some(2));
    assert_eq!(find_match(10, &[3, 9, 11], &vec![false, true, true], 1), None);
    assert_eq!(find_match(10, &[], &vec![], 1), None);
}

#[test]
fn mask_marks_the_union_of_the_cut_regions() {
    assert_eq!(
        transient_mask(6, 6, &[(1, 3), (2, 4)]),
        vec![false, true, true, true, false, false]
    );
    assert_eq!(transient_mask(3, 5, &[(2, 100)]), vec![false, false, true]);
    assert_eq!(transient_mask(3, 3, &[(7, 9)]), vec![false, false, false]);
    assert_eq!(transient_mask(3, 3, &[(2, 1)]), vec![false, false, false]);
    assert_eq!(transient_mask(2, 0, &[]), vec![false, false]);
    assert_eq!(transient_mask(0, 0, &[(0, 4)]), Vec::<bool>::new());
}

#[test]
fn no_flagged_index_gives_no_span() {
    assert_eq!(repair_impulses(8, &[]), Vec::<RepairSpan>::new());
    assert_eq!(repair_impulses(0, &[]), Vec::<RepairSpan>::new());
}

#[test]
fn runs_are_found_in_ascending_order() {
    assert_eq!(
        repair_impulses(12, &[9, 2, 3]),
        vec![RepairSpan { left: 1, right: 4 }, RepairSpan { left: 8, right: 10 }]
    );
    assert_eq!(
        repair_impulses(12, &[4, 6]),
        vec![RepairSpan { left: 3, right: 5 }, RepairSpan { left: 5, right: 7 }]
    );
}

#[test]
fn runs_at_the_edges_keep_their_anchors_inside() {
    assert_eq!(repair_impulses(5, &[0, 1]), vec![RepairSpan { left: 0, right: 2 }]);
    assert_eq!(repair_impulses(5, &[3, 4]), vec![RepairSpan { left: 2, right: 4 }]);
    assert_eq!(repair_impulses(3, &[0, 1, 2]), vec![RepairSpan { left: 0, right: 2 }]);
    assert_eq!(repair_impulses(2, &[0]), vec![RepairSpan { left: 0, right: 1 }]);
}

#[test]
fn a_run_over_a_buffer_of_one_sample_is_skipped() {
    assert_eq!(repair_impulses(1, &[0]), Vec::<RepairSpan>::new());
}

#[test]
fn weight_is_the_offset_over_the_width() {
    let span = RepairSpan { left: 1, right: 5 };
    assert_eq!(span.weight(2), Ratio { numerator: 1, denominator: 4 });
    assert_eq!(span.weight(4), Ratio { numerator: 3, denominator: 4 });
}

#[test]
fn find_match_ignores_missing_marks() {
    assert_eq!(find_match(10, &[9, 10], &vec![true], 1), None);
    assert_eq!(find_match(10, &[9, 10], &vec![false], 1), Some(0));
}

#[test]
fn threshold_is_the_larger_number() {
    let config = BaselineConfig::default();
    assert_eq!(impulse_threshold(0, &config), config.impulse_abs_min);
    assert_eq!(impulse_threshold(0x3F80_0000, &config), 0x3F80_0000);
    assert_eq!(impulse_threshold(0x7FC0_0000, &config), config.impulse_abs_min);
    let broken = BaselineConfig { impulse_abs_min: 0x7FC0_0000, ..config };
    assert_eq!(impulse_threshold(0x3F80_0000, &broken), 0x3F80_0000);
}

#[test]
fn magnitude_drops_the_sign() {
    assert_eq!(sample_magnitude(-0x3F80_0000), 0x3F80_0000);
    assert_eq!(sample_magnitude(0x3F80_0000), 0x3F80_0000);
    assert_eq!(sample_magnitude(0), 0);
    assert_eq!(sample_magnitude(i32::MIN), i32::MAX);
}

#[test]
fn each_condition_of_an_impulse_is_needed() {
    let config = BaselineConfig {
        target_peak: 0,
        impulse_threshold_multiplier: 0,
        impulse_abs_min: 10,
        diff_threshold: 5,
    };
    let input = [2, -40, 3];
    let steps = [0, -42, 0];
    let surroundings = [0, 20, 0];
    assert_eq!(detect_impulses(&input, &steps, &surroundings, 30, &config), vec![1]);
    // below the adaptive threshold
    assert!(detect_impulses(&input, &steps, &surroundings, 41, &config).is_empty());
    // below the least magnitude
    let high_floor = BaselineConfig { impulse_abs_min: 41, ..config };
    assert!(detect_impulses(&input, &steps, &surroundings, 30, &high_floor).is_empty());
    // too small a jump
    assert!(detect_impulses(&input, &[0, 4, 0], &surroundings, 30, &config).is_empty());
    // does not dominate its neighbourhood
    assert!(detect_impulses(&input, &steps, &[0, 41, 0], 30, &config).is_empty());
    // not a local peak
    assert!(detect_impulses(&[2, -40, 41], &steps, &surroundings, 30, &config).is_empty());
    assert!(detect_impulses(&[-41, -40, 3], &steps, &surroundings, 30, &config).is_empty());
    // levels that are missing flag nothing
    assert!(detect_impulses(&input, &[0], &surroundings, 30, &config).is_empty());
    // equal levels are enough
    assert_eq!(detect_impulses(&[40, -40, 40], &[0, 5, 0], &[0, 40, 0], 40, &config), vec![1]);
}
