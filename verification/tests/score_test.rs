use ctclib::score::{cap_add, lse_merge, mul_weight};
use ctclib::{FIXED_ONE, SCORE_CAP};

fn fx(x: f64) -> i64 {
    (x * FIXED_ONE as f64).round() as i64
}

#[test]
fn cap_add_is_plain_addition_in_range() {
    assert_eq!(cap_add(fx(1.0), fx(2.5)), fx(3.5));
    assert_eq!(cap_add(-5, 3), -2);
}

#[test]
fn cap_add_clamps_at_the_bound() {
    assert_eq!(cap_add(SCORE_CAP, SCORE_CAP), SCORE_CAP);
    assert_eq!(cap_add(-SCORE_CAP, -SCORE_CAP), -SCORE_CAP);
    assert_eq!(cap_add(i64::MIN, -1), -SCORE_CAP);
}

#[test]
fn mul_weight_scales_fixed_point_products() {
    assert_eq!(mul_weight(fx(0.5), fx(2.0)), fx(1.0));
    assert_eq!(mul_weight(fx(1.0), -fx(2.0)), -fx(2.0));
    assert_eq!(mul_weight(-fx(0.25), fx(4.0)), -fx(1.0));
    assert_eq!(mul_weight(0, 123456789), 0);
}

#[test]
fn lse_merge_of_equal_scores_adds_ln_two() {
    // ln(e^0 + e^0) = ln 2, rounded to the nearest fixed-point unit
    assert_eq!(lse_merge(0, 0), 726817);
    assert_eq!(lse_merge(fx(3.0), fx(3.0)), fx(3.0) + 726817);
}

#[test]
fn lse_merge_with_a_huge_gap_returns_the_maximum() {
    assert_eq!(lse_merge(fx(100.0), fx(-100.0)), fx(100.0));
    assert_eq!(lse_merge(fx(-100.0), fx(100.0)), fx(100.0));
}

#[test]
fn lse_merge_matches_the_real_function() {
    let a = fx(1.25);
    let b = fx(0.75);
    let expected = fx((1.25f64.exp() + 0.75f64.exp()).ln());
    assert!((lse_merge(a, b) - expected).abs() <= 2);
    assert_eq!(lse_merge(a, b), lse_merge(b, a));
}
