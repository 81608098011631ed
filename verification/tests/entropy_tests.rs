use listing_tree::entropy::{
    attribute_entropy, gain_ratio, info_entropy, log2, sum, GainRatio, LOG_LIMIT, ONE_BIT,
};

fn close(fixed: u64, bits: f64) -> bool {
    let got = fixed as f64 / ONE_BIT as f64;
    (got - bits).abs() < 1e-6
}

#[test]
fn log2_of_powers_of_two_is_exact() {
    assert_eq!(log2(1), 0);
    assert_eq!(log2(2), ONE_BIT);
    assert_eq!(log2(8), 3 * ONE_BIT);
    assert_eq!(log2(1 << 40), 40 * ONE_BIT);
    assert_eq!(log2(1 << 63), 63 * ONE_BIT);
}

#[test]
fn log2_of_zero_is_zero() {
    assert_eq!(log2(0), 0);
}

#[test]
fn log2_tracks_the_real_logarithm() {
    assert!(close(log2(3), 3f64.log2()));
    assert!(close(log2(10), 10f64.log2()));
    assert!(close(log2(1000003), 1000003f64.log2()));
    assert!(close(log2(u64::MAX), 64.0));
    assert!(log2(u64::MAX) < LOG_LIMIT);
}

#[test]
fn log2_is_not_the_identity() {
    assert_ne!(log2(5), 5);
    assert!(close(log2(5), 5f64.log2()));
}

#[test]
fn sum_adds_cells() {
    assert_eq!(sum(&vec![]), 0);
    assert_eq!(sum(&vec![1, 2, 3, 4, 5, 6]), 21);
}

#[test]
fn entropy_of_single_bracket_is_zero() {
    assert_eq!(info_entropy(&vec![10, 0, 0, 0, 0, 0]), 0);
    assert_eq!(info_entropy(&vec![0, 0, 0, 7, 0, 0]), 0);
}

#[test]
fn entropy_of_empty_distribution_is_zero() {
    assert_eq!(info_entropy(&vec![0, 0, 0, 0, 0, 0]), 0);
    assert_eq!(info_entropy(&vec![]), 0);
}

#[test]
fn entropy_of_even_split_is_exact() {
    assert_eq!(info_entropy(&vec![1, 1]), ONE_BIT);
    assert_eq!(info_entropy(&vec![5, 5, 0, 0, 0, 0]), {
        let h = info_entropy(&vec![5, 5, 0, 0, 0, 0]);
        assert!(close(h, 1.0));
        h
    });
    assert_eq!(info_entropy(&vec![1, 1, 1, 1]), 2 * ONE_BIT);
    assert_eq!(info_entropy(&vec![4, 4, 4, 4, 0, 0]), 2 * ONE_BIT);
}

#[test]
fn entropy_tracks_shannon() {
    assert!(close(info_entropy(&vec![1, 3]), 0.8112781244591328));
    assert!(close(info_entropy(&vec![1, 1, 1, 1, 1, 1]), 6f64.log2()));
    assert!(close(info_entropy(&vec![9, 5, 0, 0, 0, 0]), 0.9402859586706311));
}

#[test]
fn entropy_is_positive_with_two_brackets() {
    assert!(info_entropy(&vec![1, 0, 0, 0, 0, 1]) > 0);
    assert!(info_entropy(&vec![u64::MAX - 1, 1]) > 0);
    assert!(info_entropy(&vec![1_000_000_000_000, 1]) > 0);
}

#[test]
fn attribute_entropy_of_perfect_split() {
    let table = vec![
        vec![3, 0, 0, 0, 0, 0],
        vec![0, 3, 0, 0, 0, 0],
        vec![0, 0, 0, 0, 0, 0],
    ];
    assert_eq!(attribute_entropy(&table), (0, ONE_BIT));
}

#[test]
fn attribute_entropy_of_useless_split() {
    let table = vec![vec![1, 1, 0, 0, 0, 0], vec![1, 1, 0, 0, 0, 0]];
    assert_eq!(attribute_entropy(&table), (ONE_BIT, ONE_BIT));
}

#[test]
fn attribute_entropy_weights_rows() {
    let table = vec![vec![1, 1, 0, 0, 0, 0], vec![2, 0, 0, 0, 0, 0]];
    let (conditional, split) = attribute_entropy(&table);
    assert_eq!(conditional, ONE_BIT / 2);
    assert_eq!(split, ONE_BIT);
}

#[test]
fn attribute_entropy_of_empty_table() {
    let table = vec![vec![0; 6], vec![0; 6], vec![0; 6]];
    assert_eq!(attribute_entropy(&table), (0, 0));
    assert_eq!(attribute_entropy(&vec![]), (0, 0));
}

#[test]
fn attribute_entropy_single_row_has_no_split_info() {
    let table = vec![vec![0; 6], vec![2, 3, 0, 0, 0, 0], vec![0; 6]];
    let (conditional, split) = attribute_entropy(&table);
    assert_eq!(split, 0);
    assert_eq!(conditional, info_entropy(&vec![2, 3, 0, 0, 0, 0]));
}

#[test]
fn gain_ratio_with_zero_split_is_ineligible() {
    assert_eq!(gain_ratio(ONE_BIT, 0, 0), GainRatio::Ineligible);
    assert_eq!(gain_ratio(0, 0, 0), GainRatio::Ineligible);
}

#[test]
fn gain_ratio_is_gain_over_split() {
    assert_eq!(gain_ratio(5, 3, 2), GainRatio::Ratio { gain: 2, split: 2 });
    assert_eq!(gain_ratio(ONE_BIT, 0, ONE_BIT), GainRatio::Ratio { gain: ONE_BIT, split: ONE_BIT });
}

#[test]
fn gain_ratio_never_negative() {
    assert_eq!(gain_ratio(3, 5, 2), GainRatio::Ratio { gain: 0, split: 2 });
}

#[test]
fn ratios_order_as_fractions() {
    let half = GainRatio::Ratio { gain: 1, split: 2 };
    let two_quarters = GainRatio::Ratio { gain: 2, split: 4 };
    let third = GainRatio::Ratio { gain: 1, split: 3 };
    let none = GainRatio::Ineligible;
    assert!(half.is_greater(&third));
    assert!(!third.is_greater(&half));
    assert!(!half.is_greater(&two_quarters));
    assert!(!two_quarters.is_greater(&half));
    assert!(third.is_greater(&none));
    assert!(!none.is_greater(&third));
    assert!(!none.is_greater(&none));
    let zero = GainRatio::Ratio { gain: 0, split: 7 };
    assert!(zero.is_greater(&none));
    assert!(!zero.is_greater(&third));
    let big = GainRatio::Ratio { gain: u64::MAX, split: 1 };
    let bigger = GainRatio::Ratio { gain: u64::MAX, split: u64::MAX };
    assert!(big.is_greater(&bigger));
}

#[test]
fn log2_never_decreases() {
    let mut last = log2(1);
    for n in 2..20000u64 {
        let now = log2(n);
        assert!(last <= now);
        last = now;
    }
    for shift in 1..63 {
        let n = 1u64 << shift;
        assert!(log2(n - 1) <= log2(n));
        assert!(log2(n) <= log2(n + 1));
    }
}

#[test]
fn log2_lies_between_exponents() {
    for shift in 0..63u64 {
        let low = 1u64 << shift;
        for n in [low, low + low / 3, low + low / 2, (low - 1) + low] {
            assert!(shift * ONE_BIT <= log2(n));
            assert!(log2(n) < (shift + 1) * ONE_BIT);
        }
    }
}

#[test]
fn entropy_zero_exactly_for_one_present_cell() {
    for a in 0..6u64 {
        for b in 0..6u64 {
            for c in 0..6u64 {
                let present = [a, b, c].iter().filter(|x| **x != 0).count();
                let h = info_entropy(&vec![a, b, c, 0, 0, 0]);
                assert_eq!(h == 0, present <= 1);
            }
        }
    }
}

#[test]
fn rounding_can_lift_conditional_entropy_above_parent() {
    let table = vec![vec![1, 3, 0, 0, 0, 0], vec![2, 6, 0, 0, 0, 0]];
    let parent = info_entropy(&vec![3, 9, 0, 0, 0, 0]);
    let (conditional, split) = attribute_entropy(&table);
    assert_eq!(conditional, parent + 1);
    assert_eq!(gain_ratio(parent, conditional, split), GainRatio::Ratio { gain: 0, split });
}
