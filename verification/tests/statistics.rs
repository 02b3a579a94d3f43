use report_builder::ecdf::{ecdf, interpolate_ecdf};
use report_builder::error::PlotError;
use report_builder::fraction::Fraction;
use report_builder::label::{partition, Label, DECOY, TARGET};
use report_builder::order::sorted_copy;
use report_builder::pi0::{
    estimate_pi0, format_three_decimals, pi0_label, round_to_thousandths,
};

/// An integer that orders as the number does.
fn key(x: f64) -> i64 {
    let x = if x == 0.0 { 0.0 } else { x };
    let bits = x.to_bits() as i64;
    bits ^ ((((bits >> 63) as u64) >> 1) as i64)
}

/// The number that a key stands for.
fn unkey(k: i64) -> f64 {
    let bits = k ^ ((((k >> 63) as u64) >> 1) as i64);
    f64::from_bits(bits as u64)
}

fn keys(values: &[f64]) -> Vec<i64> {
    values.iter().map(|v| key(*v)).collect()
}

fn numbers(ks: &[i64]) -> Vec<f64> {
    ks.iter().map(|k| unkey(*k)).collect()
}

fn value(f: &Fraction) -> f64 {
    f.num as f64 / f.den as f64
}

fn frac(num: usize, den: usize) -> Fraction {
    Fraction { num, den }
}

#[test]
fn keys_order_as_the_numbers_do() {
    let values = [-1.0e300, -2.5, -1.0, -1.0e-300, 0.0, 1.0e-300, 0.1, 1.0, 3.5, 1.0e300];
    for pair in values.windows(2) {
        assert!(key(pair[0]) < key(pair[1]));
    }
    for v in values {
        assert_eq!(unkey(key(v)), v);
    }
    assert_eq!(key(-0.0), key(0.0));
}

#[test]
fn partition_keeps_the_order_within_each_class() {
    let scores = keys(&[1.0, 2.0, 3.0, 4.0]);
    let labels = vec![1, -1, 1, -1];
    let (targets, decoys) = partition(&scores, &labels).unwrap();
    assert_eq!(numbers(&targets), vec![1.0, 3.0]);
    assert_eq!(numbers(&decoys), vec![2.0, 4.0]);
}

#[test]
fn partition_does_not_sort() {
    let scores = keys(&[9.0, 1.0, 5.0, 3.0, 7.0]);
    let labels = vec![1, 1, -1, 1, -1];
    let (targets, decoys) = partition(&scores, &labels).unwrap();
    assert_eq!(numbers(&targets), vec![9.0, 1.0, 3.0]);
    assert_eq!(numbers(&decoys), vec![5.0, 7.0]);
}

#[test]
fn partition_of_nothing_is_two_empty_classes() {
    let (targets, decoys) = partition(&Vec::new(), &Vec::new()).unwrap();
    assert!(targets.is_empty());
    assert!(decoys.is_empty());
}

#[test]
fn partition_rejects_unequal_lengths() {
    assert_eq!(
        partition(&keys(&[1.0, 2.0]), &vec![1]),
        Err(PlotError::LengthMismatch)
    );
    assert_eq!(
        partition(&keys(&[1.0]), &vec![1, -1]),
        Err(PlotError::LengthMismatch)
    );
}

#[test]
fn partition_rejects_a_label_outside_the_classes() {
    for bad in [0, 2, -2, i32::MAX, i32::MIN] {
        assert_eq!(
            partition(&keys(&[1.0, 2.0, 3.0]), &vec![1, bad, -1]),
            Err(PlotError::InvalidLabel)
        );
    }
    assert_eq!(
        partition(&keys(&[1.0, 2.0]), &vec![1, 0, 0]),
        Err(PlotError::LengthMismatch)
    );
}

#[test]
fn labels_and_codes_correspond() {
    assert_eq!(TARGET, 1);
    assert_eq!(DECOY, -1);
    assert_eq!(Label::from_code(1), Ok(Label::Target));
    assert_eq!(Label::from_code(-1), Ok(Label::Decoy));
    assert_eq!(Label::from_code(0), Err(PlotError::InvalidLabel));
    assert_eq!(Label::Target.code(), 1);
    assert_eq!(Label::Decoy.code(), -1);
}

#[test]
fn error_messages_differ() {
    let all = [
        PlotError::LengthMismatch,
        PlotError::InvalidLabel,
        PlotError::EmptySample,
    ];
    assert_eq!(
        PlotError::InvalidLabel.message(),
        "labels must be 1 for targets and -1 for decoys"
    );
    for a in all {
        for b in all {
            assert_eq!(a == b, a.message() == b.message());
        }
    }
}

#[test]
fn sorted_copy_sorts_and_leaves_the_input() {
    let input = keys(&[3.0, -1.0, 2.0, 2.0, 10.0, 0.0, -7.5]);
    let before = input.clone();
    let sorted = sorted_copy(&input);
    assert_eq!(numbers(&sorted), vec![-7.5, -1.0, 0.0, 2.0, 2.0, 3.0, 10.0]);
    assert_eq!(input, before);
    assert_eq!(sorted_copy(&Vec::new()), Vec::<i64>::new());
    assert_eq!(sorted_copy(&vec![5]), vec![5]);
}

#[test]
fn sorted_copy_agrees_with_the_standard_sort() {
    let mut state: u64 = 0x2545_f491_4f6c_dd1d;
    for len in [0usize, 1, 2, 3, 7, 64, 257, 1000] {
        let mut input = Vec::new();
        for _ in 0..len {
            state ^= state << 13;
            state ^= state >> 7;
            state ^= state << 17;
            input.push((state % 50) as i64 - 25);
        }
        let mut expected = input.clone();
        expected.sort();
        assert_eq!(sorted_copy(&input), expected);
    }
}

#[test]
fn ecdf_ranks_the_sorted_values() {
    let sample = keys(&[3.0, 1.0, 2.0]);
    let e = ecdf(&sample).unwrap();
    assert_eq!(numbers(e.x()), vec![1.0, 2.0, 3.0]);
    assert_eq!(*e.y(), vec![frac(1, 3), frac(2, 3), frac(3, 3)]);
    let y: Vec<f64> = e.y().iter().map(value).collect();
    assert_eq!(y, vec![1.0 / 3.0, 2.0 / 3.0, 1.0]);
    assert_eq!(e.len(), 3);
    assert_eq!(unkey(e.min()), 1.0);
    assert_eq!(unkey(e.max()), 3.0);
    assert_eq!(numbers(&sample), vec![3.0, 1.0, 2.0]);
}

#[test]
fn ecdf_shape_holds_on_a_sample() {
    let sample = keys(&[0.3, -2.0, 5.5, 0.3, 9.0, 1.0, 1.0, 1.0]);
    let e = ecdf(&sample).unwrap();
    let n = sample.len();
    assert_eq!(e.x().len(), n);
    assert_eq!(e.y().len(), n);
    assert!(e.x().windows(2).all(|w| w[0] <= w[1]));
    let y: Vec<f64> = e.y().iter().map(value).collect();
    assert!(y.windows(2).all(|w| w[0] <= w[1]));
    assert_eq!(y[n - 1], 1.0);
    assert!(y.iter().all(|v| 0.0 < *v && *v <= 1.0));
}

#[test]
fn ecdf_gives_tied_values_their_own_ranks() {
    let e = ecdf(&keys(&[2.0, 1.0, 2.0, 2.0])).unwrap();
    assert_eq!(numbers(e.x()), vec![1.0, 2.0, 2.0, 2.0]);
    assert_eq!(*e.y(), vec![frac(1, 4), frac(2, 4), frac(3, 4), frac(4, 4)]);
}

#[test]
fn ecdf_of_one_value_is_one() {
    let e = ecdf(&keys(&[4.5])).unwrap();
    assert_eq!(numbers(e.x()), vec![4.5]);
    assert_eq!(*e.y(), vec![frac(1, 1)]);
}

#[test]
fn ecdf_rejects_an_empty_sample() {
    assert_eq!(ecdf(&Vec::new()).err(), Some(PlotError::EmptySample));
}

#[test]
fn interpolation_at_the_own_points_gives_the_own_fractions() {
    let e = ecdf(&keys(&[5.0, 1.0, 3.0, 2.0])).unwrap();
    let at_own = interpolate_ecdf(&e, e.x());
    assert_eq!(at_own, *e.y());
}

#[test]
fn interpolation_at_a_tied_value_takes_its_first_rank() {
    let e = ecdf(&keys(&[1.0, 1.0, 2.0])).unwrap();
    let at_own = interpolate_ecdf(&e, e.x());
    assert_eq!(at_own, vec![frac(1, 3), frac(1, 3), frac(3, 3)]);
}

#[test]
fn interpolation_below_the_minimum_and_above_the_maximum() {
    let e = ecdf(&keys(&[10.0, 20.0, 30.0, 40.0])).unwrap();
    let out = interpolate_ecdf(&e, &keys(&[-5.0, 9.999, 10.0, 40.0, 40.001, 1.0e9]));
    assert_eq!(
        out,
        vec![
            frac(1, 4),
            frac(1, 4),
            frac(1, 4),
            frac(4, 4),
            frac(4, 4),
            frac(4, 4)
        ]
    );
    assert_eq!(value(&out[0]), 0.25);
    assert_eq!(value(&out[5]), 1.0);
}

#[test]
fn interpolation_steps_to_the_next_sample_value() {
    let e = ecdf(&keys(&[10.0, 20.0, 30.0, 40.0])).unwrap();
    let queries = keys(&[35.0, 10.5, 20.0, 29.0, 30.0, 15.0]);
    let out = interpolate_ecdf(&e, &queries);
    assert_eq!(
        out,
        vec![
            frac(4, 4),
            frac(2, 4),
            frac(2, 4),
            frac(3, 4),
            frac(3, 4),
            frac(2, 4)
        ]
    );
    assert_eq!(e.value_at(key(35.0)), frac(4, 4));
    assert_eq!(e.locate(key(35.0)), 3);
    assert_eq!(e.locate(key(100.0)), 3);
    assert_eq!(e.locate(key(0.0)), 0);
}

#[test]
fn interpolation_agrees_with_a_linear_scan() {
    let sample = keys(&[0.5, 0.5, 1.5, 2.0, 2.0, 2.0, 7.0, 9.5]);
    let e = ecdf(&sample).unwrap();
    let queries: Vec<f64> = (-4..44).map(|i| i as f64 * 0.25).collect();
    let out = interpolate_ecdf(&e, &keys(&queries));
    let x = numbers(e.x());
    for (q, got) in queries.iter().zip(out.iter()) {
        let idx = x.iter().position(|xv| xv >= q).unwrap_or(x.len() - 1);
        assert_eq!(*got, e.y()[idx]);
    }
}

#[test]
fn interpolation_of_no_queries_is_empty() {
    let e = ecdf(&keys(&[1.0])).unwrap();
    assert!(interpolate_ecdf(&e, &Vec::new()).is_empty());
}

#[test]
fn pi0_is_the_ratio_of_decoys_to_targets() {
    let mut labels = vec![1; 5];
    labels.extend(vec![-1; 10]);
    let pi0 = estimate_pi0(&labels).unwrap();
    assert_eq!(pi0, frac(10, 5));
    assert_eq!(value(&pi0), 2.0);
}

#[test]
fn pi0_without_targets_is_an_error() {
    assert_eq!(estimate_pi0(&vec![-1; 10]), Err(PlotError::EmptySample));
    assert_eq!(estimate_pi0(&Vec::new()), Err(PlotError::EmptySample));
}

#[test]
fn pi0_without_decoys_is_zero() {
    assert_eq!(estimate_pi0(&vec![1, 1, 1]), Ok(frac(0, 3)));
}

#[test]
fn pi0_rejects_a_label_outside_the_classes() {
    assert_eq!(estimate_pi0(&vec![1, 0, -1]), Err(PlotError::InvalidLabel));
    assert_eq!(estimate_pi0(&vec![-1, 3]), Err(PlotError::InvalidLabel));
}

#[test]
fn three_decimals_are_exact_on_examples() {
    assert_eq!(format_three_decimals(frac(10, 5)), "2.000");
    assert_eq!(format_three_decimals(frac(0, 7)), "0.000");
    assert_eq!(format_three_decimals(frac(1, 3)), "0.333");
    assert_eq!(format_three_decimals(frac(2, 3)), "0.667");
    assert_eq!(format_three_decimals(frac(1, 8)), "0.125");
    assert_eq!(format_three_decimals(frac(12345, 10)), "1234.500");
    assert_eq!(format_three_decimals(frac(9999, 10000)), "1.000");
    assert_eq!(format_three_decimals(frac(1, 1000)), "0.001");
    assert_eq!(format_three_decimals(frac(1, 2001)), "0.000");
    assert_eq!(format_three_decimals(frac(7, 1)), "7.000");
}

#[test]
fn three_decimals_of_an_exact_half_go_to_the_even_thousandth() {
    // Sixteenths are binary fractions: the halves are exact.
    assert_eq!(format_three_decimals(frac(1, 16)), "0.062");
    assert_eq!(format_three_decimals(frac(3, 16)), "0.188");
    assert_eq!(format_three_decimals(frac(5, 16)), "0.312");
    assert_eq!(format_three_decimals(frac(7, 16)), "0.438");
    assert_eq!(format_three_decimals(frac(17, 16)), "1.062");
    assert_eq!(round_to_thousandths(frac(1, 16)), 62);
    assert_eq!(round_to_thousandths(frac(3, 16)), 188);
    assert_eq!(round_to_thousandths(frac(5, 2)), 2500);
}

#[test]
fn three_decimals_of_a_half_that_is_no_binary_fraction_follow_the_binary_quotient() {
    assert_eq!(format_three_decimals(frac(1, 80)), "0.013");
    assert_eq!(format_three_decimals(frac(3, 80)), "0.037");
    assert_eq!(format_three_decimals(frac(1, 400)), "0.003");
    assert_eq!(format_three_decimals(frac(1, 2000)), "0.001");
    assert_eq!(round_to_thousandths(frac(1, 80)), 13);
    for (num, den) in [(1usize, 80usize), (3, 80), (1, 400), (1, 2000), (3, 2000), (9, 2000)] {
        let expected = format!("{:.3}", num as f64 / den as f64);
        assert_eq!(format_three_decimals(frac(num, den)), expected);
    }
}

#[test]
fn three_decimals_match_the_float_rendering() {
    for den in 1usize..=2000 {
        for num in 0usize..=40 {
            let expected = format!("{:.3}", num as f64 / den as f64);
            assert_eq!(format_three_decimals(frac(num, den)), expected);
        }
    }
    for den in 1usize..=80 {
        for num in 0usize..=4000 {
            let expected = format!("{:.3}", num as f64 / den as f64);
            assert_eq!(format_three_decimals(frac(num, den)), expected);
        }
    }
}

#[test]
fn three_decimals_match_the_float_rendering_on_every_half() {
    // Every ratio k / 2000 with odd k lies halfway between two thousandths.
    for k in (1usize..20_000).step_by(2) {
        let expected = format!("{:.3}", k as f64 / 2000.0);
        assert_eq!(format_three_decimals(frac(k, 2000)), expected);
    }
    for den in [80usize, 400, 2000, 16_000, 1_000_000] {
        for num in 1usize..=3000 {
            let expected = format!("{:.3}", num as f64 / den as f64);
            assert_eq!(format_three_decimals(frac(num, den)), expected);
        }
    }
}

#[test]
fn three_decimals_match_the_float_rendering_on_scattered_counts() {
    let mut state: u64 = 0x9e37_79b9_7f4a_7c15;
    let mut draw = || {
        state ^= state << 13;
        state ^= state >> 7;
        state ^= state << 17;
        state
    };
    for _ in 0..20_000 {
        let shift_n = draw() % 64;
        let shift_d = draw() % 64;
        let num = (draw() >> shift_n) as usize;
        let den = ((draw() >> shift_d) as usize).max(1);
        let expected = format!("{:.3}", num as f64 / den as f64);
        assert_eq!(format_three_decimals(frac(num, den)), expected);
    }
}

#[test]
fn three_decimals_of_the_largest_counts() {
    let big = 1usize << 53;
    let cases = [
        (usize::MAX, 1),
        (usize::MAX, usize::MAX),
        (1, usize::MAX),
        (usize::MAX, 3),
        (usize::MAX - 1024, 7),
        (big + 1, 1),
        (big + 3, 1),
        (big + 1, big),
        (3, big + 1),
        (big * 2 + 2, 3),
        (big * 2 + 6, big + 3),
        (usize::MAX / 3, usize::MAX / 5),
    ];
    for (num, den) in cases {
        let expected = format!("{:.3}", num as f64 / den as f64);
        assert_eq!(format_three_decimals(frac(num, den)), expected);
    }
    assert_eq!(format_three_decimals(frac(usize::MAX, usize::MAX)), "1.000");
    assert_eq!(format_three_decimals(frac(1, usize::MAX)), "0.000");
}

#[test]
fn pi0_label_has_the_words_and_the_number() {
    assert_eq!(pi0_label(frac(10, 5)), "Estimated π₀ = 2.000");
    assert_eq!(pi0_label(frac(1, 3)), "Estimated π₀ = 0.333");
}
