use magic_squares::args::{Args, ConfigurationError};
use magic_squares::composite_number::{integer_root, max_value_for_term, update_triples_powerset, CompositeNumber};
use magic_squares::magic_hourglass::detect_magic_hourglass;
use magic_squares::magic_patterns::{check_magic_patterns, check_pattern_3_and_4, is_known_solution};
use magic_squares::pattern_1::check_pattern_1;
use magic_squares::patterns_16::check_patterns_1_and_6;
use magic_squares::pythagorean_triples::{PythagoreanTriples, TemporaryBuffer, TOP_BIT};
use magic_squares::squares::is_square;
use magic_squares::MagicError;

fn is_perfect(n: u128) -> bool {
    let r = (n as f64).sqrt() as u128;
    (r.saturating_sub(2)..r + 3).any(|k| k * k == n)
}

#[test]
fn kernel_rejects_primes_of_the_wrong_class_and_composites() {
    assert_eq!(PythagoreanTriples::compute(7), Err(MagicError::Logic));
    assert_eq!(PythagoreanTriples::compute(9), Err(MagicError::Logic));
    assert_eq!(PythagoreanTriples::compute(0), Err(MagicError::Logic));
}

#[test]
fn kernel_steps_give_the_square_root_of_minus_one_and_the_two_squares() {
    assert_eq!(PythagoreanTriples::modular_sqrt_of_one_less_than(13), Ok(8));
    assert_eq!(PythagoreanTriples::modified_euclidean_algorithm(13, 8), Ok((3, 2)));
    assert_eq!(PythagoreanTriples::modified_euclidean_algorithm(13, 5), Ok((3, 2)));
}

#[test]
fn every_kernel_result_is_a_triple_with_positive_legs() {
    for p in [5u64, 13, 17, 21, 25, 29, 37, 41, 45, 53, 61, 73, 89, 97, 101, 1_000_000_009] {
        if let Ok((a, b)) = PythagoreanTriples::compute(p) {
            assert!(a > 0 && b > 0);
            assert_eq!((a as u128) * (a as u128) + (b as u128) * (b as u128), (p as u128) * (p as u128));
        }
    }
}

#[test]
fn table_is_ascending_in_primes_congruent_to_one() {
    let table = PythagoreanTriples::new(30);
    assert_eq!(table.len(), 30);
    for i in 0..table.len() {
        assert_eq!(table.c_values[i] % 4, 1);
        assert_eq!(table.factors[i], 0);
        if i > 0 {
            assert!(table.c_values[i - 1] < table.c_values[i]);
        }
    }
}

#[test]
fn product_flags_shared_factors_only() {
    let mut stored = PythagoreanTriples::with_capacity(1);
    stored.push((3, 4, 5, 0b01));
    let mut output = PythagoreanTriples::with_capacity(2);
    stored.product((5, 12, 13, 0b10), &mut output);
    assert_eq!(output.a_values, vec![33, 63]);
    assert_eq!(output.b_values, vec![56, 16]);
    assert_eq!(output.c_values, vec![65, 65]);
    assert_eq!(output.factors, vec![0b11, 0b11]);

    let mut output = PythagoreanTriples::with_capacity(2);
    stored.product((3, 4, 5, 0b01), &mut output);
    assert_eq!(output.factors, vec![TOP_BIT | 0b01, TOP_BIT | 0b01]);
}

#[test]
fn remove_trivial_on_an_empty_array_keeps_it_empty() {
    let mut triples = PythagoreanTriples::with_capacity(0);
    let mut buffer = TemporaryBuffer::default();
    triples.remove_trivial(&mut buffer);
    assert_eq!(triples.len(), 0);
}

#[test]
fn sort_by_c_and_a_orders_strictly() {
    let mut triples = PythagoreanTriples::with_capacity(4);
    let mut buffer = TemporaryBuffer::default();
    triples.push((63, 16, 65, 3));
    triples.push((5, 12, 13, 2));
    triples.push((33, 56, 65, 3));
    triples.push((5, 12, 13, 2));
    triples.sort_and_dedup_by_c_and_a(&mut buffer);
    assert_eq!(triples.a_values, vec![5, 33, 63]);
    assert_eq!(triples.c_values, vec![13, 65, 65]);
}

#[test]
fn magic_triples_scale_by_the_cofactor() {
    let mut triples = PythagoreanTriples::with_capacity(2);
    triples.push((3, 4, 5, 1));
    triples.push((33, 56, 65, 3));
    triples.into_magic_triples(65);
    assert_eq!(triples.a_values, vec![91, 89]);
    assert_eq!(triples.b_values, vec![13, 23]);
    assert_eq!(triples.factors, vec![TOP_BIT | 1, 3]);
    for i in 0..2 {
        let (a, b) = (triples.a_values[i], triples.b_values[i]);
        assert_eq!(a * a + b * b, 2 * 65 * 65);
    }
}

#[test]
fn primitive_start_is_the_length_when_all_are_flagged() {
    let mut triples = PythagoreanTriples::with_capacity(2);
    triples.push((1, 1, 1, TOP_BIT));
    triples.push((1, 1, 1, TOP_BIT | 4));
    assert_eq!(triples.primitive_start(), 2);
}

#[test]
fn roots_and_term_bounds() {
    assert_eq!(integer_root(999, 3), 9);
    assert_eq!(integer_root(1000, 3), 10);
    assert_eq!(integer_root(0, 5), 0);
    assert_eq!(max_value_for_term(1, 3, 5, 999), 14);
    assert_eq!(max_value_for_term(2, 3, 5, 999), 199);
    assert_eq!(max_value_for_term(0, 4, 1, 999), 5);
}

#[test]
fn successive_placements_increase_lexicographically_within_the_window() {
    let table = PythagoreanTriples::new(100);
    let mut composite_number = CompositeNumber::new(2..=4, 0..5000, table);
    let mut previous = composite_number.non_final_factors();
    while composite_number.next_available_term() {
        let current = composite_number.non_final_factors();
        assert!(previous < current);
        assert!(current.windows(2).all(|w| w[0] <= w[1]));
        let product: u64 = current.iter().product();
        for c in composite_number.final_factors() {
            assert!(c >= *current.last().unwrap());
            assert!(product * c < 5000);
        }
        previous = current;
    }
}

#[test]
fn next_search_range_doubles_the_window_and_restarts() {
    let table = PythagoreanTriples::new(100);
    let mut composite_number = CompositeNumber::new(2..=3, 0..150, table);
    assert!(composite_number.next_search_range());
    assert_eq!(composite_number.search_range, 150..300);
    assert_eq!(composite_number.non_final_factors(), &[1, 5]);
    assert_eq!(composite_number.final_factors(), &[37, 41, 53]);
}

#[test]
fn final_term_magic_triples_for_twenty_five() {
    let table = PythagoreanTriples::new(100);
    let composite_number = CompositeNumber::new(2..=3, 0..150, table);
    let mut powerset = PythagoreanTriples::with_capacity(0);
    let mut buffer = TemporaryBuffer::default();
    let index = composite_number.final_term_start_index;
    let c = composite_number.final_term_magic_triples(index, &mut powerset, &mut buffer);
    assert_eq!(c, 25);
    assert_eq!(powerset.a_values, vec![31, 35]);
    assert_eq!(powerset.b_values, vec![17, 5]);
    assert_eq!(powerset.primitive_start(), 2);
}

#[test]
fn squares_are_recognised() {
    assert!(is_square(0));
    assert!(is_square(1));
    assert!(is_square(16));
    assert!(!is_square(15));
    assert!(!is_square(2));
    assert!(is_square(u64::MAX as u128 * u64::MAX as u128));
    assert!(!is_square(u64::MAX as u128 * u64::MAX as u128 - 1));
}

#[test]
fn hourglass_reports_three_squares_summing_to_the_magic_sum() {
    let hits = detect_magic_hourglass(0, &[5, 7], &[5, 1], 5);
    assert_eq!(hits, vec![(49, 1, 25, 75)]);
    let hits = detect_magic_hourglass(1, &[7, 5], &[1, 5], 5);
    assert_eq!(hits, vec![(25, 1, 49, 75), (25, 1, 49, 75)]);
    let hits = detect_magic_hourglass(0, &[1, 1, 1], &[1, 1, 1], 1);
    assert_eq!(hits.len(), 10);
    for (s1, s2, s3, m) in hits {
        assert_eq!(s1 + s2 + s3, m);
        assert_eq!(m, 3);
    }
}

#[test]
fn hourglass_over_separate_lists() {
    let hits = check_pattern_1(0, &[5, 7], &[5, 1], 5);
    assert_eq!(hits, vec![(25, 25, 25, 75), (49, 1, 25, 75), (49, 25, 1, 75), (49, 25, 1, 75)]);
    let hits = check_pattern_1(1, &[7, 5], &[1, 5], 5);
    assert_eq!(hits.len(), 5);
    for (s1, s2, s3, m) in hits {
        assert_eq!(s1 + s2 + s3, m);
        assert!(is_perfect(s1) && is_perfect(s2) && is_perfect(s3));
    }
}

#[test]
fn hourglass_on_the_845_magic_triples_sums_correctly() {
    let a = [1183, 953, 959, 1027, 1105, 1157, 1183, 1195];
    let b = [169, 721, 713, 611, 455, 299, 169, 5];
    for (s1, s2, s3, m) in detect_magic_hourglass(3, &a, &b, 845) {
        assert_eq!(s1 + s2 + s3, m);
        assert_eq!(m, 3 * 845 * 845);
    }
}

#[test]
fn patterns_one_and_six_report_only_consistent_grids() {
    for (ps, a, b, c) in [
        (2usize, vec![85u64, 91, 79, 89], vec![35u64, 13, 47, 23], 65u64),
        (3, vec![155, 161, 175], vec![85, 73, 25], 125),
        (0, vec![5, 7], vec![5, 1], 5),
    ] {
        for g in check_patterns_1_and_6(ps, &a, &b, c) {
            let m = 3 * (c as u128) * (c as u128);
            assert_eq!(g[4], (c as u128) * (c as u128));
            assert_eq!(g[0] + g[1] + g[2], m);
            assert_eq!(g[6] + g[7] + g[8], m);
            assert_eq!(g[0] + g[3] + g[6], m);
            assert_eq!(g[2] + g[5] + g[8], m);
            assert!(g.iter().filter(|&&v| is_perfect(v)).count() >= 7);
        }
    }
}

#[test]
fn patterns_two_to_four_report_square_cells() {
    let a = [85u64, 91, 79, 89, 155, 161, 175];
    let b = [35u64, 13, 47, 23, 85, 73, 25];
    for g in check_magic_patterns(&a, &b, 65, false) {
        assert_eq!(g[4], 65 * 65);
        assert!(g.iter().all(|&v| is_perfect(v)));
    }
}

#[test]
fn known_family_is_hidden_when_asked() {
    assert!(is_known_solution(425));
    assert!(is_known_solution(850));
    assert!(!is_known_solution(845));
    assert!(check_magic_patterns(&[601, 425], &[23, 425], 425, true).is_empty());
}

#[test]
fn arguments_are_validated_in_order() {
    let ok = Args { from: 3, stride: 72, threads: 1 };
    assert_eq!(ok.validate(), Ok(()));
    assert_eq!(Args { from: 4, stride: 72, threads: 1 }.validate(), Err(ConfigurationError::From));
    assert_eq!(Args { from: 75, stride: 0, threads: 1 }.validate(), Err(ConfigurationError::Stride));
    assert_eq!(Args { from: 75, stride: 100, threads: 1 }.validate(), Err(ConfigurationError::Stride));
    assert_eq!(Args { from: 147, stride: 144, threads: 0 }.validate(), Err(ConfigurationError::Threads));
}

#[test]
fn powerset_step_lists_the_triple_the_previous_powerset_and_their_combinations() {
    let mut previous = PythagoreanTriples::with_capacity(1);
    previous.push((3, 4, 5, 1));
    let mut current = PythagoreanTriples::with_capacity(0);
    update_triples_powerset(&mut current, (5, 12, 13, 2), Some(&previous));
    assert_eq!(current.a_values, vec![5, 3, 33, 63]);
    assert_eq!(current.b_values, vec![12, 4, 56, 16]);
    assert_eq!(current.c_values, vec![13, 5, 65, 65]);
    assert_eq!(current.factors, vec![2, 1, 3, 3]);

    update_triples_powerset(&mut current, (3, 4, 5, 1), None);
    assert_eq!(current.a_values, vec![3]);
}

#[test]
fn pattern_three_and_four_fallback_uses_the_layout_of_its_right_square() {
    let mut grids: Vec<[u128; 9]> = Vec::new();
    check_pattern_3_and_4(0, 1, 9, 200, 98, 25, 100, 6, &mut grids);
    assert_eq!(grids, vec![[0, 0, 98, 1, 25, 200, 9, 4, 0]]);
}

#[test]
fn table_of_one_prime_and_its_self_product() {
    let mut triples = PythagoreanTriples::new(1);
    assert_eq!((triples.a_values[0], triples.b_values[0], triples.c_values[0]), (3, 4, 5));
    triples.factors.resize(2, 0);
    let mut output = PythagoreanTriples::with_capacity(2);
    triples.product((3, 4, 5, 1), &mut output);
    assert_eq!(output.a_values, vec![7, 25]);
    assert_eq!(output.b_values, vec![24, 0]);
}
