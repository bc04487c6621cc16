use magic_squares::composite_number::CompositeNumber;
use magic_squares::pythagorean_triples::PythagoreanTriples;
use std::sync::Mutex;

#[test]
fn it_can_advance_through_each_non_final_term_ensuring_lexical_ordering() {
    let pythagorean_triples = PythagoreanTriples::new(100);
    let mut composite_number = CompositeNumber::new(2..=3, 0..1000, pythagorean_triples);
    assert_eq!(composite_number.non_final_factors(), &[1, 5]);

    composite_number.next_non_final_term(1);
    assert_eq!(composite_number.non_final_factors(), &[1, 13]);

    composite_number.next_non_final_term(1);
    assert_eq!(composite_number.non_final_factors(), &[1, 17]);

    composite_number.next_non_final_term(0);
    assert_eq!(composite_number.non_final_factors(), &[5, 5]);
}

#[test]
fn it_returns_false_when_the_search_range_has_been_exhausted() {
    let pythagorean_triples = PythagoreanTriples::new(100);
    let mut composite_number = CompositeNumber::new(2..=3, 0..1000, pythagorean_triples);
    assert_eq!(composite_number.non_final_factors(), &[1, 5]);
    assert!(5 * 5 < 1000);

    assert!(composite_number.next_non_final_term(1));
    assert_eq!(composite_number.non_final_factors(), &[1, 13]);
    assert!(13 * 13 < 1000);

    assert!(composite_number.next_non_final_term(1));
    assert_eq!(composite_number.non_final_factors(), &[1, 17]);
    assert!(17 * 17 < 1000);

    assert!(composite_number.next_non_final_term(1));
    assert_eq!(composite_number.non_final_factors(), &[1, 29]);
    assert!(29 * 29 < 1000);

    assert!(!composite_number.next_non_final_term(1));
    assert_eq!(composite_number.non_final_factors(), &[1, 29]);
    assert!(37 * 37 >= 1000);

    assert!(composite_number.next_non_final_term(0));
    assert_eq!(composite_number.non_final_factors(), &[5, 5]);
    assert!(5 * 5 * 5 < 1000);

    assert!(!composite_number.next_non_final_term(0));
    assert_eq!(composite_number.non_final_factors(), &[5, 5]);
    assert!(13 * 13 * 13 >= 1000);
}

#[test]
fn it_sets_the_current_triple_of_each_non_final_term() {
    let pythagorean_triples = PythagoreanTriples::new(100);
    let mut composite_number = CompositeNumber::new(2..=3, 0..1000, pythagorean_triples);

    assert_eq!(composite_number.non_final_factors(), &[1, 5]);
    assert_eq!(composite_number.non_final_terms[0].current_triple, (0, 0, 1, 0));
    assert_eq!(composite_number.non_final_terms[1].current_triple, (3, 4, 5, 1));

    composite_number.next_non_final_term(1);
    assert_eq!(composite_number.non_final_factors(), &[1, 13]);
    assert_eq!(composite_number.non_final_terms[0].current_triple, (0, 0, 1, 0));
    assert_eq!(composite_number.non_final_terms[1].current_triple, (5, 12, 13, 1));

    composite_number.next_non_final_term(0);
    assert_eq!(composite_number.non_final_factors(), &[5, 5]);
    assert_eq!(composite_number.non_final_terms[0].current_triple, (3, 4, 5, 1));
    assert_eq!(composite_number.non_final_terms[1].current_triple, (3, 4, 5, 1));

    composite_number.next_non_final_term(1);
    assert_eq!(composite_number.non_final_factors(), &[5, 13]);
    assert_eq!(composite_number.non_final_terms[0].current_triple, (3, 4, 5, 1));
    assert_eq!(composite_number.non_final_terms[1].current_triple, (5, 12, 13, 2));
}

#[test]
fn it_calculates_the_cumulative_product_of_each_non_final_term() {
    let pythagorean_triples = PythagoreanTriples::new(100);
    let mut composite_number = CompositeNumber::new(2..=3, 0..1000, pythagorean_triples);

    assert_eq!(composite_number.non_final_factors(), &[1, 5]);
    assert_eq!(composite_number.non_final_terms[0].cumulative_product, 1);
    assert_eq!(composite_number.non_final_terms[1].cumulative_product, 5);

    composite_number.next_non_final_term(1);
    assert_eq!(composite_number.non_final_factors(), &[1, 13]);
    assert_eq!(composite_number.non_final_terms[0].cumulative_product, 1);
    assert_eq!(composite_number.non_final_terms[1].cumulative_product, 13);

    composite_number.next_non_final_term(0);
    assert_eq!(composite_number.non_final_factors(), &[5, 5]);
    assert_eq!(composite_number.non_final_terms[0].cumulative_product, 5);
    assert_eq!(composite_number.non_final_terms[1].cumulative_product, 25);

    composite_number.next_non_final_term(1);
    assert_eq!(composite_number.non_final_factors(), &[5, 13]);
    assert_eq!(composite_number.non_final_terms[0].cumulative_product, 5);
    assert_eq!(composite_number.non_final_terms[1].cumulative_product, 65);
}

#[test]
fn it_computes_the_triples_powerset_for_each_non_final_term() {
    let pythagorean_triples = PythagoreanTriples::new(100);
    let mut composite_number = CompositeNumber::new(2..=3, 0..1000, pythagorean_triples);

    assert_eq!(composite_number.non_final_factors(), &[1, 5]);
    assert_eq!(composite_number.non_final_terms[1].triples_powerset.a_values, &[3]);
    assert_eq!(composite_number.non_final_terms[1].triples_powerset.b_values, &[4]);
    assert_eq!(composite_number.non_final_terms[1].triples_powerset.c_values, &[5]);

    composite_number.next_non_final_term(1);
    assert_eq!(composite_number.non_final_factors(), &[1, 13]);
    assert_eq!(composite_number.non_final_terms[1].triples_powerset.a_values, &[5]);
    assert_eq!(composite_number.non_final_terms[1].triples_powerset.b_values, &[12]);
    assert_eq!(composite_number.non_final_terms[1].triples_powerset.c_values, &[13]);

    composite_number.next_non_final_term(0);
    assert_eq!(composite_number.non_final_factors(), &[5, 5]); // Duplicate factors.
    assert_eq!(composite_number.non_final_terms[0].triples_powerset.a_values, &[3]);
    assert_eq!(composite_number.non_final_terms[0].triples_powerset.b_values, &[4]);
    assert_eq!(composite_number.non_final_terms[0].triples_powerset.c_values, &[5]);

    assert_eq!(composite_number.non_final_terms[1].triples_powerset.a_values, &[3, 7, 25]);
    assert_eq!(composite_number.non_final_terms[1].triples_powerset.b_values, &[4, 24, 0]);
    assert_eq!(composite_number.non_final_terms[1].triples_powerset.c_values, &[5, 25, 25]);

    composite_number.next_non_final_term(1);
    assert_eq!(composite_number.non_final_factors(), &[5, 13]); // Distinct factors.
    assert_eq!(composite_number.non_final_terms[0].triples_powerset.a_values, &[3]);
    assert_eq!(composite_number.non_final_terms[0].triples_powerset.b_values, &[4]);
    assert_eq!(composite_number.non_final_terms[0].triples_powerset.c_values, &[5]);

    assert_eq!(composite_number.non_final_terms[1].triples_powerset.a_values, &[3, 5, 33, 63]);
    assert_eq!(composite_number.non_final_terms[1].triples_powerset.b_values, &[4, 12, 56, 16]);
    assert_eq!(composite_number.non_final_terms[1].triples_powerset.c_values, &[5, 13, 65, 65]);
}

#[test]
fn it_can_fully_exhaust_the_search_range() {
    let pythagorean_triples = PythagoreanTriples::new(100);
    let mut composite_number = CompositeNumber::new(2..=4, 485..1000, pythagorean_triples);
    assert_eq!(composite_number.non_final_factors(), &[1, 1, 5]);
    assert_eq!(composite_number.final_factors(), &[97, 101, 109, 113, 137, 149, 157, 173, 181, 193, 197]);

    assert!(composite_number.next_available_term());
    assert_eq!(composite_number.non_final_factors(), &[1, 1, 13]);
    assert_eq!(composite_number.final_factors(), &[41, 53, 61, 73]);

    assert!(composite_number.next_available_term());
    assert_eq!(composite_number.non_final_factors(), &[1, 1, 17]);
    assert_eq!(composite_number.final_factors(), &[29, 37, 41, 53]);

    assert!(composite_number.next_available_term());
    assert_eq!(composite_number.non_final_factors(), &[1, 1, 29]);
    assert_eq!(composite_number.final_factors(), &[29]);

    assert!(composite_number.next_available_term());
    assert_eq!(composite_number.non_final_factors(), &[1, 5, 5]);
    assert_eq!(composite_number.final_factors(), &[29, 37]);

    assert!(composite_number.next_available_term());
    assert_eq!(composite_number.non_final_factors(), &[1, 5, 13]);
    assert_eq!(composite_number.final_factors(), &[13]);

    assert!(composite_number.next_available_term());
    assert_eq!(composite_number.non_final_factors(), &[5, 5, 5]);
    assert_eq!(composite_number.final_factors(), &[5]);

    assert!(!composite_number.next_available_term());
    assert_eq!(composite_number.non_final_factors(), &[5, 5, 5]);
    assert_eq!(composite_number.final_factors(), &[5]);
}

#[test]
fn it_can_enumerate_all_final_terms_in_the_search_range_and_yield_magic_triples() {
    let pythagorean_triples = PythagoreanTriples::new(100);
    let mut composite_number = CompositeNumber::new(2..=3, 0..150, pythagorean_triples);
    assert_eq!(composite_number.non_final_factors(), &[1, 5]);

    let callbacks = Mutex::new(vec![]);
    composite_number.for_each_final_term(|primitive_start, a_values, b_values, c| {
        callbacks.lock().unwrap().push((primitive_start, a_values.to_vec(), b_values.to_vec(), c))
    });

    let mut callbacks = callbacks.into_inner().unwrap();
    callbacks.sort_by_key(|&(_, _, _, c)| c);
    assert_eq!(callbacks.len(), 4);

                                   // a_values                  b_values          c
    assert_eq!(callbacks[0], (2, vec![31, 35],             vec![17, 5],           25));
    assert_eq!(callbacks[1], (2, vec![85, 91, 79, 89],     vec![35, 13, 47, 23],  65));
    assert_eq!(callbacks[2], (2, vec![115, 119, 97, 113],  vec![35, 17, 71, 41],  85));
    assert_eq!(callbacks[3], (2, vec![203, 205, 161, 167], vec![29, 5, 127, 119], 145));
}

#[test]
fn it_can_enumerate_all_composite_numbers_in_the_search_range_and_yield_magic_triples() {
    let pythagorean_triples = PythagoreanTriples::new(100);
    let mut composite_number = CompositeNumber::new(2..=3, 0..150, pythagorean_triples);

    let callbacks = Mutex::new(vec![]);
    composite_number.for_each_in_search_range(|primitive_start, a_values, b_values, c| {
        callbacks.lock().unwrap().push((primitive_start, a_values.to_vec(), b_values.to_vec(), c))
    });

    let mut callbacks = callbacks.into_inner().unwrap();
    callbacks.sort_by_key(|&(_, _, _, c)| c);
    assert_eq!(callbacks.len(), 5);

    // These triples are for 1 x 5 x final_term (the same as the test above).
    assert_eq!(callbacks[0], (2, vec![31, 35],             vec![17, 5],           25));
    assert_eq!(callbacks[1], (2, vec![85, 91, 79, 89],     vec![35, 13, 47, 23],  65));
    assert_eq!(callbacks[2], (2, vec![115, 119, 97, 113],  vec![35, 17, 71, 41],  85));
    assert_eq!(callbacks[4], (2, vec![203, 205, 161, 167], vec![29, 5, 127, 119], 145));

    // These triples are for 5 x 5 x final_term.
    assert_eq!(callbacks[3], (3, vec![155, 161, 175], vec![85, 73, 25], 125));
}
