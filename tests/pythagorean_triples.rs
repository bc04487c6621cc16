use magic_squares::pythagorean_triples::{PythagoreanTriples, TemporaryBuffer, TOP_BIT};

#[test]
fn it_can_compute_the_primitive_pythagorean_triple_for_a_pythagorean_prime() {
    assert_eq!(PythagoreanTriples::compute(5), Ok((3, 4)));
    assert_eq!(PythagoreanTriples::compute(13), Ok((5, 12)));
    assert_eq!(PythagoreanTriples::compute(17), Ok((15, 8)));

    let pythagorean_primes = primal::Primes::all().filter(|p| p % 4 == 1);

    for c in pythagorean_primes.take(100) {
        let (a, b) = PythagoreanTriples::compute(c as u64).unwrap();
        assert_eq!(a * a + b * b, (c * c) as u64);
    }
}

#[test]
fn it_can_compute_the_first_n_primitive_pythagorean_triples() {
    let triples = PythagoreanTriples::new(100);
    assert_eq!(triples.len(), 100);

    assert_eq!(&triples.a_values[0..5], &[3, 5, 15, 21, 35]);
    assert_eq!(&triples.b_values[0..5], &[4, 12, 8, 20, 12]);
    assert_eq!(&triples.c_values[0..5], &[5, 13, 17, 29, 37]);

    for i in 0..triples.len() {
        let a = triples.a_values[i];
        let b = triples.b_values[i];
        let c = triples.c_values[i];
        assert_eq!(a * a + b * b, c * c);
    }
}

#[test]
fn it_can_calculate_the_product_of_primitive_triples() {
    let mut triples = PythagoreanTriples::new(100);
    let mut output = PythagoreanTriples::with_capacity(203);

    // Stub factors for this test.
    triples.factors.resize(203, 0);

    // Existing triples in output should be preserved.
    output.push((3, 4, 5, 1));
    output.push((5, 12, 13, 2));
    output.push((15, 8, 17, 3));

    triples.product((3, 4, 5, 1), &mut output);
    assert_eq!(output.len(), 203);

    assert_eq!(&output.a_values[0..8], &[3, 5, 15, 7, 33, 13, 17, 57]);
    assert_eq!(&output.b_values[0..8], &[4, 12, 8, 24, 56, 84, 144, 176]);
    assert_eq!(&output.c_values[0..8], &[5, 13, 17, 25, 65, 85, 145, 185]);

    for i in 0..output.len() {
        let a = output.a_values[i];
        let b = output.b_values[i];
        let c = output.c_values[i];
        assert_eq!(a * a + b * b, c * c);
    }
}

#[test]
fn it_returns_a_trivial_triple_with_b_set_to_zero_if_the_products_are_the_same() {
    let mut triples = PythagoreanTriples::new(1);
    let mut output = PythagoreanTriples::with_capacity(2);

    // Stub factors for this test.
    triples.factors.resize(2, 0);

    triples.product((3, 4, 5, 1), &mut output);
    assert_eq!(output.len(), 2);

    assert_eq!(&output.a_values, &[7, 25]);
    assert_eq!(&output.b_values, &[24, 0]);
}

#[test]
fn it_can_remove_trivial_triples() {
    let mut triples = PythagoreanTriples::with_capacity(5);
    let mut buffer = TemporaryBuffer::default();

    triples.a_values.extend_from_slice(&[3, 5, 5, 13, 0]);
    triples.b_values.extend_from_slice(&[4, 0, 12, 0, 0]);
    triples.c_values.extend_from_slice(&[5, 5, 13, 13, 0]);
    triples.factors.extend_from_slice(&[1, 0, 2, 2, 0]);

    triples.remove_trivial(&mut buffer);
    assert_eq!(&triples.a_values, &[3, 5]);
    assert_eq!(&triples.b_values, &[4, 12]);
    assert_eq!(&triples.c_values, &[5, 13]);
}

#[test]
fn it_can_sort_and_dedup_triples() {
    let mut triples = PythagoreanTriples::with_capacity(5);
    let mut buffer = TemporaryBuffer::default();

    triples.a_values.extend_from_slice(&[3, 5, 3, 5, 3]);
    triples.b_values.extend_from_slice(&[4, 12, 4, 12, 4]);
    triples.c_values.extend_from_slice(&[5, 13, 5, 13, 5]);
    triples.factors.extend_from_slice(&[1, 2, 1, 2, 1]);

    triples.sort_and_dedup_by_c_and_a(&mut buffer);
    assert_eq!(&triples.a_values, &[3, 5]);
    assert_eq!(&triples.b_values, &[4, 12]);
    assert_eq!(&triples.c_values, &[5, 13]);
    assert_eq!(&triples.factors, &[1, 2]);
}

#[test]
fn it_can_convert_pythagorean_triples_into_magic_triples() {
    let mut triples0 = PythagoreanTriples::with_capacity(4);
    let mut triples1 = PythagoreanTriples::with_capacity(4);
    let mut triples2 = PythagoreanTriples::with_capacity(4);
    let mut buffer = TemporaryBuffer::default();

    triples0.push((3, 4, 5, 1));

    triples1.push((5, 12, 13, 2));
    triples1.extend(&triples0);
    triples0.product((5, 12, 13, 2), &mut triples1);
    triples1.sort_and_dedup_by_c_and_a(&mut buffer);

    triples2.push((5, 12, 13, 2));
    triples2.extend(&triples1);
    triples1.product((5, 12, 13, 2), &mut triples2);
    triples2.sort_and_dedup_by_c_and_a(&mut buffer);

    // Do this once at the end since trivial triples might generate
    // non-trivial triples in later products.
    triples2.remove_trivial(&mut buffer);

    assert_eq!(&triples2.a_values, &[3, 5, 33, 63, 119, 123, 507, 837]);
    assert_eq!(&triples2.b_values, &[4, 12, 56, 16, 120, 836, 676, 116]);
    assert_eq!(&triples2.c_values, &[5, 13, 65, 65, 169, 845, 845, 845]);

    let final_product = 5 * 13 * 13;
    triples2.into_magic_triples(final_product);

    assert_eq!(&triples2.a_values, &[1183, 1105, 1157, 1027, 1195, 959, 1183, 953]);
    assert_eq!(&triples2.b_values, &[169, 455, 299, 611, 5, 713, 169, 721]);

    // Note that scaling reintroduces duplicates: (1183, 169, 845)

    for i in 0..triples2.len() {
        let a = triples2.a_values[i];
        let b = triples2.b_values[i];
        assert_eq!(a * a + b * b, 2 * final_product * final_product);
    }
}

#[test]
fn it_can_return_the_index_of_the_first_primitive_triple() {
    let mut triples0 = PythagoreanTriples::with_capacity(2);
    let mut triples1 = PythagoreanTriples::with_capacity(2);
    let mut buffer = TemporaryBuffer::default();

    triples0.push((3, 4, 5, 1));

    triples1.push((5, 12, 13, 2));
    triples1.extend(&triples0);
    triples0.product((5, 12, 13, 2), &mut triples1);
    triples1.remove_trivial(&mut buffer);

    let final_product = 5 * 13;
    triples1.into_magic_triples(final_product);
    triples1.sort_and_dedup_by_primitive_and_a(&mut buffer);

    assert_eq!(&triples1.a_values, &[85, 91, 79, 89]);
    assert_eq!(&triples1.b_values, &[35, 13, 47, 23]);
    assert_eq!(&triples1.factors, &[TOP_BIT + 0b10, TOP_BIT + 0b1, 0b11, 0b11]);
    assert_eq!(triples1.primitive_start(), 2);
}
