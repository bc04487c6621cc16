use crate::squares::{contains_sorted, is_input_square, lemma_push_keeps, push_squares, square, square_of};
use vstd::prelude::*;

verus! {

/// An hourglass hit for center `c`: three squares of input values summing
/// to the magic sum `3c²`, reported as `(s1, s2, s3, 3c²)`.
pub open spec fn is_hourglass_hit(a: Seq<u64>, b: Seq<u64>, c: u64, h: (u128, u128, u128, u128)) -> bool {
    &&& h.3 == 3 * square_of(c)
    &&& h.0 + h.1 + h.2 == h.3
    &&& is_input_square(a, b, h.0 as int)
    &&& is_input_square(a, b, h.1 as int)
    &&& is_input_square(a, b, h.2 as int)
}

/// The squares the hourglass search walks, for `n` pairs split at `p`:
/// `b²` of `[0, p)` reversed, `a²` of `[0, p)`, `b²` of `[p, n)` reversed,
/// `a²` of `[p, n)`.
pub open spec fn hourglass_squares(a: Seq<u64>, b: Seq<u64>, p: int) -> Seq<int> {
    let n = a.len() as int;
    Seq::new(
        (2 * n) as nat,
        |x: int|
            if x < p {
                square_of(b[p - 1 - x])
            } else if x < 2 * p {
                square_of(a[x - p])
            } else if x < p + n {
                square_of(b[n - 1 - (x - 2 * p)])
            } else {
                square_of(a[x - n])
            },
    )
}

/// A hit with its second square from the non-primitive half: `sq[split + i]`
/// and `sq[j]` below the remainder, and the rest of the sum found later in
/// that half.
pub open spec fn first_kind_hit(sq: Seq<int>, split: int, m: int, i: int, j: int, h: (u128, u128, u128, u128)) -> bool {
    let s1 = sq[split + i];
    let r = m - s1;
    &&& 0 <= i && split + i < sq.len() && s1 <= m
    &&& 0 <= j < split && sq[j] < r
    &&& h.0 == s1 && h.1 == sq[j] && h.2 == r - sq[j] && h.3 == m
    &&& exists|k: int| j < k < split && #[trigger] sq[k] == r - sq[j]
}

/// A hit with its second square from the primitive half, before `s1`, and
/// the rest of the sum found between the two.
pub open spec fn second_kind_hit(sq: Seq<int>, split: int, m: int, i: int, j: int, h: (u128, u128, u128, u128)) -> bool {
    let s1 = sq[split + i];
    let r = m - s1;
    &&& 0 <= i && split + i < sq.len() && s1 <= m
    &&& 0 <= j < i && sq[split + j] < r
    &&& h.0 == s1 && h.1 == sq[split + j] && h.2 == r - sq[split + j] && h.3 == m
    &&& exists|k: int| split + j < k < split + i && #[trigger] sq[k] == r - sq[split + j]
}

/// `h` is a hit of either kind (the search reports exactly these when both
/// halves are sorted).
pub open spec fn is_hourglass_report(sq: Seq<int>, split: int, m: int, h: (u128, u128, u128, u128)) -> bool {
    (exists|i: int, j: int| #[trigger] first_kind_hit(sq, split, m, i, j, h)) || (exists|i: int, j: int|
        #[trigger] second_kind_hit(sq, split, m, i, j, h))
}

/// Both halves `[0, split)` and `[split, len)` are sorted ascending.
pub open spec fn halves_sorted(sq: Seq<int>, split: int) -> bool {
    &&& forall|x: int, y: int| 0 <= x < y < split ==> sq[x] <= sq[y]
    &&& forall|x: int, y: int| split <= x < y < sq.len() ==> sq[x] <= sq[y]
}

/// Magic hourglasses for center `c`: triples of squares of the inputs that
/// sum to `3c²`. The squares are laid out as the reversed `b²` and then the
/// `a²` of the non-primitive part `[0, primitive_start)`, then the same for
/// the primitive part; the first square of each triple comes from the
/// primitive part.
pub fn detect_magic_hourglass(primitive_start: usize, a_values: &[u64], b_values: &[u64], c: u64) -> (r: Vec<(u128, u128, u128, u128)>)
    requires
        a_values@.len() == b_values@.len(),
        primitive_start <= a_values@.len(),
        3 * square_of(c) <= u128::MAX,
    ensures
        forall|k: int| 0 <= k < r@.len() ==> is_hourglass_hit(a_values@, b_values@, c, #[trigger] r@[k]),
        forall|k: int|
            0 <= k < r@.len() ==> is_hourglass_report(
                hourglass_squares(a_values@, b_values@, primitive_start as int),
                2 * primitive_start,
                3 * square_of(c),
                #[trigger] r@[k],
            ),
        halves_sorted(hourglass_squares(a_values@, b_values@, primitive_start as int), 2 * primitive_start) ==> forall|
            h: (u128, u128, u128, u128),
        |
            is_hourglass_report(
                hourglass_squares(a_values@, b_values@, primitive_start as int),
                2 * primitive_start,
                3 * square_of(c),
                h,
            ) ==> #[trigger] r@.contains(h),
{
    let n = a_values.len();
    let center = square(c);
    let magic_sum = center * 3;
    let mut squares: Vec<u128> = Vec::new();
    push_squares(&mut squares, a_values, b_values, true, 0, primitive_start, true);
    let ghost q1 = squares@;
    push_squares(&mut squares, a_values, b_values, false, 0, primitive_start, false);
    let ghost q2 = squares@;
    let split = squares.len();
    push_squares(&mut squares, a_values, b_values, true, primitive_start, n, true);
    let ghost q3 = squares@;
    push_squares(&mut squares, a_values, b_values, false, primitive_start, n, false);
    let total = squares.len();
    let ghost sq = hourglass_squares(a_values@, b_values@, primitive_start as int);
    let ghost m = 3 * square_of(c);
    let ghost sorted = halves_sorted(sq, split as int);
    proof {
        let p = primitive_start as int;
        let n = n as int;
        assert forall|x: int| 0 <= x < total implies #[trigger] squares@[x] as int == sq[x] by {
            if x < p {
                assert(q1[0 + x] as int == square_of(b_values@[p - 1 - x]));
                assert(q2.subrange(0, p)[x] == q1[x]);
                assert(q3.subrange(0, 2 * p)[x] == q2[x]);
                assert(squares@.subrange(0, p + n)[x] == q3[x]);
            } else if x < 2 * p {
                assert(q2[p + (x - p)] as int == square_of(a_values@[x - p]));
                assert(q3.subrange(0, 2 * p)[x] == q2[x]);
                assert(squares@.subrange(0, p + n)[x] == q3[x]);
            } else if x < p + n {
                assert(q3[2 * p + (x - 2 * p)] as int == square_of(b_values@[n - 1 - (x - 2 * p)]));
                assert(squares@.subrange(0, p + n)[x] == q3[x]);
            } else {
                assert(squares@[p + n + (x - p - n)] as int == square_of(a_values@[p + (x - p - n)]));
            }
        }
        assert(sq.len() == total);
    }
    let mut hits: Vec<(u128, u128, u128, u128)> = Vec::new();
    let mut i: usize = 0;
    while i < total - split
        invariant
            split <= total == squares@.len(),
            magic_sum == 3 * square_of(c),
            m == magic_sum,
            sq.len() == total,
            split == 2 * primitive_start,
            sorted == halves_sorted(sq, split as int),
            forall|x: int| 0 <= x < total ==> #[trigger] squares@[x] as int == sq[x],
            forall|k: int| 0 <= k < hits@.len() ==> is_hourglass_report(sq, split as int, m, #[trigger] hits@[k]),
            sorted ==> forall|ii: int, jj: int, h: (u128, u128, u128, u128)|
                0 <= ii < i && #[trigger] first_kind_hit(sq, split as int, m, ii, jj, h) ==> hits@.contains(h),
            sorted ==> forall|ii: int, jj: int, h: (u128, u128, u128, u128)|
                0 <= ii < i && #[trigger] second_kind_hit(sq, split as int, m, ii, jj, h) ==> hits@.contains(h),
            forall|k: int| 0 <= k < squares@.len() ==> is_input_square(a_values@, b_values@, #[trigger] squares@[k] as int),
            forall|k: int| 0 <= k < hits@.len() ==> is_hourglass_hit(a_values@, b_values@, c, #[trigger] hits@[k]),
        decreases total - split - i,
    {
        let square1 = squares[split + i];
        if square1 <= magic_sum {
            let remainder = magic_sum - square1;
            let mut j: usize = 0;
            while j < split && squares[j] < remainder
                invariant
                    split <= total == squares@.len(),
                    split + i < total,
                    j <= split,
                    square1 == squares@[split + i],
                    remainder == magic_sum - square1,
                    magic_sum == 3 * square_of(c),
                    m == magic_sum,
                    sq.len() == total,
                    sorted == halves_sorted(sq, split as int),
                    forall|x: int| 0 <= x < total ==> #[trigger] squares@[x] as int == sq[x],
                    forall|k: int| 0 <= k < hits@.len() ==> is_hourglass_report(sq, split as int, m, #[trigger] hits@[k]),
                    sorted ==> forall|ii: int, jj: int, h: (u128, u128, u128, u128)|
                        0 <= ii < i && #[trigger] first_kind_hit(sq, split as int, m, ii, jj, h) ==> hits@.contains(h),
                    sorted ==> forall|ii: int, jj: int, h: (u128, u128, u128, u128)|
                        0 <= ii < i && #[trigger] second_kind_hit(sq, split as int, m, ii, jj, h) ==> hits@.contains(h),
                    sorted ==> forall|jj: int, h: (u128, u128, u128, u128)|
                        0 <= jj < j && #[trigger] first_kind_hit(sq, split as int, m, i as int, jj, h) ==> hits@.contains(h),
                    forall|k: int| 0 <= k < squares@.len() ==> is_input_square(a_values@, b_values@, #[trigger] squares@[k] as int),
                    forall|k: int| 0 <= k < hits@.len() ==> is_hourglass_hit(a_values@, b_values@, c, #[trigger] hits@[k]),
                decreases split - j,
            {
                let square2 = squares[j];
                let target = remainder - square2;
                let ghost before = hits@;
                let found = contains_sorted(&squares, j + 1, split, target);
                if found {
                    assert(is_input_square(a_values@, b_values@, squares@[split + i] as int));
                    assert(is_input_square(a_values@, b_values@, squares@[j as int] as int));
                    let h = (square1, square2, target, magic_sum);
                    proof {
                        let k = choose|k: int| j + 1 <= k < split && squares@[k] == target;
                        assert(sq[k] == (m - sq[split + i]) - sq[j as int]);
                        assert(first_kind_hit(sq, split as int, m, i as int, j as int, h));
                        lemma_push_keeps(before, h);
                    }
                    hits.push(h);
                }
                proof {
                    if sorted {
                        assert forall|x: int, y: int| j + 1 <= x < y < split implies squares@[x] <= squares@[y] by {
                            assert(sq[x] <= sq[y]);
                        }
                        assert forall|jj: int, h: (u128, u128, u128, u128)|
                            0 <= jj < j + 1 && #[trigger] first_kind_hit(sq, split as int, m, i as int, jj, h) implies hits@.contains(h) by {
                            if jj == j {
                                let k = choose|k: int| jj < k < split && #[trigger] sq[k] == (m - sq[split + i]) - sq[jj];
                                assert(squares@[k] == target);
                            }
                        }
                    }
                }
                j = j + 1;
            }
            proof {
                if sorted && j < split {
                    assert forall|jj: int, h: (u128, u128, u128, u128)|
                        0 <= jj && #[trigger] first_kind_hit(sq, split as int, m, i as int, jj, h) implies hits@.contains(h) by {
                        if jj >= j {
                            assert(sq[j as int] <= sq[jj]);
                        }
                    }
                }
            }
            let mut j: usize = 0;
            while j < i && squares[split + j] < remainder
                invariant
                    split <= total == squares@.len(),
                    split + i < total,
                    j <= i,
                    square1 == squares@[split + i],
                    remainder == magic_sum - square1,
                    magic_sum == 3 * square_of(c),
                    m == magic_sum,
                    sq.len() == total,
                    sorted == halves_sorted(sq, split as int),
                    forall|x: int| 0 <= x < total ==> #[trigger] squares@[x] as int == sq[x],
                    forall|k: int| 0 <= k < hits@.len() ==> is_hourglass_report(sq, split as int, m, #[trigger] hits@[k]),
                    sorted ==> forall|ii: int, jj: int, h: (u128, u128, u128, u128)|
                        0 <= ii < i && #[trigger] first_kind_hit(sq, split as int, m, ii, jj, h) ==> hits@.contains(h),
                    sorted ==> forall|ii: int, jj: int, h: (u128, u128, u128, u128)|
                        0 <= ii < i && #[trigger] second_kind_hit(sq, split as int, m, ii, jj, h) ==> hits@.contains(h),
                    sorted ==> forall|jj: int, h: (u128, u128, u128, u128)|
                        #[trigger] first_kind_hit(sq, split as int, m, i as int, jj, h) ==> hits@.contains(h),
                    sorted ==> forall|jj: int, h: (u128, u128, u128, u128)|
                        0 <= jj < j && #[trigger] second_kind_hit(sq, split as int, m, i as int, jj, h) ==> hits@.contains(h),
                    forall|k: int| 0 <= k < squares@.len() ==> is_input_square(a_values@, b_values@, #[trigger] squares@[k] as int),
                    forall|k: int| 0 <= k < hits@.len() ==> is_hourglass_hit(a_values@, b_values@, c, #[trigger] hits@[k]),
                decreases i - j,
            {
                let square2 = squares[split + j];
                let target = remainder - square2;
                let ghost before = hits@;
                let found = contains_sorted(&squares, split + j + 1, split + i, target);
                if found {
                    assert(is_input_square(a_values@, b_values@, squares@[split + i] as int));
                    assert(is_input_square(a_values@, b_values@, squares@[split + j] as int));
                    let h = (square1, square2, target, magic_sum);
                    proof {
                        let k = choose|k: int| split + j + 1 <= k < split + i && squares@[k] == target;
                        assert(sq[k] == (m - sq[split + i]) - sq[split + j]);
                        assert(second_kind_hit(sq, split as int, m, i as int, j as int, h));
                        lemma_push_keeps(before, h);
                    }
                    hits.push(h);
                }
                proof {
                    if sorted {
                        assert forall|x: int, y: int| split + j + 1 <= x < y < split + i implies squares@[x] <= squares@[y] by {
                            assert(sq[x] <= sq[y]);
                        }
                        assert forall|jj: int, h: (u128, u128, u128, u128)|
                            0 <= jj < j + 1 && #[trigger] second_kind_hit(sq, split as int, m, i as int, jj, h) implies hits@.contains(h) by {
                            if jj == j {
                                let k = choose|k: int| split + jj < k < split + i && #[trigger] sq[k] == (m - sq[split + i]) - sq[split + jj];
                                assert(squares@[k] == target);
                            }
                        }
                    }
                }
                j = j + 1;
            }
            proof {
                if sorted && j < i {
                    assert forall|jj: int, h: (u128, u128, u128, u128)|
                        0 <= jj && #[trigger] second_kind_hit(sq, split as int, m, i as int, jj, h) implies hits@.contains(h) by {
                        if jj >= j {
                            assert(sq[split + j] <= sq[split + jj]);
                        }
                    }
                }
            }
        }
        i = i + 1;
    }
    proof {
        assert forall|h: (u128, u128, u128, u128)| sorted && is_hourglass_report(sq, split as int, m, h) implies #[trigger] hits@.contains(h) by {
            if exists|ii: int, jj: int| #[trigger] first_kind_hit(sq, split as int, m, ii, jj, h) {
                let (ii, jj) = choose|ii: int, jj: int| #[trigger] first_kind_hit(sq, split as int, m, ii, jj, h);
            } else {
                let (ii, jj) = choose|ii: int, jj: int| #[trigger] second_kind_hit(sq, split as int, m, ii, jj, h);
            }
        }
    }
    hits
}

} // verus!
