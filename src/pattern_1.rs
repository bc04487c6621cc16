use crate::magic_hourglass::{hourglass_squares, is_hourglass_hit};
use crate::squares::{contains_sorted, is_input_square, lemma_push_keeps, push_squares, square, square_of};
use vstd::prelude::*;

verus! {

/// `v[0..=j]` all lie below `r`: position `j` is before the partition point.
pub open spec fn below_through(v: Seq<int>, j: int, r: int) -> bool {
    forall|x: int| 0 <= x <= j ==> #[trigger] v[x] < r
}

/// `t` lies in `v` before the partition point of `r`, within `[0, end)`.
pub open spec fn found_below(v: Seq<int>, end: int, r: int, t: int) -> bool {
    exists|k: int| 0 <= k < end && below_through(v, k, r) && #[trigger] v[k] == t
}

/// A hit of the search over separate lists for primitive square `pr[i]`:
/// the second square `pr[j]` (kind 0, target among the primitive squares
/// before `pr[i]`), `pr[j]` (kind 1, target among the non-primitive
/// squares) or `npr[j]` (kind 2, target among the non-primitive squares),
/// each before the partition point of the remainder.
pub open spec fn pattern_1_hit(npr: Seq<int>, pr: Seq<int>, m: int, i: int, j: int, kind: int, h: (u128, u128, u128, u128)) -> bool {
    let s1 = pr[i];
    let r = m - s1;
    &&& 0 <= i < pr.len() && s1 <= m && h.0 == s1 && h.3 == m
    &&& kind == 0 ==> 0 <= j < i && below_through(pr, j, r) && h.1 == pr[j] && h.2 == r - pr[j] && found_below(pr, i, r, r - pr[j])
    &&& kind == 1 ==> 0 <= j < i && below_through(pr, j, r) && h.1 == pr[j] && h.2 == r - pr[j] && found_below(npr, npr.len() as int, r, r - pr[j])
    &&& kind == 2 ==> 0 <= j < npr.len() && below_through(npr, j, r) && h.1 == npr[j] && h.2 == r - npr[j] && found_below(npr, npr.len() as int, r, r - npr[j])
    &&& 0 <= kind <= 2
}

pub open spec fn is_pattern_1_report(npr: Seq<int>, pr: Seq<int>, m: int, h: (u128, u128, u128, u128)) -> bool {
    exists|i: int, j: int, kind: int| #[trigger] pattern_1_hit(npr, pr, m, i, j, kind, h)
}

pub open spec fn is_sorted(v: Seq<int>) -> bool {
    forall|x: int, y: int| 0 <= x < y < v.len() ==> v[x] <= v[y]
}

/// Hourglass search over separate lists: the squares of the non-primitive
/// part `[0, primitive_start)` and of the primitive part, each laid out as
/// the reversed `b²` then the `a²`. For every primitive square `s1` it looks
/// for two more squares, below the remainder `3c² - s1`, that complete the
/// sum; the hits `(s1, s2, s3, 3c²)` are returned in the order found.
pub fn check_pattern_1(primitive_start: usize, a_values: &[u64], b_values: &[u64], c: u64) -> (r: Vec<(u128, u128, u128, u128)>)
    requires
        a_values@.len() == b_values@.len(),
        primitive_start <= a_values@.len(),
        3 * square_of(c) <= u128::MAX,
    ensures
        forall|k: int| 0 <= k < r@.len() ==> is_hourglass_hit(a_values@, b_values@, c, #[trigger] r@[k]),
        ({
            let sq = hourglass_squares(a_values@, b_values@, primitive_start as int);
            let npr = sq.subrange(0, 2 * primitive_start);
            let pr = sq.subrange(2 * primitive_start, sq.len() as int);
            &&& forall|k: int| 0 <= k < r@.len() ==> is_pattern_1_report(npr, pr, 3 * square_of(c), #[trigger] r@[k])
            &&& is_sorted(npr) && is_sorted(pr) ==> forall|h: (u128, u128, u128, u128)|
                is_pattern_1_report(npr, pr, 3 * square_of(c), h) ==> #[trigger] r@.contains(h)
        }),
{
    let n = a_values.len();
    let center = square(c);
    let magic_sum = center * 3;
    let mut non_primitive: Vec<u128> = Vec::new();
    push_squares(&mut non_primitive, a_values, b_values, true, 0, primitive_start, true);
    let ghost q1 = non_primitive@;
    push_squares(&mut non_primitive, a_values, b_values, false, 0, primitive_start, false);
    let mut primitive: Vec<u128> = Vec::new();
    push_squares(&mut primitive, a_values, b_values, true, primitive_start, n, true);
    let ghost q3 = primitive@;
    push_squares(&mut primitive, a_values, b_values, false, primitive_start, n, false);
    let ghost sq = hourglass_squares(a_values@, b_values@, primitive_start as int);
    let ghost npr = sq.subrange(0, 2 * primitive_start);
    let ghost pr = sq.subrange(2 * primitive_start, sq.len() as int);
    let ghost m = 3 * square_of(c);
    let ghost sorted = is_sorted(npr) && is_sorted(pr);
    proof {
        let p = primitive_start as int;
        let n = n as int;
        assert forall|x: int| 0 <= x < non_primitive@.len() implies #[trigger] non_primitive@[x] as int == npr[x] by {
            if x < p {
                assert(q1[0 + x] as int == square_of(b_values@[p - 1 - x]));
                assert(non_primitive@.subrange(0, p)[x] == q1[x]);
            } else {
                assert(non_primitive@[p + (x - p)] as int == square_of(a_values@[x - p]));
            }
        }
        assert forall|x: int| 0 <= x < primitive@.len() implies #[trigger] primitive@[x] as int == pr[x] by {
            if x < n - p {
                assert(q3[0 + x] as int == square_of(b_values@[n - 1 - x]));
                assert(primitive@.subrange(0, n - p)[x] == q3[x]);
            } else {
                assert(primitive@[(n - p) + (x - (n - p))] as int == square_of(a_values@[p + (x - (n - p))]));
            }
        }
        assert(npr.len() == non_primitive@.len() && pr.len() == primitive@.len());
    }
    let mut hits: Vec<(u128, u128, u128, u128)> = Vec::new();
    let mut i: usize = 0;
    while i < primitive.len()
        invariant
            magic_sum == 3 * square_of(c),
            m == magic_sum,
            sorted == (is_sorted(npr) && is_sorted(pr)),
            npr.len() == non_primitive@.len(),
            pr.len() == primitive@.len(),
            forall|x: int| 0 <= x < non_primitive@.len() ==> #[trigger] non_primitive@[x] as int == npr[x],
            forall|x: int| 0 <= x < primitive@.len() ==> #[trigger] primitive@[x] as int == pr[x],
            forall|k: int| 0 <= k < primitive@.len() ==> is_input_square(a_values@, b_values@, #[trigger] primitive@[k] as int),
            forall|k: int| 0 <= k < non_primitive@.len() ==> is_input_square(a_values@, b_values@, #[trigger] non_primitive@[k] as int),
            forall|k: int| 0 <= k < hits@.len() ==> is_hourglass_hit(a_values@, b_values@, c, #[trigger] hits@[k]),
            forall|k: int| 0 <= k < hits@.len() ==> is_pattern_1_report(npr, pr, m, #[trigger] hits@[k]),
            sorted ==> forall|ii: int, jj: int, kind: int, h: (u128, u128, u128, u128)|
                0 <= ii < i && #[trigger] pattern_1_hit(npr, pr, m, ii, jj, kind, h) ==> hits@.contains(h),
        decreases primitive@.len() - i,
    {
        let square1 = primitive[i];
        if square1 <= magic_sum {
            let remainder = magic_sum - square1;
            let ghost rr = remainder as int;
            let mut upto1: usize = 0;
            while upto1 < i && primitive[upto1] < remainder
                invariant
                    i < primitive@.len(),
                    upto1 <= i,
                    pr.len() == primitive@.len(),
                    forall|x: int| 0 <= x < primitive@.len() ==> #[trigger] primitive@[x] as int == pr[x],
                    forall|k: int| 0 <= k < upto1 ==> #[trigger] primitive@[k] < remainder,
                decreases i - upto1,
            {
                upto1 = upto1 + 1;
            }
            let mut upto2: usize = 0;
            while upto2 < non_primitive.len() && non_primitive[upto2] < remainder
                invariant
                    upto2 <= non_primitive@.len(),
                    forall|k: int| 0 <= k < upto2 ==> #[trigger] non_primitive@[k] < remainder,
                decreases non_primitive@.len() - upto2,
            {
                upto2 = upto2 + 1;
            }
            proof {
                assert forall|j: int| 0 <= j < upto1 implies below_through(pr, j, rr) by {
                    assert forall|x: int| 0 <= x <= j implies #[trigger] pr[x] < rr by {
                        assert(primitive@[x] < remainder);
                    }
                }
                assert forall|j: int| 0 <= j < upto2 implies below_through(npr, j, rr) by {
                    assert forall|x: int| 0 <= x <= j implies #[trigger] npr[x] < rr by {
                        assert(non_primitive@[x] < remainder);
                    }
                }
                assert forall|j: int| upto1 <= j < i implies !below_through(pr, j, rr) by {
                    assert(!(pr[upto1 as int] < rr));
                }
                assert forall|j: int| upto2 <= j < npr.len() implies !below_through(npr, j, rr) by {
                    assert(!(npr[upto2 as int] < rr));
                }
                if sorted {
                    assert forall|x: int, y: int| 0 <= x < y < upto1 implies primitive@[x] <= primitive@[y] by {
                        assert(pr[x] <= pr[y]);
                    }
                    assert forall|x: int, y: int| 0 <= x < y < upto2 implies non_primitive@[x] <= non_primitive@[y] by {
                        assert(npr[x] <= npr[y]);
                    }
                }
            }
            assert(is_input_square(a_values@, b_values@, primitive@[i as int] as int));
            let mut j: usize = 0;
            while j < upto1
                invariant
                    i < primitive@.len(),
                    upto1 <= i,
                    upto2 <= non_primitive@.len(),
                    square1 == primitive@[i as int],
                    is_input_square(a_values@, b_values@, square1 as int),
                    remainder == magic_sum - square1,
                    rr == remainder,
                    magic_sum == 3 * square_of(c),
                    m == magic_sum,
                    sorted == (is_sorted(npr) && is_sorted(pr)),
                    npr.len() == non_primitive@.len(),
                    pr.len() == primitive@.len(),
                    forall|x: int| 0 <= x < non_primitive@.len() ==> #[trigger] non_primitive@[x] as int == npr[x],
                    forall|x: int| 0 <= x < primitive@.len() ==> #[trigger] primitive@[x] as int == pr[x],
                    forall|k: int| 0 <= k < upto1 ==> #[trigger] primitive@[k] < remainder,
                    forall|j: int| 0 <= j < upto1 ==> below_through(pr, j, rr),
                    forall|j: int| 0 <= j < upto2 ==> below_through(npr, j, rr),
                    forall|j: int| upto1 <= j < i ==> !below_through(pr, j, rr),
                    forall|j: int| upto2 <= j < npr.len() ==> !below_through(npr, j, rr),
                    sorted ==> forall|x: int, y: int| 0 <= x < y < upto1 ==> primitive@[x] <= primitive@[y],
                    sorted ==> forall|x: int, y: int| 0 <= x < y < upto2 ==> non_primitive@[x] <= non_primitive@[y],
                    forall|k: int| 0 <= k < primitive@.len() ==> is_input_square(a_values@, b_values@, #[trigger] primitive@[k] as int),
                    forall|k: int| 0 <= k < non_primitive@.len() ==> is_input_square(a_values@, b_values@, #[trigger] non_primitive@[k] as int),
                    forall|k: int| 0 <= k < hits@.len() ==> is_hourglass_hit(a_values@, b_values@, c, #[trigger] hits@[k]),
                    forall|k: int| 0 <= k < hits@.len() ==> is_pattern_1_report(npr, pr, m, #[trigger] hits@[k]),
                    sorted ==> forall|ii: int, jj: int, kind: int, h: (u128, u128, u128, u128)|
                        0 <= ii < i && #[trigger] pattern_1_hit(npr, pr, m, ii, jj, kind, h) ==> hits@.contains(h),
                    sorted ==> forall|jj: int, kind: int, h: (u128, u128, u128, u128)|
                        0 <= jj < j && kind <= 1 && #[trigger] pattern_1_hit(npr, pr, m, i as int, jj, kind, h) ==> hits@.contains(h),
                decreases upto1 - j,
            {
                let square2 = primitive[j];
                assert(square2 < remainder);
                let target = remainder - square2;
                assert(is_input_square(a_values@, b_values@, primitive@[j as int] as int));
                let h = (square1, square2, target, magic_sum);
                let ghost before = hits@;
                if contains_sorted(&primitive, 0, upto1, target) {
                    proof {
                        let k = choose|k: int| 0 <= k < upto1 && primitive@[k] == target;
                        assert(pr[k] == target);
                        assert(found_below(pr, i as int, rr, target as int));
                        assert(pattern_1_hit(npr, pr, m, i as int, j as int, 0, h));
                        lemma_push_keeps(before, h);
                    }
                    hits.push(h);
                }
                let ghost middle = hits@;
                if contains_sorted(&non_primitive, 0, upto2, target) {
                    proof {
                        let k = choose|k: int| 0 <= k < upto2 && non_primitive@[k] == target;
                        assert(npr[k] == target);
                        assert(found_below(npr, npr.len() as int, rr, target as int));
                        assert(pattern_1_hit(npr, pr, m, i as int, j as int, 1, h));
                        lemma_push_keeps(middle, h);
                    }
                    hits.push(h);
                }
                proof {
                    assert(hits@.subrange(0, middle.len() as int) =~= middle);
                    lemma_contains_grows(before, middle, hits@);
                    if sorted {
                        assert forall|jj: int, kind: int, g: (u128, u128, u128, u128)|
                            0 <= jj < j + 1 && kind <= 1 && #[trigger] pattern_1_hit(npr, pr, m, i as int, jj, kind, g) implies hits@.contains(g) by {
                            if jj == j {
                                if kind == 0 {
                                    let k = choose|k: int| 0 <= k < i && below_through(pr, k, rr) && #[trigger] pr[k] == rr - pr[jj];
                                    assert(primitive@[k] == target);
                                } else {
                                    let k = choose|k: int| 0 <= k < npr.len() && below_through(npr, k, rr) && #[trigger] npr[k] == rr - pr[jj];
                                    assert(non_primitive@[k] == target);
                                }
                            }
                        }
                    }
                }
                j = j + 1;
            }
            let mut j: usize = 0;
            while j < upto2
                invariant
                    i < primitive@.len(),
                    upto1 <= i,
                    upto2 <= non_primitive@.len(),
                    square1 == primitive@[i as int],
                    is_input_square(a_values@, b_values@, square1 as int),
                    remainder == magic_sum - square1,
                    rr == remainder,
                    magic_sum == 3 * square_of(c),
                    m == magic_sum,
                    sorted == (is_sorted(npr) && is_sorted(pr)),
                    npr.len() == non_primitive@.len(),
                    pr.len() == primitive@.len(),
                    forall|x: int| 0 <= x < non_primitive@.len() ==> #[trigger] non_primitive@[x] as int == npr[x],
                    forall|x: int| 0 <= x < primitive@.len() ==> #[trigger] primitive@[x] as int == pr[x],
                    forall|k: int| 0 <= k < upto2 ==> #[trigger] non_primitive@[k] < remainder,
                    forall|j: int| 0 <= j < upto2 ==> below_through(npr, j, rr),
                    forall|j: int| upto1 <= j < i ==> !below_through(pr, j, rr),
                    forall|j: int| upto2 <= j < npr.len() ==> !below_through(npr, j, rr),
                    sorted ==> forall|x: int, y: int| 0 <= x < y < upto2 ==> non_primitive@[x] <= non_primitive@[y],
                    forall|k: int| 0 <= k < non_primitive@.len() ==> is_input_square(a_values@, b_values@, #[trigger] non_primitive@[k] as int),
                    forall|k: int| 0 <= k < hits@.len() ==> is_hourglass_hit(a_values@, b_values@, c, #[trigger] hits@[k]),
                    forall|k: int| 0 <= k < hits@.len() ==> is_pattern_1_report(npr, pr, m, #[trigger] hits@[k]),
                    sorted ==> forall|ii: int, jj: int, kind: int, h: (u128, u128, u128, u128)|
                        0 <= ii < i && #[trigger] pattern_1_hit(npr, pr, m, ii, jj, kind, h) ==> hits@.contains(h),
                    sorted ==> forall|jj: int, kind: int, h: (u128, u128, u128, u128)|
                        0 <= jj < upto1 && kind <= 1 && #[trigger] pattern_1_hit(npr, pr, m, i as int, jj, kind, h) ==> hits@.contains(h),
                    sorted ==> forall|jj: int, kind: int, h: (u128, u128, u128, u128)|
                        0 <= jj < j && kind == 2 && #[trigger] pattern_1_hit(npr, pr, m, i as int, jj, kind, h) ==> hits@.contains(h),
                decreases upto2 - j,
            {
                let square2 = non_primitive[j];
                assert(square2 < remainder);
                let target = remainder - square2;
                assert(is_input_square(a_values@, b_values@, non_primitive@[j as int] as int));
                let h = (square1, square2, target, magic_sum);
                let ghost before = hits@;
                if contains_sorted(&non_primitive, 0, upto2, target) {
                    proof {
                        let k = choose|k: int| 0 <= k < upto2 && non_primitive@[k] == target;
                        assert(npr[k] == target);
                        assert(found_below(npr, npr.len() as int, rr, target as int));
                        assert(pattern_1_hit(npr, pr, m, i as int, j as int, 2, h));
                        lemma_push_keeps(before, h);
                    }
                    hits.push(h);
                }
                proof {
                    assert(hits@.subrange(0, before.len() as int) =~= before);
                    lemma_contains_grows(before, before, hits@);
                    if sorted {
                        assert forall|jj: int, kind: int, g: (u128, u128, u128, u128)|
                            0 <= jj < j + 1 && kind == 2 && #[trigger] pattern_1_hit(npr, pr, m, i as int, jj, kind, g) implies hits@.contains(g) by {
                            if jj == j {
                                let k = choose|k: int| 0 <= k < npr.len() && below_through(npr, k, rr) && #[trigger] npr[k] == rr - npr[jj];
                                assert(non_primitive@[k] == target);
                            }
                        }
                    }
                }
                j = j + 1;
            }
        }
        i = i + 1;
    }
    proof {
        assert forall|h: (u128, u128, u128, u128)| sorted && is_pattern_1_report(npr, pr, m, h) implies #[trigger] hits@.contains(h) by {
            let (ii, jj, kind) = choose|ii: int, jj: int, kind: int| #[trigger] pattern_1_hit(npr, pr, m, ii, jj, kind, h);
        }
    }
    hits
}

/// A sequence that only grew by pushes keeps what it held.
proof fn lemma_contains_grows(a: Seq<(u128, u128, u128, u128)>, b: Seq<(u128, u128, u128, u128)>, c: Seq<(u128, u128, u128, u128)>)
    requires
        forall|h: (u128, u128, u128, u128)| a.contains(h) ==> #[trigger] b.contains(h),
        c.len() >= b.len(),
        c.subrange(0, b.len() as int) == b,
    ensures
        forall|h: (u128, u128, u128, u128)| a.contains(h) ==> #[trigger] c.contains(h),
{
    assert forall|h: (u128, u128, u128, u128)| a.contains(h) implies #[trigger] c.contains(h) by {
        assert(b.contains(h));
        let k = choose|k: int| 0 <= k < b.len() && b[k] == h;
        assert(c.subrange(0, b.len() as int)[k] == h);
    }
}

} // verus!
