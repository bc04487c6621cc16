use crate::squares::{is_perfect_square, is_square, square, square_of};
use vstd::prelude::*;

verus! {

/// A grid `[TL, TM, TR, ML, C, MR, BL, BM, BR]` reported by patterns 2, 3
/// and 4 for center `c`: the center is `c²` and every cell is a perfect
/// square, unknown cells being left at zero.
pub open spec fn is_square_grid(c: u64, g: [u128; 9]) -> bool {
    &&& g[4] == square_of(c)
    &&& forall|k: int| 0 <= k < 9 ==> is_perfect_square(#[trigger] g[k] as int)
}

/// The pattern-2 grid for the middle-left cell `x - y`, when that
/// difference is a perfect square.
pub open spec fn pattern_2_part(x: u128, y: u128, top_middle: u128, a1: u128, b1: u128, a2: u128, b2: u128, center: u128) -> Seq<[u128; 9]> {
    if x >= y && is_perfect_square(x - y) {
        seq![[a1, top_middle, a2, (x - y) as u128, center, 0, b1, 0, b2]]
    } else {
        seq![]
    }
}

/// The grid patterns 3 and 4 give with the right square `r1` (or `r2` when
/// `second`) completing the top row: with the top-middle cell when it is a
/// perfect square, else with the bottom-middle cell `cs - TM` when that is.
pub open spec fn pattern_34_part(
    tl: u128,
    l1: u128,
    l2: u128,
    r1: u128,
    r2: u128,
    center: u128,
    m: u128,
    cs: u128,
    second: bool,
) -> Seq<[u128; 9]> {
    let right = if second { r2 } else { r1 };
    if tl > m || m - tl < right {
        seq![]
    } else {
        let tm = m - tl - right;
        if is_perfect_square(tm) {
            if second {
                seq![[tl, tm as u128, r2, l1, center, r1, l2, 0, 0]]
            } else {
                seq![[tl, tm as u128, r1, l2, center, r2, l1, 0, 0]]
            }
        } else if tm <= cs && is_perfect_square(cs - tm) {
            if second {
                seq![[tl, 0, r2, l1, center, r1, l2, (cs - tm) as u128, 0]]
            } else {
                seq![[tl, 0, r1, l2, center, r2, l1, (cs - tm) as u128, 0]]
            }
        } else {
            seq![]
        }
    }
}

/// Every grid of `grids` from `from` on has center `center` and only
/// perfect squares as cells.
pub open spec fn new_grids_square(grids: Seq<[u128; 9]>, from: int, center: u128) -> bool {
    forall|k: int|
        from <= k < grids.len() ==> (#[trigger] grids[k])[4] == center && forall|q: int| 0 <= q < 9 ==> is_perfect_square(
            #[trigger] grids[k][q] as int,
        )
}

proof fn lemma_extend_square_grids(before: Seq<[u128; 9]>, after: Seq<[u128; 9]>, c: u64)
    requires
        after.len() >= before.len(),
        after.subrange(0, before.len() as int) == before,
        forall|k: int| 0 <= k < before.len() ==> is_square_grid(c, #[trigger] before[k]),
        new_grids_square(after, before.len() as int, square_of(c) as u128),
        square_of(c) <= u128::MAX,
    ensures
        forall|k: int| 0 <= k < after.len() ==> is_square_grid(c, #[trigger] after[k]),
{
    assert forall|k: int| 0 <= k < after.len() implies is_square_grid(c, #[trigger] after[k]) by {
        if k < before.len() {
            assert(after.subrange(0, before.len() as int)[k] == after[k]);
        }
    }
}

/// The centers of the known parametric family: `c² = 180625·k²`, that is
/// `c` a multiple of 425.
pub open spec fn is_known_center(c: u64) -> bool {
    c % 425 == 0
}

/// Whether `c` belongs to the known solution family that the search hides.
pub fn is_known_solution(c: u64) -> (r: bool)
    ensures
        r == is_known_center(c),
{
    c % 425 == 0
}

proof fn lemma_square_is_perfect(x: u64)
    ensures
        is_perfect_square(square_of(x)),
{
    assert((x as int) * (x as int) == square_of(x));
}

proof fn lemma_zero_is_perfect()
    ensures
        is_perfect_square(0),
{
    assert(0int * 0int == 0);
}

/// Appends the pattern-2 grid for the middle-left cell `x - y` when that
/// difference is a perfect square.
fn try_pattern_2(
    x: u128,
    y: u128,
    top_middle: u128,
    a_square1: u128,
    b_square1: u128,
    a_square2: u128,
    b_square2: u128,
    center_square: u128,
    grids: &mut Vec<[u128; 9]>,
)
    ensures
        final(grids)@ == old(grids)@ + pattern_2_part(x, y, top_middle, a_square1, b_square1, a_square2, b_square2, center_square),
{
    if let Some(middle_left) = x.checked_sub(y) {
        if is_square(middle_left) {
            grids.push([a_square1, top_middle, a_square2, middle_left, center_square, 0, b_square1, 0, b_square2]);
            assert(grids@ =~= old(grids)@ + pattern_2_part(x, y, top_middle, a_square1, b_square1, a_square2, b_square2, center_square));
            return;
        }
    }
    assert(grids@ =~= old(grids)@ + pattern_2_part(x, y, top_middle, a_square1, b_square1, a_square2, b_square2, center_square));
}

/// Pattern 2: the pairs `(a1, b1)` and `(a2, b2)` in the corners and the
/// square `top_middle`; reports the grid for each difference of a corner
/// `a` and a corner `b` that is a perfect square, as the middle-left cell.
pub fn check_pattern_2(
    top_middle: u128,
    a_square1: u128,
    b_square1: u128,
    a_square2: u128,
    b_square2: u128,
    center_square: u128,
    grids: &mut Vec<[u128; 9]>,
)
    ensures
        final(grids)@ == old(grids)@ + pattern_2_part(a_square1, b_square1, top_middle, a_square1, b_square1, a_square2, b_square2, center_square)
            + pattern_2_part(a_square1, b_square2, top_middle, a_square1, b_square1, a_square2, b_square2, center_square)
            + pattern_2_part(a_square2, b_square1, top_middle, a_square1, b_square1, a_square2, b_square2, center_square)
            + pattern_2_part(a_square2, b_square2, top_middle, a_square1, b_square1, a_square2, b_square2, center_square),
        is_perfect_square(top_middle as int) && is_perfect_square(a_square1 as int) && is_perfect_square(b_square1 as int)
            && is_perfect_square(a_square2 as int) && is_perfect_square(b_square2 as int) && is_perfect_square(
            center_square as int,
        ) ==> new_grids_square(final(grids)@, old(grids)@.len() as int, center_square),
{
    proof {
        lemma_zero_is_perfect();
    }
    try_pattern_2(a_square1, b_square1, top_middle, a_square1, b_square1, a_square2, b_square2, center_square, grids);
    try_pattern_2(a_square1, b_square2, top_middle, a_square1, b_square1, a_square2, b_square2, center_square, grids);
    try_pattern_2(a_square2, b_square1, top_middle, a_square1, b_square1, a_square2, b_square2, center_square, grids);
    try_pattern_2(a_square2, b_square2, top_middle, a_square1, b_square1, a_square2, b_square2, center_square, grids);
}

/// Appends the grid of `pattern_34_part` for the right square `r1`, or
/// `r2` when `second`.
fn try_pattern_34(
    top_left: u128,
    left_square1: u128,
    left_square2: u128,
    right_square1: u128,
    right_square2: u128,
    center_square: u128,
    magic_sum: u128,
    center_sum: u128,
    second: bool,
    grids: &mut Vec<[u128; 9]>,
)
    ensures
        final(grids)@ == old(grids)@ + pattern_34_part(top_left, left_square1, left_square2, right_square1, right_square2,
            center_square, magic_sum, center_sum, second),
{
    let right = if second { right_square2 } else { right_square1 };
    if let Some(rest) = magic_sum.checked_sub(top_left) {
        if let Some(top_middle) = rest.checked_sub(right) {
            if is_square(top_middle) {
                if second {
                    grids.push([top_left, top_middle, right_square2, left_square1, center_square, right_square1, left_square2, 0, 0]);
                } else {
                    grids.push([top_left, top_middle, right_square1, left_square2, center_square, right_square2, left_square1, 0, 0]);
                }
            } else if let Some(bottom_middle) = center_sum.checked_sub(top_middle) {
                if is_square(bottom_middle) {
                    if second {
                        grids.push([top_left, 0, right_square2, left_square1, center_square, right_square1, left_square2, bottom_middle, 0]);
                    } else {
                        grids.push([top_left, 0, right_square1, left_square2, center_square, right_square2, left_square1, bottom_middle, 0]);
                    }
                }
            }
        }
    }
    assert(grids@ =~= old(grids)@ + pattern_34_part(top_left, left_square1, left_square2, right_square1, right_square2,
        center_square, magic_sum, center_sum, second));
}

/// Patterns 3 and 4: `top_left` beside the left squares and the right
/// squares; the top-middle cell completes the top row with a right square,
/// and when it is not a perfect square, the bottom-middle cell completes the
/// middle column instead.
pub fn check_pattern_3_and_4(
    top_left: u128,
    left_square1: u128,
    left_square2: u128,
    right_square1: u128,
    right_square2: u128,
    center_square: u128,
    magic_sum: u128,
    center_sum: u128,
    grids: &mut Vec<[u128; 9]>,
)
    ensures
        final(grids)@ == old(grids)@ + pattern_34_part(top_left, left_square1, left_square2, right_square1, right_square2,
            center_square, magic_sum, center_sum, false) + pattern_34_part(top_left, left_square1, left_square2,
            right_square1, right_square2, center_square, magic_sum, center_sum, true),
        is_perfect_square(top_left as int) && is_perfect_square(left_square1 as int) && is_perfect_square(left_square2 as int)
            && is_perfect_square(right_square1 as int) && is_perfect_square(right_square2 as int) && is_perfect_square(
            center_square as int,
        ) ==> new_grids_square(final(grids)@, old(grids)@.len() as int, center_square),
{
    proof {
        lemma_zero_is_perfect();
    }
    try_pattern_34(top_left, left_square1, left_square2, right_square1, right_square2, center_square, magic_sum, center_sum,
        false, grids);
    try_pattern_34(top_left, left_square1, left_square2, right_square1, right_square2, center_square, magic_sum, center_sum,
        true, grids);
}

fn squares_of(values: &[u64]) -> (r: Vec<u128>)
    ensures
        r@.len() == values@.len(),
        forall|k: int| 0 <= k < r@.len() ==> #[trigger] r@[k] as int == square_of(values@[k]),
{
    let mut r: Vec<u128> = Vec::new();
    let mut i: usize = 0;
    while i < values.len()
        invariant
            i <= values@.len(),
            r@.len() == i,
            forall|k: int| 0 <= k < r@.len() ==> #[trigger] r@[k] as int == square_of(values@[k]),
        decreases values@.len() - i,
    {
        r.push(square(values[i]));
        i = i + 1;
    }
    r
}

/// All four pattern-2 grids for the top-middle square `tm`.
pub open spec fn pattern_2_all(tm: u128, a1: u128, b1: u128, a2: u128, b2: u128, center: u128) -> Seq<[u128; 9]> {
    pattern_2_part(a1, b1, tm, a1, b1, a2, b2, center) + pattern_2_part(a1, b2, tm, a1, b1, a2, b2, center)
        + pattern_2_part(a2, b1, tm, a1, b1, a2, b2, center) + pattern_2_part(a2, b2, tm, a1, b1, a2, b2, center)
}

/// Both pattern-3/4 grids for the top-left square `tl`.
pub open spec fn pattern_34_all(tl: u128, l1: u128, l2: u128, r1: u128, r2: u128, center: u128, m: u128, cs: u128) -> Seq<[u128; 9]> {
    pattern_34_part(tl, l1, l2, r1, r2, center, m, cs, false) + pattern_34_part(tl, l1, l2, r1, r2, center, m, cs, true)
}

pub open spec fn sq(x: u64) -> u128 {
    square_of(x) as u128
}

/// The grids reported for the magic triples `i < j` by scan `scan`: 0
/// completes `a1` with `a2`, 1 `a1` with `b2` and `b1` with `a2`, 2 `b1` with
/// `b2`, each to the magic sum with a perfect square.
pub open spec fn magic_pattern_grids(a: Seq<u64>, b: Seq<u64>, c: u64, i: int, j: int, scan: int) -> Seq<[u128; 9]> {
    let cs = sq(c);
    let csum = (2 * cs) as u128;
    let m = (3 * cs) as u128;
    let a1 = sq(a[i]);
    let b1 = sq(b[i]);
    let a2 = sq(a[j]);
    let b2 = sq(b[j]);
    let ar = m - a1;
    let br = m - b1;
    if scan == 0 {
        let aa = ar - a2;
        if aa >= 0 && is_perfect_square(aa) {
            pattern_2_all(aa as u128, a1, b1, a2, b2, cs) + pattern_34_all(aa as u128, a1, a2, b1, b2, cs, m, csum)
        } else {
            seq![]
        }
    } else if scan == 1 {
        let ab = ar - b2;
        let ba = br - a2;
        (if ab >= 0 && is_perfect_square(ab) {
            pattern_34_all(ab as u128, a1, b2, b1, a2, cs, m, csum)
        } else {
            seq![]
        }) + (if ba >= 0 && is_perfect_square(ba) {
            pattern_34_all(ba as u128, b1, a2, a1, b2, cs, m, csum)
        } else {
            seq![]
        })
    } else {
        let bb = br - b2;
        if bb >= 0 && is_perfect_square(bb) {
            pattern_2_all(bb as u128, a1, b1, a2, b2, cs) + pattern_34_all(bb as u128, b1, b2, a1, a2, cs, m, csum)
        } else {
            seq![]
        }
    }
}

/// `g` is reported for the pair `i < j` by scan `scan`: scan 0 runs while
/// `a²` stays below `3c² - a1`, scan 2 while `b²` stays at least `a1 - c²`,
/// scan 1 over every later pair.
pub open spec fn magic_pattern_hit(a: Seq<u64>, b: Seq<u64>, c: u64, i: int, j: int, scan: int, g: [u128; 9]) -> bool {
    let cs = square_of(c);
    let m = 3 * cs;
    let a1 = square_of(a[i]);
    let b1 = square_of(b[i]);
    let b_min = if a1 >= cs { a1 - cs } else { 0 };
    &&& 0 <= i < j < a.len()
    &&& a1 <= m && b1 <= m
    &&& 0 <= scan <= 2
    &&& scan == 0 ==> forall|x: int| i < x <= j ==> #[trigger] square_of(a[x]) < m - a1
    &&& scan == 2 ==> forall|x: int| i < x <= j ==> #[trigger] square_of(b[x]) >= b_min
    &&& magic_pattern_grids(a, b, c, i, j, scan).contains(g)
}

/// `g` is a grid of some pair and scan of `magic_pattern_hit`.
pub open spec fn is_magic_pattern_report(a: Seq<u64>, b: Seq<u64>, c: u64, g: [u128; 9]) -> bool {
    exists|i: int, j: int, scan: int| #[trigger] magic_pattern_hit(a, b, c, i, j, scan, g)
}

proof fn lemma_appended_reports(
    before: Seq<[u128; 9]>,
    after: Seq<[u128; 9]>,
    a: Seq<u64>,
    b: Seq<u64>,
    c: u64,
    i: int,
    j: int,
    scan: int,
)
    requires
        after == before + magic_pattern_grids(a, b, c, i, j, scan),
        forall|q: int| 0 <= q < before.len() ==> is_magic_pattern_report(a, b, c, #[trigger] before[q]),
        forall|g: [u128; 9]| magic_pattern_grids(a, b, c, i, j, scan).contains(g) ==> #[trigger] magic_pattern_hit(a, b, c, i, j, scan, g),
    ensures
        forall|q: int| 0 <= q < after.len() ==> is_magic_pattern_report(a, b, c, #[trigger] after[q]),
{
    assert forall|q: int| 0 <= q < after.len() implies is_magic_pattern_report(a, b, c, #[trigger] after[q]) by {
        if q < before.len() {
            assert(after[q] == before[q]);
        } else {
            let x = magic_pattern_grids(a, b, c, i, j, scan);
            assert(after[q] == x[q - before.len()]);
            assert(x.contains(after[q]));
            assert(magic_pattern_hit(a, b, c, i, j, scan, after[q]));
        }
    }
}

proof fn lemma_hit_of_grids(a: Seq<u64>, b: Seq<u64>, c: u64, i: int, j: int, scan: int)
    requires
        0 <= i < j < a.len(),
        square_of(a[i]) <= 3 * square_of(c),
        square_of(b[i]) <= 3 * square_of(c),
        0 <= scan <= 2,
        scan == 0 ==> forall|x: int| i < x <= j ==> #[trigger] square_of(a[x]) < 3 * square_of(c) - square_of(a[i]),
        scan == 2 ==> forall|x: int| i < x <= j ==> #[trigger] square_of(b[x]) >= (if square_of(a[i]) >= square_of(c) {
            square_of(a[i]) - square_of(c)
        } else {
            0
        }),
    ensures
        forall|g: [u128; 9]| magic_pattern_grids(a, b, c, i, j, scan).contains(g) ==> #[trigger] magic_pattern_hit(a, b, c, i, j, scan, g),
{
}

proof fn lemma_append_contains(before: Seq<[u128; 9]>, added: Seq<[u128; 9]>)
    ensures
        forall|g: [u128; 9]| before.contains(g) ==> #[trigger] (before + added).contains(g),
        forall|g: [u128; 9]| added.contains(g) ==> #[trigger] (before + added).contains(g),
{
    assert forall|g: [u128; 9]| before.contains(g) implies #[trigger] (before + added).contains(g) by {
        let k = choose|k: int| 0 <= k < before.len() && before[k] == g;
        assert((before + added)[k] == g);
    }
    assert forall|g: [u128; 9]| added.contains(g) implies #[trigger] (before + added).contains(g) by {
        let k = choose|k: int| 0 <= k < added.len() && added[k] == g;
        assert((before + added)[before.len() + k] == g);
    }
}

/// Scan 0 of `check_magic_patterns` on the pair `i < j`: `a1` completed by `a2`.
fn scan_a_with_a(
    a_square1: u128,
    b_square1: u128,
    a_square2: u128,
    b_square2: u128,
    center_square: u128,
    center_sum: u128,
    magic_sum: u128,
    grids: &mut Vec<[u128; 9]>,
    Ghost(a): Ghost<Seq<u64>>,
    Ghost(b): Ghost<Seq<u64>>,
    Ghost(c): Ghost<u64>,
    Ghost(i): Ghost<int>,
    Ghost(j): Ghost<int>,
)
    requires
        0 <= i < j < a.len(),
        j < b.len(),
        a_square1 as int == square_of(a[i]),
        b_square1 as int == square_of(b[i]),
        a_square2 as int == square_of(a[j]),
        b_square2 as int == square_of(b[j]),
        center_square == square_of(c),
        center_sum == 2 * square_of(c),
        magic_sum == 3 * square_of(c),
        a_square1 <= magic_sum,
        b_square1 <= magic_sum,
        is_perfect_square(a_square1 as int),
        is_perfect_square(b_square1 as int),
        is_perfect_square(a_square2 as int),
        is_perfect_square(b_square2 as int),
        forall|k: int| 0 <= k < old(grids)@.len() ==> is_square_grid(c, #[trigger] old(grids)@[k]),
        a_square2 < magic_sum - a_square1,
    ensures
        final(grids)@ == old(grids)@ + magic_pattern_grids(a, b, c, i, j, 0),
        forall|k: int| 0 <= k < final(grids)@.len() ==> is_square_grid(c, #[trigger] final(grids)@[k]),
{
    proof {
        lemma_square_is_perfect(c);
    }
    let aa_candidate = magic_sum - a_square1 - a_square2;
    if is_square(aa_candidate) {
        let ghost g0 = grids@;
        check_pattern_2(aa_candidate, a_square1, b_square1, a_square2, b_square2, center_square, grids);
        proof {
            assert(grids@.subrange(0, g0.len() as int) =~= g0);
            lemma_extend_square_grids(g0, grids@, c);
        }
        let ghost g1 = grids@;
        check_pattern_3_and_4(aa_candidate, a_square1, a_square2, b_square1, b_square2, center_square,
            magic_sum, center_sum, grids);
        proof {
            assert(grids@.subrange(0, g1.len() as int) =~= g1);
            lemma_extend_square_grids(g1, grids@, c);
        }
    }
    assert(grids@ =~= old(grids)@ + magic_pattern_grids(a, b, c, i, j, 0));
}

/// Scan 1 of `check_magic_patterns` on the pair `i < j`: `a1` completed by `b2`, `b1` by `a2`.
fn scan_cross(
    a_square1: u128,
    b_square1: u128,
    a_square2: u128,
    b_square2: u128,
    center_square: u128,
    center_sum: u128,
    magic_sum: u128,
    grids: &mut Vec<[u128; 9]>,
    Ghost(a): Ghost<Seq<u64>>,
    Ghost(b): Ghost<Seq<u64>>,
    Ghost(c): Ghost<u64>,
    Ghost(i): Ghost<int>,
    Ghost(j): Ghost<int>,
)
    requires
        0 <= i < j < a.len(),
        j < b.len(),
        a_square1 as int == square_of(a[i]),
        b_square1 as int == square_of(b[i]),
        a_square2 as int == square_of(a[j]),
        b_square2 as int == square_of(b[j]),
        center_square == square_of(c),
        center_sum == 2 * square_of(c),
        magic_sum == 3 * square_of(c),
        a_square1 <= magic_sum,
        b_square1 <= magic_sum,
        is_perfect_square(a_square1 as int),
        is_perfect_square(b_square1 as int),
        is_perfect_square(a_square2 as int),
        is_perfect_square(b_square2 as int),
        forall|k: int| 0 <= k < old(grids)@.len() ==> is_square_grid(c, #[trigger] old(grids)@[k]),
    ensures
        final(grids)@ == old(grids)@ + magic_pattern_grids(a, b, c, i, j, 1),
        forall|k: int| 0 <= k < final(grids)@.len() ==> is_square_grid(c, #[trigger] final(grids)@[k]),
{
    proof {
        lemma_square_is_perfect(c);
    }
    let a_remainder = magic_sum - a_square1;
    let b_remainder = magic_sum - b_square1;
    if let Some(ab_candidate) = a_remainder.checked_sub(b_square2) {
        if is_square(ab_candidate) {
            let ghost g1 = grids@;
        check_pattern_3_and_4(ab_candidate, a_square1, b_square2, b_square1, a_square2, center_square,
                magic_sum, center_sum, grids);
        proof {
            assert(grids@.subrange(0, g1.len() as int) =~= g1);
            lemma_extend_square_grids(g1, grids@, c);
        }
        }
    }
    if let Some(ba_candidate) = b_remainder.checked_sub(a_square2) {
        if is_square(ba_candidate) {
            let ghost g1 = grids@;
        check_pattern_3_and_4(ba_candidate, b_square1, a_square2, a_square1, b_square2, center_square,
                magic_sum, center_sum, grids);
        proof {
            assert(grids@.subrange(0, g1.len() as int) =~= g1);
            lemma_extend_square_grids(g1, grids@, c);
        }
        }
    }
    assert(grids@ =~= old(grids)@ + magic_pattern_grids(a, b, c, i, j, 1));
}

/// Scan 2 of `check_magic_patterns` on the pair `i < j`: `b1` completed by `b2`.
#[verifier::rlimit(60)]
fn scan_b_with_b(
    a_square1: u128,
    b_square1: u128,
    a_square2: u128,
    b_square2: u128,
    center_square: u128,
    center_sum: u128,
    magic_sum: u128,
    grids: &mut Vec<[u128; 9]>,
    Ghost(a): Ghost<Seq<u64>>,
    Ghost(b): Ghost<Seq<u64>>,
    Ghost(c): Ghost<u64>,
    Ghost(i): Ghost<int>,
    Ghost(j): Ghost<int>,
)
    requires
        0 <= i < j < a.len(),
        j < b.len(),
        a_square1 as int == square_of(a[i]),
        b_square1 as int == square_of(b[i]),
        a_square2 as int == square_of(a[j]),
        b_square2 as int == square_of(b[j]),
        center_square == square_of(c),
        center_sum == 2 * square_of(c),
        magic_sum == 3 * square_of(c),
        a_square1 <= magic_sum,
        b_square1 <= magic_sum,
        is_perfect_square(a_square1 as int),
        is_perfect_square(b_square1 as int),
        is_perfect_square(a_square2 as int),
        is_perfect_square(b_square2 as int),
        forall|k: int| 0 <= k < old(grids)@.len() ==> is_square_grid(c, #[trigger] old(grids)@[k]),
    ensures
        final(grids)@ == old(grids)@ + magic_pattern_grids(a, b, c, i, j, 2),
        forall|k: int| 0 <= k < final(grids)@.len() ==> is_square_grid(c, #[trigger] final(grids)@[k]),
{
    proof {
        lemma_square_is_perfect(c);
    }
    let b_remainder = magic_sum - b_square1;
    if let Some(bb_candidate) = b_remainder.checked_sub(b_square2) {
        if is_square(bb_candidate) {
            let ghost g0 = grids@;
        check_pattern_2(bb_candidate, a_square1, b_square1, a_square2, b_square2, center_square, grids);
        proof {
            assert(grids@.subrange(0, g0.len() as int) =~= g0);
            lemma_extend_square_grids(g0, grids@, c);
        }
            let ghost g1 = grids@;
        check_pattern_3_and_4(bb_candidate, b_square1, b_square2, a_square1, a_square2, center_square,
                magic_sum, center_sum, grids);
        proof {
            assert(grids@.subrange(0, g1.len() as int) =~= g1);
            lemma_extend_square_grids(g1, grids@, c);
        }
        }
    }
    assert(grids@ =~= old(grids)@ + magic_pattern_grids(a, b, c, i, j, 2));
}

/// Patterns 2, 3 and 4 of the 3×3 magic squares of squares for center `c`:
/// for each two magic triples `(a1, b1)`, `(a2, b2)` (the second later in
/// the list), the complements of the squares against the line sum `3c²`
/// that are perfect squares are tried as the third cell of a line. Every
/// grid of `magic_pattern_hit` is reported, and nothing for the known
/// family when `hide_known_solution` is set.
#[verifier::rlimit(60)]
pub fn check_magic_patterns(a_values: &[u64], b_values: &[u64], c: u64, hide_known_solution: bool) -> (r: Vec<[u128; 9]>)
    requires
        a_values@.len() == b_values@.len(),
        3 * square_of(c) <= u128::MAX,
    ensures
        forall|k: int| 0 <= k < r@.len() ==> is_square_grid(c, #[trigger] r@[k]),
        forall|k: int| 0 <= k < r@.len() ==> is_magic_pattern_report(a_values@, b_values@, c, #[trigger] r@[k]),
        hide_known_solution && is_known_center(c) ==> r@.len() == 0,
        !(hide_known_solution && is_known_center(c)) ==> forall|i: int, j: int, scan: int, g: [u128; 9]|
            #[trigger] magic_pattern_hit(a_values@, b_values@, c, i, j, scan, g) ==> r@.contains(g),
{
    let mut grids: Vec<[u128; 9]> = Vec::new();
    if hide_known_solution && is_known_solution(c) {
        return grids;
    }
    let ghost a = a_values@;
    let ghost b = b_values@;
    let center_square = square(c);
    let center_sum = center_square + center_square;
    let magic_sum = center_sum + center_square;
    let a_squares = squares_of(a_values);
    let b_squares = squares_of(b_values);
    let n = a_squares.len();
    proof {
        assert forall|k: int| 0 <= k < n implies is_perfect_square(#[trigger] a_squares@[k] as int)
            && is_perfect_square(b_squares@[k] as int) by {
            lemma_square_is_perfect(a_values@[k]);
            lemma_square_is_perfect(b_values@[k]);
        }
    }
    let mut i: usize = 0;
    while i < n
        invariant
            n == a_squares@.len(),
            n == b_squares@.len(),
            n == a.len(),
            n == b.len(),
            a == a_values@,
            b == b_values@,
            forall|k: int| 0 <= k < n ==> #[trigger] a_squares@[k] as int == square_of(a[k]),
            forall|k: int| 0 <= k < n ==> #[trigger] b_squares@[k] as int == square_of(b[k]),
            center_square == square_of(c),
            magic_sum == 3 * square_of(c),
            center_sum == 2 * square_of(c),
            forall|k: int| 0 <= k < n ==> is_perfect_square(#[trigger] a_squares@[k] as int)
                && is_perfect_square(b_squares@[k] as int),
            forall|k: int| 0 <= k < grids@.len() ==> is_square_grid(c, #[trigger] grids@[k]),
            forall|k: int| 0 <= k < grids@.len() ==> is_magic_pattern_report(a, b, c, #[trigger] grids@[k]),
            forall|ii: int, jj: int, scan: int, g: [u128; 9]|
                0 <= ii < i && #[trigger] magic_pattern_hit(a, b, c, ii, jj, scan, g) ==> grids@.contains(g),
        decreases n - i,
    {
        let a_square1 = a_squares[i];
        let b_square1 = b_squares[i];
        assert(is_perfect_square(a_squares@[i as int] as int) && is_perfect_square(b_squares@[i as int] as int));
        if a_square1 <= magic_sum && b_square1 <= magic_sum {
            let a_remainder = magic_sum - a_square1;
            let b_remainder = magic_sum - b_square1;
            let b_minimum = match a_square1.checked_sub(center_square) {
                Some(v) => v,
                None => 0,
            };
            let mut a_upto = i + 1;
            while a_upto < n && a_squares[a_upto] < a_remainder
                invariant
                    i < n,
                    n == a_squares@.len(),
                    i + 1 <= a_upto <= n,
                    forall|k: int| i + 1 <= k < a_upto ==> #[trigger] a_squares@[k] < a_remainder,
                decreases n - a_upto,
            {
                a_upto = a_upto + 1;
            }
            let mut b_upto = i + 1;
            while b_upto < n && b_squares[b_upto] >= b_minimum
                invariant
                    i < n,
                    n == b_squares@.len(),
                    i + 1 <= b_upto <= n,
                    forall|k: int| i + 1 <= k < b_upto ==> #[trigger] b_squares@[k] >= b_minimum,
                decreases n - b_upto,
            {
                b_upto = b_upto + 1;
            }
            let mut j = i + 1;
            while j < a_upto
                invariant
                    i < n,
                    a_upto <= n,
                    n == a_squares@.len(),
                    n == b_squares@.len(),
                    n == a.len(),
                    n == b.len(),
                    i + 1 <= j,
                    a == a_values@,
                    b == b_values@,
                    forall|k: int| 0 <= k < n ==> #[trigger] a_squares@[k] as int == square_of(a[k]),
                    forall|k: int| 0 <= k < n ==> #[trigger] b_squares@[k] as int == square_of(b[k]),
                    center_square == square_of(c),
                    magic_sum == 3 * square_of(c),
                    center_sum == 2 * square_of(c),
                    a_square1 == a_squares@[i as int],
                    b_square1 == b_squares@[i as int],
                    a_square1 <= magic_sum,
                    b_square1 <= magic_sum,
                    a_remainder == magic_sum - a_square1,
                    b_remainder == magic_sum - b_square1,
                    forall|k: int| i + 1 <= k < a_upto ==> #[trigger] a_squares@[k] < a_remainder,
                    a_upto < n ==> a_squares@[a_upto as int] >= a_remainder,
                    is_perfect_square(a_square1 as int),
                    is_perfect_square(b_square1 as int),
                    forall|k: int| 0 <= k < n ==> is_perfect_square(#[trigger] a_squares@[k] as int)
                        && is_perfect_square(b_squares@[k] as int),
                    forall|k: int| 0 <= k < grids@.len() ==> is_square_grid(c, #[trigger] grids@[k]),
            forall|k: int| 0 <= k < grids@.len() ==> is_magic_pattern_report(a, b, c, #[trigger] grids@[k]),
                    forall|ii: int, jj: int, scan: int, g: [u128; 9]|
                        0 <= ii < i && #[trigger] magic_pattern_hit(a, b, c, ii, jj, scan, g) ==> grids@.contains(g),
                    forall|jj: int, g: [u128; 9]|
                        jj < j && #[trigger] magic_pattern_hit(a, b, c, i as int, jj, 0, g) ==> grids@.contains(g),
                decreases a_upto - j,
            {
                let a_square2 = a_squares[j];
                let b_square2 = b_squares[j];
                assert(is_perfect_square(a_squares@[j as int] as int) && is_perfect_square(b_squares@[j as int] as int));
                assert(a_square2 < a_remainder);
                let ghost before = grids@;
                scan_a_with_a(a_square1, b_square1, a_square2, b_square2, center_square, center_sum, magic_sum, &mut grids,
                    Ghost(a), Ghost(b), Ghost(c), Ghost(i as int), Ghost(j as int));
                proof {
                    assert forall|x: int| i < x <= j implies #[trigger] square_of(a[x]) < 3 * square_of(c) - square_of(a[i as int]) by {
                        assert(a_squares@[x] < a_remainder);
                    }
                    lemma_hit_of_grids(a, b, c, i as int, j as int, 0);
                    lemma_appended_reports(before, grids@, a, b, c, i as int, j as int, 0);
                    lemma_append_contains(before, magic_pattern_grids(a, b, c, i as int, j as int, 0));
                }
                j = j + 1;
            }
            let mut j = i + 1;
            while j < n
                invariant
                    i < n,
                    a_upto <= n,
                    n == a_squares@.len(),
                    n == b_squares@.len(),
                    n == a.len(),
                    n == b.len(),
                    i + 1 <= j,
                    a == a_values@,
                    b == b_values@,
                    forall|k: int| 0 <= k < n ==> #[trigger] a_squares@[k] as int == square_of(a[k]),
                    forall|k: int| 0 <= k < n ==> #[trigger] b_squares@[k] as int == square_of(b[k]),
                    center_square == square_of(c),
                    magic_sum == 3 * square_of(c),
                    center_sum == 2 * square_of(c),
                    a_square1 == a_squares@[i as int],
                    b_square1 == b_squares@[i as int],
                    a_square1 <= magic_sum,
                    b_square1 <= magic_sum,
                    a_remainder == magic_sum - a_square1,
                    b_remainder == magic_sum - b_square1,
                    is_perfect_square(a_square1 as int),
                    is_perfect_square(b_square1 as int),
                    forall|k: int| 0 <= k < n ==> is_perfect_square(#[trigger] a_squares@[k] as int)
                        && is_perfect_square(b_squares@[k] as int),
                    forall|k: int| 0 <= k < grids@.len() ==> is_square_grid(c, #[trigger] grids@[k]),
            forall|k: int| 0 <= k < grids@.len() ==> is_magic_pattern_report(a, b, c, #[trigger] grids@[k]),
                    forall|ii: int, jj: int, scan: int, g: [u128; 9]|
                        0 <= ii < i && #[trigger] magic_pattern_hit(a, b, c, ii, jj, scan, g) ==> grids@.contains(g),
                    forall|jj: int, g: [u128; 9]|
                        #[trigger] magic_pattern_hit(a, b, c, i as int, jj, 0, g) ==> grids@.contains(g),
                    forall|jj: int, g: [u128; 9]|
                        jj < j && #[trigger] magic_pattern_hit(a, b, c, i as int, jj, 1, g) ==> grids@.contains(g),
                decreases n - j,
            {
                let a_square2 = a_squares[j];
                let b_square2 = b_squares[j];
                assert(is_perfect_square(a_squares@[j as int] as int) && is_perfect_square(b_squares@[j as int] as int));
                let ghost before = grids@;
                scan_cross(a_square1, b_square1, a_square2, b_square2, center_square, center_sum, magic_sum, &mut grids,
                    Ghost(a), Ghost(b), Ghost(c), Ghost(i as int), Ghost(j as int));
                proof {
                    lemma_hit_of_grids(a, b, c, i as int, j as int, 1);
                    lemma_appended_reports(before, grids@, a, b, c, i as int, j as int, 1);
                    lemma_append_contains(before, magic_pattern_grids(a, b, c, i as int, j as int, 1));
                }
                j = j + 1;
            }
            let mut j = i + 1;
            while j < b_upto
                invariant
                    i < n,
                    b_upto <= n,
                    n == a_squares@.len(),
                    n == b_squares@.len(),
                    n == a.len(),
                    n == b.len(),
                    i + 1 <= j,
                    a == a_values@,
                    b == b_values@,
                    forall|k: int| 0 <= k < n ==> #[trigger] a_squares@[k] as int == square_of(a[k]),
                    forall|k: int| 0 <= k < n ==> #[trigger] b_squares@[k] as int == square_of(b[k]),
                    center_square == square_of(c),
                    magic_sum == 3 * square_of(c),
                    center_sum == 2 * square_of(c),
                    a_square1 == a_squares@[i as int],
                    b_square1 == b_squares@[i as int],
                    a_square1 <= magic_sum,
                    b_square1 <= magic_sum,
                    a_remainder == magic_sum - a_square1,
                    b_remainder == magic_sum - b_square1,
                    b_minimum == (if a_square1 >= center_square { a_square1 - center_square } else { 0 }),
                    forall|k: int| i + 1 <= k < b_upto ==> #[trigger] b_squares@[k] >= b_minimum,
                    b_upto < n ==> b_squares@[b_upto as int] < b_minimum,
                    is_perfect_square(a_square1 as int),
                    is_perfect_square(b_square1 as int),
                    forall|k: int| 0 <= k < n ==> is_perfect_square(#[trigger] a_squares@[k] as int)
                        && is_perfect_square(b_squares@[k] as int),
                    forall|k: int| 0 <= k < grids@.len() ==> is_square_grid(c, #[trigger] grids@[k]),
            forall|k: int| 0 <= k < grids@.len() ==> is_magic_pattern_report(a, b, c, #[trigger] grids@[k]),
                    forall|ii: int, jj: int, scan: int, g: [u128; 9]|
                        0 <= ii < i && #[trigger] magic_pattern_hit(a, b, c, ii, jj, scan, g) ==> grids@.contains(g),
                    forall|jj: int, scan: int, g: [u128; 9]|
                        0 <= scan <= 1 && #[trigger] magic_pattern_hit(a, b, c, i as int, jj, scan, g) ==> grids@.contains(g),
                    forall|jj: int, g: [u128; 9]|
                        jj < j && #[trigger] magic_pattern_hit(a, b, c, i as int, jj, 2, g) ==> grids@.contains(g),
                decreases b_upto - j,
            {
                let a_square2 = a_squares[j];
                let b_square2 = b_squares[j];
                assert(is_perfect_square(a_squares@[j as int] as int) && is_perfect_square(b_squares@[j as int] as int));
                let ghost before = grids@;
                scan_b_with_b(a_square1, b_square1, a_square2, b_square2, center_square, center_sum, magic_sum, &mut grids,
                    Ghost(a), Ghost(b), Ghost(c), Ghost(i as int), Ghost(j as int));
                proof {
                    assert forall|x: int| i < x <= j implies #[trigger] square_of(b[x]) >= (if square_of(a[i as int]) >= square_of(c) {
                        square_of(a[i as int]) - square_of(c)
                    } else {
                        0
                    }) by {
                        assert(b_squares@[x] >= b_minimum);
                    }
                    lemma_hit_of_grids(a, b, c, i as int, j as int, 2);
                    lemma_appended_reports(before, grids@, a, b, c, i as int, j as int, 2);
                    lemma_append_contains(before, magic_pattern_grids(a, b, c, i as int, j as int, 2));
                }
                j = j + 1;
            }
        }
        i = i + 1;
    }
    grids
}

} // verus!
