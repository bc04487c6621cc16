use crate::squares::{contains_sorted_pair, is_input_square, lemma_prefix_contains, pair_le, square, square_of};
use vstd::prelude::*;

verus! {

/// `x` is `(a[k]², b[k]²)` for some input index `k`.
pub open spec fn is_input_pair(a: Seq<u64>, b: Seq<u64>, x: (u128, u128)) -> bool {
    exists|k: int| 0 <= k < a.len() && k < b.len() && x.0 == square_of(a[k]) && x.1 == square_of(b[k])
}

/// A grid `[TL, TM, TR, ML, C, MR, BL, BM, BR]` reported by patterns 1 and 6
/// for center `c`: the center is `c²`; the top and bottom rows and the left
/// and right columns sum to `3c²`; the corners `TL`, `BR` and the middle row
/// cells `ML`, `MR` are squares of inputs, `(TL, BR)` is an input pair and
/// `ML`, `MR` form one (in some order), and so do either `TR` and `BL`
/// (pattern 1) or `TM` and `BM` (pattern 6), which are then squares of
/// inputs too.
pub open spec fn is_pattern_16_grid(a: Seq<u64>, b: Seq<u64>, c: u64, g: [u128; 9]) -> bool {
    &&& is_pattern_16_frame(a, b, c, g)
    &&& (is_input_pair(a, b, (g[2], g[6])) || is_input_pair(a, b, (g[6], g[2]))) || (is_input_pair(a, b, (g[7], g[1]))
        || is_input_pair(a, b, (g[1], g[7])))
    &&& (is_input_square(a, b, g[2] as int) && is_input_square(a, b, g[6] as int)) || (is_input_square(
        a,
        b,
        g[1] as int,
    ) && is_input_square(a, b, g[7] as int))
}

/// The part of `is_pattern_16_grid` that holds before the search: center,
/// the four outer lines and the four squares the grid was built from.
pub open spec fn is_pattern_16_frame(a: Seq<u64>, b: Seq<u64>, c: u64, g: [u128; 9]) -> bool {
    let m = 3 * square_of(c);
    &&& g[4] == square_of(c)
    &&& g[0] + g[1] + g[2] == m
    &&& g[6] + g[7] + g[8] == m
    &&& g[0] + g[3] + g[6] == m
    &&& g[2] + g[5] + g[8] == m
    &&& is_input_square(a, b, g[0] as int)
    &&& is_input_square(a, b, g[8] as int)
    &&& is_input_square(a, b, g[3] as int)
    &&& is_input_square(a, b, g[5] as int)
    &&& is_input_pair(a, b, (g[0], g[8]))
    &&& is_input_pair(a, b, (g[3], g[5])) || is_input_pair(a, b, (g[5], g[3]))
}

/// The grid with corners `tl`, `br` and middle row `ml`, `mr` whose other
/// cells follow from the outer line sums `m`, when none of them is negative.
pub open spec fn middle_grid(tl: u128, br: u128, ml: u128, mr: u128, center: u128, m: u128) -> Option<[u128; 9]> {
    let r1 = m - tl;
    let r2 = m - br;
    let bl = r1 - ml;
    let tr = r2 - mr;
    let bm = r2 - bl;
    let tm = r1 - tr;
    if bl >= 0 && tr >= 0 && bm >= 0 && tm >= 0 {
        Some([tl, tm as u128, tr as u128, ml, center, mr, bl as u128, bm as u128, br])
    } else {
        None
    }
}

/// The scan stops at this middle pair: every derived cell but the top
/// middle one is non-negative, and that one is negative.
pub open spec fn middle_stops(tl: u128, br: u128, ml: u128, mr: u128, m: u128) -> bool {
    let r1 = m - tl;
    let r2 = m - br;
    let bl = r1 - ml;
    let tr = r2 - mr;
    let bm = r2 - bl;
    bl >= 0 && tr >= 0 && bm >= 0 && r1 - tr < 0
}

/// `(x, y)`, or larger first when `ordered`.
pub open spec fn ordered_pair(x: u128, y: u128, ordered: bool) -> (u128, u128) {
    if !ordered || x > y {
        (x, y)
    } else {
        (y, x)
    }
}

pub open spec fn pair_in(list: Seq<(u128, u128)>, hi: int, t: (u128, u128)) -> bool {
    exists|k: int| 0 <= k < hi && #[trigger] list[k] == t
}

/// The pattern-1 pair `(TR, BL)` or the pattern-6 pair `(BM, TM)` of `g`
/// lies in `first[..fhi]` or `second[..shi]`.
pub open spec fn target_found(
    g: [u128; 9],
    ordered: bool,
    first: Seq<(u128, u128)>,
    fhi: int,
    second: Seq<(u128, u128)>,
    shi: int,
) -> bool {
    let p1 = ordered_pair(g[2], g[6], ordered);
    let p6 = ordered_pair(g[7], g[1], ordered);
    pair_in(first, fhi, p1) || pair_in(second, shi, p1) || pair_in(first, fhi, p6) || pair_in(second, shi, p6)
}

pub open spec fn pairs_sorted(v: Seq<(u128, u128)>) -> bool {
    forall|x: int, y: int| 0 <= x < y < v.len() ==> pair_le(v[x], v[y])
}

/// `(a[k]², b[k]²)` for `k` in `[from, to)`.
pub open spec fn pairs_of(a: Seq<u64>, b: Seq<u64>, from: int, to: int) -> Seq<(u128, u128)> {
    Seq::new((to - from) as nat, |k: int| (square_of(a[from + k]) as u128, square_of(b[from + k]) as u128))
}

/// A grid the search reports for primitive corner pair `pr[i]` and middle
/// pair `j` of scan `scan`: 0 over the primitive pairs before `i` (below the
/// remainder, stopping at the first negative top middle), 1 over the
/// non-primitive pairs likewise, 2 and 3 over the same lists with each pair
/// swapped and no stop.
pub open spec fn pattern_16_hit(
    np: Seq<(u128, u128)>,
    pr: Seq<(u128, u128)>,
    center: u128,
    m: u128,
    i: int,
    j: int,
    scan: int,
    g: [u128; 9],
) -> bool {
    let tl = pr[i].0;
    let br = pr[i].1;
    let r1 = m - tl;
    &&& 0 <= i < pr.len() && tl <= m && br <= m
    &&& 0 <= scan <= 3
    &&& scan == 0 ==> {
        &&& 0 <= j < i
        &&& forall|x: int| 0 <= x <= j ==> #[trigger] pr[x].0 < r1
        &&& forall|x: int| 0 <= x < j ==> !middle_stops(tl, br, #[trigger] pr[x].0, pr[x].1, m)
        &&& middle_grid(tl, br, pr[j].0, pr[j].1, center, m) == Some(g)
        &&& target_found(g, false, pr, i, np, np.len() as int)
    }
    &&& scan == 1 ==> {
        &&& 0 <= j < np.len()
        &&& forall|x: int| 0 <= x <= j ==> #[trigger] np[x].0 < r1
        &&& forall|x: int| 0 <= x < j ==> !middle_stops(tl, br, #[trigger] np[x].0, np[x].1, m)
        &&& middle_grid(tl, br, np[j].0, np[j].1, center, m) == Some(g)
        &&& target_found(g, false, np, np.len() as int, Seq::empty(), 0)
    }
    &&& scan == 2 ==> {
        &&& 0 <= j < i
        &&& middle_grid(tl, br, pr[j].1, pr[j].0, center, m) == Some(g)
        &&& target_found(g, true, pr, i, np, np.len() as int)
    }
    &&& scan == 3 ==> {
        &&& 0 <= j < np.len()
        &&& middle_grid(tl, br, np[j].1, np[j].0, center, m) == Some(g)
        &&& target_found(g, true, np, np.len() as int, Seq::empty(), 0)
    }
}

/// The corners `TL`, `BR` of `g` are `(a[t]², b[t]²)` of a primitive row
/// `t >= ps`.
pub open spec fn corner_is_primitive(a: Seq<u64>, b: Seq<u64>, ps: int, g: [u128; 9]) -> bool {
    exists|t: int| ps <= t < a.len() && t < b.len() && g[0] as int == #[trigger] square_of(a[t]) && g[8] as int == square_of(b[t])
}

proof fn lemma_square_fits(x: u64)
    ensures
        0 <= square_of(x) <= u128::MAX,
{
    assert(x as int * x as int <= u64::MAX as int * u64::MAX as int) by (nonlinear_arith)
        requires x <= u64::MAX, x >= 0;
}

proof fn lemma_corner_extend(
    before: Seq<[u128; 9]>,
    after: Seq<[u128; 9]>,
    a: Seq<u64>,
    b: Seq<u64>,
    ps: int,
    tl: u128,
    br: u128,
    t: int,
)
    requires
        after.len() >= before.len(),
        after.subrange(0, before.len() as int) == before,
        forall|k: int| 0 <= k < before.len() ==> corner_is_primitive(a, b, ps, #[trigger] before[k]),
        forall|k: int| before.len() <= k < after.len() ==> (#[trigger] after[k])[0] == tl && after[k][8] == br,
        ps <= t < a.len(),
        t < b.len(),
        tl as int == square_of(a[t]),
        br as int == square_of(b[t]),
    ensures
        forall|k: int| 0 <= k < after.len() ==> corner_is_primitive(a, b, ps, #[trigger] after[k]),
{
    assert forall|k: int| 0 <= k < after.len() implies corner_is_primitive(a, b, ps, #[trigger] after[k]) by {
        if k < before.len() {
            assert(after.subrange(0, before.len() as int)[k] == after[k]);
        } else {
            assert(after[k][0] as int == square_of(a[t]));
        }
    }
}

proof fn lemma_pair_squares(a: Seq<u64>, b: Seq<u64>, x: (u128, u128))
    requires
        is_input_pair(a, b, x),
    ensures
        is_input_square(a, b, x.0 as int),
        is_input_square(a, b, x.1 as int),
{
    let k = choose|k: int| 0 <= k < a.len() && k < b.len() && x.0 == square_of(a[k]) && x.1 == square_of(b[k]);
    assert(x.0 == square_of(a[k]) || x.0 == square_of(b[k]));
    assert(x.1 == square_of(a[k]) || x.1 == square_of(b[k]));
}

/// Appends `(a[k]², b[k]²)` for `k` in `[from, to)`.
fn push_pairs(pairs: &mut Vec<(u128, u128)>, a: &[u64], b: &[u64], from: usize, to: usize)
    requires
        a@.len() == b@.len(),
        from <= to <= a@.len(),
        old(pairs)@.len() == 0,
    ensures
        final(pairs)@.len() == to - from,
        forall|k: int| 0 <= k < final(pairs)@.len() ==> is_input_pair(a@, b@, #[trigger] final(pairs)@[k]),
        final(pairs)@ == pairs_of(a@, b@, from as int, to as int),
{
    let mut i = from;
    while i < to
        invariant
            a@.len() == b@.len(),
            from <= i <= to <= a@.len(),
            pairs@.len() == i - from,
            forall|k: int| 0 <= k < pairs@.len() ==> is_input_pair(a@, b@, #[trigger] pairs@[k]),
            pairs@ == pairs_of(a@, b@, from as int, i as int),
        decreases to - i,
    {
        let x = (square(a[i]), square(b[i]));
        assert(is_input_pair(a@, b@, x)) by {
            assert(x.0 == square_of(a@[i as int]) && x.1 == square_of(b@[i as int]));
        }
        pairs.push(x);
        i = i + 1;
        assert(pairs@ =~= pairs_of(a@, b@, from as int, i as int));
    }
}

/// Reports `grid` when `target` lies in `pairs[..hi]`.
fn report_if_found(
    target: (u128, u128),
    grid: [u128; 9],
    pairs: &Vec<(u128, u128)>,
    hi: usize,
    grids: &mut Vec<[u128; 9]>,
    Ghost(a): Ghost<Seq<u64>>,
    Ghost(b): Ghost<Seq<u64>>,
    Ghost(c): Ghost<u64>,
)
    requires
        hi <= pairs@.len(),
        forall|k: int| 0 <= k < pairs@.len() ==> is_input_pair(a, b, #[trigger] pairs@[k]),
        forall|k: int| 0 <= k < old(grids)@.len() ==> is_pattern_16_grid(a, b, c, #[trigger] old(grids)@[k]),
        target == (grid[2], grid[6]) || target == (grid[6], grid[2]) || target == (grid[7], grid[1])
            || target == (grid[1], grid[7]),
        is_pattern_16_frame(a, b, c, grid),
    ensures
        forall|k: int| 0 <= k < final(grids)@.len() ==> is_pattern_16_grid(a, b, c, #[trigger] final(grids)@[k]),
        final(grids)@.len() >= old(grids)@.len(),
        final(grids)@.subrange(0, old(grids)@.len() as int) == old(grids)@,
        pairs_sorted(pairs@) && pair_in(pairs@, hi as int, target) ==> final(grids)@.contains(grid),
        forall|k: int| old(grids)@.len() <= k < final(grids)@.len() ==> #[trigger] final(grids)@[k] == grid,
{
    proof {
        if pairs_sorted(pairs@) {
            assert forall|x: int, y: int| 0 <= x < y < hi implies pair_le(pairs@[x], pairs@[y]) by {}
        }
    }
    if contains_sorted_pair(pairs, 0, hi, target) {
        proof {
            let k = choose|k: int| 0 <= k < hi && pairs@[k] == target;
            lemma_pair_squares(a, b, pairs@[k]);
        }
        grids.push(grid);
        assert(grids@[grids@.len() - 1] == grid);
    }
    assert(grids@.subrange(0, old(grids)@.len() as int) =~= old(grids)@);
}

/// Checks the middle-row pair `(ml, mr)` against the corner pair
/// `(top_left, bottom_right)`: derives the other cells from the line sums
/// and reports the grid when the pattern-1 pair `(TR, BL)` or the pattern-6
/// pair `(BM, TM)` is found among `pairs[lo..hi]` or `others`. The targets
/// are ordered larger first when `ordered`. Returns `false` when `TM` would
/// be negative.
fn check_middle_pair(
    top_left: u128,
    bottom_right: u128,
    ml: u128,
    mr: u128,
    center: u128,
    magic_sum: u128,
    ordered: bool,
    first: &Vec<(u128, u128)>,
    first_hi: usize,
    second: &Vec<(u128, u128)>,
    second_hi: usize,
    grids: &mut Vec<[u128; 9]>,
    Ghost(a): Ghost<Seq<u64>>,
    Ghost(b): Ghost<Seq<u64>>,
    Ghost(c): Ghost<u64>,
) -> (r: bool)
    requires
        first_hi <= first@.len(),
        second_hi <= second@.len(),
        center == square_of(c),
        magic_sum == 3 * square_of(c),
        top_left <= magic_sum,
        bottom_right <= magic_sum,
        is_input_square(a, b, top_left as int),
        is_input_square(a, b, bottom_right as int),
        is_input_square(a, b, ml as int),
        is_input_square(a, b, mr as int),
        is_input_pair(a, b, (top_left, bottom_right)),
        is_input_pair(a, b, (ml, mr)) || is_input_pair(a, b, (mr, ml)),
        forall|k: int| 0 <= k < first@.len() ==> is_input_pair(a, b, #[trigger] first@[k]),
        forall|k: int| 0 <= k < second@.len() ==> is_input_pair(a, b, #[trigger] second@[k]),
        forall|k: int| 0 <= k < old(grids)@.len() ==> is_pattern_16_grid(a, b, c, #[trigger] old(grids)@[k]),
    ensures
        forall|k: int| 0 <= k < final(grids)@.len() ==> is_pattern_16_grid(a, b, c, #[trigger] final(grids)@[k]),
        r == !middle_stops(top_left, bottom_right, ml, mr, magic_sum),
        final(grids)@.len() >= old(grids)@.len(),
        final(grids)@.subrange(0, old(grids)@.len() as int) == old(grids)@,
        forall|k: int| old(grids)@.len() <= k < final(grids)@.len() ==> (#[trigger] final(grids)@[k])[0] == top_left
            && final(grids)@[k][8] == bottom_right,
        forall|g: [u128; 9]|
            pairs_sorted(first@) && pairs_sorted(second@) && middle_grid(top_left, bottom_right, ml, mr, center, magic_sum)
                == Some(g) && target_found(g, ordered, first@, first_hi as int, second@, second_hi as int)
                ==> #[trigger] final(grids)@.contains(g),
{
    let remainder1 = magic_sum - top_left;
    let remainder2 = magic_sum - bottom_right;
    let bottom_left = match remainder1.checked_sub(ml) {
        Some(v) => v,
        None => {
            return true;
        },
    };
    let top_right = match remainder2.checked_sub(mr) {
        Some(v) => v,
        None => {
            return true;
        },
    };
    let bottom_middle = match remainder2.checked_sub(bottom_left) {
        Some(v) => v,
        None => {
            return true;
        },
    };
    let top_middle = match remainder1.checked_sub(top_right) {
        Some(v) => v,
        None => {
            return false;
        },
    };
    let pattern_1_target = if !ordered || top_right > bottom_left {
        (top_right, bottom_left)
    } else {
        (bottom_left, top_right)
    };
    let pattern_6_target = if !ordered || bottom_middle > top_middle {
        (bottom_middle, top_middle)
    } else {
        (top_middle, bottom_middle)
    };
    let grid = [top_left, top_middle, top_right, ml, center, mr, bottom_left, bottom_middle, bottom_right];
    let ghost g0 = grids@;
    report_if_found(pattern_1_target, grid, first, first_hi, grids, Ghost(a), Ghost(b), Ghost(c));
    let ghost g1 = grids@;
    report_if_found(pattern_1_target, grid, second, second_hi, grids, Ghost(a), Ghost(b), Ghost(c));
    let ghost g2 = grids@;
    report_if_found(pattern_6_target, grid, first, first_hi, grids, Ghost(a), Ghost(b), Ghost(c));
    let ghost g3 = grids@;
    report_if_found(pattern_6_target, grid, second, second_hi, grids, Ghost(a), Ghost(b), Ghost(c));
    proof {
        assert forall|k: int| g0.len() <= k < grids@.len() implies (#[trigger] grids@[k])[0] == top_left
            && grids@[k][8] == bottom_right by {
            if k < g1.len() {
                assert(g1[k] == grid);
                assert(g2.subrange(0, g1.len() as int)[k] == g1[k]);
                assert(g3.subrange(0, g2.len() as int)[k] == g2[k]);
                assert(grids@.subrange(0, g3.len() as int)[k] == g3[k]);
            } else if k < g2.len() {
                assert(g2[k] == grid);
                assert(g3.subrange(0, g2.len() as int)[k] == g2[k]);
                assert(grids@.subrange(0, g3.len() as int)[k] == g3[k]);
            } else if k < g3.len() {
                assert(g3[k] == grid);
                assert(grids@.subrange(0, g3.len() as int)[k] == g3[k]);
            } else {
                assert(grids@[k] == grid);
            }
        }
        lemma_prefix_contains(g1, g2);
        lemma_prefix_contains(g2, g3);
        lemma_prefix_contains(g3, grids@);
        assert(g2.subrange(0, g0.len() as int) =~= g0) by {
            assert(g1.subrange(0, g0.len() as int) == g0);
            assert(g2.subrange(0, g1.len() as int) == g1);
        }
        assert(g3.subrange(0, g0.len() as int) =~= g0) by {
            assert(g3.subrange(0, g2.len() as int) == g2);
        }
        assert(grids@.subrange(0, g0.len() as int) =~= g0) by {
            assert(grids@.subrange(0, g3.len() as int) == g3);
        }
        assert(middle_grid(top_left, bottom_right, ml, mr, center, magic_sum) == Some(grid));
    }
    true
}

/// Patterns 1 and 6 of the 3×3 magic squares of squares for center `c`:
/// each primitive pair `(a², b²)` is put in the corners `TL`, `BR`, each
/// other pair in the middle row (as given, and swapped), the remaining cells
/// follow from the line sums `3c²`, and a grid is reported when the cells of
/// pattern 1 (`TR`, `BL`) or of pattern 6 (`TM`, `BM`) form another pair.
/// Every reported grid is such a grid; when both lists of pairs are sorted,
/// every grid of `pattern_16_hit` is reported.
pub fn check_patterns_1_and_6(primitive_start: usize, a_values: &[u64], b_values: &[u64], c: u64) -> (r: Vec<[u128; 9]>)
    requires
        a_values@.len() == b_values@.len(),
        primitive_start <= a_values@.len(),
        3 * square_of(c) <= u128::MAX,
    ensures
        forall|k: int| 0 <= k < r@.len() ==> is_pattern_16_grid(a_values@, b_values@, c, #[trigger] r@[k]),
        forall|k: int| 0 <= k < r@.len() ==> corner_is_primitive(a_values@, b_values@, primitive_start as int, #[trigger] r@[k]),
        ({
            let np = pairs_of(a_values@, b_values@, 0, primitive_start as int);
            let pr = pairs_of(a_values@, b_values@, primitive_start as int, a_values@.len() as int);
            pairs_sorted(np) && pairs_sorted(pr) ==> forall|i: int, j: int, scan: int, g: [u128; 9]|
                #[trigger] pattern_16_hit(np, pr, square_of(c) as u128, (3 * square_of(c)) as u128, i, j, scan, g)
                ==> r@.contains(g)
        }),
{
    let ghost a = a_values@;
    let ghost b = b_values@;
    let n = a_values.len();
    let center = square(c);
    let magic_sum = center * 3;
    let mut non_primitive: Vec<(u128, u128)> = Vec::new();
    push_pairs(&mut non_primitive, a_values, b_values, 0, primitive_start);
    let mut primitive: Vec<(u128, u128)> = Vec::new();
    push_pairs(&mut primitive, a_values, b_values, primitive_start, n);
    let empty: Vec<(u128, u128)> = Vec::new();
    let np = non_primitive.len();
    let ghost nps = non_primitive@;
    let ghost prs = primitive@;
    let ghost sorted = pairs_sorted(nps) && pairs_sorted(prs);
    proof {
        assert(pairs_sorted(empty@));
    }
    let mut grids: Vec<[u128; 9]> = Vec::new();
    let mut i: usize = 0;
    while i < primitive.len()
        invariant
            center == square_of(c),
            magic_sum == 3 * square_of(c),
            np == non_primitive@.len(),
            nps == non_primitive@,
            prs == primitive@,
            prs == pairs_of(a, b, primitive_start as int, n as int),
            n == a.len(),
            a.len() == b.len(),
            a == a_values@,
            b == b_values@,
            primitive_start <= n,
            sorted == (pairs_sorted(nps) && pairs_sorted(prs)),
            empty@.len() == 0,
            pairs_sorted(empty@),
            forall|k: int| 0 <= k < primitive@.len() ==> is_input_pair(a, b, #[trigger] primitive@[k]),
            forall|k: int| 0 <= k < non_primitive@.len() ==> is_input_pair(a, b, #[trigger] non_primitive@[k]),
            forall|k: int| 0 <= k < grids@.len() ==> is_pattern_16_grid(a, b, c, #[trigger] grids@[k]),
                    forall|k: int| 0 <= k < grids@.len() ==> corner_is_primitive(a, b, primitive_start as int, #[trigger] grids@[k]),
            sorted ==> forall|ii: int, j: int, scan: int, g: [u128; 9]|
                0 <= ii < i && #[trigger] pattern_16_hit(nps, prs, center, magic_sum, ii, j, scan, g) ==> grids@.contains(g),
        decreases primitive@.len() - i,
    {
        let (top_left, bottom_right) = primitive[i];
        proof {
            lemma_pair_squares(a, b, primitive@[i as int]);
        }
        assert(is_input_pair(a, b, (top_left, bottom_right)));
        assert(prs == pairs_of(a, b, primitive_start as int, n as int));
        proof {
            lemma_square_fits(a[primitive_start + i]);
            lemma_square_fits(b[primitive_start + i]);
        }
        assert(prs[i as int] == (square_of(a[primitive_start + i]) as u128, square_of(b[primitive_start + i]) as u128));
        assert(top_left as int == square_of(a[primitive_start + i]));
        assert(bottom_right as int == square_of(b[primitive_start + i]));
        if top_left <= magic_sum && bottom_right <= magic_sum {
            let remainder1 = magic_sum - top_left;
            let mut upto1: usize = 0;
            while upto1 < i && primitive[upto1].0 < remainder1
                invariant
                    i < primitive@.len(),
                    upto1 <= i,
                    forall|x: int| 0 <= x < upto1 ==> #[trigger] primitive@[x].0 < remainder1,
                decreases i - upto1,
            {
                upto1 = upto1 + 1;
            }
            let mut upto2: usize = 0;
            while upto2 < np && non_primitive[upto2].0 < remainder1
                invariant
                    np == non_primitive@.len(),
                    upto2 <= np,
                    forall|x: int| 0 <= x < upto2 ==> #[trigger] non_primitive@[x].0 < remainder1,
                decreases np - upto2,
            {
                upto2 = upto2 + 1;
            }
            let mut j: usize = 0;
            let mut stopped = false;
            while j < upto1 && !stopped
                invariant
                    i < primitive@.len(),
                    upto1 <= i,
                    center == square_of(c),
                    magic_sum == 3 * square_of(c),
                    top_left == prs[i as int].0,
                    bottom_right == prs[i as int].1,
                    remainder1 == magic_sum - top_left,
                    top_left <= magic_sum,
                    bottom_right <= magic_sum,
                    is_input_square(a, b, top_left as int),
                    is_input_square(a, b, bottom_right as int),
                    is_input_pair(a, b, (top_left, bottom_right)),
                    top_left as int == square_of(a[primitive_start + i]),
                    bottom_right as int == square_of(b[primitive_start + i]),
                    primitive_start + i < a.len(),
                    a.len() == b.len(),
                    np == non_primitive@.len(),
                    nps == non_primitive@,
                    prs == primitive@,
                    sorted == (pairs_sorted(nps) && pairs_sorted(prs)),
                    forall|x: int| 0 <= x < upto1 ==> #[trigger] primitive@[x].0 < remainder1,
                    upto1 < i ==> primitive@[upto1 as int].0 >= remainder1,
                    j <= upto1,
                    forall|x: int| 0 <= x < j ==> !middle_stops(top_left, bottom_right, #[trigger] prs[x].0, prs[x].1, magic_sum),
                    stopped ==> sorted ==> forall|jj: int, g: [u128; 9]|
                        #[trigger] pattern_16_hit(nps, prs, center, magic_sum, i as int, jj, 0, g) ==> grids@.contains(g),
                    forall|k: int| 0 <= k < primitive@.len() ==> is_input_pair(a, b, #[trigger] primitive@[k]),
                    forall|k: int| 0 <= k < non_primitive@.len() ==> is_input_pair(a, b, #[trigger] non_primitive@[k]),
                    forall|k: int| 0 <= k < grids@.len() ==> is_pattern_16_grid(a, b, c, #[trigger] grids@[k]),
                    forall|k: int| 0 <= k < grids@.len() ==> corner_is_primitive(a, b, primitive_start as int, #[trigger] grids@[k]),
                    sorted ==> forall|ii: int, jj: int, scan: int, g: [u128; 9]|
                        0 <= ii < i && #[trigger] pattern_16_hit(nps, prs, center, magic_sum, ii, jj, scan, g) ==> grids@.contains(g),
                    sorted ==> forall|jj: int, g: [u128; 9]|
                        0 <= jj < j && #[trigger] pattern_16_hit(nps, prs, center, magic_sum, i as int, jj, 0, g) ==> grids@.contains(g),
                decreases upto1 - j, if stopped { 0int } else { 1int },
            {
                let (middle_left, middle_right) = primitive[j];
                proof {
                    lemma_pair_squares(a, b, primitive@[j as int]);
                }
                let ghost before = grids@;
                let going = check_middle_pair(top_left, bottom_right, middle_left, middle_right, center, magic_sum, false,
                    &primitive, i, &non_primitive, np, &mut grids, Ghost(a), Ghost(b), Ghost(c));
                proof {
                    lemma_corner_extend(before, grids@, a, b, primitive_start as int, top_left, bottom_right, primitive_start + i);
                    lemma_prefix_contains(before, grids@);
                }
                if !going {
                    proof {
                        assert forall|jj: int, g: [u128; 9]|
                            sorted && 0 <= jj && #[trigger] pattern_16_hit(nps, prs, center, magic_sum, i as int, jj, 0, g) implies grids@.contains(g) by {
                            assert(middle_stops(top_left, bottom_right, prs[j as int].0, prs[j as int].1, magic_sum));
                        }
                    }
                    stopped = true;
                } else {
                    j = j + 1;
                }
            }
            proof {
                assert forall|jj: int, g: [u128; 9]|
                    sorted && 0 <= jj && #[trigger] pattern_16_hit(nps, prs, center, magic_sum, i as int, jj, 0, g) implies grids@.contains(g) by {
                    if !stopped && jj >= upto1 && upto1 < i {
                        assert(prs[upto1 as int].0 < remainder1);
                    }
                }
            }
            let mut j: usize = 0;
            let mut stopped = false;
            while j < upto2 && !stopped
                invariant
                    i < primitive@.len(),
                    upto2 <= np,
                    center == square_of(c),
                    magic_sum == 3 * square_of(c),
                    top_left == prs[i as int].0,
                    bottom_right == prs[i as int].1,
                    remainder1 == magic_sum - top_left,
                    top_left <= magic_sum,
                    bottom_right <= magic_sum,
                    is_input_square(a, b, top_left as int),
                    is_input_square(a, b, bottom_right as int),
                    is_input_pair(a, b, (top_left, bottom_right)),
                    top_left as int == square_of(a[primitive_start + i]),
                    bottom_right as int == square_of(b[primitive_start + i]),
                    primitive_start + i < a.len(),
                    a.len() == b.len(),
                    np == non_primitive@.len(),
                    nps == non_primitive@,
                    prs == primitive@,
                    sorted == (pairs_sorted(nps) && pairs_sorted(prs)),
                    empty@.len() == 0,
                    pairs_sorted(empty@),
                    forall|x: int| 0 <= x < upto2 ==> #[trigger] non_primitive@[x].0 < remainder1,
                    upto2 < np ==> non_primitive@[upto2 as int].0 >= remainder1,
                    j <= upto2,
                    forall|x: int| 0 <= x < j ==> !middle_stops(top_left, bottom_right, #[trigger] nps[x].0, nps[x].1, magic_sum),
                    stopped ==> sorted ==> forall|jj: int, g: [u128; 9]|
                        #[trigger] pattern_16_hit(nps, prs, center, magic_sum, i as int, jj, 1, g) ==> grids@.contains(g),
                    forall|k: int| 0 <= k < non_primitive@.len() ==> is_input_pair(a, b, #[trigger] non_primitive@[k]),
                    forall|k: int| 0 <= k < grids@.len() ==> is_pattern_16_grid(a, b, c, #[trigger] grids@[k]),
                    forall|k: int| 0 <= k < grids@.len() ==> corner_is_primitive(a, b, primitive_start as int, #[trigger] grids@[k]),
                    sorted ==> forall|ii: int, jj: int, scan: int, g: [u128; 9]|
                        0 <= ii < i && #[trigger] pattern_16_hit(nps, prs, center, magic_sum, ii, jj, scan, g) ==> grids@.contains(g),
                    sorted ==> forall|jj: int, g: [u128; 9]|
                        #[trigger] pattern_16_hit(nps, prs, center, magic_sum, i as int, jj, 0, g) ==> grids@.contains(g),
                    sorted ==> forall|jj: int, g: [u128; 9]|
                        0 <= jj < j && #[trigger] pattern_16_hit(nps, prs, center, magic_sum, i as int, jj, 1, g) ==> grids@.contains(g),
                decreases upto2 - j, if stopped { 0int } else { 1int },
            {
                let (middle_left, middle_right) = non_primitive[j];
                proof {
                    lemma_pair_squares(a, b, non_primitive@[j as int]);
                }
                let ghost before = grids@;
                let going = check_middle_pair(top_left, bottom_right, middle_left, middle_right, center, magic_sum, false,
                    &non_primitive, np, &empty, 0, &mut grids, Ghost(a), Ghost(b), Ghost(c));
                proof {
                    lemma_corner_extend(before, grids@, a, b, primitive_start as int, top_left, bottom_right, primitive_start + i);
                    lemma_prefix_contains(before, grids@);
                    assert(empty@ =~= Seq::<(u128, u128)>::empty());
                }
                if !going {
                    proof {
                        assert forall|jj: int, g: [u128; 9]|
                            sorted && 0 <= jj && #[trigger] pattern_16_hit(nps, prs, center, magic_sum, i as int, jj, 1, g) implies grids@.contains(g) by {
                            assert(middle_stops(top_left, bottom_right, nps[j as int].0, nps[j as int].1, magic_sum));
                        }
                    }
                    stopped = true;
                } else {
                    j = j + 1;
                }
            }
            proof {
                assert forall|jj: int, g: [u128; 9]|
                    sorted && 0 <= jj && #[trigger] pattern_16_hit(nps, prs, center, magic_sum, i as int, jj, 1, g) implies grids@.contains(g) by {
                    if !stopped && jj >= upto2 && upto2 < np {
                        assert(nps[upto2 as int].0 < remainder1);
                    }
                }
            }
            let mut j: usize = 0;
            while j < i
                invariant
                    i < primitive@.len(),
                    center == square_of(c),
                    magic_sum == 3 * square_of(c),
                    top_left == prs[i as int].0,
                    bottom_right == prs[i as int].1,
                    top_left <= magic_sum,
                    bottom_right <= magic_sum,
                    is_input_square(a, b, top_left as int),
                    is_input_square(a, b, bottom_right as int),
                    is_input_pair(a, b, (top_left, bottom_right)),
                    top_left as int == square_of(a[primitive_start + i]),
                    bottom_right as int == square_of(b[primitive_start + i]),
                    primitive_start + i < a.len(),
                    a.len() == b.len(),
                    np == non_primitive@.len(),
                    nps == non_primitive@,
                    prs == primitive@,
                    sorted == (pairs_sorted(nps) && pairs_sorted(prs)),
                    forall|k: int| 0 <= k < primitive@.len() ==> is_input_pair(a, b, #[trigger] primitive@[k]),
                    forall|k: int| 0 <= k < non_primitive@.len() ==> is_input_pair(a, b, #[trigger] non_primitive@[k]),
                    forall|k: int| 0 <= k < grids@.len() ==> is_pattern_16_grid(a, b, c, #[trigger] grids@[k]),
                    forall|k: int| 0 <= k < grids@.len() ==> corner_is_primitive(a, b, primitive_start as int, #[trigger] grids@[k]),
                    sorted ==> forall|ii: int, jj: int, scan: int, g: [u128; 9]|
                        0 <= ii < i && #[trigger] pattern_16_hit(nps, prs, center, magic_sum, ii, jj, scan, g) ==> grids@.contains(g),
                    sorted ==> forall|jj: int, scan: int, g: [u128; 9]|
                        0 <= scan <= 1 && #[trigger] pattern_16_hit(nps, prs, center, magic_sum, i as int, jj, scan, g) ==> grids@.contains(g),
                    sorted ==> forall|jj: int, g: [u128; 9]|
                        0 <= jj < j && #[trigger] pattern_16_hit(nps, prs, center, magic_sum, i as int, jj, 2, g) ==> grids@.contains(g),
                decreases i - j,
            {
                let (middle_right, middle_left) = primitive[j];
                proof {
                    lemma_pair_squares(a, b, primitive@[j as int]);
                }
                let ghost before = grids@;
                check_middle_pair(top_left, bottom_right, middle_left, middle_right, center, magic_sum, true,
                    &primitive, i, &non_primitive, np, &mut grids, Ghost(a), Ghost(b), Ghost(c));
                proof {
                    lemma_corner_extend(before, grids@, a, b, primitive_start as int, top_left, bottom_right, primitive_start + i);
                    lemma_prefix_contains(before, grids@);
                }
                j = j + 1;
            }
            let mut j: usize = 0;
            while j < np
                invariant
                    i < primitive@.len(),
                    center == square_of(c),
                    magic_sum == 3 * square_of(c),
                    top_left == prs[i as int].0,
                    bottom_right == prs[i as int].1,
                    top_left <= magic_sum,
                    bottom_right <= magic_sum,
                    is_input_square(a, b, top_left as int),
                    is_input_square(a, b, bottom_right as int),
                    is_input_pair(a, b, (top_left, bottom_right)),
                    top_left as int == square_of(a[primitive_start + i]),
                    bottom_right as int == square_of(b[primitive_start + i]),
                    primitive_start + i < a.len(),
                    a.len() == b.len(),
                    np == non_primitive@.len(),
                    nps == non_primitive@,
                    prs == primitive@,
                    sorted == (pairs_sorted(nps) && pairs_sorted(prs)),
                    empty@.len() == 0,
                    pairs_sorted(empty@),
                    forall|k: int| 0 <= k < non_primitive@.len() ==> is_input_pair(a, b, #[trigger] non_primitive@[k]),
                    forall|k: int| 0 <= k < grids@.len() ==> is_pattern_16_grid(a, b, c, #[trigger] grids@[k]),
                    forall|k: int| 0 <= k < grids@.len() ==> corner_is_primitive(a, b, primitive_start as int, #[trigger] grids@[k]),
                    sorted ==> forall|ii: int, jj: int, scan: int, g: [u128; 9]|
                        0 <= ii < i && #[trigger] pattern_16_hit(nps, prs, center, magic_sum, ii, jj, scan, g) ==> grids@.contains(g),
                    sorted ==> forall|jj: int, scan: int, g: [u128; 9]|
                        0 <= scan <= 2 && #[trigger] pattern_16_hit(nps, prs, center, magic_sum, i as int, jj, scan, g) ==> grids@.contains(g),
                    sorted ==> forall|jj: int, g: [u128; 9]|
                        0 <= jj < j && #[trigger] pattern_16_hit(nps, prs, center, magic_sum, i as int, jj, 3, g) ==> grids@.contains(g),
                decreases np - j,
            {
                let (middle_right, middle_left) = non_primitive[j];
                proof {
                    lemma_pair_squares(a, b, non_primitive@[j as int]);
                }
                let ghost before = grids@;
                check_middle_pair(top_left, bottom_right, middle_left, middle_right, center, magic_sum, true,
                    &non_primitive, np, &empty, 0, &mut grids, Ghost(a), Ghost(b), Ghost(c));
                proof {
                    lemma_corner_extend(before, grids@, a, b, primitive_start as int, top_left, bottom_right, primitive_start + i);
                    lemma_prefix_contains(before, grids@);
                    assert(empty@ =~= Seq::<(u128, u128)>::empty());
                }
                j = j + 1;
            }
        }
        i = i + 1;
    }
    grids
}

} // verus!
