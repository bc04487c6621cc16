use vstd::prelude::*;

verus! {

pub open spec fn is_perfect_square(n: int) -> bool {
    exists|r: int| #[trigger] (r * r) == n
}

/// `x²` as an integer.
pub open spec fn square_of(x: u64) -> int {
    x as int * x as int
}

/// `v` is the square of an `a` or a `b` value of the inputs.
pub open spec fn is_input_square(a: Seq<u64>, b: Seq<u64>, v: int) -> bool {
    exists|k: int| 0 <= k < a.len() && k < b.len() && (v == square_of(a[k]) || v == square_of(b[k]))
}

/// Relies on `u128::isqrt`: the square root rounded down.
#[verifier::external_body]
fn isqrt(n: u128) -> (r: u128)
    ensures
        r * r <= n,
        n < (r + 1) * (r + 1),
{
    n.isqrt()
}

/// Whether `n` is a perfect square.
pub fn is_square(n: u128) -> (r: bool)
    ensures
        r == is_perfect_square(n as int),
{
    let root = isqrt(n);
    assert(root * root <= u128::MAX);
    let r = root * root == n;
    proof {
        if r {
            assert((root as int) * (root as int) == n as int);
        } else {
            assert forall|k: int| #[trigger] (k * k) != n as int by {
                let m = if k >= 0 { k } else { -k };
                assert(m * m == k * k) by (nonlinear_arith)
                    requires m == k || m == -k;
                if m <= root {
                    assert(m * m <= root * root) by (nonlinear_arith)
                        requires 0 <= m <= root;
                } else {
                    assert(m * m >= (root + 1) * (root + 1)) by (nonlinear_arith)
                        requires m >= root + 1, root >= 0;
                }
            }
        }
    }
    r
}

/// `x²` in 128 bits.
pub fn square(x: u64) -> (r: u128)
    ensures
        r as int == square_of(x),
{
    assert(x as int * x as int <= u64::MAX as int * u64::MAX as int) by (nonlinear_arith)
        requires x <= u64::MAX, x >= 0;
    (x as u128) * (x as u128)
}

/// Whether `target` lies in `v[lo..hi]`, by binary search; exact when that
/// range is sorted, and never a false `true`.
pub fn contains_sorted(v: &Vec<u128>, lo: usize, hi: usize, target: u128) -> (r: bool)
    requires
        lo <= hi <= v@.len(),
    ensures
        r ==> exists|k: int| lo <= k < hi && v@[k] == target,
        (forall|i: int, j: int| lo <= i < j < hi ==> v@[i] <= v@[j]) && (exists|k: int|
            lo <= k < hi && v@[k] == target) ==> r,
{
    let mut l = lo;
    let mut h = hi;
    while l < h
        invariant
            lo <= l <= h <= hi <= v@.len(),
            (forall|i: int, j: int| lo <= i < j < hi ==> v@[i] <= v@[j]) ==> forall|k: int|
                (lo <= k < l || h <= k < hi) ==> v@[k] != target,
        decreases h - l,
    {
        let mid = l + (h - l) / 2;
        if v[mid] == target {
            return true;
        } else if v[mid] < target {
            l = mid + 1;
        } else {
            h = mid;
        }
    }
    false
}

/// Appends `x²` for `x` in `b[from..to]` (when `from_b`) or `a[from..to]`,
/// in reverse order when `reverse`.
pub fn push_squares(
    squares: &mut Vec<u128>,
    a: &[u64],
    b: &[u64],
    from_b: bool,
    from: usize,
    to: usize,
    reverse: bool,
)
    requires
        a@.len() == b@.len(),
        from <= to <= a@.len(),
        forall|k: int| 0 <= k < old(squares)@.len() ==> is_input_square(a@, b@, #[trigger] old(squares)@[k] as int),
    ensures
        final(squares)@.len() == old(squares)@.len() + (to - from),
        final(squares)@.subrange(0, old(squares)@.len() as int) == old(squares)@,
        forall|k: int| 0 <= k < final(squares)@.len() ==> is_input_square(a@, b@, #[trigger] final(squares)@[k] as int),
        forall|q: int|
            0 <= q < to - from ==> #[trigger] final(squares)@[old(squares)@.len() + q] as int == square_of(
                (if from_b { b@ } else { a@ })[if reverse { to - 1 - q } else { from + q }],
            ),
{
    let ghost start = squares@.len();
    let mut i = from;
    while i < to
        invariant
            a@.len() == b@.len(),
            from <= i <= to <= a@.len(),
            squares@.len() == start + (i - from),
            squares@.subrange(0, start as int) == old(squares)@,
            start == old(squares)@.len(),
            forall|q: int|
                0 <= q < i - from ==> #[trigger] squares@[start + q] as int == square_of(
                    (if from_b { b@ } else { a@ })[if reverse { to - 1 - q } else { from + q }],
                ),
            forall|k: int| 0 <= k < squares@.len() ==> is_input_square(a@, b@, #[trigger] squares@[k] as int),
        decreases to - i,
    {
        let k = if reverse { to - 1 - (i - from) } else { i };
        let x = if from_b { b[k] } else { a[k] };
        let sq = square(x);
        assert(is_input_square(a@, b@, sq as int)) by {
            assert(sq as int == square_of(a@[k as int]) || sq as int == square_of(b@[k as int]));
        }
        squares.push(sq);
        i = i + 1;
    }
}

/// Pushing keeps every element and adds the new one.
pub(crate) proof fn lemma_push_keeps(s: Seq<(u128, u128, u128, u128)>, x: (u128, u128, u128, u128))
    ensures
        forall|h: (u128, u128, u128, u128)| s.contains(h) ==> #[trigger] s.push(x).contains(h),
        s.push(x).contains(x),
{
    assert forall|h: (u128, u128, u128, u128)| s.contains(h) implies #[trigger] s.push(x).contains(h) by {
        let k = choose|k: int| 0 <= k < s.len() && s[k] == h;
        assert(s.push(x)[k] == h);
    }
    assert(s.push(x)[s.len() as int] == x);
}

/// A sequence that starts with `b` holds everything `b` holds.
pub(crate) proof fn lemma_prefix_contains<T>(b: Seq<T>, c: Seq<T>)
    requires
        c.len() >= b.len(),
        c.subrange(0, b.len() as int) == b,
    ensures
        forall|x: T| b.contains(x) ==> #[trigger] c.contains(x),
{
    assert forall|x: T| b.contains(x) implies #[trigger] c.contains(x) by {
        let k = choose|k: int| 0 <= k < b.len() && b[k] == x;
        assert(c.subrange(0, b.len() as int)[k] == x);
    }
}

/// Lexicographic order on pairs.
pub open spec fn pair_le(x: (u128, u128), y: (u128, u128)) -> bool {
    x.0 < y.0 || (x.0 == y.0 && x.1 <= y.1)
}

/// Whether `target` lies in `v[lo..hi]`, by binary search on the
/// lexicographic order; exact when that range is sorted, and never a false
/// `true`.
pub fn contains_sorted_pair(v: &Vec<(u128, u128)>, lo: usize, hi: usize, target: (u128, u128)) -> (r: bool)
    requires
        lo <= hi <= v@.len(),
    ensures
        r ==> exists|k: int| lo <= k < hi && v@[k] == target,
        (forall|i: int, j: int| lo <= i < j < hi ==> pair_le(v@[i], v@[j])) && (exists|k: int|
            lo <= k < hi && v@[k] == target) ==> r,
{
    let mut l = lo;
    let mut h = hi;
    while l < h
        invariant
            lo <= l <= h <= hi <= v@.len(),
            (forall|i: int, j: int| lo <= i < j < hi ==> pair_le(v@[i], v@[j])) ==> forall|k: int|
                (lo <= k < l || h <= k < hi) ==> v@[k] != target,
        decreases h - l,
    {
        let mid = l + (h - l) / 2;
        let e = v[mid];
        if e.0 == target.0 && e.1 == target.1 {
            return true;
        } else if e.0 < target.0 || (e.0 == target.0 && e.1 < target.1) {
            proof {
                if forall|i: int, j: int| lo <= i < j < hi ==> pair_le(v@[i], v@[j]) {
                    assert forall|k: int| l <= k <= mid implies v@[k] != target by {
                        if k < mid {
                            assert(pair_le(v@[k], v@[mid as int]));
                        }
                    }
                }
            }
            l = mid + 1;
        } else {
            proof {
                if forall|i: int, j: int| lo <= i < j < hi ==> pair_le(v@[i], v@[j]) {
                    assert forall|k: int| mid <= k < h implies v@[k] != target by {
                        if k > mid {
                            assert(pair_le(v@[mid as int], v@[k]));
                        }
                    }
                }
            }
            h = mid;
        }
    }
    false
}

} // verus!
