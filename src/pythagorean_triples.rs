use crate::MagicError;
use rayon::prelude::{IntoParallelRefIterator, ParallelIterator};
use vstd::arithmetic::div_mod::lemma_mul_mod_noop;
use vstd::arithmetic::power::{lemma_pow_adds, pow};
use vstd::prelude::*;

verus! {

/// One entry of a triple array: `(a, b, c, f)` with `f` the factor bitmap.
pub type Triple = (u64, u64, u64, u32);

/// Bit 31 of a factor bitmap marks a non-primitive representation.
pub const TOP_BIT: u32 = 0x8000_0000;

pub open spec fn is_pythagorean(t: Triple) -> bool {
    t.0 * t.0 + t.1 * t.1 == t.2 * t.2
}

pub open spec fn carries_flag(f: u32) -> bool {
    f & TOP_BIT != 0
}

pub open spec fn abs_diff(x: int, y: int) -> int {
    if x >= y {
        x - y
    } else {
        y - x
    }
}

/// Factor bitmap of a combination: the union of both bitmaps, flagged as
/// non-primitive when the two share a bit.
pub open spec fn combined_factors(f: u32, g: u32) -> u32 {
    f | g | (if f & g != 0 {
        TOP_BIT
    } else {
        0
    })
}

/// The stored triple `t` can be combined with `s` without leaving 64 bits.
pub open spec fn product_fits(t: Triple, s: Triple) -> bool {
    &&& t.0 * s.0 + t.1 * s.1 <= u64::MAX
    &&& t.0 * s.1 + t.1 * s.0 <= u64::MAX
    &&& t.2 * s.2 <= u64::MAX
}

/// `(|ax - by|, ay + bx, cz, F)`: the first Brahmagupta-Fibonacci combination.
pub open spec fn product_first(t: Triple, s: Triple) -> Triple {
    (
        abs_diff(t.0 * s.0, t.1 * s.1) as u64,
        (t.0 * s.1 + t.1 * s.0) as u64,
        (t.2 * s.2) as u64,
        combined_factors(t.3, s.3),
    )
}

/// `(ax + by, |ay - bx|, cz, F)`: the second Brahmagupta-Fibonacci combination.
pub open spec fn product_second(t: Triple, s: Triple) -> Triple {
    (
        (t.0 * s.0 + t.1 * s.1) as u64,
        abs_diff(t.0 * s.1, t.1 * s.0) as u64,
        (t.2 * s.2) as u64,
        combined_factors(t.3, s.3),
    )
}

/// Width of the blocks in which `product` lays out its output.
pub const LANES: usize = 64;

/// Offset, among the `2n` entries that `product` appends for `n` stored
/// triples, of the first combination of stored triple `i`: whole blocks of
/// `LANES` triples put all first combinations before all second ones, the
/// remainder alternates.
#[verifier::opaque]
pub open spec fn first_slot(i: int, n: int) -> int {
    if i < n - n % (LANES as int) {
        2 * i - i % (LANES as int)
    } else {
        2 * i
    }
}

/// Offset of the second combination of stored triple `i` (see `first_slot`).
#[verifier::opaque]
pub open spec fn second_slot(i: int, n: int) -> int {
    if i < n - n % (LANES as int) {
        2 * i - i % (LANES as int) + LANES as int
    } else {
        2 * i + 1
    }
}

/// The entries of `s` whose `b` is not zero, in their order.
pub open spec fn nontrivial(s: Seq<Triple>) -> Seq<Triple>
    decreases s.len(),
{
    if s.len() == 0 {
        s
    } else if s.last().1 != 0 {
        nontrivial(s.drop_last()).push(s.last())
    } else {
        nontrivial(s.drop_last())
    }
}

/// Strict lexicographic order on two-part keys.
pub open spec fn key_lt(x: (u64, u64), y: (u64, u64)) -> bool {
    x.0 < y.0 || (x.0 == y.0 && x.1 < y.1)
}

/// Lexicographic order on sort keys `(k0, k1, index)`.
pub open spec fn sort_key_le(x: (u64, u64, usize), y: (u64, u64, usize)) -> bool {
    x.0 < y.0 || (x.0 == y.0 && (x.1 < y.1 || (x.1 == y.1 && x.2 <= y.2)))
}

/// The key `(c, a)`.
pub open spec fn c_a_key(t: Triple) -> (u64, u64) {
    (t.2, t.0)
}

/// The key `(primitive?, a)`: non-primitive entries (0) before primitive ones (1).
pub open spec fn primitive_a_key(t: Triple) -> (u64, u64) {
    (
        if carries_flag(t.3) {
            0
        } else {
            1
        },
        t.0,
    )
}

/// What a sort and dedup by `key` leaves: entries strictly increasing by
/// `key`, each one the first entry of `before` with its key, and every key
/// of `before` kept.
pub open spec fn sorted_dedup_of(
    after: Seq<Triple>,
    before: Seq<Triple>,
    key: spec_fn(Triple) -> (u64, u64),
) -> bool {
    &&& forall|i: int, j: int| 0 <= i < j < after.len() ==> key_lt(key(after[i]), key(after[j]))
    &&& forall|i: int| 0 <= i < after.len() ==> before.contains(#[trigger] after[i])
    &&& forall|j: int|
        0 <= j < before.len() ==> exists|i: int|
            0 <= i < after.len() && #[trigger] key(after[i]) == key(#[trigger] before[j])
    &&& forall|i: int| 0 <= i < after.len() ==> first_with_key(before, key, #[trigger] after[i])
}

/// `t` is the first entry of `before` with its key.
pub open spec fn first_with_key(before: Seq<Triple>, key: spec_fn(Triple) -> (u64, u64), t: Triple) -> bool {
    exists|j: int|
        0 <= j < before.len() && #[trigger] before[j] == t && forall|j2: int| 0 <= j2 < j ==> key(#[trigger] before[j2]) != key(t)
}

/// The triple can be turned into a magic triple for `p` without leaving 64 bits.
pub open spec fn magic_fits(t: Triple, p: u64) -> bool {
    &&& t.2 != 0
    &&& t.0 + t.1 <= u64::MAX
    &&& (p / t.2) * (t.0 + t.1) <= u64::MAX
}

/// The entries of `s` at the positions `idx`, in that order.
pub open spec fn gather(s: Seq<Triple>, idx: Seq<usize>) -> Seq<Triple> {
    Seq::new(idx.len(), |q: int| s[idx[q] as int])
}

proof fn lemma_gather_push(s: Seq<Triple>, idx: Seq<usize>, j: usize)
    ensures
        gather(s, idx.push(j)) == gather(s, idx).push(s[j as int]),
{
    assert(gather(s, idx.push(j)) =~= gather(s, idx).push(s[j as int]));
}

proof fn lemma_nontrivial_step(s: Seq<Triple>, i: int)
    requires
        0 <= i < s.len(),
    ensures
        s[i].1 != 0 ==> nontrivial(s.take(i + 1)) == nontrivial(s.take(i)).push(s[i]),
        s[i].1 == 0 ==> nontrivial(s.take(i + 1)) == nontrivial(s.take(i)),
{
    assert(s.take(i + 1).drop_last() =~= s.take(i));
    assert(s.take(i + 1).last() == s[i]);
}

/// `(s(a + b), s|a - b|, c, f')` with `s = p / c`; `f'` is flagged when `s != 1`.
pub open spec fn magic_of(t: Triple, p: u64) -> Triple {
    let s = p / t.2;
    (
        (s * (t.0 + t.1)) as u64,
        (s * abs_diff(t.0 as int, t.1 as int)) as u64,
        t.2,
        if s != 1 {
            t.3 | TOP_BIT
        } else {
            t.3
        },
    )
}

pub open spec fn is_prime(n: int) -> bool {
    n > 1 && forall|d: int| 1 < d < n ==> #[trigger] (n % d) != 0
}

/// What the prime-to-triple kernel promises for `p`: any triple it returns
/// is a primitive-sized Pythagorean triple with hypotenuse `p`.
pub open spec fn kernel_result(p: u64, r: Result<(u64, u64), MagicError>) -> bool {
    &&& p % 4 != 1 ==> r is Err
    &&& r is Ok ==> {
        let (a, b) = r->Ok_0;
        a * a + b * b == p * p && a > 0 && b > 0
    }
}

/// The first candidate `r` in `[cand, p)` that Euler's criterion shows to
/// be a quadratic non-residue: `r^(2k) ≡ -1 (mod p)` with `k = (p - 1) / 4`.
pub open spec fn first_nonresidue(p: int, cand: int) -> Option<int>
    decreases p - cand,
{
    if cand >= p {
        None
    } else if pow(cand, (2 * ((p - 1) / 4)) as nat) % p == p - 1 {
        Some(cand)
    } else {
        first_nonresidue(p, cand + 1)
    }
}

/// `r^((p-1)/4) mod p` for the first non-residue `r >= 2`, for `p >= 5`.
pub open spec fn sqrt_of_minus_one(p: int) -> Option<int> {
    if p < 5 {
        None
    } else {
        match first_nonresidue(p, 2) {
            Some(r) => Some(pow(r, ((p - 1) / 4) as nat) % p),
            None => None,
        }
    }
}

/// The Euclidean remainders of `(a, b)` until a divisor `b` and remainder
/// `q != 0` give `b² + q² = p`.
pub open spec fn cornacchia(p: int, a: int, b: int) -> Option<(int, int)>
    decreases b,
{
    if b <= 0 {
        None
    } else {
        let q = a % b;
        if q != 0 && b * b <= p && q * q == p - b * b {
            Some((b, q))
        } else {
            cornacchia(p, b, q)
        }
    }
}

/// The kernel's result for `p`: Euclid's `(m² - n², 2mn)` for the pair
/// `(m, n)` that Cornacchia's algorithm finds from the square root of `-1`
/// modulo `p`; the logic error where a step finds nothing.
pub open spec fn kernel_spec(p: u64) -> Result<(u64, u64), MagicError> {
    if p % 4 != 1 {
        Err(MagicError::Logic)
    } else {
        match sqrt_of_minus_one(p as int) {
            None => Err(MagicError::Logic),
            Some(s) => match cornacchia(p as int, p as int, s) {
                None => Err(MagicError::Logic),
                Some((m, n)) => Ok(((m * m - n * n) as u64, (2 * m * n) as u64)),
            },
        }
    }
}

/// A table of prime triples: rows `(a, b, p, 0)` with `a² + b² = p²`,
/// `a, b > 0`, `p` a prime congruent to 1 mod 4, strictly ascending in `p`.
pub open spec fn is_prime_table(s: Seq<Triple>) -> bool {
    &&& forall|i: int|
        0 <= i < s.len() ==> {
            let t = #[trigger] s[i];
            &&& is_pythagorean(t)
            &&& t.0 > 0
            &&& t.1 > 0
            &&& is_prime(t.2 as int)
            &&& t.2 % 4 == 1
            &&& t.3 == 0
        }
    &&& forall|i: int, j: int| 0 <= i < j < s.len() ==> s[i].2 < s[j].2
}

/// Relies on `primal::is_prime`, the deterministic Miller-Rabin test over
/// all of `u64`.
#[verifier::external_body]
fn prime_test(n: u64) -> (r: bool)
    ensures
        r == is_prime(n as int),
{
    primal::is_prime(n)
}

/// Relies on `fast_modulo::powmod_u64`: `base^exponent mod modulus`, for a
/// base below the modulus.
#[verifier::external_body]
fn powmod(base: u64, exponent: u64, modulus: u64) -> (r: u64)
    requires
        base < modulus,
        1 < modulus,
    ensures
        r as int == pow(base as int, exponent as nat) % (modulus as int),
{
    fast_modulo::powmod_u64(base, exponent, modulus)
}

/// Relies on rayon's indexed `par_iter().map(..).collect()`: one result per
/// prime, in the order of the primes, each the kernel's result for it.
#[verifier::external_body]
fn compute_all(primes: &Vec<u64>) -> (r: Vec<Result<(u64, u64), MagicError>>)
    ensures
        r@.len() == primes@.len(),
        forall|i: int| 0 <= i < primes@.len() ==> kernel_result(primes@[i], #[trigger] r@[i]),
        forall|i: int| 0 <= i < primes@.len() ==> #[trigger] r@[i] == kernel_spec(primes@[i]),
{
    primes.par_iter().map(|&p| PythagoreanTriples::compute(p)).collect()
}

pub open spec fn is_pythagorean_prime(q: int) -> bool {
    is_prime(q) && q % 4 == 1
}

/// The largest prime of the table, 0 when it is empty.
pub open spec fn last_prime(rows: Seq<Triple>) -> int {
    if rows.len() == 0 {
        0
    } else {
        rows.last().2 as int
    }
}

/// Every prime `≡ 1 (mod 4)` below the table's largest is in the table.
pub open spec fn no_prime_skipped(rows: Seq<Triple>) -> bool {
    forall|q: int| 0 <= q < last_prime(rows) && is_pythagorean_prime(q) ==> exists|j: int| 0 <= j < rows.len() && #[trigger] rows[j].2 == q
}

/// The table ends before its requested length only because the kernel
/// fails on the next prime `≡ 1 (mod 4)`, or because there is none left in
/// 64 bits.
pub open spec fn stopped_early(rows: Seq<Triple>) -> bool {
    ||| exists|q: int|
        #[trigger] is_pythagorean_prime(q) && last_prime(rows) < q <= u64::MAX && kernel_spec(q as u64) is Err && forall|x: int|
            last_prime(rows) < x < q ==> !is_pythagorean_prime(x)
    ||| forall|q: int| last_prime(rows) < q <= u64::MAX ==> !is_pythagorean_prime(q)
}

/// One round of the table construction: the kernel results for a chunk of
/// consecutive primes `≡ 1 (mod 4)` were appended up to `k`.
proof fn lemma_table_step(
    t: Seq<Triple>,
    table0: Seq<Triple>,
    chunk: Seq<u64>,
    k: int,
    failed: bool,
    exhausted: bool,
    candidate: int,
    cand0: int,
)
    requires
        0 <= k <= chunk.len(),
        t.len() == table0.len() + k,
        t.subrange(0, table0.len() as int) == table0,
        is_prime_table(t),
        forall|i: int| 0 <= i < table0.len() ==> table0[i].2 < cand0,
        forall|j: int| 0 <= j < chunk.len() ==> {
            &&& is_pythagorean_prime(#[trigger] chunk[j] as int)
            &&& cand0 <= chunk[j]
            &&& chunk[j] < candidate || (exhausted && chunk[j] == candidate)
        },
        forall|k1: int, k2: int| 0 <= k1 < k2 < chunk.len() ==> chunk[k1] < chunk[k2],
        forall|j: int| 0 <= j < k ==> #[trigger] t[table0.len() + j].2 == chunk[j],
        forall|q: int| 0 <= q < candidate && is_pythagorean_prime(q) ==> (exists|j: int| 0 <= j < table0.len() && #[trigger] table0[j].2 == q)
            || (exists|m: int| 0 <= m < chunk.len() && #[trigger] chunk[m] == q),
        exhausted ==> forall|q: int| candidate <= q <= u64::MAX && is_pythagorean_prime(q) ==> exists|m: int|
            0 <= m < chunk.len() && #[trigger] chunk[m] == q,
        failed ==> k < chunk.len() && kernel_spec(chunk[k]) is Err,
        !failed ==> k == chunk.len(),
        candidate <= u64::MAX,
        5 <= cand0 <= candidate,
    ensures
        no_prime_skipped(t),
        failed || exhausted ==> stopped_early(t),
        !failed && !exhausted ==> last_prime(t) < candidate,
        !failed && !exhausted ==> forall|q: int| 0 <= q < candidate && is_pythagorean_prime(q) ==> exists|j: int|
            0 <= j < t.len() && #[trigger] t[j].2 == q,
{
        
        assert(last_prime(t) == 0 || exists|i: int| 0 <= i < t.len() && last_prime(t) == t[i].2);
        if t.len() > 0 {
            assert(last_prime(t) == t[t.len() - 1].2);
            if k > 0 {
                assert(t[table0.len() + (k - 1)].2 == chunk[k - 1]);
                assert(t.len() - 1 == table0.len() + (k - 1));
                assert(is_pythagorean_prime(chunk[k - 1] as int));
            } else {
                assert(t.subrange(0, table0.len() as int)[table0.len() - 1] == t[t.len() - 1]);
                assert(t[t.len() - 1] == table0[table0.len() - 1]);
                assert(table0[table0.len() - 1].2 < cand0);
            }
        }
        assert(last_prime(t) <= candidate);
        assert(!exhausted ==> last_prime(t) < candidate);
        assert forall|q: int| 0 <= q < last_prime(t) && is_pythagorean_prime(q) implies exists|i: int| 0 <= i < t.len() && #[trigger] t[i].2 == q by {
            if exists|i: int| 0 <= i < table0.len() && #[trigger] table0[i].2 == q {
                let i = choose|i: int| 0 <= i < table0.len() && #[trigger] table0[i].2 == q;
                assert(t.subrange(0, table0.len() as int)[i] == t[i]);
            } else {
                assert(q < candidate);
                let m = choose|m: int| 0 <= m < chunk.len() && #[trigger] chunk[m] == q;
                if m >= k {
                    if k > 0 {
                        assert(t[table0.len() + (k - 1)].2 == chunk[k - 1]);
                        assert(chunk[k - 1] < chunk[m]);
                    } else if table0.len() > 0 {
                        assert(t.subrange(0, table0.len() as int)[table0.len() - 1] == t[t.len() - 1]);
                        assert(table0[table0.len() - 1].2 < cand0);
                        assert(is_pythagorean_prime(chunk[m] as int));
                    }
                } else {
                    assert(t[table0.len() + m].2 == chunk[m]);
                }
            }
        }
        assert(no_prime_skipped(t));
        if failed {
            let q = chunk[k] as int;
            assert forall|x: int| last_prime(t) < x < q implies !is_pythagorean_prime(x) by {
                if is_pythagorean_prime(x) {
                    if exists|i: int| 0 <= i < table0.len() && #[trigger] table0[i].2 == x {
                        let i = choose|i: int| 0 <= i < table0.len() && #[trigger] table0[i].2 == x;
                        assert(t.subrange(0, table0.len() as int)[i] == t[i]);
                    } else {
                        let m = choose|m: int| 0 <= m < chunk.len() && #[trigger] chunk[m] == x;
                        if m >= k {
                            assert(chunk[k] <= chunk[m]);
                        } else {
                            assert(t[table0.len() + m].2 == chunk[m]);
                        }
                    }
                }
            }
            assert(is_pythagorean_prime(q) && last_prime(t) < q <= u64::MAX && kernel_spec(q as u64) is Err);
            assert(stopped_early(t));
        } else {
            assert(k == chunk.len());
            if exhausted {
                assert forall|q: int| last_prime(t) < q <= u64::MAX implies !is_pythagorean_prime(q) by {
                    if is_pythagorean_prime(q) {
                        if q < candidate {
                            if exists|i: int| 0 <= i < table0.len() && #[trigger] table0[i].2 == q {
                                let i = choose|i: int| 0 <= i < table0.len() && #[trigger] table0[i].2 == q;
                                assert(t[i] == table0[i]);
                            } else {
                                let m = choose|m: int| 0 <= m < chunk.len() && #[trigger] chunk[m] == q;
                                assert(t[table0.len() + m].2 == chunk[m]);
                            }
                        } else {
                            let m = choose|m: int| 0 <= m < chunk.len() && #[trigger] chunk[m] == q;
                            assert(t[table0.len() + m].2 == chunk[m]);
                        }
                    }
                }
                assert(stopped_early(t));
            } else {
                assert forall|q: int| 0 <= q < candidate && is_pythagorean_prime(q) implies exists|j: int| 0 <= j < t.len() && #[trigger] t[j].2 == q by {
                    if exists|i: int| 0 <= i < table0.len() && #[trigger] table0[i].2 == q {
                        let i = choose|i: int| 0 <= i < table0.len() && #[trigger] table0[i].2 == q;
                        assert(t[i] == table0[i]);
                    } else {
                        let m = choose|m: int| 0 <= m < chunk.len() && #[trigger] chunk[m] == q;
                        assert(t[table0.len() + m].2 == chunk[m]);
                    }
                }
                if chunk.len() > 0 {
                    assert(t[t.len() - 1].2 == chunk[chunk.len() - 1]);
                } else if table0.len() > 0 {
                    assert(t[t.len() - 1] == table0[table0.len() - 1]);
                }
            }
        }
    
}

/// Primes handed to the kernel at a time.
const CHUNK: usize = 10_000;

/// Scratch space reused by the sorting and filtering operations.
pub struct TemporaryBuffer {
    keys: Vec<(u64, u64, usize)>,
    indexes: Vec<usize>,
    a_values: Vec<u64>,
    b_values: Vec<u64>,
    c_values: Vec<u64>,
    factors: Vec<u32>,
}

impl TemporaryBuffer {
    /// Holds no keys and no indexes.
    pub closed spec fn is_clear(&self) -> bool {
        self.keys@.len() == 0 && self.indexes@.len() == 0
    }
}

impl Default for TemporaryBuffer {
    fn default() -> (r: Self)
        ensures
            r.is_clear(),
    {
        TemporaryBuffer {
            keys: Vec::new(),
            indexes: Vec::new(),
            a_values: Vec::new(),
            b_values: Vec::new(),
            c_values: Vec::new(),
            factors: Vec::new(),
        }
    }
}

/// Relies on `slice::sort_unstable`: the keys are permuted into ascending
/// (lexicographic tuple) order.
#[verifier::external_body]
fn sort_keys(keys: &mut Vec<(u64, u64, usize)>)
    ensures
        final(keys)@.len() == old(keys)@.len(),
        final(keys)@.to_multiset() == old(keys)@.to_multiset(),
        forall|i: int, j: int|
            0 <= i < j < final(keys)@.len() ==> sort_key_le(final(keys)@[i], final(keys)@[j]),
{
    keys.sort_unstable();
}

/// In keys sorted lexicographically, the first entry of a run of equal
/// keys carries the smallest index of that key.
proof fn lemma_first_of_key(
    rows: Seq<Triple>,
    key: spec_fn(Triple) -> (u64, u64),
    keys0: Seq<(u64, u64, usize)>,
    keys: Seq<(u64, u64, usize)>,
    p: int,
)
    requires
        keys0.len() == rows.len(),
        forall|k: int| 0 <= k < rows.len() ==> #[trigger] keys0[k] == (key(rows[k]).0, key(rows[k]).1, k as usize),
        keys.to_multiset() == keys0.to_multiset(),
        keys.len() == keys0.len(),
        forall|r: int, t: int| 0 <= r < t < keys.len() ==> sort_key_le(keys[r], keys[t]),
        forall|r: int| 0 <= r < keys.len() ==> #[trigger] keys[r].2 < rows.len() && (keys[r].0, keys[r].1) == key(
            rows[keys[r].2 as int],
        ),
        0 <= p < keys.len(),
        p == 0 || keys[p - 1].0 != keys[p].0 || keys[p - 1].1 != keys[p].1,
    ensures
        forall|j2: int| 0 <= j2 < keys[p].2 ==> key(#[trigger] rows[j2]) != key(rows[keys[p].2 as int]),
{
    broadcast use vstd::seq_lib::group_to_multiset_ensures;

    let e = keys[p];
    assert(e.2 < rows.len() && (e.0, e.1) == key(rows[e.2 as int]));
    assert forall|j2: int| 0 <= j2 < e.2 implies key(#[trigger] rows[j2]) != key(rows[e.2 as int]) by {
        if key(rows[j2]) == key(rows[e.2 as int]) {
            let t2 = keys0[j2];
            assert(keys0[j2] == t2);
            assert(keys0.contains(t2));
            assert(keys0.to_multiset().count(t2) > 0);
            assert(keys.contains(t2));
            let r = choose|r: int| 0 <= r < keys.len() && keys[r] == t2;
            if r > p {
                assert(sort_key_le(keys[p], keys[r]));
            } else if r < p {
                assert(sort_key_le(keys[r], keys[p - 1]));
                assert(sort_key_le(keys[p - 1], keys[p]));
            }
        }
    }
}

proof fn lemma_dedup_first(before: Seq<Triple>, after: Seq<Triple>, idx: Seq<usize>, key: spec_fn(Triple) -> (u64, u64))
    requires
        after.len() == idx.len(),
        forall|i: int| 0 <= i < idx.len() ==> idx[i] < before.len() && after[i] == before[#[trigger] idx[i] as int],
        forall|q: int, j2: int|
            #![trigger before[j2], idx[q]]
            0 <= q < idx.len() && 0 <= j2 < idx[q] ==> key(before[j2]) != key(before[idx[q] as int]),
    ensures
        forall|i: int| 0 <= i < after.len() ==> first_with_key(before, key, #[trigger] after[i]),
{
    assert forall|i: int| 0 <= i < after.len() implies first_with_key(before, key, #[trigger] after[i]) by {
        let j = idx[i] as int;
        assert(after[i] == before[j]);
        assert forall|j2: int| 0 <= j2 < j implies key(#[trigger] before[j2]) != key(after[i]) by {
            assert(key(before[j2]) != key(before[idx[i] as int]));
        }
    }
}

/// Four parallel columns `a`, `b`, `c` and `f` of equal length.
pub struct PythagoreanTriples {
    pub a_values: Vec<u64>,
    pub b_values: Vec<u64>,
    pub c_values: Vec<u64>,
    pub factors: Vec<u32>,
}

impl View for PythagoreanTriples {
    type V = Seq<Triple>;

    open spec fn view(&self) -> Seq<Triple> {
        Seq::new(
            self.a_values@.len(),
            |i: int| (self.a_values@[i], self.b_values@[i], self.c_values@[i], self.factors@[i]),
        )
    }
}

impl PythagoreanTriples {
    /// All four columns have the same length.
    pub open spec fn wf(&self) -> bool {
        &&& self.b_values@.len() == self.a_values@.len()
        &&& self.c_values@.len() == self.a_values@.len()
        &&& self.factors@.len() == self.a_values@.len()
    }

    pub fn with_capacity(capacity: usize) -> (r: Self)
        ensures
            r.wf(),
            r@ == Seq::<Triple>::empty(),
    {
        let r = PythagoreanTriples {
            a_values: Vec::with_capacity(capacity),
            b_values: Vec::with_capacity(capacity),
            c_values: Vec::with_capacity(capacity),
            factors: Vec::with_capacity(capacity),
        };
        assert(r@ =~= Seq::<Triple>::empty());
        r
    }

    pub fn len(&self) -> (r: usize)
        ensures
            r == self@.len(),
    {
        self.a_values.len()
    }

    pub fn clear(&mut self)
        ensures
            final(self).wf(),
            final(self)@ == Seq::<Triple>::empty(),
    {
        self.a_values.clear();
        self.b_values.clear();
        self.c_values.clear();
        self.factors.clear();
        assert(self@ =~= Seq::<Triple>::empty());
    }

    pub fn push(&mut self, t: Triple)
        requires
            old(self).wf(),
        ensures
            final(self).wf(),
            final(self)@ == old(self)@.push(t),
    {
        let (a, b, c, f) = t;
        self.a_values.push(a);
        self.b_values.push(b);
        self.c_values.push(c);
        self.factors.push(f);
        assert(self@ =~= old(self)@.push(t));
    }

    /// Sets the length to `new_len`: cuts, or fills with `value` in every
    /// column (its low 32 bits in `f`).
    pub fn resize(&mut self, new_len: usize, value: u64)
        requires
            old(self).wf(),
        ensures
            final(self).wf(),
            new_len <= old(self)@.len() ==> final(self)@ == old(self)@.subrange(0, new_len as int),
            new_len > old(self)@.len() ==> final(self)@ == old(self)@ + Seq::new(
                (new_len - old(self)@.len()) as nat,
                |i: int| (value, value, value, (value % 0x1_0000_0000) as u32),
            ),
    {
        let low = (value % 0x1_0000_0000) as u32;
        self.a_values.resize(new_len, value);
        self.b_values.resize(new_len, value);
        self.c_values.resize(new_len, value);
        self.factors.resize(new_len, low);
        proof {
            if new_len <= old(self)@.len() {
                assert(self@ =~= old(self)@.subrange(0, new_len as int));
            } else {
                assert(self@ =~= old(self)@ + Seq::new(
                    (new_len - old(self)@.len()) as nat,
                    |i: int| (value, value, value, (value % 0x1_0000_0000) as u32),
                ));
            }
        }
    }

    /// The columns `a`, `b`, `c` have the same length and `f` is at least as long.
    pub open spec fn readable(&self) -> bool {
        &&& self.b_values@.len() == self.a_values@.len()
        &&& self.c_values@.len() == self.a_values@.len()
        &&& self.factors@.len() >= self.a_values@.len()
    }

    pub fn extend(&mut self, other: &Self)
        requires
            old(self).wf(),
            other.wf(),
        ensures
            final(self).wf(),
            final(self)@ == old(self)@ + other@,
    {
        self.a_values.extend_from_slice(other.a_values.as_slice());
        self.b_values.extend_from_slice(other.b_values.as_slice());
        self.c_values.extend_from_slice(other.c_values.as_slice());
        self.factors.extend_from_slice(other.factors.as_slice());
        assert(self@ =~= old(self)@ + other@);
    }
}

impl PythagoreanTriples {
    /// Appends both Brahmagupta-Fibonacci combinations of every stored triple
    /// with `s` to `output`, keeping what `output` held.
    pub fn product(&self, s: Triple, output: &mut Self)
        requires
            self.readable(),
            old(output).wf(),
            old(output)@.len() + 2 * self@.len() <= usize::MAX,
            forall|i: int| 0 <= i < self@.len() ==> product_fits(#[trigger] self@[i], s),
        ensures
            final(output).wf(),
            final(output)@.len() == old(output)@.len() + 2 * self@.len(),
            final(output)@.subrange(0, old(output)@.len() as int) == old(output)@,
            forall|i: int|
                0 <= i < self@.len() ==> {
                    &&& final(output)@[old(output)@.len() + first_slot(i, self@.len() as int)]
                        == product_first(#[trigger] self@[i], s)
                    &&& final(output)@[old(output)@.len() + second_slot(i, self@.len() as int)]
                        == product_second(self@[i], s)
                },
    {
        let (x, y, z, g) = s;
        let n = self.a_values.len();
        let existing = output.a_values.len();
        output.resize(existing + 2 * n, 0);
        let simd_end = n - n % LANES;
        let mut i: usize = 0;
        while i < n
            invariant
                self.readable(),
                s == (x, y, z, g),
                existing + 2 * n <= usize::MAX,
                n == self@.len(),
                simd_end == n - n % LANES,
                output.wf(),
                output@.len() == existing + 2 * n,
                existing == old(output)@.len(),
                output@.subrange(0, existing as int) == old(output)@,
                forall|k: int| 0 <= k < self@.len() ==> product_fits(#[trigger] self@[k], s),
                forall|k: int|
                    0 <= k < i ==> {
                        &&& output@[existing + first_slot(k, n as int)] == product_first(
                            #[trigger] self@[k],
                            s,
                        )
                        &&& output@[existing + second_slot(k, n as int)] == product_second(
                            self@[k],
                            s,
                        )
                    },
            decreases n - i,
        {
            let a = self.a_values[i];
            let b = self.b_values[i];
            let c = self.c_values[i];
            let f = self.factors[i];
            assert(self@[i as int] == (a, b, c, f));
            assert(product_fits(self@[i as int], s));
            assert(s == (x, y, z, g));
            assert(a * x <= a * x + b * y && b * y <= a * x + b * y) by (nonlinear_arith)
                requires a * x + b * y <= u64::MAX, a >= 0, b >= 0, x >= 0, y >= 0;
            assert(a * y <= a * y + b * x && b * x <= a * y + b * x) by (nonlinear_arith)
                requires a * y + b * x <= u64::MAX, a >= 0, b >= 0, x >= 0, y >= 0;
            let ax = a * x;
            let ay = a * y;
            let bx = b * x;
            let by = b * y;
            let cz = c * z;
            let flag: u32 = if f & g != 0 {
                TOP_BIT
            } else {
                0
            };
            let factors = f | g | flag;
            let (first, second) = if i < simd_end {
                let lane = i % LANES;
                (existing + 2 * i - lane, existing + 2 * i - lane + LANES)
            } else {
                (existing + 2 * i, existing + 2 * i + 1)
            };
            assert(first == existing + first_slot(i as int, n as int)) by {
                reveal(first_slot);
            }
            assert(second == existing + second_slot(i as int, n as int)) by {
                reveal(second_slot);
            }
            proof {
                slots_distinct(i as int, n as int);
            }
            let ghost prev = output@;
            output.a_values[first] = if ax >= by {
                ax - by
            } else {
                by - ax
            };
            output.b_values[first] = ay + bx;
            output.c_values[first] = cz;
            output.factors[first] = factors;
            output.a_values[second] = ax + by;
            output.b_values[second] = if ay >= bx {
                ay - bx
            } else {
                bx - ay
            };
            output.c_values[second] = cz;
            output.factors[second] = factors;
            assert forall|k: int| 0 <= k < i implies
                #[trigger] output@[existing + first_slot(k, n as int)] == prev[existing + first_slot(k, n as int)]
                && output@[existing + second_slot(k, n as int)] == prev[existing + second_slot(k, n as int)] by {
                let p1 = existing + first_slot(k, n as int);
                let p2 = existing + second_slot(k, n as int);
                assert(output.a_values@[p1] == prev[p1].0 && output.b_values@[p1] == prev[p1].1);
                assert(output.c_values@[p1] == prev[p1].2 && output.factors@[p1] == prev[p1].3);
                assert(output.a_values@[p2] == prev[p2].0 && output.b_values@[p2] == prev[p2].1);
                assert(output.c_values@[p2] == prev[p2].2 && output.factors@[p2] == prev[p2].3);
            }
            assert forall|k: int| 0 <= k < existing implies #[trigger] output@[k] == prev[k] by {
                assert(output.a_values@[k] == prev[k].0 && output.b_values@[k] == prev[k].1);
                assert(output.c_values@[k] == prev[k].2 && output.factors@[k] == prev[k].3);
            }
            assert(output@.subrange(0, existing as int) =~= prev.subrange(0, existing as int));
            i = i + 1;
        }
    }
}

impl PythagoreanTriples {
    /// Keeps exactly the entries whose `b` is not zero.
    pub fn remove_trivial(&mut self, buffer: &mut TemporaryBuffer)
        requires
            old(self).wf(),
        ensures
            final(self).wf(),
            final(self)@ == nontrivial(old(self)@),
    {
        let n = self.a_values.len();
        buffer.indexes.clear();
        let mut i: usize = 0;
        while i < n
            invariant
                self.wf(),
                n == self@.len(),
                i <= n,
                forall|q: int| 0 <= q < buffer.indexes@.len() ==> buffer.indexes@[q] < n,
                gather(self@, buffer.indexes@) == nontrivial(self@.take(i as int)),
            decreases n - i,
        {
            proof {
                lemma_nontrivial_step(self@, i as int);
                lemma_gather_push(self@, buffer.indexes@, i);
            }
            if self.b_values[i] != 0 {
                buffer.indexes.push(i);
            }
            i = i + 1;
        }
        assert(self@.take(n as int) =~= self@);
        self.retain_indexes(buffer);
    }

    /// Replaces the entries by those at `buffer.indexes`, in that order.
    fn retain_indexes(&mut self, buffer: &mut TemporaryBuffer)
        requires
            old(self).wf(),
            forall|q: int| 0 <= q < old(buffer).indexes@.len() ==> old(buffer).indexes@[q] < old(self)@.len(),
        ensures
            final(self).wf(),
            final(self)@ == gather(old(self)@, old(buffer).indexes@),
            final(buffer).indexes@ == old(buffer).indexes@,
    {
        let m = buffer.indexes.len();
        buffer.a_values.clear();
        buffer.b_values.clear();
        buffer.c_values.clear();
        buffer.factors.clear();
        let mut q: usize = 0;
        while q < m
            invariant
                self.wf(),
                self@ == old(self)@,
                buffer.indexes@ == old(buffer).indexes@,
                m == buffer.indexes@.len(),
                q <= m,
                forall|k: int| 0 <= k < m ==> buffer.indexes@[k] < self@.len(),
                buffer.a_values@.len() == q,
                buffer.b_values@.len() == q,
                buffer.c_values@.len() == q,
                buffer.factors@.len() == q,
                forall|k: int| 0 <= k < q ==> {
                    let t = #[trigger] self@[buffer.indexes@[k] as int];
                    &&& buffer.a_values@[k] == t.0
                    &&& buffer.b_values@[k] == t.1
                    &&& buffer.c_values@[k] == t.2
                    &&& buffer.factors@[k] == t.3
                },
            decreases m - q,
        {
            let j = buffer.indexes[q];
            buffer.a_values.push(self.a_values[j]);
            buffer.b_values.push(self.b_values[j]);
            buffer.c_values.push(self.c_values[j]);
            buffer.factors.push(self.factors[j]);
            q = q + 1;
        }
        self.a_values.clear();
        self.b_values.clear();
        self.c_values.clear();
        self.factors.clear();
        self.a_values.extend_from_slice(buffer.a_values.as_slice());
        self.b_values.extend_from_slice(buffer.b_values.as_slice());
        self.c_values.extend_from_slice(buffer.c_values.as_slice());
        self.factors.extend_from_slice(buffer.factors.as_slice());
        assert(self@ =~= gather(old(self)@, old(buffer).indexes@));
    }

    /// Sorts by `(c, a)` and keeps one entry of each key.
    pub fn sort_and_dedup_by_c_and_a(&mut self, buffer: &mut TemporaryBuffer)
        requires
            old(self).wf(),
        ensures
            final(self).wf(),
            final(self)@.len() <= old(self)@.len(),
            sorted_dedup_of(final(self)@, old(self)@, |t: Triple| c_a_key(t)),
    {
        let n = self.a_values.len();
        buffer.keys.clear();
        let mut i: usize = 0;
        while i < n
            invariant
                self.wf(),
                n == self@.len(),
                i <= n,
                buffer.keys@.len() == i,
                forall|k: int| 0 <= k < i ==> #[trigger] buffer.keys@[k] == (self@[k].2, self@[k].0, k as usize),
            decreases n - i,
        {
            buffer.keys.push((self.c_values[i], self.a_values[i], i));
            i = i + 1;
        }
        self.sort_and_dedup_keys(buffer, Ghost(|t: Triple| c_a_key(t)));
    }

    /// Sorts by `(primitive?, a)`, non-primitive entries first, and keeps one
    /// entry of each key.
    pub fn sort_and_dedup_by_primitive_and_a(&mut self, buffer: &mut TemporaryBuffer)
        requires
            old(self).wf(),
        ensures
            final(self).wf(),
            final(self)@.len() <= old(self)@.len(),
            sorted_dedup_of(final(self)@, old(self)@, |t: Triple| primitive_a_key(t)),
    {
        let n = self.a_values.len();
        buffer.keys.clear();
        let mut i: usize = 0;
        while i < n
            invariant
                self.wf(),
                n == self@.len(),
                i <= n,
                buffer.keys@.len() == i,
                forall|k: int| 0 <= k < i ==> #[trigger] buffer.keys@[k] == (
                    primitive_a_key(self@[k]).0, self@[k].0, k as usize),
            decreases n - i,
        {
            let primitive: u64 = if self.factors[i] & TOP_BIT != 0 {
                0
            } else {
                1
            };
            buffer.keys.push((primitive, self.a_values[i], i));
            i = i + 1;
        }
        self.sort_and_dedup_keys(buffer, Ghost(|t: Triple| primitive_a_key(t)));
    }

    /// Sorts `buffer.keys`, which hold `(key, index)` for every entry, keeps
    /// the first index of each key and gathers those entries.
    fn sort_and_dedup_keys(&mut self, buffer: &mut TemporaryBuffer, key: Ghost<spec_fn(Triple) -> (u64, u64)>)
        requires
            old(self).wf(),
            old(buffer).keys@.len() == old(self)@.len(),
            forall|k: int| 0 <= k < old(self)@.len() ==> #[trigger] old(buffer).keys@[k] == (
                key@(old(self)@[k]).0, key@(old(self)@[k]).1, k as usize),
        ensures
            final(self).wf(),
            final(self)@.len() <= old(self)@.len(),
            sorted_dedup_of(final(self)@, old(self)@, key@),
    {
        broadcast use vstd::seq_lib::group_to_multiset_ensures;

        let n = self.a_values.len();
        let ghost keys0 = buffer.keys@;
        sort_keys(&mut buffer.keys);
        let ghost keys = buffer.keys@;
        assert forall|p: int| 0 <= p < n implies #[trigger] keys[p].2 < n && (keys[p].0, keys[p].1) == key@(self@[keys[p].2 as int]) by {
            assert(keys.contains(keys[p]));
            assert(keys.to_multiset().count(keys[p]) > 0);
            assert(keys0.contains(keys[p]));
            let k = choose|k: int| 0 <= k < keys0.len() && keys0[k] == keys[p];
            assert(keys0[k] == keys[p]);
        }
        buffer.indexes.clear();
        let ghost mut owner: Seq<int> = Seq::empty();
        let mut p: usize = 0;
        while p < n
            invariant
                self.wf(),
                n == self@.len(),
                buffer.keys@ == keys,
                keys.len() == n,
                p <= n,
                forall|r: int| 0 <= r < n ==> #[trigger] keys[r].2 < n && (keys[r].0, keys[r].1) == key@(self@[keys[r].2 as int]),
                forall|r: int, t: int| 0 <= r < t < n ==> sort_key_le(keys[r], keys[t]),
                forall|q: int| 0 <= q < buffer.indexes@.len() ==> buffer.indexes@[q] < n,
                buffer.indexes@.len() <= p,
                forall|q: int, j2: int|
                    #![trigger self@[j2], buffer.indexes@[q]]
                    0 <= q < buffer.indexes@.len() && 0 <= j2 < buffer.indexes@[q] ==> key@(self@[j2]) != key@(
                        self@[buffer.indexes@[q] as int]),
                keys0.len() == n,
                forall|k: int| 0 <= k < n ==> #[trigger] keys0[k] == (key@(self@[k]).0, key@(self@[k]).1, k as usize),
                keys.to_multiset() == keys0.to_multiset(),
                forall|q1: int, q2: int| 0 <= q1 < q2 < buffer.indexes@.len() ==>
                    key_lt(key@(self@[buffer.indexes@[q1] as int]), key@(self@[buffer.indexes@[q2] as int])),
                p == 0 ==> buffer.indexes@.len() == 0,
                p > 0 ==> buffer.indexes@.len() > 0 && key@(self@[buffer.indexes@.last() as int]) == (keys[p - 1].0, keys[p - 1].1),
                owner.len() == p,
                forall|r: int| 0 <= r < p ==> 0 <= #[trigger] owner[r] < buffer.indexes@.len()
                    && key@(self@[buffer.indexes@[owner[r]] as int]) == (keys[r].0, keys[r].1),
            decreases n - p,
        {
            let e = buffer.keys[p];
            let fresh = if p == 0 {
                true
            } else {
                let d = buffer.keys[p - 1];
                e.0 != d.0 || e.1 != d.1
            };
            if fresh {
                proof {
                    if p > 0 {
                        assert(sort_key_le(keys[p - 1], keys[p as int]));
                    }
                    lemma_first_of_key(self@, key@, keys0, keys, p as int);
                }
                buffer.indexes.push(e.2);
            }
            proof {
                owner = owner.push(buffer.indexes@.len() - 1);
            }
            p = p + 1;
        }
        let ghost idx = buffer.indexes@;
        self.retain_indexes(buffer);
        let ghost before = old(self)@;
        let ghost after = self@;
        assert forall|i: int| 0 <= i < after.len() implies before.contains(#[trigger] after[i]) by {
            assert(after[i] == before[idx[i] as int]);
        }
        assert forall|j: int| 0 <= j < before.len() implies exists|i: int|
            0 <= i < after.len() && #[trigger] key@(after[i]) == key@(#[trigger] before[j]) by {
            let e = keys0[j];
            assert(keys0.contains(e));
            assert(keys0.to_multiset().count(e) > 0);
            assert(keys.contains(e));
            let r = choose|r: int| 0 <= r < keys.len() && keys[r] == e;
            assert(keys[r].2 == j);
            let i = owner[r];
            assert(after[i] == before[idx[i] as int]);
        }
        proof {
            lemma_dedup_first(before, after, idx, key@);
        }
        assert forall|i: int, j: int| 0 <= i < j < after.len() implies key_lt(key@(after[i]), key@(after[j])) by {
            assert(after[i] == before[idx[i] as int]);
            assert(after[j] == before[idx[j] as int]);
        }
    }

    /// Turns every `(a, b, c, f)` into `(s(a + b), s|a - b|, c, f')` with
    /// `s = final_product / c`, flagging `f'` as non-primitive when `s != 1`.
    pub fn into_magic_triples(&mut self, final_product: u64)
        requires
            old(self).wf(),
            forall|i: int| 0 <= i < old(self)@.len() ==> magic_fits(#[trigger] old(self)@[i], final_product),
        ensures
            final(self).wf(),
            final(self)@.len() == old(self)@.len(),
            forall|i: int| 0 <= i < old(self)@.len() ==> #[trigger] final(self)@[i] == magic_of(old(self)@[i], final_product),
            (forall|i: int| 0 <= i < old(self)@.len() ==> is_pythagorean(#[trigger] old(self)@[i])
                && final_product % old(self)@[i].2 == 0) ==> forall|i: int| 0 <= i < final(self)@.len()
                ==> #[trigger] final(self)@[i].0 * final(self)@[i].0 + final(self)@[i].1 * final(self)@[i].1
                == 2 * final_product * final_product,
    {
        let n = self.a_values.len();
        let mut i: usize = 0;
        while i < n
            invariant
                self.wf(),
                n == self@.len(),
                n == old(self)@.len(),
                old(self).wf(),
                i <= n,
                forall|k: int| i <= k < n ==> #[trigger] self.a_values@[k] == old(self).a_values@[k],
                forall|k: int| i <= k < n ==> #[trigger] self.b_values@[k] == old(self).b_values@[k],
                forall|k: int| i <= k < n ==> #[trigger] self.factors@[k] == old(self).factors@[k],
                self.c_values@ == old(self).c_values@,
                forall|k: int| 0 <= k < n ==> magic_fits(#[trigger] old(self)@[k], final_product),
                forall|k: int| 0 <= k < i ==> #[trigger] self@[k] == magic_of(old(self)@[k], final_product),
            decreases n - i,
        {
            let a = self.a_values[i];
            let b = self.b_values[i];
            let c = self.c_values[i];
            let f = self.factors[i];
            assert(self@[i as int] == (a, b, c, f));
            assert(magic_fits(old(self)@[i as int], final_product));
            let ghost prev = self@;
            let scale = final_product / c;
            let d = if a >= b {
                a - b
            } else {
                b - a
            };
            assert(scale * d <= scale * (a + b)) by (nonlinear_arith)
                requires d <= a + b, scale >= 0;
            self.a_values[i] = scale * (a + b);
            self.b_values[i] = scale * d;
            self.factors[i] = if scale != 1 {
                f | TOP_BIT
            } else {
                f
            };
            assert(self@[i as int] == magic_of(old(self)@[i as int], final_product));
            assert forall|k: int| 0 <= k < i implies #[trigger] self@[k] == prev[k] by {
                assert(self.a_values@[k] == prev[k].0);
                assert(self.b_values@[k] == prev[k].1);
                assert(self.c_values@[k] == prev[k].2);
                assert(self.factors@[k] == prev[k].3);
            }
            i = i + 1;
        }
        proof {
            if forall|i: int| 0 <= i < old(self)@.len() ==> is_pythagorean(#[trigger] old(self)@[i])
                && final_product % old(self)@[i].2 == 0 {
                assert forall|i: int| 0 <= i < self@.len() implies #[trigger] self@[i].0 * self@[i].0 + self@[i].1 * self@[i].1
                    == 2 * final_product * final_product by {
                    lemma_magic_triple(old(self)@[i], final_product);
                }
            }
        }
    }

    /// Index of the first entry that is not flagged non-primitive (the
    /// length when there is none).
    pub fn primitive_start(&self) -> (r: usize)
        ensures
            r <= self.factors@.len(),
            forall|i: int| 0 <= i < r ==> carries_flag(#[trigger] self.factors@[i]),
            r < self.factors@.len() ==> !carries_flag(self.factors@[r as int]),
    {
        let mut i: usize = 0;
        while i < self.factors.len() && self.factors[i] & TOP_BIT != 0
            invariant
                i <= self.factors@.len(),
                forall|k: int| 0 <= k < i ==> carries_flag(#[trigger] self.factors@[k]),
            decreases self.factors@.len() - i,
        {
            i = i + 1;
        }
        i
    }
}

impl PythagoreanTriples {
    /// Builds the table of the first prime triples: for the primes
    /// `p ≡ 1 (mod 4)` in ascending order, the row `(a, b, p, 0)` with the
    /// kernel's `(a, b)`; `num_primes` rows unless the kernel fails on the
    /// next such prime or none is left in 64 bits.
    pub fn new(num_primes: usize) -> (r: Self)
        ensures
            r.wf(),
            r@.len() <= num_primes,
            is_prime_table(r@),
            forall|i: int| 0 <= i < r@.len() ==> kernel_spec(#[trigger] r@[i].2) == Ok::<(u64, u64), MagicError>((r@[i].0, r@[i].1)),
            no_prime_skipped(r@),
            r@.len() < num_primes ==> stopped_early(r@),
    {
        let mut table = PythagoreanTriples::with_capacity(num_primes);
        let mut candidate: u64 = 5;
        let mut exhausted = false;
        let mut done = false;
        while !done && table.len() < num_primes
            invariant
                table.wf(),
                table@.len() <= num_primes,
                is_prime_table(table@),
                forall|i: int| 0 <= i < table@.len() ==> kernel_spec(#[trigger] table@[i].2) == Ok::<(u64, u64), MagicError>((table@[i].0, table@[i].1)),
                candidate % 4 == 1,
                candidate >= 5,
                !done ==> !exhausted,
                !done ==> last_prime(table@) < candidate,
                !done ==> forall|q: int| 0 <= q < candidate && is_pythagorean_prime(q) ==> exists|j: int| 0 <= j < table@.len() && #[trigger] table@[j].2 == q,
                done ==> no_prime_skipped(table@),
                done ==> table@.len() == num_primes || stopped_early(table@),
            decreases u64::MAX - candidate, if done { 0int } else { 1int },
        {
            let ghost cand0 = candidate;
            let mut chunk: Vec<u64> = Vec::new();
            while chunk.len() < CHUNK && table.len() + chunk.len() < num_primes && !exhausted
                invariant
                    table@.len() + chunk@.len() <= num_primes,
                    chunk@.len() <= CHUNK,
                    candidate % 4 == 1,
                    cand0 <= candidate,
                    chunk@.len() > 0 && !exhausted ==> cand0 < candidate,
                    last_prime(table@) < cand0,
                    forall|k: int| 0 <= k < chunk@.len() ==> {
                        &&& is_pythagorean_prime(#[trigger] chunk@[k] as int)
                        &&& cand0 <= chunk@[k]
                        &&& chunk@[k] < candidate || (exhausted && chunk@[k] == candidate)
                    },
                    forall|k1: int, k2: int| 0 <= k1 < k2 < chunk@.len() ==> chunk@[k1] < chunk@[k2],
                    forall|q: int| 0 <= q < candidate && is_pythagorean_prime(q) ==> (exists|j: int| 0 <= j < table@.len() && #[trigger] table@[j].2 == q)
                        || (exists|k: int| 0 <= k < chunk@.len() && #[trigger] chunk@[k] == q),
                    exhausted ==> forall|q: int| candidate <= q <= u64::MAX && is_pythagorean_prime(q) ==> exists|k: int|
                        0 <= k < chunk@.len() && #[trigger] chunk@[k] == q,
                decreases u64::MAX - candidate, if exhausted { 0int } else { 1int },
            {
                let ghost before = chunk@;
                if prime_test(candidate) {
                    chunk.push(candidate);
                    proof {
                        assert(chunk@[chunk@.len() - 1] == candidate);
                        assert forall|q: int| 0 <= q < candidate && is_pythagorean_prime(q) implies (exists|j: int| 0 <= j < table@.len() && #[trigger] table@[j].2 == q)
                            || (exists|k: int| 0 <= k < chunk@.len() && #[trigger] chunk@[k] == q) by {
                            if exists|k: int| 0 <= k < before.len() && #[trigger] before[k] == q {
                                let k = choose|k: int| 0 <= k < before.len() && #[trigger] before[k] == q;
                                assert(chunk@[k] == q);
                            }
                        }
                    }
                }
                let ghost tested = candidate;
                if candidate > u64::MAX - 4 {
                    exhausted = true;
                    proof {
                        assert forall|q: int| candidate <= q <= u64::MAX && is_pythagorean_prime(q) implies exists|k: int|
                            0 <= k < chunk@.len() && #[trigger] chunk@[k] == q by {
                            assert(q == candidate);
                            assert(chunk@[chunk@.len() - 1] == candidate);
                        }
                    }
                } else {
                    candidate = candidate + 4;
                    proof {
                        assert forall|q: int| 0 <= q < candidate && is_pythagorean_prime(q) implies (exists|j: int| 0 <= j < table@.len() && #[trigger] table@[j].2 == q)
                            || (exists|k: int| 0 <= k < chunk@.len() && #[trigger] chunk@[k] == q) by {
                            if q >= tested {
                                assert(q == tested);
                                assert(chunk@[chunk@.len() - 1] == tested);
                            }
                        }
                    }
                }
            }
            let results = compute_all(&chunk);
            let ghost table0 = table@;
            let mut failed = false;
            let mut k: usize = 0;
            while k < chunk.len() && !failed
                invariant
                    table.wf(),
                    table@.len() == table0.len() + k,
                    table@.subrange(0, table0.len() as int) == table0,
                    table0.len() + chunk@.len() <= num_primes,
                    k <= chunk@.len(),
                    results@.len() == chunk@.len(),
                    forall|j: int| 0 <= j < chunk@.len() ==> kernel_result(chunk@[j], #[trigger] results@[j]),
                    forall|j: int| 0 <= j < chunk@.len() ==> #[trigger] results@[j] == kernel_spec(chunk@[j]),
                    is_prime_table(table@),
                    forall|i: int| 0 <= i < table@.len() ==> kernel_spec(#[trigger] table@[i].2) == Ok::<(u64, u64), MagicError>((table@[i].0, table@[i].1)),
                    forall|i: int| 0 <= i < table0.len() ==> table0[i].2 < cand0,
                    forall|j: int| 0 <= j < chunk@.len() ==> {
                        &&& is_pythagorean_prime(#[trigger] chunk@[j] as int)
                        &&& cand0 <= chunk@[j]
                    },
                    forall|k1: int, k2: int| 0 <= k1 < k2 < chunk@.len() ==> chunk@[k1] < chunk@[k2],
                    forall|j: int| 0 <= j < k ==> #[trigger] table@[table0.len() + j].2 == chunk@[j],
                    k < chunk@.len() ==> forall|i: int| 0 <= i < table@.len() ==> #[trigger] table@[i].2 < chunk@[k as int],
                    failed ==> k < chunk@.len() && kernel_spec(chunk@[k as int]) is Err,
                decreases chunk@.len() - k, if failed { 0int } else { 1int },
            {
                assert(kernel_result(chunk@[k as int], results@[k as int]));
                match results[k] {
                    Ok((a, b)) => {
                        let ghost before = table@;
                        table.push((a, b, chunk[k], 0));
                        proof {
                            assert(table@[before.len() as int] == (a, b, chunk@[k as int], 0u32));
                            assert(is_prime(chunk@[k as int] as int) && chunk@[k as int] % 4 == 1);
                            assert(table@.subrange(0, table0.len() as int) =~= table0) by {
                                assert(table@.subrange(0, before.len() as int) == before);
                            }
                            if k + 1 < chunk@.len() {
                                assert(chunk@[k as int] < chunk@[k + 1]);
                            }
                        }
                        k = k + 1;
                    },
                    Err(_) => {
                        failed = true;
                    },
                }
            }
            proof {
                lemma_table_step(table@, table0, chunk@, k as int, failed, exhausted, candidate as int, cand0 as int);
            }
            if failed || exhausted || chunk.len() == 0 {
                done = true;
            }
        }
        table
    }

    /// The primitive Pythagorean triple `(m² - n², 2mn)` of the prime
    /// `p = m² + n²`, by Cornacchia's algorithm and Euclid's parameterization.
    pub fn compute(pythagorean_prime: u64) -> (r: Result<(u64, u64), MagicError>)
        ensures
            kernel_result(pythagorean_prime, r),
            r == kernel_spec(pythagorean_prime),
    {
        if pythagorean_prime % 4 != 1 {
            return Err(MagicError::Logic);
        }
        let root = match Self::modular_sqrt_of_one_less_than(pythagorean_prime) {
            Ok(root) => root,
            Err(e) => {
                return Err(e);
            },
        };
        let (m, n) = match Self::modified_euclidean_algorithm(pythagorean_prime, root) {
            Ok(pair) => pair,
            Err(e) => {
                return Err(e);
            },
        };
        assert(m * m <= m * m + n * n && n * n <= m * n) by (nonlinear_arith)
            requires m > n, n > 0;
        assert(2 * m * n <= m * m + n * n && 2 * m <= 2 * m * n) by (nonlinear_arith)
            requires m > n, n > 0;
        assert(n * n < m * m) by (nonlinear_arith)
            requires m > n, n > 0;
        let a = m * m - n * n;
        let b = 2 * m * n;
        assert(a * a + b * b == (m * m + n * n) * (m * m + n * n)) by (nonlinear_arith)
            requires a == m * m - n * n, b == 2 * m * n;
        assert(a > 0 && b > 0) by (nonlinear_arith)
            requires a == m * m - n * n, b == 2 * m * n, n * n < m * m, m > 0, n > 0;
        Ok((a, b))
    }

    /// A square root of `-1` modulo `p`: `r^((p-1)/4)` for the first
    /// candidate `r = 2, 3, ...` with `r^((p-1)/2) ≡ -1` (Euler's criterion).
    pub fn modular_sqrt_of_one_less_than(pythagorean_prime: u64) -> (r: Result<u64, MagicError>)
        requires
            pythagorean_prime % 4 == 1,
        ensures
            r is Ok <==> sqrt_of_minus_one(pythagorean_prime as int) is Some,
            r is Ok ==> r->Ok_0 == sqrt_of_minus_one(pythagorean_prime as int)->Some_0,
            r is Ok ==> {
                let s = r->Ok_0;
                &&& s < pythagorean_prime
                &&& (s * s) % (pythagorean_prime as int) == pythagorean_prime - 1
            },
    {
        let p = pythagorean_prime;
        if p < 5 {
            return Err(MagicError::Logic);
        }
        let k = (p - 1) / 4;
        let mut candidate: u64 = 2;
        while candidate < p
            invariant
                p == pythagorean_prime,
                p >= 5,
                k == (p - 1) / 4,
                2 <= candidate <= p,
                first_nonresidue(p as int, 2) == first_nonresidue(p as int, candidate as int),
            decreases p - candidate,
        {
            let euler_criterion = powmod(candidate, 2 * k, p);
            if euler_criterion == p - 1 {
                let s = powmod(candidate, k, p);
                proof {
                    let c = candidate as int;
                    let x = pow(c, k as nat);
                    lemma_pow_adds(c, k as nat, k as nat);
                    assert((k + k) as nat == (2 * k) as nat);
                    assert(pow(c, (2 * k) as nat) == x * x);
                    assert(euler_criterion as int == (x * x) % (p as int));
                    assert(s as int == x % (p as int));
                    lemma_mul_mod_noop(x, x, p as int);
                    assert((s * s) % (p as int) == (x * x) % (p as int));
                }
                return Ok(s);
            }
            candidate = candidate + 1;
        }
        Err(MagicError::Logic)
    }

    /// Cornacchia's step: the Euclidean remainders of `(p, root)` until one
    /// remainder `q` and its divisor `b` give `b² + q² = p`.
    pub fn modified_euclidean_algorithm(pythagorean_prime: u64, root: u64) -> (r: Result<(u64, u64), MagicError>)
        ensures
            r is Ok ==> {
                let (m, n) = r->Ok_0;
                m * m + n * n == pythagorean_prime && m > n && n > 0
            },
            r is Ok <==> cornacchia(pythagorean_prime as int, pythagorean_prime as int, root as int) is Some,
            r is Ok ==> r->Ok_0.0 == cornacchia(pythagorean_prime as int, pythagorean_prime as int, root as int)->Some_0.0
                && r->Ok_0.1 == cornacchia(pythagorean_prime as int, pythagorean_prime as int, root as int)->Some_0.1,
    {
        let p = pythagorean_prime as u128;
        let mut a = pythagorean_prime;
        let mut b = root;
        while b != 0
            invariant
                p == pythagorean_prime,
                cornacchia(p as int, pythagorean_prime as int, root as int) == cornacchia(p as int, a as int, b as int),
            decreases b,
        {
            let remainder = a % b;
            assert(b * b <= u64::MAX * u64::MAX && remainder * remainder <= u64::MAX * u64::MAX) by (nonlinear_arith)
                requires b <= u64::MAX, remainder <= u64::MAX, b >= 0, remainder >= 0;
            let bb = (b as u128) * (b as u128);
            let rr = (remainder as u128) * (remainder as u128);
            if remainder != 0 && bb <= p && rr == p - bb {
                return Ok((b, remainder));
            }
            a = b;
            b = remainder;
        }
        Err(MagicError::Logic)
    }
}

/// Both Brahmagupta-Fibonacci combinations of two Pythagorean triples are
/// Pythagorean triples with hypotenuse `cz`; when neither factor bitmap is
/// flagged, a combination is flagged non-primitive exactly when the two
/// bitmaps share a bit.
pub proof fn lemma_product_is_pythagorean(t: Triple, s: Triple)
    requires
        is_pythagorean(t),
        is_pythagorean(s),
        product_fits(t, s),
    ensures
        is_pythagorean(product_first(t, s)),
        is_pythagorean(product_second(t, s)),
        product_first(t, s).2 == t.2 * s.2,
        product_second(t, s).2 == t.2 * s.2,
        !carries_flag(t.3) && !carries_flag(s.3) ==> {
            &&& carries_flag(product_first(t, s).3) <==> t.3 & s.3 != 0
            &&& carries_flag(product_second(t, s).3) <==> t.3 & s.3 != 0
        },
{
    let (a, b, c, f) = t;
    let (x, y, z, g) = s;
    let a = a as int;
    let b = b as int;
    let c = c as int;
    let x = x as int;
    let y = y as int;
    let z = z as int;
    assert(abs_diff(a * x, b * y) * abs_diff(a * x, b * y) == (a * x - b * y) * (a * x - b * y))
        by (nonlinear_arith);
    assert(abs_diff(a * y, b * x) * abs_diff(a * y, b * x) == (a * y - b * x) * (a * y - b * x))
        by (nonlinear_arith);
    lemma_two_squares_identity(a, b, c, x, y, z);
    assert(carries_flag(f) == (f & 0x8000_0000u32 != 0));
    assert(carries_flag(g) == (g & 0x8000_0000u32 != 0));
    assert(f & 0x8000_0000u32 == 0 && g & 0x8000_0000u32 == 0 ==> (
        ((f | g | (if f & g != 0 { 0x8000_0000u32 } else { 0u32 })) & 0x8000_0000u32 != 0) <==> f & g != 0))
        by (bit_vector);
}

proof fn lemma_two_squares_identity(a: int, b: int, c: int, x: int, y: int, z: int)
    requires
        a * a + b * b == c * c,
        x * x + y * y == z * z,
    ensures
        (a * x - b * y) * (a * x - b * y) + (a * y + b * x) * (a * y + b * x) == (c * z) * (c * z),
        (a * x + b * y) * (a * x + b * y) + (a * y - b * x) * (a * y - b * x) == (c * z) * (c * z),
{
    let p1 = a * x;
    let p2 = b * y;
    let p3 = a * y;
    let p4 = b * x;
    assert((p1 - p2) * (p1 - p2) == p1 * p1 + p2 * p2 - 2 * (p1 * p2)) by (nonlinear_arith);
    assert((p1 + p2) * (p1 + p2) == p1 * p1 + p2 * p2 + 2 * (p1 * p2)) by (nonlinear_arith);
    assert((p3 - p4) * (p3 - p4) == p3 * p3 + p4 * p4 - 2 * (p3 * p4)) by (nonlinear_arith);
    assert((p3 + p4) * (p3 + p4) == p3 * p3 + p4 * p4 + 2 * (p3 * p4)) by (nonlinear_arith);
    assert(p1 * p2 == p3 * p4) by (nonlinear_arith)
        requires p1 == a * x, p2 == b * y, p3 == a * y, p4 == b * x;
    assert(p1 * p1 == (a * a) * (x * x)) by (nonlinear_arith)
        requires p1 == a * x;
    assert(p2 * p2 == (b * b) * (y * y)) by (nonlinear_arith)
        requires p2 == b * y;
    assert(p3 * p3 == (a * a) * (y * y)) by (nonlinear_arith)
        requires p3 == a * y;
    assert(p4 * p4 == (b * b) * (x * x)) by (nonlinear_arith)
        requires p4 == b * x;
    let aa = a * a;
    let bb = b * b;
    let xx = x * x;
    let yy = y * y;
    assert((aa + bb) * (xx + yy) == aa * xx + aa * yy + bb * xx + bb * yy) by (nonlinear_arith);
    assert((c * c) * (z * z) == (c * z) * (c * z)) by (nonlinear_arith);
}

/// `t` is one of the two combinations of some stored triple with `s`.
pub open spec fn is_combination(t: Triple, stored: Seq<Triple>, s: Triple) -> bool {
    exists|i: int| 0 <= i < stored.len() && (t == product_first(#[trigger] stored[i], s) || t == product_second(stored[i], s))
}

/// What `product` appends to `before` (giving `after`) for the stored
/// triples `stored` and `s`: every new entry is a combination of a stored
/// triple with `s`; when all stored triples and `s` are Pythagorean, every
/// new entry is a Pythagorean triple whose hypotenuse is a stored
/// hypotenuse times `s.2`.
pub proof fn lemma_product_rows(before: Seq<Triple>, after: Seq<Triple>, stored: Seq<Triple>, s: Triple)
    requires
        after.len() == before.len() + 2 * stored.len(),
        forall|i: int|
            0 <= i < stored.len() ==> {
                &&& after[before.len() + first_slot(i, stored.len() as int)] == product_first(#[trigger] stored[i], s)
                &&& after[before.len() + second_slot(i, stored.len() as int)] == product_second(stored[i], s)
            },
    ensures
        forall|q: int| before.len() <= q < after.len() ==> is_combination(#[trigger] after[q], stored, s),
        (forall|i: int| 0 <= i < stored.len() ==> is_pythagorean(#[trigger] stored[i]) && product_fits(stored[i], s))
            && is_pythagorean(s) ==> forall|q: int|
            before.len() <= q < after.len() ==> is_pythagorean(#[trigger] after[q]) && exists|i: int|
                0 <= i < stored.len() && after[q].2 == #[trigger] stored[i].2 * s.2,
{
    let n = stored.len() as int;
    assert forall|q: int| before.len() <= q < after.len() implies is_combination(#[trigger] after[q], stored, s) by {
        let k = slot_owner(q - before.len(), n);
        assert(product_first(stored[k], s) == after[before.len() + first_slot(k, n)]);
        assert(product_second(stored[k], s) == after[before.len() + second_slot(k, n)]);
        assert(after[q] == product_first(stored[k], s) || after[q] == product_second(stored[k], s));
    }
    if (forall|i: int| 0 <= i < stored.len() ==> is_pythagorean(#[trigger] stored[i]) && product_fits(stored[i], s))
        && is_pythagorean(s) {
        assert forall|q: int| before.len() <= q < after.len() implies is_pythagorean(#[trigger] after[q]) && exists|i: int|
            0 <= i < stored.len() && after[q].2 == #[trigger] stored[i].2 * s.2 by {
            let k = slot_owner(q - before.len(), n);
            assert(product_first(stored[k], s) == after[before.len() + first_slot(k, n)]);
            assert(product_second(stored[k], s) == after[before.len() + second_slot(k, n)]);
            lemma_product_is_pythagorean(stored[k], s);
        }
    }
}

/// A stored Pythagorean triple can be combined with another without leaving
/// 64 bits whenever the product of the hypotenuses fits.
pub proof fn lemma_product_fits(t: Triple, s: Triple)
    requires
        is_pythagorean(t),
        is_pythagorean(s),
        t.2 * s.2 <= u64::MAX,
    ensures
        product_fits(t, s),
{
    let a = t.0 as int;
    let b = t.1 as int;
    let c = t.2 as int;
    let x = s.0 as int;
    let y = s.1 as int;
    let z = s.2 as int;
    lemma_two_squares_identity(a, b, c, x, y, z);
    assert(0 <= (a * y - b * x) * (a * y - b * x)) by (nonlinear_arith);
    assert(0 <= (a * x - b * y) * (a * x - b * y)) by (nonlinear_arith);
    assert(a * x + b * y <= c * z) by (nonlinear_arith)
        requires (a * x + b * y) * (a * x + b * y) <= (c * z) * (c * z), a >= 0, b >= 0, x >= 0, y >= 0, c >= 0, z >= 0;
    assert(a * y + b * x <= c * z) by (nonlinear_arith)
        requires (a * y + b * x) * (a * y + b * x) <= (c * z) * (c * z), a >= 0, b >= 0, x >= 0, y >= 0, c >= 0, z >= 0;
}

/// For a Pythagorean triple whose hypotenuse divides `p`, the magic triple
/// `(s(a + b), s|a - b|)`, `s = p / c`, satisfies `A² + B² = 2p²`.
pub proof fn lemma_magic_triple(t: Triple, p: u64)
    requires
        is_pythagorean(t),
        magic_fits(t, p),
        p % t.2 == 0,
    ensures
        magic_of(t, p).0 * magic_of(t, p).0 + magic_of(t, p).1 * magic_of(t, p).1 == 2 * p * p,
{
    let a = t.0 as int;
    let b = t.1 as int;
    let c = t.2 as int;
    let s = (p / t.2) as int;
    assert(s * c == p) by {
        vstd::arithmetic::div_mod::lemma_fundamental_div_mod(p as int, c);
    }
    assert(s * abs_diff(a, b) <= s * (a + b)) by (nonlinear_arith)
        requires s >= 0, a >= 0, b >= 0;
    assert(s * abs_diff(a, b) * (s * abs_diff(a, b)) == s * s * ((a - b) * (a - b))) by (nonlinear_arith);
    assert((s * (a + b)) * (s * (a + b)) + s * s * ((a - b) * (a - b)) == 2 * (s * s) * (a * a + b * b))
        by (nonlinear_arith);
    assert(2 * (s * s) * (c * c) == 2 * (s * c) * (s * c)) by (nonlinear_arith);
}

/// A Pythagorean triple whose hypotenuse divides `p` turns into a magic
/// triple for `p` without leaving 64 bits when `2p` fits.
pub proof fn lemma_magic_fits(t: Triple, p: u64)
    requires
        is_pythagorean(t),
        t.2 != 0,
        p % t.2 == 0,
        0 < p,
        2 * p <= u64::MAX,
    ensures
        magic_fits(t, p),
{
    let a = t.0 as int;
    let b = t.1 as int;
    let c = t.2 as int;
    let s = (p / t.2) as int;
    assert(s * c == p) by {
        vstd::arithmetic::div_mod::lemma_fundamental_div_mod(p as int, c);
    }
    assert(a <= c && b <= c) by (nonlinear_arith)
        requires a * a + b * b == c * c, a >= 0, b >= 0, c >= 0;
    assert(s * (a + b) <= 2 * (s * c)) by (nonlinear_arith)
        requires a + b <= 2 * c, s >= 0;
    assert(c <= p) by (nonlinear_arith)
        requires s * c == p, p > 0, c > 0;
}

/// The two slots of stored triple `i` differ, lie in `[0, 2n)`, and no other
/// stored triple uses either of them.
pub proof fn slots_distinct(i: int, n: int)
    requires
        0 <= i < n,
    ensures
        0 <= first_slot(i, n) < 2 * n,
        0 <= second_slot(i, n) < 2 * n,
        first_slot(i, n) != second_slot(i, n),
        forall|k: int|
            0 <= k < n ==> 0 <= #[trigger] first_slot(k, n) < 2 * n && 0 <= second_slot(k, n) < 2 * n,
        forall|k: int|
            0 <= k < n && k != i ==> {
                &&& first_slot(k, n) != first_slot(i, n)
                &&& first_slot(k, n) != second_slot(i, n)
                &&& second_slot(k, n) != first_slot(i, n)
                &&& second_slot(k, n) != second_slot(i, n)
            },
{
    assert forall|k: int| 0 <= k < n implies 0 <= #[trigger] first_slot(k, n) < 2 * n && 0 <= second_slot(k, n) < 2 * n by {
        slot_block(k, n);
    }
    assert forall|k: int|
        0 <= k < n && k != i implies {
            &&& first_slot(k, n) != first_slot(i, n)
            &&& first_slot(k, n) != second_slot(i, n)
            &&& second_slot(k, n) != first_slot(i, n)
            &&& second_slot(k, n) != second_slot(i, n)
        } by {
        slot_block(k, n);
        slot_block(i, n);
    }
    slot_block(i, n);
}

/// Every one of the `2n` slots that `product` appends belongs to a stored
/// triple (with `slots_distinct`: the slots are a bijection onto `[0, 2n)`).
pub proof fn slot_owner(q: int, n: int) -> (k: int)
    requires
        0 <= q < 2 * n,
    ensures
        0 <= k < n,
        first_slot(k, n) == q || second_slot(k, n) == q,
{
    reveal(first_slot);
    reveal(second_slot);
    let s = n - n % 64;
    assert(n % 64 >= 0 && n % 64 < 64);
    assert(n / 64 * 64 + n % 64 == n);
    if q < 2 * s {
        let b = q / 128;
        let off = q % 128;
        assert(b * 128 + off == q);
        assert(b < n / 64) by (nonlinear_arith)
            requires b * 128 + off == q, q < 2 * s, s == n / 64 * 64, 0 <= off;
        if off < 64 {
            let k = 64 * b + off;
            assert(k % 64 == off && k / 64 == b) by (nonlinear_arith)
                requires k == 64 * b + off, 0 <= off < 64, b >= 0;
            assert(k < s) by (nonlinear_arith)
                requires k == 64 * b + off, off < 64, b < n / 64, s == n / 64 * 64;
            k
        } else {
            let k = 64 * b + off - 64;
            assert(k % 64 == off - 64 && k / 64 == b) by (nonlinear_arith)
                requires k == 64 * b + off - 64, 64 <= off < 128, b >= 0;
            assert(k < s) by (nonlinear_arith)
                requires k == 64 * b + off - 64, off < 128, b < n / 64, s == n / 64 * 64;
            k
        }
    } else {
        let k = q / 2;
        assert(k * 2 + q % 2 == q);
        k
    }
}

/// Where the slots of stored triple `i` lie: in its block of `2 * LANES`
/// entries at its lane, or in the alternating remainder.
proof fn slot_block(i: int, n: int)
    requires
        0 <= i < n,
    ensures
        n - n % 64 <= 2 * n,
        i < n - n % 64 ==> {
            &&& i / 64 * 64 + i % 64 == i
            &&& 0 <= i % 64 < 64
            &&& first_slot(i, n) == 128 * (i / 64) + i % 64
            &&& second_slot(i, n) == 128 * (i / 64) + 64 + i % 64
            &&& 128 * (i / 64) + 128 <= 2 * (n - n % 64)
        },
        i >= n - n % 64 ==> {
            &&& first_slot(i, n) == 2 * i
            &&& second_slot(i, n) == 2 * i + 1
            &&& 2 * (n - n % 64) <= 2 * i
        },
{
    reveal(first_slot);
    reveal(second_slot);
    assert(n % 64 >= 0 && n % 64 < 64);
    assert(n / 64 * 64 + n % 64 == n);
    if i < n - n % 64 {
        assert(i / 64 * 64 + i % 64 == i);
        assert(i / 64 < n / 64) by (nonlinear_arith)
            requires i < n - n % 64, n / 64 * 64 + n % 64 == n, i / 64 * 64 + i % 64 == i, 0 <= i % 64 < 64, i >= 0;
    }
}

} // verus!
