use crate::pythagorean_triples::{
    c_a_key, key_lt, magic_of, sorted_dedup_of, first_slot, is_prime, is_prime_table, is_pythagorean, lemma_magic_fits, lemma_product_fits,
    lemma_product_rows, nontrivial, primitive_a_key, product_first, product_second, second_slot,
    PythagoreanTriples, TemporaryBuffer, Triple,
};
use core::ops::{Range, RangeInclusive};
use vstd::arithmetic::div_mod::{lemma_fundamental_div_mod, lemma_mod_multiples_basic};
use vstd::arithmetic::power::{lemma_pow_increases, lemma_pow1, pow};
use vstd::prelude::*;

verus! {

proof fn lemma_pow_base_mono(x: int, y: int, e: nat)
    requires
        0 <= x <= y,
    ensures
        pow(x, e) <= pow(y, e),
        0 <= pow(x, e),
    decreases e,
{
    reveal(pow);
    if e > 0 {
        lemma_pow_base_mono(x, y, (e - 1) as nat);
        let px = pow(x, (e - 1) as nat);
        let py = pow(y, (e - 1) as nat);
        assert(x * px <= y * py) by (nonlinear_arith)
            requires 0 <= x <= y, 0 <= px <= py;
    }
}

/// Whether `base^exponent <= bound`.
fn pow_at_most(base: u64, exponent: u64, bound: u64) -> (r: bool)
    ensures
        r == (pow(base as int, exponent as nat) <= bound),
{
    let mut acc: u128 = 1;
    let mut i: u64 = 0;
    proof {
        reveal(pow);
    }
    while i < exponent
        invariant
            i <= exponent,
            acc as int == pow(base as int, i as nat),
            acc <= u64::MAX,
            i > 0 ==> acc <= bound,
        decreases exponent - i,
    {
        assert(acc * base <= u64::MAX * u64::MAX) by (nonlinear_arith)
            requires acc <= u64::MAX, base <= u64::MAX, acc >= 0, base >= 0;
        let ghost old_acc = acc;
        acc = acc * (base as u128);
        assert(base == 0 ==> acc == 0) by (nonlinear_arith)
            requires acc == old_acc * base;
        assert(pow(base as int, (i + 1) as nat) == base * pow(base as int, i as nat)) by {
            reveal(pow);
        }
        i = i + 1;
        if acc > bound as u128 {
            proof {
                if base > 0 {
                    lemma_pow_increases(base as nat, i as nat, exponent as nat);
                    assert(acc as int == pow(base as int, i as nat));
                    assert(pow(base as int, i as nat) <= pow(base as int, exponent as nat));
                }
            }
            return false;
        }
    }
    proof {
        if exponent == 0 {
            reveal(pow);
        }
    }
    exponent > 0 || bound >= 1
}

/// The integer `k`-th root of `m`: the largest `r` with `r^k <= m`.
pub fn integer_root(m: u64, k: u64) -> (r: u64)
    requires
        k >= 1,
    ensures
        pow(r as int, k as nat) <= m,
        m < pow(r + 1, k as nat),
{
    let mut lo: u64 = 0;
    let mut hi: u128 = m as u128 + 1;
    proof {
        reveal(pow);
        lemma_pow_base_mono(0, 0, k as nat);
        assert(pow(0, k as nat) == 0) by {
            assert(pow(0, k as nat) == 0 * pow(0, (k - 1) as nat));
        }
        lemma_pow1(hi as int);
        lemma_pow_increases(hi as nat, 1, k as nat);
    }
    while hi - lo as u128 > 1
        invariant
            lo < hi <= m + 1,
            pow(lo as int, k as nat) <= m,
            m < pow(hi as int, k as nat),
        decreases hi - lo,
    {
        let mid = (lo as u128 + (hi - lo as u128) / 2) as u64;
        if pow_at_most(mid, k, m) {
            lo = mid;
        } else {
            hi = mid as u128;
        }
    }
    lo
}

/// The largest value the term at `term_index` (of `num_terms`) may take
/// after the terms before it multiplied to `previous_product`: the
/// `r`-th root of `max_value / previous_product`, `r` the number of terms
/// from `term_index` on.
pub fn max_value_for_term(term_index: usize, num_terms: usize, previous_product: u64, max_value: u64) -> (r: u64)
    requires
        term_index < num_terms,
        previous_product >= 1,
    ensures
        pow(r as int, (num_terms - term_index) as nat) <= max_value / previous_product,
        max_value / previous_product < pow(r + 1, (num_terms - term_index) as nat),
{
    let remaining_multiple = max_value / previous_product;
    let remaining_terms = num_terms - term_index;
    integer_root(remaining_multiple, remaining_terms as u64)
}

/// The first index whose `c` is above `v`, in a column sorted ascending.
fn partition_point_le(c_values: &Vec<u64>, v: u64) -> (r: usize)
    requires
        forall|i: int, j: int| 0 <= i < j < c_values@.len() ==> c_values@[i] <= c_values@[j],
    ensures
        r <= c_values@.len(),
        forall|j: int| 0 <= j < r ==> c_values@[j] <= v,
        forall|j: int| r <= j < c_values@.len() ==> c_values@[j] > v,
{
    let mut lo: usize = 0;
    let mut hi: usize = c_values.len();
    while lo < hi
        invariant
            lo <= hi <= c_values@.len(),
            forall|i: int, j: int| 0 <= i < j < c_values@.len() ==> c_values@[i] <= c_values@[j],
            forall|j: int| 0 <= j < lo ==> c_values@[j] <= v,
            forall|j: int| hi <= j < c_values@.len() ==> c_values@[j] > v,
        decreases hi - lo,
    {
        let mid = lo + (hi - lo) / 2;
        if c_values[mid] <= v {
            lo = mid + 1;
        } else {
            hi = mid;
        }
    }
    lo
}

/// The first index below `end` whose `c` is at least `v`, in a column
/// sorted ascending.
fn partition_point_lt(c_values: &Vec<u64>, end: usize, v: u64) -> (r: usize)
    requires
        end <= c_values@.len(),
        forall|i: int, j: int| 0 <= i < j < c_values@.len() ==> c_values@[i] <= c_values@[j],
    ensures
        r <= end,
        forall|j: int| 0 <= j < r ==> c_values@[j] < v,
        forall|j: int| r <= j < end ==> c_values@[j] >= v,
{
    let mut lo: usize = 0;
    let mut hi: usize = end;
    while lo < hi
        invariant
            lo <= hi <= end <= c_values@.len(),
            forall|i: int, j: int| 0 <= i < j < c_values@.len() ==> c_values@[i] <= c_values@[j],
            forall|j: int| 0 <= j < lo ==> c_values@[j] < v,
            forall|j: int| hi <= j < end ==> c_values@[j] >= v,
        decreases hi - lo,
    {
        let mid = lo + (hi - lo) / 2;
        if c_values[mid] < v {
            lo = mid + 1;
        } else {
            hi = mid;
        }
    }
    lo
}

/// Every row is a Pythagorean triple whose hypotenuse is positive and
/// divides `product`.
pub open spec fn rows_divide(rows: Seq<Triple>, product: int) -> bool {
    forall|k: int|
        0 <= k < rows.len() ==> {
            &&& is_pythagorean(#[trigger] rows[k])
            &&& rows[k].2 >= 1
            &&& product % (rows[k].2 as int) == 0
        }
}

/// What `update_triples_powerset` builds from `previous` and `triple`: the
/// triple, then `previous`, then the combinations of `previous` with it.
pub open spec fn is_powerset_step(rows: Seq<Triple>, previous: Seq<Triple>, triple: Triple) -> bool {
    &&& rows.len() == 1 + 3 * previous.len()
    &&& rows[0] == triple
    &&& rows.subrange(1, 1 + previous.len() as int) == previous
    &&& forall|i: int|
        0 <= i < previous.len() ==> {
            &&& rows[1 + previous.len() + first_slot(i, previous.len() as int)] == product_first(#[trigger] previous[i], triple)
            &&& rows[1 + previous.len() + second_slot(i, previous.len() as int)] == product_second(previous[i], triple)
        }
}

/// Rebuilds `current_powerset` as `current_triple`, then the previous
/// powerset and its combinations with `current_triple`.
pub fn update_triples_powerset(
    current_powerset: &mut PythagoreanTriples,
    current_triple: Triple,
    previous_powerset: Option<&PythagoreanTriples>,
)
    requires
        previous_powerset is Some ==> {
            let p = previous_powerset->Some_0;
            &&& p.wf()
            &&& 1 + 3 * p@.len() <= usize::MAX
            &&& forall|i: int| 0 <= i < p@.len() ==> crate::pythagorean_triples::product_fits(#[trigger] p@[i], current_triple)
        },
    ensures
        final(current_powerset).wf(),
        previous_powerset is None ==> final(current_powerset)@ == seq![current_triple],
        previous_powerset is Some ==> is_powerset_step(final(current_powerset)@, previous_powerset->Some_0@, current_triple),
{
    current_powerset.clear();
    current_powerset.push(current_triple);
    assert(current_powerset@ =~= seq![current_triple]);
    match previous_powerset {
        Some(previous) => {
            current_powerset.extend(previous);
            let ghost before = current_powerset@;
            previous.product(current_triple, current_powerset);
            assert(current_powerset@.subrange(1, 1 + previous@.len() as int) =~= previous@) by {
                assert(before.subrange(1, 1 + previous@.len() as int) =~= previous@);
                assert(current_powerset@.subrange(0, before.len() as int) == before);
            }
            assert(current_powerset@[0] == before[0]);
            assert(before.len() == 1 + previous@.len());
        },
        None => {},
    }
}

proof fn lemma_divides_product(p: int, d: int, c: int)
    requires
        p % d == 0,
        d >= 1,
        c >= 1,
    ensures
        (p * c) % d == 0,
        (p * c) % (d * c) == 0,
{
    lemma_fundamental_div_mod(p, d);
    let k = p / d;
    assert(p * c == (k * c) * d) by (nonlinear_arith)
        requires p == d * k;
    assert(p * c == k * (d * c)) by (nonlinear_arith)
        requires p == d * k;
    assert(d * c > 0) by (nonlinear_arith)
        requires d >= 1, c >= 1;
    lemma_mod_multiples_basic(k * c, d);
    lemma_mod_multiples_basic(k, d * c);
}

/// The rows of a powerset step for `triple` (hypotenuse `c`) over rows that
/// divide `p` are rows that divide `p * c`.
proof fn lemma_powerset_step_divides(rows: Seq<Triple>, previous: Seq<Triple>, triple: Triple, p: int)
    requires
        is_powerset_step(rows, previous, triple),
        rows_divide(previous, p),
        p >= 1,
        is_pythagorean(triple),
        triple.2 >= 1,
        p * triple.2 <= u64::MAX,
    ensures
        rows_divide(rows, p * triple.2),
        forall|i: int| 0 <= i < previous.len() ==> crate::pythagorean_triples::product_fits(#[trigger] previous[i], triple),
{
    let c = triple.2 as int;
    let n = previous.len();
    assert forall|i: int| 0 <= i < n implies crate::pythagorean_triples::product_fits(#[trigger] previous[i], triple) by {
        let d = previous[i].2 as int;
        lemma_fundamental_div_mod(p, d);
        assert(d <= p) by (nonlinear_arith)
            requires p == d * (p / d), d >= 1, p >= 1;
        assert(d * c <= p * c) by (nonlinear_arith)
            requires d <= p, c >= 1;
        lemma_product_fits(previous[i], triple);
    }
    lemma_product_rows(rows.subrange(0, 1 + n as int), rows, previous, triple);
    assert forall|k: int| 0 <= k < rows.len() implies {
        &&& is_pythagorean(#[trigger] rows[k])
        &&& rows[k].2 >= 1
        &&& (p * c) % (rows[k].2 as int) == 0
    } by {
        if k == 0 {
            lemma_mod_multiples_basic(p, c);
        } else if k < 1 + n {
            assert(rows[k] == previous[k - 1]);
            lemma_divides_product(p, previous[k - 1].2 as int, c);
        } else {
            let i = choose|i: int| 0 <= i < n && rows[k].2 == #[trigger] previous[i].2 * triple.2;
            lemma_divides_product(p, previous[i].2 as int, c);
            assert(previous[i].2 * c >= 1) by (nonlinear_arith)
                requires previous[i].2 >= 1, c >= 1;
        }
    }
}

/// Upper bound of the number of prime factors of a composite (the largest
/// `k` with `5^k` within 64 bits).
pub const MAX_FACTORS: usize = 27;

/// Upper bound of the search window, so that twice a composite fits in 64 bits.
pub const SEARCH_END_LIMIT: u64 = 0x8000_0000_0000_0000;

/// Largest powerset a term may hold, so that one more step still fits.
pub const POWERSET_LIMIT: usize = (usize::MAX - 1) / 3;

/// The length bound of a powerset after `m` steps from one of length `b`.
pub open spec fn grown(b: int, m: nat) -> int
    decreases m,
{
    if m == 0 {
        b
    } else {
        1 + 3 * grown(b, (m - 1) as nat)
    }
}

proof fn lemma_grown_mono(b: int, m1: nat, m2: nat)
    requires
        b >= 0,
        m1 <= m2,
    ensures
        b <= grown(b, m1) <= grown(b, m2),
    decreases m2,
{
    if m2 > m1 {
        lemma_grown_mono(b, m1, (m2 - 1) as nat);
    } else if m1 > 0 {
        lemma_grown_mono(b, (m1 - 1) as nat, (m1 - 1) as nat);
    }
}

proof fn lemma_grown_base_mono(b1: int, b2: int, m: nat)
    requires
        0 <= b1 <= b2,
    ensures
        grown(b1, m) <= grown(b2, m),
    decreases m,
{
    if m > 0 {
        lemma_grown_base_mono(b1, b2, (m - 1) as nat);
    }
}

proof fn lemma_grown_add(b: int, m1: nat, m2: nat)
    ensures
        grown(grown(b, m1), m2) == grown(b, m1 + m2),
    decreases m2,
{
    if m2 > 0 {
        lemma_grown_add(b, m1, (m2 - 1) as nat);
        assert((m1 + m2 - 1) as nat == (m1 + (m2 - 1)) as nat);
    }
}

/// Whether a powerset of length `b` stays within `POWERSET_LIMIT` for `m`
/// more steps.
fn growth_fits(b: usize, m: usize) -> (r: bool)
    ensures
        r == (grown(b as int, m as nat) <= POWERSET_LIMIT),
{
    let mut bound = b;
    let mut k: usize = 0;
    proof {
        lemma_grown_mono(b as int, 0, m as nat);
    }
    if b > POWERSET_LIMIT {
        return false;
    }
    while k < m
        invariant
            k <= m,
            bound == grown(b as int, k as nat),
            bound <= POWERSET_LIMIT,
        decreases m - k,
    {
        bound = 1 + 3 * bound;
        k = k + 1;
        if bound > POWERSET_LIMIT {
            proof {
                lemma_grown_mono(b as int, k as nat, m as nat);
                lemma_grown_mono(b as int, 0, k as nat);
            }
            return false;
        }
    }
    true
}

/// One fixed prime factor of the composite being built.
pub struct NonFinalTerm {
    pub current_triple: Triple,
    pub cumulative_product: u64,
    pub triples_powerset: PythagoreanTriples,
    pub next_index: usize,
    pub end_index: usize,
}

impl NonFinalTerm {
    /// Not yet placed: factor 1, empty powerset, walking the whole table.
    pub open spec fn is_reset(&self, num_triples: usize) -> bool {
        &&& self.current_triple == (0u64, 0u64, 1u64, 0u32)
        &&& self.cumulative_product == 1
        &&& self.triples_powerset.wf()
        &&& self.triples_powerset@.len() == 0
        &&& self.next_index == 0
        &&& self.end_index == num_triples
    }

    pub fn new(num_triples: usize) -> (r: Self)
        ensures
            r.is_reset(num_triples),
    {
        NonFinalTerm {
            current_triple: (0, 0, 1, 0),
            cumulative_product: 1,
            triples_powerset: PythagoreanTriples::with_capacity(0),
            next_index: 0,
            end_index: num_triples,
        }
    }

    pub fn reset(&mut self, num_triples: usize)
        ensures
            final(self).is_reset(num_triples),
    {
        self.current_triple = (0, 0, 1, 0);
        self.cumulative_product = 1;
        self.triples_powerset.clear();
        self.next_index = 0;
        self.end_index = num_triples;
    }
}

/// The prime a term stands for: 1 before it is placed, else the hypotenuse
/// of the table row before its `next_index`.
pub open spec fn factor_of(table: Seq<Triple>, t: NonFinalTerm) -> int {
    if t.next_index == 0 {
        1
    } else {
        table[t.next_index - 1].2 as int
    }
}

/// The product of the terms before term `i`.
pub open spec fn prev_product(terms: Seq<NonFinalTerm>, i: int) -> int {
    if i == 0 {
        1
    } else {
        terms[i - 1].cumulative_product as int
    }
}

/// Strictly increasing by `(c, a)`.
pub open spec fn powerset_sorted(rows: Seq<Triple>) -> bool {
    forall|x: int, y: int| 0 <= x < y < rows.len() ==> key_lt(c_a_key(rows[x]), c_a_key(rows[y]))
}

/// Term `i` is consistent with the table and the terms before it, for the
/// window upper bound `hi`.
pub open spec fn term_ok(terms: Seq<NonFinalTerm>, i: int, table: Seq<Triple>, hi: int) -> bool {
    let t = terms[i];
    &&& t.next_index <= table.len()
    &&& t.end_index <= table.len()
    &&& t.next_index == 0 ==> t.current_triple == (0u64, 0u64, 1u64, 0u32)
    &&& t.next_index > 0 ==> {
        &&& t.current_triple.0 == table[t.next_index - 1].0
        &&& t.current_triple.1 == table[t.next_index - 1].1
        &&& t.current_triple.2 == table[t.next_index - 1].2
    }
    &&& t.current_triple.3 <= i + 1
    &&& t.cumulative_product >= 1
    &&& t.cumulative_product == prev_product(terms, i) * factor_of(table, t)
    &&& prev_product(terms, i) == 1 || forall|j: int|
        0 <= j < t.end_index ==> prev_product(terms, i) * #[trigger] table[j].2 <= hi - 1
    &&& t.triples_powerset.wf()
    &&& t.triples_powerset@.len() <= POWERSET_LIMIT
    &&& t.triples_powerset@.len() <= grown(0, (i + 1) as nat)
    &&& rows_divide(t.triples_powerset@, t.cumulative_product as int)
    &&& powerset_sorted(t.triples_powerset@)
    &&& t.next_index > 0 ==> {
        let prev_c = if i == 0 { 1u64 } else { terms[i - 1].current_triple.2 };
        let prev_f = if i == 0 { 0u32 } else { terms[i - 1].current_triple.3 };
        &&& t.current_triple.3 == (if t.current_triple.2 == prev_c { prev_f } else { (prev_f + 1) as u32 })
        &&& exists|k: int| 0 <= k < t.triples_powerset@.len() && #[trigger] c_a_key(t.triples_powerset@[k]) == c_a_key(t.current_triple)
        &&& t.triples_powerset@.contains(t.current_triple)
    }
}

/// Walks the composites `c = p1·p2·…·pK` of primes of the table, in
/// lexicographic order of non-decreasing factors, within a search window.
pub struct CompositeNumber {
    pub min_factors: usize,
    pub max_factors: usize,
    pub non_final_terms: Vec<NonFinalTerm>,
    pub final_term_start_index: usize,
    pub final_term_end_index: usize,
    pub search_range: Range<u64>,
    pub pythagorean_triples: PythagoreanTriples,
    pub temporary_buffer: TemporaryBuffer,
}

impl CompositeNumber {
    pub open spec fn table(&self) -> Seq<Triple> {
        self.pythagorean_triples@
    }

    pub open spec fn terms(&self) -> Seq<NonFinalTerm> {
        self.non_final_terms@
    }

    /// The product of all non-final terms.
    pub open spec fn prefix_product(&self) -> int {
        self.terms()[self.terms().len() - 1].cumulative_product as int
    }

    /// Every final prime in `[final_term_start_index, final_term_end_index)`
    /// completes the prefix to a composite in the window, and is no smaller
    /// than the last non-final factor.
    pub open spec fn final_ok(&self) -> bool {
        let last = self.terms()[self.terms().len() - 1];
        &&& self.final_term_start_index <= self.final_term_end_index <= self.table().len()
        &&& forall|j: int|
            self.final_term_start_index <= j < self.final_term_end_index ==> {
                &&& self.search_range.start <= self.prefix_product() * #[trigger] self.table()[j].2
                &&& self.prefix_product() * self.table()[j].2 <= self.search_range.end - 1
                &&& factor_of(self.table(), last) <= self.table()[j].2
            }
    }

    pub open spec fn wf(&self) -> bool {
        &&& 2 <= self.min_factors <= self.max_factors <= MAX_FACTORS
        &&& self.terms().len() == self.max_factors - 1
        &&& 1 <= self.search_range.end <= SEARCH_END_LIMIT
        &&& self.pythagorean_triples.wf()
        &&& is_prime_table(self.table())
        &&& forall|i: int| 0 <= i < self.terms().len() ==> term_ok(self.terms(), i, self.table(), self.search_range.end as int)
        &&& forall|i: int, j: int| 0 <= i < j < self.terms().len() ==> self.terms()[i].next_index <= self.terms()[j].next_index
        &&& self.final_ok()
    }
}

/// Term `t` has a next prime before its end index, and the remaining
/// `K - 1 - t` factors placed on it keep the product within the window.
pub open spec fn can_place(cn: CompositeNumber, t: int) -> bool {
    let terms = cn.terms();
    let len = terms.len() as int;
    let term = terms[t];
    let c = cn.table()[term.next_index as int].2 as int;
    let prev = prev_product(terms, t);
    &&& 0 <= t < len
    &&& term.next_index < term.end_index
    &&& pow(c, (len - t) as nat) <= (cn.search_range.end - 1) / (prev * c)
}

/// On a 64-bit target the powerset bound of `can_advance` always holds:
/// powersets of term `i` have at most `grown(0, i + 1)` rows.
pub proof fn lemma_growth_guard(cn: CompositeNumber, t: int)
    requires
        cn.wf(),
        0 <= t < cn.terms().len(),
        usize::MAX == u64::MAX,
    ensures
        can_advance(cn, t) == can_place(cn, t),
{
    let terms = cn.terms();
    let len = terms.len() as int;
    let prev_len = if t == 0 { 0 } else { terms[t - 1].triples_powerset@.len() as int };
    if t > 0 {
        assert(term_ok(terms, t - 1, cn.table(), cn.search_range.end as int));
    }
    lemma_grown_mono(0, 0, t as nat);
    assert(prev_len <= grown(0, t as nat));
    lemma_grown_base_mono(prev_len, grown(0, t as nat), (len - t) as nat);
    lemma_grown_add(0, t as nat, (len - t) as nat);
    assert((t + (len - t)) as nat == len as nat);
    lemma_grown_mono(0, len as nat, 26);
    lemma_grown_26();
}

proof fn lemma_grown_26()
    ensures
        grown(0, 26) == 1270932914164,
{
    reveal_with_fuel(grown, 27);
}

/// Term `t` can move to the next prime of the table: there is one before
/// its end index, the remaining `K - 1 - t` factors placed on it keep the
/// product within the window, and the powersets they need stay within
/// `POWERSET_LIMIT`.
pub open spec fn can_advance(cn: CompositeNumber, t: int) -> bool {
    let terms = cn.terms();
    let len = terms.len() as int;
    let term = terms[t];
    let c = cn.table()[term.next_index as int].2 as int;
    let prev = prev_product(terms, t);
    let prev_len = if t == 0 { 0 } else { terms[t - 1].triples_powerset@.len() as int };
    &&& 0 <= t < len
    &&& term.next_index < term.end_index
    &&& pow(c, (len - t) as nat) <= (cn.search_range.end - 1) / (prev * c)
    &&& grown(prev_len, (len - t) as nat) <= POWERSET_LIMIT
}

/// The final interval holds exactly the primes of the table, no smaller than
/// the last non-final factor, that complete the prefix to a composite of
/// the window.
pub open spec fn final_exact(cn: CompositeNumber) -> bool {
    let last = cn.terms()[cn.terms().len() - 1];
    forall|j: int|
        0 <= j < cn.table().len() ==> ((cn.final_term_start_index <= j < cn.final_term_end_index) <==> (
        #[trigger] cn.table()[j].2 >= factor_of(cn.table(), last) && cn.search_range.start <= cn.prefix_product()
            * cn.table()[j].2 <= cn.search_range.end - 1))
}

proof fn lemma_floor_div(h: int, p: int, x: int)
    requires
        p > 0,
        h >= 0,
    ensures
        x <= h / p <==> p * x <= h,
{
    lemma_fundamental_div_mod(h, p);
    let q = h / p;
    assert(x <= q ==> p * x <= h) by (nonlinear_arith)
        requires h == p * q + h % p, 0 <= h % p < p, p > 0;
    assert(x > q ==> p * x > h) by (nonlinear_arith)
        requires h == p * q + h % p, 0 <= h % p < p, p > 0;
}

proof fn lemma_ceil_div(lo: int, p: int, q: int, x: int)
    requires
        p > 0,
        lo >= 0,
        q == lo / p + (if lo % p != 0 { 1int } else { 0int }),
    ensures
        x >= q <==> p * x >= lo,
{
    lemma_fundamental_div_mod(lo, p);
    let d = lo / p;
    let r = lo % p;
    assert(x >= q ==> p * x >= lo) by (nonlinear_arith)
        requires lo == p * d + r, 0 <= r < p, q == d + (if r != 0 { 1int } else { 0int });
    assert(x < q ==> p * x < lo) by (nonlinear_arith)
        requires lo == p * d + r, 0 <= r < p, q == d + (if r != 0 { 1int } else { 0int }), p > 0;
}

impl CompositeNumber {
    /// The powerset of term `term_index` placed on `triple`: the triple, the
    /// previous term's powerset and their combinations, sorted and deduped
    /// by `(c, a)`.
    fn powerset_for(&mut self, term_index: usize, triple: Triple) -> (r: PythagoreanTriples)
        requires
            term_index <= old(self).terms().len(),
            is_pythagorean(triple),
            triple.2 >= 1,
            prev_product(old(self).terms(), term_index as int) >= 1,
            prev_product(old(self).terms(), term_index as int) * triple.2 <= u64::MAX,
            term_index > 0 ==> {
                let ps = old(self).terms()[term_index - 1].triples_powerset;
                &&& ps.wf()
                &&& rows_divide(ps@, prev_product(old(self).terms(), term_index as int))
                &&& ps@.len() <= POWERSET_LIMIT
            },
        ensures
            r.wf(),
            rows_divide(r@, prev_product(old(self).terms(), term_index as int) * triple.2),
            powerset_sorted(r@),
            exists|k: int| 0 <= k < r@.len() && #[trigger] c_a_key(r@[k]) == c_a_key(triple),
            r@.contains(triple),
            term_index == 0 ==> r@.len() == 1,
            term_index > 0 ==> r@.len() <= 1 + 3 * old(self).terms()[term_index - 1].triples_powerset@.len(),
            final(self).non_final_terms == old(self).non_final_terms,
            final(self).pythagorean_triples == old(self).pythagorean_triples,
            final(self).search_range == old(self).search_range,
            final(self).min_factors == old(self).min_factors,
            final(self).max_factors == old(self).max_factors,
            final(self).final_term_start_index == old(self).final_term_start_index,
            final(self).final_term_end_index == old(self).final_term_end_index,
    {
        let ghost p = prev_product(self.terms(), term_index as int);
        let mut powerset = PythagoreanTriples::with_capacity(0);
        if term_index == 0 {
            update_triples_powerset(&mut powerset, triple, None);
            proof {
                lemma_mod_multiples_basic(1, triple.2 as int);
                assert(powerset@[0] == triple);
            }
        } else {
            let previous = &self.non_final_terms[term_index - 1].triples_powerset;
            proof {
                lemma_powerset_step_divides_fits(previous@, triple, p);
            }
            update_triples_powerset(&mut powerset, triple, Some(previous));
            proof {
                lemma_powerset_step_divides(powerset@, previous@, triple, p);
            }
        }
        let ghost before = powerset@;
        powerset.sort_and_dedup_by_c_and_a(&mut self.temporary_buffer);
        proof {
            assert forall|k: int| 0 <= k < powerset@.len() implies {
                &&& is_pythagorean(#[trigger] powerset@[k])
                &&& powerset@[k].2 >= 1
                &&& (p * triple.2) % (powerset@[k].2 as int) == 0
            } by {
                assert(before.contains(powerset@[k]));
            }
            assert(before[0] == triple);
            assert(c_a_key(before[0]) == c_a_key(triple));
            let i = choose|i: int| 0 <= i < powerset@.len() && #[trigger] c_a_key(powerset@[i]) == c_a_key(before[0]);
            assert(crate::pythagorean_triples::first_with_key(before, |t: Triple| c_a_key(t), powerset@[i]));
            let j = choose|j: int|
                0 <= j < before.len() && #[trigger] before[j] == powerset@[i] && forall|j2: int|
                    0 <= j2 < j ==> c_a_key(#[trigger] before[j2]) != c_a_key(powerset@[i]);
            if j > 0 {
                assert(c_a_key(before[0]) != c_a_key(powerset@[i]));
            }
            assert(powerset@[i] == triple);
        }
        powerset
    }
}

impl CompositeNumber {
    /// Advances the term at `term_index` to the next prime of the table and
    /// puts every term after it on the same prime; rebuilds their powersets
    /// and the interval of final primes. Returns `false`, changing nothing,
    /// when the term has no next prime within the window.
    pub fn next_non_final_term(&mut self, term_index: usize) -> (r: bool)
        requires
            old(self).wf(),
            term_index < old(self).terms().len(),
        ensures
            final(self).wf(),
            final(self).pythagorean_triples == old(self).pythagorean_triples,
            final(self).search_range == old(self).search_range,
            final(self).min_factors == old(self).min_factors,
            final(self).max_factors == old(self).max_factors,
            final(self).terms().len() == old(self).terms().len(),
            r == can_advance(*old(self), term_index as int),
            usize::MAX == u64::MAX ==> r == can_place(*old(self), term_index as int),
            r ==> forall|k: int| term_index <= k < final(self).terms().len() ==> #[trigger] final(self).terms()[k].next_index
                == old(self).terms()[term_index as int].next_index + 1,
            r ==> forall|k: int| 0 <= k < term_index ==> #[trigger] final(self).terms()[k] == old(self).terms()[k],
            r ==> final_exact(*final(self)),
            !r ==> *final(self) == *old(self),
    {
        let ghost old_terms = self.terms();
        let ghost tab = self.table();
        let ghost hi = self.search_range.end as int;
        proof {
            if usize::MAX == u64::MAX {
                lemma_growth_guard(*self, term_index as int);
            }
        }
        let num_terms = self.non_final_terms.len() + 1;
        let last_index = self.non_final_terms.len() - 1;
        let max_value = self.search_range.end - 1;
        proof {
            lemma_table_sorted(&self.pythagorean_triples);
            assert(term_ok(old_terms, term_index as int, tab, hi));
            if term_index > 0 {
                assert(term_ok(old_terms, term_index - 1, tab, hi));
            }
        }
        let (previous_product, previous_c, previous_f, previous_len) = if term_index == 0 {
            (1u64, 1u64, 0u32, 0usize)
        } else {
            let t = &self.non_final_terms[term_index - 1];
            (t.cumulative_product, t.current_triple.2, t.current_triple.3, t.triples_powerset.len())
        };
        let next_index = self.non_final_terms[term_index].next_index;
        let end_index = self.non_final_terms[term_index].end_index;
        if next_index >= end_index {
            return false;
        }
        let c = self.pythagorean_triples.c_values[next_index];
        proof {
            assert(tab[next_index as int].2 == c);
            assert(c >= 5);
            assert(previous_product as int == prev_product(old_terms, term_index as int));
            assert(previous_product >= 1);
            assert(previous_product == 1 || previous_product * tab[next_index as int].2 <= hi - 1);
            assert(previous_product * c <= u64::MAX && previous_product * c >= 5) by (nonlinear_arith)
                requires previous_product == 1 || previous_product * c <= hi - 1, c <= u64::MAX, hi <= SEARCH_END_LIMIT,
                    previous_product >= 1, c >= 5;
        }
        let mut product = previous_product * c;
        let mut next_max = max_value_for_term(term_index + 1, num_terms, product, max_value);
        proof {
            let k = (num_terms - 1 - term_index) as nat;
            assert(previous_len as int == (if term_index == 0 { 0 } else { old_terms[term_index - 1].triples_powerset@.len() as int }));
            if next_max < c {
                lemma_pow_base_mono(next_max + 1, c as int, k);
            } else {
                lemma_pow_base_mono(c as int, next_max as int, k);
            }
        }
        if next_max < c {
            return false;
        }
        if !growth_fits(previous_len, num_terms - 1 - term_index) {
            return false;
        }
        let ghost b = previous_len as int;
        let ghost p_t = product as int;
        let ghost span = (num_terms - 1 - term_index) as nat;
        proof {
            lemma_below_root(c as int, next_max as int, span, product as int, max_value as int);
        }
        let a = self.pythagorean_triples.a_values[next_index];
        let b_value = self.pythagorean_triples.b_values[next_index];
        let f = if c == previous_c {
            previous_f
        } else {
            previous_f + 1
        };
        let triple = (a, b_value, c, f);
        proof {
            assert(tab[next_index as int] == (a, b_value, c, 0u32));
            assert(is_pythagorean(tab[next_index as int]));
        }
        let powerset = self.powerset_for(term_index, triple);
        let new_next = next_index + 1;
        self.non_final_terms[term_index] = NonFinalTerm {
            current_triple: triple,
            cumulative_product: product,
            triples_powerset: powerset,
            next_index: new_next,
            end_index,
        };
        proof {
            let terms = self.terms();
            lemma_grown_mono(b, 1, span);
            assert(grown(b, 1) == 1 + 3 * grown(b, 0));
            if term_index > 0 {
                assert(b <= grown(0, term_index as nat));
            }
            assert(grown(0, (term_index + 1) as nat) == 1 + 3 * grown(0, term_index as nat));
            lemma_grown_mono(0, 0, term_index as nat);
            assert(terms[term_index as int].triples_powerset@.len() <= grown(b, 1));
            assert forall|k: int| 0 <= k < term_index implies #[trigger] terms[k] == old_terms[k] by {}
            assert forall|k: int| 0 <= k <= term_index implies term_ok(terms, k, tab, hi) by {
                if k < term_index {
                    assert(term_ok(old_terms, k, tab, hi));
                    if k > 0 {
                        assert(terms[k - 1] == old_terms[k - 1]);
                    }
                } else {
                    if k > 0 {
                        assert(terms[k - 1] == old_terms[k - 1]);
                    }
                    assert(factor_of(tab, terms[k]) == c);
                }
            }
            lemma_grown_mono(b, 1, span);
            vstd::arithmetic::power::lemma_pow0(c as int);
            assert(pow(c as int, 0) == 1);
            assert(product == p_t * pow(c as int, 0)) by (nonlinear_arith)
                requires product == p_t, pow(c as int, 0) == 1;
            assert(((term_index + 1) - 1 - term_index) as nat == 0);
        }
        let mut i = term_index + 1;
        while i < num_terms - 1
            invariant
                term_index < i <= num_terms - 1,
                num_terms - 1 == self.terms().len(),
                self.terms().len() == old_terms.len(),
                self.pythagorean_triples == old(self).pythagorean_triples,
                self.search_range == old(self).search_range,
                self.min_factors == old(self).min_factors,
                self.max_factors == old(self).max_factors,
                tab == self.table(),
                hi == self.search_range.end,
                max_value == hi - 1,
                1 <= hi <= SEARCH_END_LIMIT,
                self.pythagorean_triples.wf(),
                is_prime_table(tab),
                forall|x: int, y: int| 0 <= x < y < self.pythagorean_triples.c_values@.len() ==> self.pythagorean_triples.c_values@[x] <= self.pythagorean_triples.c_values@[y],
                forall|x: int| 0 <= x < self.pythagorean_triples.c_values@.len() ==> #[trigger] self.pythagorean_triples.c_values@[x] >= 5,
                c >= 5,
                new_next == next_index + 1,
                next_index < tab.len(),
                tab[next_index as int].2 == c,
                triple == (tab[next_index as int].0, tab[next_index as int].1, c, f),
                f <= term_index + 1,
                is_pythagorean(triple),
                forall|k: int| 0 <= k < term_index ==> #[trigger] self.terms()[k] == old_terms[k],
                forall|k: int| 0 <= k < i ==> term_ok(self.terms(), k, tab, hi),
                forall|k: int| term_index <= k < i ==> #[trigger] self.terms()[k].next_index == new_next,
                forall|k: int| term_index <= k < i ==> #[trigger] self.terms()[k].current_triple == triple,
                product == self.terms()[i - 1].cumulative_product,
                p_t == self.terms()[term_index as int].cumulative_product,
                p_t >= 1,
                product >= 5,
                product == p_t * pow(c as int, (i - 1 - term_index) as nat),
                p_t * pow(c as int, span) <= max_value,
                span == num_terms - 1 - term_index,
                pow(next_max as int, (num_terms - i) as nat) <= max_value / product,
                max_value / product < pow(next_max + 1, (num_terms - i) as nat),
                self.terms()[i - 1].triples_powerset@.len() <= grown(b, (i - term_index) as nat),
                grown(b, span) <= POWERSET_LIMIT,
                b >= 0,
            decreases num_terms - 1 - i,
        {
            let ghost before_terms = self.terms();
            proof {
                assert(term_ok(before_terms, i - 1, tab, hi));
                assert(product >= 1);
                let e = (i - 1 - term_index) as nat;
                lemma_pow_increases(c as nat, (e + 1) as nat, span);
                assert(pow(c as int, (e + 1) as nat) == c * pow(c as int, e)) by {
                    reveal(pow);
                }
                assert(product * c == p_t * pow(c as int, (e + 1) as nat)) by (nonlinear_arith)
                    requires product == p_t * pow(c as int, e), pow(c as int, (e + 1) as nat) == c * pow(c as int, e);
                assert(p_t * pow(c as int, (e + 1) as nat) <= p_t * pow(c as int, span)) by (nonlinear_arith)
                    requires pow(c as int, (e + 1) as nat) <= pow(c as int, span), p_t >= 1;
                lemma_grown_mono(b, (i - term_index) as nat, span);
                lemma_grown_mono(b, (i - term_index + 1) as nat, span);
            }
            let ghost prev_p = product as int;
            assert(prev_p * c >= 5) by (nonlinear_arith)
                requires prev_p >= 1, c >= 5;
            product = product * c;
            let powerset = self.powerset_for(i, triple);
            let end = partition_point_le(&self.pythagorean_triples.c_values, next_max);
            proof {
                assert forall|j: int| 0 <= j < end implies prev_p * #[trigger] tab[j].2 <= hi - 1 by {
                    assert(self.pythagorean_triples.c_values@[j] == tab[j].2);
                    lemma_below_root(tab[j].2 as int, next_max as int, (num_terms - i) as nat, prev_p, max_value as int);
                }
            }
            self.non_final_terms[i] = NonFinalTerm {
                current_triple: triple,
                cumulative_product: product,
                triples_powerset: powerset,
                next_index: new_next,
                end_index: end,
            };
            proof {
                let terms = self.terms();
                assert forall|k: int| 0 <= k < i implies #[trigger] terms[k] == before_terms[k] by {}
                assert forall|k: int| 0 <= k <= i implies term_ok(terms, k, tab, hi) by {
                    if k < i {
                        assert(term_ok(before_terms, k, tab, hi));
                        if k > 0 {
                            assert(terms[k - 1] == before_terms[k - 1]);
                        }
                    } else {
                        assert(terms[k - 1] == before_terms[k - 1]);
                        assert(terms[k - 1].current_triple == triple);
                        assert(factor_of(tab, terms[k]) == c);
                    }
                }
            }
            next_max = max_value_for_term(i + 1, num_terms, product, max_value);
            i = i + 1;
        }
        proof {
            assert(term_ok(self.terms(), num_terms - 2, tab, hi));
        }
        assert(self.search_range.start / product < u64::MAX) by (nonlinear_arith)
            requires product >= 5, self.search_range.start <= u64::MAX;
        let next_min_quotient = self.search_range.start / product + if self.search_range.start % product != 0 {
            1
        } else {
            0
        };
        let next_min = if c > next_min_quotient {
            c
        } else {
            next_min_quotient
        };
        let final_end = partition_point_le(&self.pythagorean_triples.c_values, next_max);
        let final_start = partition_point_lt(&self.pythagorean_triples.c_values, final_end, next_min);
        self.final_term_end_index = final_end;
        self.final_term_start_index = final_start;
        proof {
            let terms = self.terms();
            let lo = self.search_range.start as int;
            let q = next_min_quotient as int;
            let pr = product as int;
            lemma_fundamental_div_mod(lo, pr);
            assert(q * pr >= lo) by (nonlinear_arith)
                requires lo == pr * (lo / pr) + lo % pr, 0 <= lo % pr < pr,
                    q == lo / pr + (if lo % pr != 0 { 1int } else { 0int });
            assert forall|j: int| final_start <= j < final_end implies {
                &&& self.search_range.start <= self.prefix_product() * #[trigger] self.table()[j].2
                &&& self.prefix_product() * self.table()[j].2 <= self.search_range.end - 1
                &&& factor_of(self.table(), terms[terms.len() - 1]) <= self.table()[j].2
            } by {
                assert(self.pythagorean_triples.c_values@[j] == tab[j].2);
                lemma_below_root(tab[j].2 as int, next_max as int, 1, product as int, max_value as int);
                assert(product * tab[j].2 >= product * q) by (nonlinear_arith)
                    requires tab[j].2 >= q, product >= 1;
                assert(terms[terms.len() - 1].next_index == new_next);
            }
            assert forall|x: int, y: int| 0 <= x < y < terms.len() implies terms[x].next_index <= terms[y].next_index by {
                if y < term_index {
                    assert(terms[x] == old_terms[x] && terms[y] == old_terms[y]);
                } else if x < term_index {
                    assert(terms[x] == old_terms[x]);
                    assert(old_terms[x].next_index <= old_terms[term_index as int].next_index);
                }
            }
            lemma_pow1(next_max as int);
            lemma_pow1(next_max + 1);
            assert(next_max == max_value / product);
            assert(self.prefix_product() == pr);
            assert(factor_of(self.table(), terms[terms.len() - 1]) == c);
            assert forall|j: int| 0 <= j < self.table().len() implies ((self.final_term_start_index <= j
                < self.final_term_end_index) <==> (#[trigger] self.table()[j].2 >= factor_of(self.table(), terms[terms.len() - 1])
                && self.search_range.start <= self.prefix_product() * self.table()[j].2 <= self.search_range.end - 1)) by {
                let x = tab[j].2 as int;
                assert(self.pythagorean_triples.c_values@[j] == tab[j].2);
                lemma_floor_div(max_value as int, pr, x);
                lemma_ceil_div(lo, pr, q, x);
            }
        }
        true
    }
}

pub assume_specification<Idx>[ RangeInclusive::<Idx>::start ](r: &RangeInclusive<Idx>) -> (s: &Idx)
    ensures
        *s == r@.start,
;

pub assume_specification<Idx>[ RangeInclusive::<Idx>::end ](r: &RangeInclusive<Idx>) -> (s: &Idx)
    ensures
        *s == r@.end,
;

/// `after` is `before` advanced by one step of the odometer: the index of
/// some term grew by one and every term before it kept its index.
pub open spec fn advanced(before: Seq<NonFinalTerm>, after: Seq<NonFinalTerm>) -> bool {
    &&& before.len() == after.len()
    &&& exists|t: int|
        0 <= t < before.len() && #[trigger] after[t].next_index == before[t].next_index + 1 && forall|k: int|
            0 <= k < t ==> after[k].next_index == before[k].next_index
}

/// The factors `(f1, ..., fK-1)` of the non-final terms.
pub open spec fn factors(table: Seq<Triple>, terms: Seq<NonFinalTerm>) -> Seq<int> {
    terms.map_values(|t: NonFinalTerm| factor_of(table, t))
}

/// `x` comes strictly before `y` in lexicographic order.
pub open spec fn lex_less(x: Seq<int>, y: Seq<int>) -> bool {
    &&& x.len() == y.len()
    &&& exists|t: int| 0 <= t < x.len() && #[trigger] x[t] < y[t] && forall|k: int| 0 <= k < t ==> x[k] == y[k]
}

/// From the reset state, term `d` can be placed on the first prime of the
/// table (see `can_advance`).
pub open spec fn first_placement_exists(table: Seq<Triple>, len: int, d: int, hi: int) -> bool {
    let c = table[0].2 as int;
    &&& table.len() > 0
    &&& pow(c, (len - d) as nat) <= (hi - 1) / c
    &&& grown(0, (len - d) as nat) <= POWERSET_LIMIT
}

proof fn lemma_reset_can_advance(cn: CompositeNumber, num_triples: usize)
    requires
        cn.wf(),
        num_triples == cn.table().len(),
        forall|q: int| 0 <= q < cn.terms().len() ==> (#[trigger] cn.terms()[q]).is_reset(num_triples),
        cn.final_term_start_index == 0,
        cn.final_term_end_index == 0,
    ensures
        can_advance(cn, (cn.max_factors - cn.min_factors) as int) == first_placement_exists(
            cn.table(),
            cn.terms().len() as int,
            (cn.max_factors - cn.min_factors) as int,
            cn.search_range.end as int,
        ),
        forall|k: int| 0 <= k < cn.terms().len() ==> #[trigger] cn.terms()[k].next_index == 0,
{
    let d = (cn.max_factors - cn.min_factors) as int;
    assert(cn.terms()[d].is_reset(num_triples));
    if d > 0 {
        assert(cn.terms()[d - 1].is_reset(num_triples));
    }
    assert forall|k: int| 0 <= k < cn.terms().len() implies #[trigger] cn.terms()[k].next_index == 0 by {
        assert(cn.terms()[k].is_reset(num_triples));
    }
}

/// The walk stands on the lexicographically first composite: the first
/// `max - min` terms hold factor 1 and the others the first prime of the
/// table, with the exact final interval; or, when no composite fits, every
/// term holds 1 and the final interval is empty.
pub open spec fn is_first_placement(cn: CompositeNumber) -> bool {
    let d = cn.max_factors - cn.min_factors;
    let len = cn.terms().len() as int;
    let adv = first_placement_exists(cn.table(), len, d, cn.search_range.end as int);
    &&& forall|k: int| 0 <= k < d ==> #[trigger] cn.terms()[k].next_index == 0
    &&& forall|k: int| d <= k < len ==> #[trigger] cn.terms()[k].next_index == (if adv { 1usize } else { 0usize })
    &&& adv ==> final_exact(cn)
    &&& !adv ==> cn.final_term_start_index == 0 && cn.final_term_end_index == 0
}

impl CompositeNumber {
    /// Starts the walk over composites with `num_factors` prime factors
    /// (at least two) in `start_range`, placed on the lexicographically
    /// first composite.
    pub fn new(num_factors: RangeInclusive<usize>, start_range: Range<u64>, pythagorean_triples: PythagoreanTriples) -> (r: Self)
        requires
            2 <= num_factors@.start <= num_factors@.end <= MAX_FACTORS,
            1 <= start_range.end <= SEARCH_END_LIMIT,
            pythagorean_triples.wf(),
            is_prime_table(pythagorean_triples@),
        ensures
            r.wf(),
            r.min_factors == num_factors@.start,
            r.max_factors == num_factors@.end,
            r.search_range == start_range,
            r.table() == pythagorean_triples@,
            is_first_placement(r),
    {
        let min_factors = *num_factors.start();
        let max_factors = *num_factors.end();
        let num_triples = pythagorean_triples.len();
        let mut non_final_terms: Vec<NonFinalTerm> = Vec::new();
        let mut k: usize = 0;
        while k < max_factors - 1
            invariant
                k <= max_factors - 1,
                non_final_terms@.len() == k,
                forall|q: int| 0 <= q < k ==> (#[trigger] non_final_terms@[q]).is_reset(num_triples),
            decreases max_factors - 1 - k,
        {
            non_final_terms.push(NonFinalTerm::new(num_triples));
            k = k + 1;
        }
        let mut composite_number = CompositeNumber {
            min_factors,
            max_factors,
            non_final_terms,
            final_term_start_index: 0,
            final_term_end_index: 0,
            search_range: start_range,
            pythagorean_triples,
            temporary_buffer: TemporaryBuffer::default(),
        };
        proof {
            let terms = composite_number.terms();
            assert forall|i: int| 0 <= i < terms.len() implies term_ok(terms, i, composite_number.table(), composite_number.search_range.end as int) by {
                lemma_grown_mono(0, 0, (i + 1) as nat);
                assert(terms[i].is_reset(num_triples));
                if i > 0 {
                    assert(terms[i - 1].is_reset(num_triples));
                }
            }
        }
        proof {
            lemma_reset_can_advance(composite_number, num_triples);
        }
        composite_number.next_non_final_term(max_factors - min_factors);
        composite_number
    }

    /// Advances the rightmost term that can advance, carrying to the left.
    /// Returns `false`, changing nothing, when no term can.
    pub fn next_available_term(&mut self) -> (r: bool)
        requires
            old(self).wf(),
        ensures
            final(self).wf(),
            final(self).pythagorean_triples == old(self).pythagorean_triples,
            final(self).search_range == old(self).search_range,
            final(self).min_factors == old(self).min_factors,
            final(self).max_factors == old(self).max_factors,
            r ==> advanced(old(self).terms(), final(self).terms()),
            r ==> exists|t: int| #[trigger] can_advance(*old(self), t) && forall|u: int|
                t < u < old(self).terms().len() ==> !can_advance(*old(self), u),
            r ==> final_exact(*final(self)),
            !r ==> forall|t: int| 0 <= t < old(self).terms().len() ==> !#[trigger] can_advance(*old(self), t),
            !r ==> *final(self) == *old(self),
    {
        let mut i = self.non_final_terms.len();
        while i > 0
            invariant
                self.wf(),
                i <= self.terms().len(),
                *self == *old(self),
                forall|u: int| i <= u < old(self).terms().len() ==> !#[trigger] can_advance(*old(self), u),
                self.terms() == old(self).terms(),
                self.pythagorean_triples == old(self).pythagorean_triples,
                self.search_range == old(self).search_range,
                self.min_factors == old(self).min_factors,
                self.max_factors == old(self).max_factors,
            decreases i,
        {
            i = i - 1;
            if self.next_non_final_term(i) {
                assert(self.terms()[i as int].next_index == old(self).terms()[i as int].next_index + 1);
                assert(can_advance(*old(self), i as int));
                return true;
            }
        }
        false
    }

    /// The hypotenuses of the non-final terms.
    pub fn non_final_factors(&self) -> (r: Vec<u64>)
        ensures
            r@.len() == self.terms().len(),
            forall|k: int| 0 <= k < r@.len() ==> #[trigger] r@[k] == self.terms()[k].current_triple.2,
    {
        let mut r: Vec<u64> = Vec::new();
        let mut k: usize = 0;
        while k < self.non_final_terms.len()
            invariant
                k <= self.terms().len(),
                r@.len() == k,
                forall|q: int| 0 <= q < k ==> #[trigger] r@[q] == self.terms()[q].current_triple.2,
            decreases self.terms().len() - k,
        {
            r.push(self.non_final_terms[k].current_triple.2);
            k = k + 1;
        }
        r
    }

    /// The primes of the current final interval.
    pub fn final_factors(&self) -> (r: Vec<u64>)
        requires
            self.wf(),
        ensures
            r@ == self.pythagorean_triples.c_values@.subrange(
                self.final_term_start_index as int,
                self.final_term_end_index as int,
            ),
    {
        let mut r: Vec<u64> = Vec::new();
        let mut k = self.final_term_start_index;
        while k < self.final_term_end_index
            invariant
                self.final_term_start_index <= k <= self.final_term_end_index <= self.pythagorean_triples.c_values@.len(),
                r@ == self.pythagorean_triples.c_values@.subrange(self.final_term_start_index as int, k as int),
            decreases self.final_term_end_index - k,
        {
            r.push(self.pythagorean_triples.c_values[k]);
            k = k + 1;
            assert(r@ =~= self.pythagorean_triples.c_values@.subrange(self.final_term_start_index as int, k as int));
        }
        r
    }
}

/// Walking the composites: every step of `next_available_term` makes the
/// factors of the non-final terms strictly greater in lexicographic order;
/// in every state the factors are non-decreasing, and every final prime of
/// the current interval, no smaller than the last factor, completes them to
/// a composite within the search window.
pub proof fn lemma_enumeration_order(before: CompositeNumber, after: CompositeNumber)
    requires
        before.wf(),
        after.wf(),
        after.table() == before.table(),
        advanced(before.terms(), after.terms()),
    ensures
        lex_less(factors(before.table(), before.terms()), factors(after.table(), after.terms())),
        forall|i: int, j: int|
            0 <= i < j < after.terms().len() ==> factors(after.table(), after.terms())[i] <= factors(
                after.table(),
                after.terms(),
            )[j],
        forall|j: int|
            after.final_term_start_index <= j < after.final_term_end_index ==> {
                &&& after.search_range.start <= after.prefix_product() * #[trigger] after.table()[j].2
                    < after.search_range.end
                &&& factors(after.table(), after.terms()).last() <= after.table()[j].2
            },
{
    let tab = before.table();
    let x = factors(tab, before.terms());
    let y = factors(tab, after.terms());
    let t = choose|t: int|
        0 <= t < before.terms().len() && #[trigger] after.terms()[t].next_index == before.terms()[t].next_index + 1 && forall|k: int|
            0 <= k < t ==> after.terms()[k].next_index == before.terms()[k].next_index;
    assert forall|i: int, j: int| 0 <= i < j < tab.len() implies tab[i].2 < tab[j].2 by {}
    assert forall|i: int| 0 <= i < tab.len() implies #[trigger] tab[i].2 >= 5 by {
        assert(is_prime(tab[i].2 as int) && tab[i].2 % 4 == 1);
    }
    assert(x[t] < y[t]) by {
        assert(term_ok(after.terms(), t, tab, after.search_range.end as int));
        if before.terms()[t].next_index > 0 {
            assert(tab[before.terms()[t].next_index - 1].2 < tab[before.terms()[t].next_index as int].2);
        }
    }
    assert forall|i: int, j: int|
        0 <= i < j < after.terms().len() implies y[i] <= y[j] by {
        let ni = after.terms()[i].next_index;
        let nj = after.terms()[j].next_index;
        assert(ni <= nj);
        assert(term_ok(after.terms(), j, tab, after.search_range.end as int));
        if ni > 0 && ni < nj {
            assert(tab[ni - 1].2 < tab[nj - 1].2);
        }
    }
}

/// What the pattern searches receive for a composite `p`: magic triples
/// `a² + b² = 2p²`, non-primitive ones first, each part strictly
/// increasing in `a`.
pub open spec fn is_magic_powerset(rows: Seq<Triple>, p: int) -> bool {
    &&& forall|k: int| 0 <= k < rows.len() ==> #[trigger] rows[k].0 * rows[k].0 + rows[k].1 * rows[k].1 == 2 * p * p
    &&& forall|i: int, j: int|
        0 <= i < j < rows.len() ==> crate::pythagorean_triples::key_lt(primitive_a_key(rows[i]), primitive_a_key(rows[j]))
}

/// What a pattern search is handed for a composite `p` of the window
/// `[lo, hi)`: columns `a`, `b` of equal length holding magic triples
/// `a² + b² = 2p²`, the non-primitive ones in `[0, ps)` and the primitive
/// ones after, each part strictly increasing in `a`.
pub open spec fn is_dispatch(ps: usize, a: Seq<u64>, b: Seq<u64>, p: u64, lo: u64, hi: u64) -> bool {
    &&& a.len() == b.len()
    &&& ps <= a.len()
    &&& lo <= p < hi
    &&& forall|k: int| 0 <= k < a.len() ==> #[trigger] a[k] * a[k] + b[k] * b[k] == 2 * p * p
    &&& forall|i: int, j: int| 0 <= i < j < ps ==> a[i] < a[j]
    &&& forall|i: int, j: int| ps <= i < j < a.len() ==> a[i] < a[j]
}

proof fn lemma_nontrivial_contained(s: Seq<Triple>)
    ensures
        forall|k: int| 0 <= k < nontrivial(s).len() ==> s.contains(#[trigger] nontrivial(s)[k]),
    decreases s.len(),
{
    if s.len() > 0 {
        lemma_nontrivial_contained(s.drop_last());
        assert forall|k: int| 0 <= k < nontrivial(s).len() implies s.contains(#[trigger] nontrivial(s)[k]) by {
            let r = nontrivial(s.drop_last());
            if k < r.len() {
                let j = choose|j: int| 0 <= j < s.drop_last().len() && s.drop_last()[j] == r[k];
                assert(s[j] == r[k]);
            } else {
                assert(s[s.len() - 1] == s.last());
            }
        }
    }
}

/// The triple of the final prime at `index`: its row with the factor count
/// of the last non-final term, one more when the prime is new.
pub open spec fn final_triple(cn: CompositeNumber, index: int) -> Triple {
    let last = cn.terms()[cn.terms().len() - 1];
    let row = cn.table()[index];
    (row.0, row.1, row.2, if row.2 == last.current_triple.2 {
        last.current_triple.3
    } else {
        (last.current_triple.3 + 1) as u32
    })
}

/// `rows` is what the pattern searches get for the final prime at `index`
/// and the composite `p`: the powerset step of the last non-final term with
/// the final triple, without trivial entries, scaled to magic triples for
/// `p`, sorted and deduped by `(primitive?, a)`.
pub open spec fn is_final_powerset(cn: CompositeNumber, index: int, p: u64, rows: Seq<Triple>) -> bool {
    let last = cn.terms()[cn.terms().len() - 1];
    exists|step: Seq<Triple>|
        #[trigger] is_powerset_step(step, last.triples_powerset@, final_triple(cn, index)) && sorted_dedup_of(
            rows,
            nontrivial(step).map_values(|t: Triple| magic_of(t, p)),
            |t: Triple| primitive_a_key(t),
        )
}

/// The tuple `(ps, a, b, p)` handed on for the final prime at `index`: `p`
/// the composite, `a` and `b` the columns of its final powerset, `ps` the
/// index of its first primitive row.
pub open spec fn is_final_dispatch(cn: CompositeNumber, index: int, d: (usize, Seq<u64>, Seq<u64>, u64)) -> bool {
    exists|rows: Seq<Triple>|
        #[trigger] is_final_powerset(cn, index, d.3, rows) && d.3 == cn.prefix_product() * cn.table()[index].2
            && d.1.len() == rows.len() && d.2.len() == rows.len() && (forall|k: int|
            0 <= k < rows.len() ==> d.1[k] == #[trigger] rows[k].0 && d.2[k] == rows[k].1) && d.0 <= rows.len()
            && (forall|k: int| 0 <= k < d.0 ==> crate::pythagorean_triples::carries_flag(#[trigger] rows[k].3)) && (d.0
            < rows.len() ==> !crate::pythagorean_triples::carries_flag(rows[d.0 as int].3))
}

impl CompositeNumber {
    /// The composite for the final prime at `index`: the prefix product
    /// times that prime. Fills `powerset` with its magic triples: the
    /// powerset of the last non-final term extended by the prime, without
    /// trivial entries, scaled to the composite, sorted and deduped by
    /// `(primitive?, a)`.
    pub fn final_term_magic_triples(&self, index: usize, powerset: &mut PythagoreanTriples, buffer: &mut TemporaryBuffer) -> (r: u64)
        requires
            self.wf(),
            self.final_term_start_index <= index < self.final_term_end_index,
        ensures
            r == self.prefix_product() * self.table()[index as int].2,
            self.search_range.start <= r < self.search_range.end,
            final(powerset).wf(),
            is_magic_powerset(final(powerset)@, r as int),
            is_final_powerset(*self, index as int, r, final(powerset)@),
    {
        let ghost tab = self.table();
        let ghost hi = self.search_range.end as int;
        let last_index = self.non_final_terms.len() - 1;
        let last = &self.non_final_terms[last_index];
        proof {
            assert(term_ok(self.terms(), last_index as int, tab, hi));
            lemma_table_sorted(&self.pythagorean_triples);
            assert(self.pythagorean_triples.c_values@[index as int] == tab[index as int].2);
            assert(is_pythagorean(tab[index as int]));
        }
        let previous_product = last.cumulative_product;
        let a = self.pythagorean_triples.a_values[index];
        let b = self.pythagorean_triples.b_values[index];
        let c = self.pythagorean_triples.c_values[index];
        let f = if c == last.current_triple.2 {
            last.current_triple.3
        } else {
            last.current_triple.3 + 1
        };
        let final_product = previous_product * c;
        let triple = (a, b, c, f);
        proof {
            assert(tab[index as int] == (a, b, c, 0u32));
            lemma_powerset_step_divides_fits(last.triples_powerset@, triple, previous_product as int);
        }
        update_triples_powerset(powerset, triple, Some(&last.triples_powerset));
        proof {
            lemma_powerset_step_divides(powerset@, last.triples_powerset@, triple, previous_product as int);
        }
        let ghost built = powerset@;
        powerset.remove_trivial(buffer);
        proof {
            lemma_nontrivial_contained(built);
            assert(final_product >= 5) by (nonlinear_arith)
                requires final_product == previous_product * c, previous_product >= 1, c >= 5;
            assert forall|k: int| 0 <= k < powerset@.len() implies crate::pythagorean_triples::magic_fits(#[trigger] powerset@[k], final_product) by {
                assert(built.contains(powerset@[k]));
                lemma_magic_fits(powerset@[k], final_product);
            }
        }
        let ghost kept = powerset@;
        powerset.into_magic_triples(final_product);
        proof {
            assert forall|k: int| 0 <= k < powerset@.len() implies #[trigger] powerset@[k].0 * powerset@[k].0 + powerset@[k].1 * powerset@[k].1 == 2 * final_product * final_product by {
                assert(built.contains(kept[k]));
                lemma_magic_fits(kept[k], final_product);
                crate::pythagorean_triples::lemma_magic_triple(kept[k], final_product);
            }
        }
        let ghost scaled = powerset@;
        powerset.sort_and_dedup_by_primitive_and_a(buffer);
        proof {
            assert(triple == final_triple(*self, index as int));
            assert(kept == nontrivial(built));
            assert(scaled =~= nontrivial(built).map_values(|t: Triple| magic_of(t, final_product)));
            assert(is_powerset_step(built, last.triples_powerset@, final_triple(*self, index as int)));
            assert forall|k: int| 0 <= k < powerset@.len() implies #[trigger] powerset@[k].0 * powerset@[k].0 + powerset@[k].1 * powerset@[k].1 == 2 * final_product * final_product by {
                assert(scaled.contains(powerset@[k]));
            }
        }
        final_product
    }

    /// Hands the magic triples of every composite of the current final
    /// interval to `callback`, with the index of the first primitive one
    /// and the composite, in ascending order of the final prime; returns
    /// the tuples handed on, in that order.
    #[verifier::rlimit(60)]
    pub fn for_each_final_term<F: Fn(usize, &Vec<u64>, &Vec<u64>, u64)>(&self, callback: F) -> (r: Vec<
        (usize, Vec<u64>, Vec<u64>, u64),
    >)
        requires
            self.wf(),
            forall|ps: usize, a: Vec<u64>, b: Vec<u64>, p: u64|
                is_dispatch(ps, a@, b@, p, self.search_range.start, self.search_range.end) ==> call_requires(callback, (ps, &a, &b, p)),
        ensures
            r@.len() == self.final_term_end_index - self.final_term_start_index,
            forall|k: int|
                0 <= k < r@.len() ==> is_final_dispatch(
                    *self,
                    self.final_term_start_index + k,
                    (#[trigger] r@[k].0, r@[k].1@, r@[k].2@, r@[k].3),
                ),
            forall|k: int|
                0 <= k < r@.len() ==> is_dispatch(
                    #[trigger] r@[k].0,
                    r@[k].1@,
                    r@[k].2@,
                    r@[k].3,
                    self.search_range.start,
                    self.search_range.end,
                ),
    {
        let mut dispatched: Vec<(usize, Vec<u64>, Vec<u64>, u64)> = Vec::new();
        let mut powerset = PythagoreanTriples::with_capacity(0);
        let mut buffer = TemporaryBuffer::default();
        let mut index = self.final_term_start_index;
        while index < self.final_term_end_index
            invariant
                self.wf(),
                self.final_term_start_index <= index <= self.final_term_end_index,
                forall|ps: usize, a: Vec<u64>, b: Vec<u64>, p: u64|
                is_dispatch(ps, a@, b@, p, self.search_range.start, self.search_range.end) ==> call_requires(callback, (ps, &a, &b, p)),
                dispatched@.len() == index - self.final_term_start_index,
                forall|k: int|
                    0 <= k < dispatched@.len() ==> is_final_dispatch(
                        *self,
                        self.final_term_start_index + k,
                        (#[trigger] dispatched@[k].0, dispatched@[k].1@, dispatched@[k].2@, dispatched@[k].3),
                    ),
                forall|k: int|
                    0 <= k < dispatched@.len() ==> is_dispatch(
                        #[trigger] dispatched@[k].0,
                        dispatched@[k].1@,
                        dispatched@[k].2@,
                        dispatched@[k].3,
                        self.search_range.start,
                        self.search_range.end,
                    ),
            decreases self.final_term_end_index - index,
        {
            let final_product = self.final_term_magic_triples(index, &mut powerset, &mut buffer);
            let primitive_start = powerset.primitive_start();
            proof {
                let rows = powerset@;
                let a = powerset.a_values@;
                assert forall|k: int| 0 <= k < a.len() implies #[trigger] a[k] * a[k] + powerset.b_values@[k] * powerset.b_values@[k]
                    == 2 * final_product * final_product by {
                    assert(rows[k].0 == a[k] && rows[k].1 == powerset.b_values@[k]);
                }
                assert forall|i: int, j: int| 0 <= i < j < primitive_start implies a[i] < a[j] by {
                    assert(crate::pythagorean_triples::key_lt(primitive_a_key(rows[i]), primitive_a_key(rows[j])));
                    assert(crate::pythagorean_triples::carries_flag(rows[i].3) && crate::pythagorean_triples::carries_flag(rows[j].3));
                }
                assert forall|i: int, j: int| primitive_start <= i < j < a.len() implies a[i] < a[j] by {
                    let q = primitive_start as int;
                    assert(!crate::pythagorean_triples::carries_flag(rows[q].3));
                    if i > q {
                        assert(crate::pythagorean_triples::key_lt(primitive_a_key(rows[q]), primitive_a_key(rows[i])));
                    }
                    assert(crate::pythagorean_triples::key_lt(primitive_a_key(rows[q]), primitive_a_key(rows[j])));
                    assert(crate::pythagorean_triples::key_lt(primitive_a_key(rows[i]), primitive_a_key(rows[j])));
                }
                assert(is_dispatch(primitive_start, powerset.a_values@, powerset.b_values@, final_product,
                    self.search_range.start, self.search_range.end));
            }
            callback(primitive_start, &powerset.a_values, &powerset.b_values, final_product);
            let a_copy = powerset.a_values.clone();
            let b_copy = powerset.b_values.clone();
            proof {
                assert(a_copy@ =~= powerset.a_values@);
                assert(b_copy@ =~= powerset.b_values@);
                let rows = powerset@;
                assert(is_final_powerset(*self, index as int, final_product, rows));
                assert forall|k: int| 0 <= k < primitive_start implies crate::pythagorean_triples::carries_flag(#[trigger] rows[k].3) by {
                    assert(rows[k].3 == powerset.factors@[k]);
                }
                if primitive_start < rows.len() {
                    assert(rows[primitive_start as int].3 == powerset.factors@[primitive_start as int]);
                }
                assert(final_product == self.prefix_product() * self.table()[index as int].2);
                assert(a_copy@.len() == rows.len() && b_copy@.len() == rows.len());
                assert(forall|k: int| 0 <= k < rows.len() ==> a_copy@[k] == #[trigger] rows[k].0 && b_copy@[k] == rows[k].1);
                assert(primitive_start <= rows.len());
                let d = (primitive_start, a_copy@, b_copy@, final_product);
                assert(is_final_powerset(*self, index as int, d.3, rows) && d.3 == self.prefix_product() * self.table()[index as int].2
                    && d.1.len() == rows.len() && d.2.len() == rows.len() && (forall|k: int|
                    0 <= k < rows.len() ==> d.1[k] == #[trigger] rows[k].0 && d.2[k] == rows[k].1) && d.0 <= rows.len()
                    && (forall|k: int| 0 <= k < d.0 ==> crate::pythagorean_triples::carries_flag(#[trigger] rows[k].3)) && (d.0
                    < rows.len() ==> !crate::pythagorean_triples::carries_flag(rows[d.0 as int].3)));
                assert(is_final_dispatch(*self, index as int, (primitive_start, a_copy@, b_copy@, final_product)));
            }
            proof {
                assert(is_dispatch(primitive_start, a_copy@, b_copy@, final_product, self.search_range.start, self.search_range.end));
            }
            dispatched.push((primitive_start, a_copy, b_copy, final_product));
            index = index + 1;
        }
        dispatched
    }

    /// Moves to the next search window `[hi, 2·hi)` and back to the
    /// lexicographically first composite. Returns `false`, changing
    /// nothing, when the doubled window would pass `SEARCH_END_LIMIT`.
    pub fn next_search_range(&mut self) -> (r: bool)
        requires
            old(self).wf(),
        ensures
            final(self).wf(),
            final(self).pythagorean_triples == old(self).pythagorean_triples,
            final(self).min_factors == old(self).min_factors,
            final(self).max_factors == old(self).max_factors,
            r == (old(self).search_range.end <= SEARCH_END_LIMIT / 2),
            r ==> final(self).search_range.start == old(self).search_range.end,
            r ==> final(self).search_range.end == 2 * old(self).search_range.end,
            r ==> is_first_placement(*final(self)),
            !r ==> *final(self) == *old(self),
    {
        if self.search_range.end > SEARCH_END_LIMIT / 2 {
            return false;
        }
        let num_triples = self.pythagorean_triples.len();
        self.search_range = self.search_range.end..self.search_range.end * 2;
        let mut k: usize = 0;
        let n = self.non_final_terms.len();
        let mut fresh: Vec<NonFinalTerm> = Vec::new();
        while k < n
            invariant
                k <= n,
                fresh@.len() == k,
                forall|q: int| 0 <= q < k ==> (#[trigger] fresh@[q]).is_reset(num_triples),
            decreases n - k,
        {
            fresh.push(NonFinalTerm::new(num_triples));
            k = k + 1;
        }
        self.non_final_terms = fresh;
        self.final_term_start_index = 0;
        self.final_term_end_index = 0;
        proof {
            let terms = self.terms();
            assert forall|i: int| 0 <= i < terms.len() implies term_ok(terms, i, self.table(), self.search_range.end as int) by {
                lemma_grown_mono(0, 0, (i + 1) as nat);
                assert(terms[i].is_reset(num_triples));
                if i > 0 {
                    assert(terms[i - 1].is_reset(num_triples));
                }
            }
        }
        proof {
            lemma_reset_can_advance(*self, num_triples);
        }
        self.next_non_final_term(self.max_factors - self.min_factors);
        true
    }
}

/// The term indexes read as the digits of a number in base `base`.
pub open spec fn encode(terms: Seq<NonFinalTerm>, base: nat) -> nat
    decreases terms.len(),
{
    if terms.len() == 0 {
        0
    } else {
        (encode(terms.drop_last(), base) * base + terms.last().next_index) as nat
    }
}

proof fn lemma_encode_bound(terms: Seq<NonFinalTerm>, base: nat)
    requires
        forall|k: int| 0 <= k < terms.len() ==> #[trigger] terms[k].next_index < base,
    ensures
        encode(terms, base) < pow(base as int, terms.len()),
    decreases terms.len(),
{
    reveal(pow);
    if terms.len() > 0 {
        let p = terms.drop_last();
        lemma_encode_bound(p, base);
        let e = encode(p, base);
        let m = pow(base as int, p.len());
        assert(terms.last().next_index < base);
        assert(e * base + terms.last().next_index < base * m) by (nonlinear_arith)
            requires e < m, terms.last().next_index < base, e >= 0;
    }
}

proof fn lemma_encode_equal(x: Seq<NonFinalTerm>, y: Seq<NonFinalTerm>, base: nat)
    requires
        x.len() == y.len(),
        forall|k: int| 0 <= k < x.len() ==> #[trigger] x[k].next_index == y[k].next_index,
    ensures
        encode(x, base) == encode(y, base),
    decreases x.len(),
{
    if x.len() > 0 {
        lemma_encode_equal(x.drop_last(), y.drop_last(), base);
    }
}

proof fn lemma_encode_increases(x: Seq<NonFinalTerm>, y: Seq<NonFinalTerm>, base: nat, t: int)
    requires
        x.len() == y.len(),
        0 <= t < x.len(),
        y[t].next_index == x[t].next_index + 1,
        forall|k: int| 0 <= k < t ==> x[k].next_index == y[k].next_index,
        forall|k: int| 0 <= k < x.len() ==> #[trigger] x[k].next_index < base && y[k].next_index < base,
    ensures
        encode(x, base) < encode(y, base),
    decreases x.len(),
{
    let px = x.drop_last();
    let py = y.drop_last();
    if t == x.len() - 1 {
        lemma_encode_equal(px, py, base);
    } else {
        lemma_encode_increases(px, py, base, t);
        let ex = encode(px, base);
        let ey = encode(py, base);
        assert(x.last().next_index < base);
        assert(ex * base + x.last().next_index < ey * base + y.last().next_index) by (nonlinear_arith)
            requires ex < ey, x.last().next_index < base, ex >= 0;
    }
}

impl CompositeNumber {
    /// Hands the magic triples of every composite of the search window to
    /// `callback`: the final interval of each placement of the non-final
    /// terms, the placements in lexicographic order.
    pub fn for_each_in_search_range<F: Fn(usize, &Vec<u64>, &Vec<u64>, u64)>(&mut self, callback: F) -> (r: Vec<
        (usize, Vec<u64>, Vec<u64>, u64),
    >)
        requires
            old(self).wf(),
            forall|ps: usize, a: Vec<u64>, b: Vec<u64>, p: u64|
                is_dispatch(ps, a@, b@, p, old(self).search_range.start, old(self).search_range.end) ==> call_requires(callback, (ps, &a, &b, p)),
        ensures
            final(self).wf(),
            final(self).pythagorean_triples == old(self).pythagorean_triples,
            final(self).search_range == old(self).search_range,
            forall|t: int| 0 <= t < final(self).terms().len() ==> !#[trigger] can_advance(*final(self), t),
            forall|k: int|
                0 <= k < r@.len() ==> is_dispatch(
                    #[trigger] r@[k].0,
                    r@[k].1@,
                    r@[k].2@,
                    r@[k].3,
                    old(self).search_range.start,
                    old(self).search_range.end,
                ),
    {
        let ghost base = (self.table().len() + 1) as nat;
        let ghost len = self.terms().len();
        let mut going = true;
        let mut dispatched: Vec<(usize, Vec<u64>, Vec<u64>, u64)> = Vec::new();
        proof {
            assert forall|k: int| 0 <= k < len implies #[trigger] self.terms()[k].next_index < base by {
                assert(term_ok(self.terms(), k, self.table(), self.search_range.end as int));
            }
            lemma_encode_bound(self.terms(), base);
        }
        while going
            invariant
                self.wf(),
                self.pythagorean_triples == old(self).pythagorean_triples,
                self.search_range == old(self).search_range,
                base == self.table().len() + 1,
                len == self.terms().len(),
                encode(self.terms(), base) < pow(base as int, len),
                !going ==> forall|t: int| 0 <= t < self.terms().len() ==> !#[trigger] can_advance(*self, t),
                forall|k: int|
                    0 <= k < dispatched@.len() ==> is_dispatch(
                        #[trigger] dispatched@[k].0,
                        dispatched@[k].1@,
                        dispatched@[k].2@,
                        dispatched@[k].3,
                        old(self).search_range.start,
                        old(self).search_range.end,
                    ),
                forall|ps: usize, a: Vec<u64>, b: Vec<u64>, p: u64|
                is_dispatch(ps, a@, b@, p, old(self).search_range.start, old(self).search_range.end) ==> call_requires(callback, (ps, &a, &b, p)),
            decreases pow(base as int, len) - encode(self.terms(), base), if going { 1int } else { 0int },
        {
            let mut batch = self.for_each_final_term(&callback);
            let ghost d0 = dispatched@;
            let ghost b0 = batch@;
            dispatched.append(&mut batch);
            proof {
                assert forall|k: int| 0 <= k < dispatched@.len() implies is_dispatch(
                    #[trigger] dispatched@[k].0,
                    dispatched@[k].1@,
                    dispatched@[k].2@,
                    dispatched@[k].3,
                    old(self).search_range.start,
                    old(self).search_range.end,
                ) by {
                    if k >= d0.len() {
                        assert(dispatched@[k] == b0[k - d0.len()]);
                    }
                }
            }
            let ghost before = self.terms();
            going = self.next_available_term();
            proof {
                if going {
                    let after = self.terms();
                    let t = choose|t: int|
                        0 <= t < before.len() && #[trigger] after[t].next_index == before[t].next_index + 1 && forall|k: int|
                            0 <= k < t ==> after[k].next_index == before[k].next_index;
                    assert forall|k: int| 0 <= k < before.len() implies #[trigger] before[k].next_index < base && after[k].next_index < base by {
                        assert(term_ok(before, k, self.table(), self.search_range.end as int));
                        assert(term_ok(after, k, self.table(), self.search_range.end as int));
                    }
                    lemma_encode_increases(before, after, base, t);
                    lemma_encode_bound(after, base);
                }
            }
        }
        dispatched
    }
}

/// The rows of a powerset dividing `p` combine with `triple` within 64 bits.
proof fn lemma_powerset_step_divides_fits(previous: Seq<Triple>, triple: Triple, p: int)
    requires
        rows_divide(previous, p),
        p >= 1,
        is_pythagorean(triple),
        triple.2 >= 1,
        p * triple.2 <= u64::MAX,
    ensures
        forall|i: int| 0 <= i < previous.len() ==> crate::pythagorean_triples::product_fits(#[trigger] previous[i], triple),
{
    let c = triple.2 as int;
    assert forall|i: int| 0 <= i < previous.len() implies crate::pythagorean_triples::product_fits(#[trigger] previous[i], triple) by {
        let d = previous[i].2 as int;
        lemma_fundamental_div_mod(p, d);
        assert(d <= p) by (nonlinear_arith)
            requires p == d * (p / d), d >= 1, p >= 1;
        assert(d * c <= p * c) by (nonlinear_arith)
            requires d <= p, c >= 1;
        lemma_product_fits(previous[i], triple);
    }
}

proof fn lemma_table_sorted(table: &PythagoreanTriples)
    requires
        table.wf(),
        is_prime_table(table@),
    ensures
        forall|i: int, j: int| 0 <= i < j < table.c_values@.len() ==> table.c_values@[i] <= table.c_values@[j],
        forall|i: int| 0 <= i < table.c_values@.len() ==> #[trigger] table.c_values@[i] >= 5,
{
    assert forall|i: int, j: int| 0 <= i < j < table.c_values@.len() implies table.c_values@[i] <= table.c_values@[j] by {
        assert(table@[i].2 < table@[j].2);
    }
    assert forall|i: int| 0 <= i < table.c_values@.len() implies #[trigger] table.c_values@[i] >= 5 by {
        let t = table@[i];
        assert(is_prime(t.2 as int) && t.2 % 4 == 1);
        assert(t.2 != 1);
    }
}

/// A value at most the `r`-th root of `h / p` keeps `p·x^r`, and so `p·x`,
/// within `h`.
proof fn lemma_below_root(x: int, root: int, r: nat, p: int, h: int)
    requires
        1 <= x <= root,
        r >= 1,
        p >= 1,
        h >= 0,
        pow(root, r) <= h / p,
    ensures
        p * pow(x, r) <= h,
        p * x <= h,
{
    lemma_pow_base_mono(x, root, r);
    lemma_pow1(x);
    lemma_pow_increases(x as nat, 1, r);
    lemma_fundamental_div_mod(h, p);
    assert(p * (h / p) <= h) by (nonlinear_arith)
        requires h == p * (h / p) + h % p, h % p >= 0;
    assert(p * pow(x, r) <= p * (h / p)) by (nonlinear_arith)
        requires pow(x, r) <= h / p, p >= 1;
    assert(p * x <= p * pow(x, r)) by (nonlinear_arith)
        requires x <= pow(x, r), p >= 1;
}

} // verus!
