//! A lazy enumerator of every fixed-length byte string over a byte alphabet:
//! arrangements with repetition, one per step, in ascending mixed-radix
//! counting order with position 0 the least-significant digit.
//!
//! The cursor holds the index choices of the last produced candidate; a copy
//! of the cursor is an independent enumerator at the same position, which is
//! how contiguous sub-ranges are handed to separate workers.
use vstd::prelude::*;

use crate::BLOCK_SIZE;
use vstd::arithmetic::div_mod::lemma_div_denominator;
use vstd::arithmetic::div_mod::lemma_div_multiples_vanish_fancy;
use vstd::arithmetic::div_mod::lemma_fundamental_div_mod;
use vstd::arithmetic::div_mod::lemma_mod_multiples_vanish;
use vstd::arithmetic::div_mod::lemma_multiply_divide_lt;
use vstd::arithmetic::div_mod::lemma_small_mod;

verus! {

/// `n` to the power `k`.
pub open spec fn pow(n: nat, k: nat) -> nat
    decreases k,
{
    if k == 0 {
        1nat
    } else {
        n * pow(n, (k - 1) as nat)
    }
}

/// Digit `i` of `p` written in base `n`, position 0 least significant.
pub open spec fn digit(p: nat, n: nat, i: nat) -> nat {
    (p / pow(n, i)) % n
}

/// The `s` low digits of `p` in base `n`, least significant first.
pub open spec fn digits(p: nat, n: nat, s: nat) -> Seq<nat> {
    Seq::new(s, |i: int| digit(p, n, i as nat))
}

/// The number whose base-`n` digits, least significant first, are `d`.
pub open spec fn radix_val(d: Seq<nat>, n: nat) -> nat
    decreases d.len(),
{
    if d.len() == 0 {
        0nat
    } else {
        d[0] + n * radix_val(d.drop_first(), n)
    }
}

/// Every entry of `d` is a valid base-`n` digit.
pub open spec fn valid_digits(d: Seq<nat>, n: nat) -> bool {
    forall|i: int| 0 <= i < d.len() ==> d[i] < n
}

/// A positive base gives positive powers.
pub proof fn lemma_pow_pos(n: nat, k: nat)
    requires
        n >= 1,
    ensures
        pow(n, k) >= 1,
    decreases k,
{
    if k > 0 {
        lemma_pow_pos(n, (k - 1) as nat);
        assert(n * pow(n, (k - 1) as nat) >= 1) by (nonlinear_arith)
            requires
                n >= 1,
                pow(n, (k - 1) as nat) >= 1,
        ;
    }
}

/// A valid digit sequence of length `s` denotes a number below `n^s`.
pub proof fn lemma_val_bound(d: Seq<nat>, n: nat)
    requires
        n >= 1,
        valid_digits(d, n),
    ensures
        radix_val(d, n) < pow(n, d.len()),
    decreases d.len(),
{
    if d.len() == 0 {
    } else {
        let rest = d.drop_first();
        assert(valid_digits(rest, n));
        lemma_val_bound(rest, n);
        assert(d[0] + n * radix_val(rest, n) < n * pow(n, rest.len())) by (nonlinear_arith)
            requires
                d[0] < n,
                radix_val(rest, n) < pow(n, rest.len()),
        ;
    }
}

/// Reading the digits of the number a valid digit sequence denotes gives the
/// sequence back: the digit decomposition is the inverse of `radix_val`.
pub proof fn lemma_digits_of_val(d: Seq<nat>, n: nat)
    requires
        n >= 1,
        valid_digits(d, n),
    ensures
        digits(radix_val(d, n), n, d.len()) == d,
    decreases d.len(),
{
    let v = radix_val(d, n);
    if d.len() == 0 {
        assert(digits(v, n, 0) =~= d);
    } else {
        let rest = d.drop_first();
        assert(valid_digits(rest, n));
        lemma_digits_of_val(rest, n);
        let vr = radix_val(rest, n);
        assert(v == n * vr + d[0]);
        // digit 0: v % n == d[0]
        lemma_mod_multiples_vanish(vr as int, d[0] as int, n as int);
        lemma_small_mod(d[0], n);
        assert(pow(n, 0) == 1);
        assert(v / pow(n, 0) == v);
        assert(digit(v, n, 0) == d[0]);
        // higher digits: v / n == vr, then digit i of v is digit i - 1 of vr
        lemma_div_multiples_vanish_fancy(vr as int, d[0] as int, n as int);
        assert(v / n == vr);
        assert forall|i: int| 1 <= i < d.len() implies digits(v, n, d.len())[i] == d[i] by {
            lemma_pow_pos(n, (i - 1) as nat);
            lemma_div_denominator(v as int, n as int, pow(n, (i - 1) as nat) as int);
            assert(pow(n, i as nat) == n * pow(n, (i - 1) as nat));
            assert(v / pow(n, i as nat) == vr / pow(n, (i - 1) as nat));
            assert(digit(v, n, i as nat) == digit(vr, n, (i - 1) as nat));
            assert(digits(vr, n, rest.len())[i - 1] == rest[i - 1]);
        }
        assert(digits(v, n, d.len()) =~= d);
    }
}

/// Every `p` below `n^s` is denoted by its own digit sequence: `radix_val`
/// is the inverse of the digit decomposition, so the candidate produced at
/// step `p` has rank exactly `p` in mixed-radix order.
pub proof fn lemma_val_of_digits(p: nat, n: nat, s: nat)
    requires
        n >= 1,
        p < pow(n, s),
    ensures
        valid_digits(digits(p, n, s), n),
        radix_val(digits(p, n, s), n) == p,
    decreases s,
{
    let d = digits(p, n, s);
    assert forall|i: int| 0 <= i < s implies d[i] < n by {
        lemma_pow_pos(n, i as nat);
        assert((p / pow(n, i as nat)) % n < n) by (nonlinear_arith)
            requires
                n >= 1,
        ;
    }
    if s == 0 {
        lemma_pow_pos(n, 0);
        assert(p == 0);
    } else {
        lemma_fundamental_div_mod(p as int, n as int);
        let q = p / n;
        assert(pow(n, s) == n * pow(n, (s - 1) as nat));
        lemma_multiply_divide_lt(p as int, n as int, pow(n, (s - 1) as nat) as int);
        assert(q < pow(n, (s - 1) as nat));
        lemma_val_of_digits(q, n, (s - 1) as nat);
        // d[0] is p % n and the remaining digits are the digits of p / n
        assert(pow(n, 0) == 1);
        assert(d[0] == p % n);
        assert forall|i: int| 0 <= i < s - 1 implies d.drop_first()[i] == digits(
            q,
            n,
            (s - 1) as nat,
        )[i] by {
            lemma_pow_pos(n, i as nat);
            lemma_div_denominator(p as int, n as int, pow(n, i as nat) as int);
            assert(pow(n, (i + 1) as nat) == n * pow(n, i as nat));
            assert(p / pow(n, (i + 1) as nat) == q / pow(n, i as nat));
        }
        assert(d.drop_first() =~= digits(q, n, (s - 1) as nat));
        assert(radix_val(d, n) == d[0] + n * radix_val(d.drop_first(), n));
        assert(radix_val(d, n) == p % n + n * q);
        assert(p % n + n * q == p);
    }
}

/// No candidate is repeated: two distinct steps choose distinct digit
/// sequences, hence distinct index choices into the alphabet.
pub proof fn lemma_digits_injective(n: nat, s: nat, p: nat, q: nat)
    requires
        n >= 1,
        p < pow(n, s),
        q < pow(n, s),
        p != q,
    ensures
        digits(p, n, s) != digits(q, n, s),
{
    if digits(p, n, s) == digits(q, n, s) {
        lemma_val_of_digits(p, n, s);
        lemma_val_of_digits(q, n, s);
        assert(false);
    }
}

/// No two symbols of the alphabet coincide.
pub open spec fn distinct_alphabet(alpha: Seq<u8>) -> bool {
    forall|i: int, j: int| 0 <= i < alpha.len() && 0 <= j < alpha.len() && i != j ==> alpha[i] != alpha[j]
}

/// Over an alphabet free of duplicate symbols, distinct steps produce
/// distinct candidate strings: the enumeration has no duplicates and, with
/// exactly `n^s` steps before exhaustion, no omissions either.
pub proof fn lemma_candidates_distinct(alpha: Seq<u8>, s: nat, p: nat, q: nat)
    requires
        alpha.len() >= 1,
        distinct_alphabet(alpha),
        p < pow(alpha.len(), s),
        q < pow(alpha.len(), s),
        p != q,
    ensures
        cand_at(alpha, s, p) != cand_at(alpha, s, q),
{
    let n = alpha.len();
    lemma_digits_injective(n, s, p, q);
    lemma_val_of_digits(p, n, s);
    lemma_val_of_digits(q, n, s);
    if cand_at(alpha, s, p) == cand_at(alpha, s, q) {
        assert forall|i: int| 0 <= i < s implies digits(p, n, s)[i] == digits(q, n, s)[i] by {
            assert(cand_at(alpha, s, p)[i] == cand_at(alpha, s, q)[i]);
            assert(alpha[digit(p, n, i as nat) as int] == alpha[digit(q, n, i as nat) as int]);
        }
        assert(digits(p, n, s) =~= digits(q, n, s));
        assert(false);
    }
}

/// The digit sequence that follows `d` in counting order: every position
/// below `j` wraps to zero and position `j` steps up by one.
pub open spec fn incremented(d: Seq<nat>, j: int) -> Seq<nat> {
    Seq::new(
        d.len(),
        |i: int|
            if i < j {
                0nat
            } else if i == j {
                d[j] + 1
            } else {
                d[i]
            },
    )
}

/// Stepping the odometer adds exactly one to the denoted number: wrapping
/// the maxed-out low digits to zero and stepping the first free position.
pub proof fn lemma_val_increment(d: Seq<nat>, n: nat, j: int)
    requires
        n >= 1,
        valid_digits(d, n),
        0 <= j < d.len(),
        forall|t: int| 0 <= t < j ==> d[t] == n - 1,
        d[j] + 1 < n,
    ensures
        radix_val(incremented(d, j), n) == radix_val(d, n) + 1,
    decreases j,
{
    let inc = incremented(d, j);
    if j == 0 {
        assert(inc.drop_first() =~= d.drop_first());
        assert(radix_val(inc, n) == d[0] + 1 + n * radix_val(d.drop_first(), n));
    } else {
        let rest = d.drop_first();
        assert(valid_digits(rest, n));
        assert(forall|t: int| 0 <= t < j - 1 ==> rest[t] == n - 1);
        lemma_val_increment(rest, n, j - 1);
        assert(inc.drop_first() =~= incremented(rest, j - 1));
        assert(d[0] == n - 1);
        assert(inc[0] == 0);
        assert(radix_val(inc, n) == n * (radix_val(rest, n) + 1));
        assert(radix_val(d, n) == n - 1 + n * radix_val(rest, n));
        assert(n * (radix_val(rest, n) + 1) == n * radix_val(rest, n) + n) by (nonlinear_arith);
    }
}

/// A fully maxed-out odometer denotes the last number of the space.
pub proof fn lemma_val_all_max(d: Seq<nat>, n: nat)
    requires
        n >= 1,
        forall|t: int| 0 <= t < d.len() ==> d[t] == n - 1,
    ensures
        radix_val(d, n) == pow(n, d.len()) - 1,
    decreases d.len(),
{
    if d.len() > 0 {
        let rest = d.drop_first();
        lemma_val_all_max(rest, n);
        assert(radix_val(d, n) == n - 1 + n * radix_val(rest, n));
        assert(n - 1 + n * (pow(n, rest.len()) - 1) == n * pow(n, rest.len()) - 1)
            by (nonlinear_arith)
            requires
                n >= 1,
                pow(n, rest.len()) >= 1,
        {
            lemma_pow_pos(n, rest.len());
        }
        assert(pow(n, d.len()) == n * pow(n, rest.len()));
    }
}

/// An all-zero odometer denotes zero.
pub proof fn lemma_val_zeros(d: Seq<nat>, n: nat)
    requires
        forall|t: int| 0 <= t < d.len() ==> d[t] == 0,
    ensures
        radix_val(d, n) == 0,
    decreases d.len(),
{
    if d.len() > 0 {
        let rest = d.drop_first();
        assert(forall|t: int| 0 <= t < rest.len() ==> rest[t] == d[t + 1]);
        lemma_val_zeros(rest, n);
        assert(radix_val(d, n) == d[0] + n * 0);
    }
}

/// The smaller of two naturals.
pub open spec fn min_nat(a: nat, b: nat) -> nat {
    if a <= b {
        a
    } else {
        b
    }
}

/// The candidate produced at step `p`: each cursor position `i` holds digit
/// `i` of `p` in base `alpha.len()`, mapped through the alphabet.
pub open spec fn cand_at(alpha: Seq<u8>, s: nat, p: nat) -> Seq<u8> {
    Seq::new(s, |i: int| alpha[digit(p, alpha.len(), i as nat) as int])
}

/// Lazy enumerator of all `alphabet_len ^ size` byte strings of length
/// `size` over the alphabet, each exactly once, in ascending mixed-radix
/// order.
pub struct PermutationIterator {
    universe: Vec<u8>,
    size: usize,
    prev: Vec<usize>,
    started: bool,
}

impl PermutationIterator {
    /// The alphabet the candidates draw their bytes from.
    pub closed spec fn alphabet(self) -> Seq<u8> {
        self.universe@
    }

    /// The length of every produced candidate.
    pub closed spec fn length(self) -> nat {
        self.size as nat
    }

    /// The cursor read as a digit sequence, least significant first.
    pub closed spec fn cursor(self) -> Seq<nat> {
        Seq::new(self.prev@.len(), |i: int| self.prev@[i] as nat)
    }

    /// How many candidates the space holds in total.
    pub open spec fn space(self) -> nat {
        pow(self.alphabet().len(), self.length())
    }

    /// How many candidates have been produced so far.
    pub closed spec fn position(self) -> nat {
        if !self.started {
            0nat
        } else {
            radix_val(self.cursor(), self.alphabet().len()) + 1
        }
    }

    /// Well-formed enumerator: non-empty alphabet, positive candidate
    /// length, and a cursor of valid digits (all zero before the first
    /// candidate is produced).
    pub closed spec fn wf(self) -> bool {
        &&& self.universe@.len() >= 1
        &&& self.size >= 1
        &&& self.size + BLOCK_SIZE <= usize::MAX
        &&& self.prev@.len() == self.size
        &&& valid_digits(self.cursor(), self.universe@.len())
        &&& (!self.started ==> forall|t: int| 0 <= t < self.prev@.len() ==> self.prev@[t] == 0)
    }

    /// Bounds every well-formed enumerator guarantees its callers.
    pub proof fn lemma_wf_bounds(self)
        requires
            self.wf(),
        ensures
            self.alphabet().len() >= 1,
            self.length() >= 1,
            self.length() + BLOCK_SIZE <= usize::MAX,
    {
    }

    /// The position never passes the end of the space.
    pub proof fn lemma_position_le_space(self)
        requires
            self.wf(),
        ensures
            self.position() <= self.space(),
    {
        lemma_pow_pos(self.alphabet().len(), self.length());
        if self.started {
            lemma_val_bound(self.cursor(), self.alphabet().len());
        }
    }

    /// Maps the cursor through the alphabet into candidate bytes.
    fn materialize(&self) -> (r: Vec<u8>)
        requires
            self.wf(),
        ensures
            r@.len() == self.length(),
            forall|i: int| 0 <= i < r@.len() ==> r@[i] == self.alphabet()[self.cursor()[i] as int],
    {
        let mut r: Vec<u8> = Vec::new();
        let mut i: usize = 0;
        while i < self.size
            invariant
                self.wf(),
                i <= self.size,
                r@.len() == i,
                forall|t: int|
                    0 <= t < i ==> r@[t] == self.alphabet()[self.cursor()[t] as int],
            decreases self.size - i,
        {
            proof {
                assert(self.cursor()[i as int] == self.prev@[i as int] as nat);
                assert(self.cursor()[i as int] < self.universe@.len());
            }
            r.push(self.universe[self.prev[i]]);
            i = i + 1;
        }
        r
    }

    /// Produces the next candidate, or `None` exactly when all
    /// `alphabet_len ^ size` candidates have been produced. The candidate of
    /// step `p` is `cand_at(alphabet, size, p)`, so the candidates come in
    /// ascending mixed-radix order, each exactly once.
    pub fn next(&mut self) -> (r: Option<Vec<u8>>)
        requires
            old(self).wf(),
        ensures
            final(self).wf(),
            final(self).alphabet() == old(self).alphabet(),
            final(self).length() == old(self).length(),
            match r {
                Option::Some(c) => {
                    &&& old(self).position() < old(self).space()
                    &&& c@ == cand_at(
                        old(self).alphabet(),
                        old(self).length(),
                        old(self).position(),
                    )
                    &&& final(self).position() == old(self).position() + 1
                },
                Option::None => {
                    &&& old(self).position() == old(self).space()
                    &&& final(self).position() == old(self).position()
                },
            },
    {
        let n = self.universe.len();
        let ghost alpha = self.universe@;
        if !self.started {
            self.started = true;
            proof {
                lemma_val_zeros(self.cursor(), n as nat);
                lemma_pow_pos(n as nat, self.size as nat);
                lemma_digits_of_val(self.cursor(), n as nat);
                assert(cand_at(alpha, self.size as nat, 0) =~= Seq::new(
                    self.size as nat,
                    |i: int| alpha[self.cursor()[i] as int],
                ));
            }
            let c = self.materialize();
            assert(c@ =~= cand_at(alpha, self.size as nat, 0));
            return Some(c);
        }
        let ghost before = self.cursor();
        let mut idx: usize = 0;
        while idx < self.size
            invariant_except_break
                self.wf(),
                self == old(self),
                n == self.universe@.len(),
                idx <= self.size,
                forall|t: int| 0 <= t < idx ==> self.cursor()[t] == n - 1,
            ensures
                self.wf(),
                self == old(self),
                n == self.universe@.len(),
                idx <= self.size,
                forall|t: int| 0 <= t < idx ==> self.cursor()[t] == n - 1,
                idx < self.size ==> self.prev@[idx as int] + 1 < n,
            decreases self.size - idx,
        {
            proof {
                assert(self.cursor()[idx as int] == self.prev@[idx as int] as nat);
                assert(self.cursor()[idx as int] < n as nat);
            }
            if self.prev[idx] + 1 < n {
                break ;
            }
            idx = idx + 1;
        }
        if idx == self.size {
            proof {
                lemma_val_all_max(self.cursor(), n as nat);
            }
            return None;
        }
        let mut t: usize = 0;
        while t < idx
            invariant
                t <= idx,
                idx < self.prev@.len(),
                self.prev@.len() == old(self).prev@.len(),
                self.universe@ == old(self).universe@,
                self.size == old(self).size,
                self.started == old(self).started,
                forall|u: int| 0 <= u < t ==> self.prev@[u] == 0,
                forall|u: int| t <= u < self.prev@.len() ==> self.prev@[u] == old(
                    self,
                ).prev@[u],
            decreases idx - t,
        {
            self.prev[t] = 0;
            t = t + 1;
        }
        proof {
            assert(self.prev@[idx as int] == old(self).prev@[idx as int]);
            assert(before[idx as int] == self.prev@[idx as int] as nat);
        }
        let stepped = self.prev[idx] + 1;
        self.prev[idx] = stepped;
        proof {
            assert(self.cursor() =~= incremented(before, idx as int));
            lemma_val_increment(before, n as nat, idx as int);
            lemma_val_bound(self.cursor(), n as nat);
            lemma_digits_of_val(self.cursor(), n as nat);
            assert(cand_at(alpha, self.size as nat, radix_val(self.cursor(), n as nat)) =~= Seq::new(
                self.size as nat,
                |i: int| alpha[self.cursor()[i] as int],
            ));
        }
        let c = self.materialize();
        assert(c@ =~= cand_at(alpha, self.size as nat, old(self).position()));
        Some(c)
    }

    /// Copies the enumerator: an independent cursor at the same position,
    /// sharing no mutable state with the original.
    pub fn fork(&self) -> (r: Self)
        requires
            self.wf(),
        ensures
            r.wf(),
            r.alphabet() == self.alphabet(),
            r.length() == self.length(),
            r.position() == self.position(),
    {
        let universe = self.universe.clone();
        let prev = self.prev.clone();
        assert(universe@ =~= self.universe@);
        assert(prev@ =~= self.prev@);
        let r = PermutationIterator { universe, size: self.size, prev, started: self.started };
        assert(r.cursor() =~= self.cursor());
        r
    }

    /// Fast-forwards over the next `k` candidates (or fewer, if the space
    /// ends first) by advancing step by step; there is no seeking.
    pub fn skip(&mut self, k: usize)
        requires
            old(self).wf(),
        ensures
            final(self).wf(),
            final(self).alphabet() == old(self).alphabet(),
            final(self).length() == old(self).length(),
            final(self).position() == min_nat((old(self).position() + k) as nat, old(self).space()),
    {
        proof {
            self.lemma_position_le_space();
        }
        let mut t: usize = 0;
        while t < k
            invariant_except_break
                self.wf(),
                self.alphabet() == old(self).alphabet(),
                self.length() == old(self).length(),
                t <= k,
                self.position() == old(self).position() + t,
                self.position() <= self.space(),
            ensures
                self.wf(),
                self.alphabet() == old(self).alphabet(),
                self.length() == old(self).length(),
                self.position() == min_nat((old(self).position() + k) as nat, old(self).space()),
            decreases k - t,
        {
            let r = self.next();
            if r.is_none() {
                break ;
            }
            t = t + 1;
        }
    }
}

/// Builds the enumerator over `universe` for candidates of length `size`,
/// positioned before the first candidate: the alphabet's first symbol
/// repeated `size` times is produced first, before any increment runs.
pub fn permutations(universe: &[u8], size: usize) -> (r: PermutationIterator)
    requires
        universe@.len() >= 1,
        size >= 1,
        size + BLOCK_SIZE <= usize::MAX,
    ensures
        r.wf(),
        r.alphabet() == universe@,
        r.length() == size as nat,
        r.position() == 0,
{
    let mut uni: Vec<u8> = Vec::new();
    uni.extend_from_slice(universe);
    assert(uni@ =~= universe@);
    let mut prev: Vec<usize> = Vec::new();
    for k in 0..size
        invariant
            prev@.len() == k,
            forall|t: int| 0 <= t < k ==> prev@[t] == 0,
    {
        prev.push(0);
    }
    PermutationIterator { universe: uni, size, prev, started: false }
}

/// Forking an enumerator keeps its position, and skipping advances the
/// position, capped at the end of the space. Hence a fork taken at position
/// `p` and skipped `k` more sits at the same position as a fresh enumerator
/// skipped `p + k` times, and `next`'s contract makes both produce the same
/// candidate: the candidate of a step is a function of the position alone.
pub proof fn lemma_forked_cursor_equivalence(p: nat, k: nat, space: nat)
    ensures
        min_nat(min_nat(p, space) + k, space) == min_nat(p + k, space),
{
}

} // verus!
