//! Preimage search over the candidate space: walk a contiguous range of the
//! enumerator, hash every candidate, and return the first one whose digest
//! equals the target.
//!
//! The space of `alphabet_len ^ size` candidates is split into `workers`
//! chunks of `alphabet_len ^ size / workers` candidates each (integer
//! division: the remainder at the tail of the space is assigned to nobody —
//! a known coverage gap of the chunking scheme, not an error). Each worker
//! searches its own fork of the enumerator, so no state is shared.
use vstd::prelude::*;

use crate::BLOCK_SIZE;
use crate::hash;
use crate::permutation::PermutationIterator;
use crate::permutation::cand_at;
use crate::permutation::min_nat;
use crate::permutation::permutations;
use crate::permutation::pow;
use crate::spec_hash;
use vstd::arithmetic::div_mod::lemma_fundamental_div_mod;
use vstd::arithmetic::div_mod::lemma_mod_bound;
use vstd::arithmetic::div_mod::lemma_multiply_divide_lt;

verus! {

/// Some candidate of a step in `[lo, hi)` hashes to `d`.
pub open spec fn has_match(alpha: Seq<u8>, s: nat, d: Seq<u16>, lo: nat, hi: nat) -> bool {
    exists|p: nat| lo <= p < hi && #[trigger] spec_hash(cand_at(alpha, s, p)) == d
}

/// Lane-wise digest comparison.
pub fn digest_eq(a: &Vec<u16>, b: &Vec<u16>) -> (r: bool)
    ensures
        r <==> a@ == b@,
{
    if a.len() != b.len() {
        return false;
    }
    let mut i: usize = 0;
    while i < a.len()
        invariant
            i <= a@.len(),
            a@.len() == b@.len(),
            forall|t: int| 0 <= t < i ==> a@[t] == b@[t],
        decreases a@.len() - i,
    {
        if a[i] != b[i] {
            return false;
        }
        i = i + 1;
    }
    proof {
        assert(a@ =~= b@);
    }
    true
}

/// Walks up to `count` candidates from the enumerator's current position and
/// returns the first whose hash equals `expected`, or `None` when the range
/// holds no match. On success the enumerator rests just past the match; on
/// failure it rests at the end of the range.
pub fn reverse_hash(iter: &mut PermutationIterator, count: usize, expected: &Vec<u16>) -> (r:
    Option<Vec<u8>>)
    requires
        old(iter).wf(),
        expected@.len() == 8,
    ensures
        final(iter).wf(),
        final(iter).alphabet() == old(iter).alphabet(),
        final(iter).length() == old(iter).length(),
        match r {
            Option::Some(c) => exists|p: nat|
                {
                    &&& old(iter).position() <= p
                    &&& p < min_nat((old(iter).position() + count) as nat, old(iter).space())
                    &&& c@ == #[trigger] cand_at(old(iter).alphabet(), old(iter).length(), p)
                    &&& spec_hash(c@) == expected@
                    &&& (forall|q: nat|
                        old(iter).position() <= q < p ==> spec_hash(
                            #[trigger] cand_at(old(iter).alphabet(), old(iter).length(), q),
                        ) != expected@)
                    &&& final(iter).position() == p + 1
                },
            Option::None => {
                &&& !has_match(
                    old(iter).alphabet(),
                    old(iter).length(),
                    expected@,
                    old(iter).position(),
                    min_nat((old(iter).position() + count) as nat, old(iter).space()),
                )
                &&& final(iter).position() == min_nat(
                    (old(iter).position() + count) as nat,
                    old(iter).space(),
                )
            },
        },
{
    let ghost alpha = old(iter).alphabet();
    let ghost s = old(iter).length();
    let ghost lo = old(iter).position();
    let ghost space = old(iter).space();
    proof {
        iter.lemma_position_le_space();
        iter.lemma_wf_bounds();
    }
    let mut i: usize = 0;
    while i < count
        invariant_except_break
            iter.wf(),
            alpha == old(iter).alphabet(),
            s == old(iter).length(),
            lo == old(iter).position(),
            space == old(iter).space(),
            iter.alphabet() == alpha,
            iter.length() == s,
            iter.space() == space,
            s + BLOCK_SIZE <= usize::MAX,
            expected@.len() == 8,
            i <= count,
            iter.position() == lo + i,
            iter.position() <= space,
            forall|q: nat|
                lo <= q < lo + i ==> spec_hash(#[trigger] cand_at(alpha, s, q)) != expected@,
        ensures
            iter.wf(),
            iter.alphabet() == alpha,
            iter.length() == s,
            iter.position() == min_nat((lo + count) as nat, space),
            forall|q: nat|
                lo <= q < min_nat((lo + count) as nat, space) ==> spec_hash(
                    #[trigger] cand_at(alpha, s, q),
                ) != expected@,
        decreases count - i,
    {
        let nxt = iter.next();
        match nxt {
            Option::None => {
                break ;
            },
            Option::Some(c) => {
                assert(c@.len() == s);
                let d = hash(c.as_slice());
                if digest_eq(&d, expected) {
                    proof {
                        assert(spec_hash(cand_at(alpha, s, (lo + i) as nat)) == expected@);
                    }
                    return Some(c);
                }
            },
        }
        i = i + 1;
    }
    None
}

/// The number of candidates in the whole space: `n ^ s`.
pub fn space_size(n: usize, s: usize) -> (r: usize)
    requires
        pow(n as nat, s as nat) <= usize::MAX,
    ensures
        r as nat == pow(n as nat, s as nat),
{
    let mut r: usize = 1;
    let mut k: usize = 0;
    while k < s
        invariant
            k <= s,
            r as nat == pow(n as nat, k as nat),
            pow(n as nat, s as nat) <= usize::MAX,
        decreases s - k,
    {
        proof {
            let pk = pow(n as nat, k as nat);
            let pk1 = pow(n as nat, (k + 1) as nat);
            assert(pk1 == n as nat * pk);
            assert(r as int * n as int == pk1) by (nonlinear_arith)
                requires
                    r as nat == pk,
                    pk1 == n as nat * pk,
            ;
            if n >= 1 {
                lemma_pow_monotone(n as nat, (k + 1) as nat, s as nat);
            } else {
                assert(pk1 == 0);
            }
        }
        r = r * n;
        k = k + 1;
    }
    r
}

/// With a fixed base of at least one, the power grows with the exponent.
pub proof fn lemma_pow_monotone(n: nat, a: nat, b: nat)
    requires
        n >= 1,
        a <= b,
    ensures
        pow(n, a) <= pow(n, b),
    decreases b - a,
{
    if a < b {
        lemma_pow_monotone(n, a, (b - 1) as nat);
        crate::permutation::lemma_pow_pos(n, (b - 1) as nat);
        assert(pow(n, b) == n * pow(n, (b - 1) as nat));
        assert(n * pow(n, (b - 1) as nat) >= pow(n, (b - 1) as nat)) by (nonlinear_arith)
            requires
                n >= 1,
                pow(n, (b - 1) as nat) >= 1,
        ;
    }
}

/// How many candidates each of `workers` workers is assigned: the space
/// size divided by the worker count, rounded down. The remainder, at most
/// `workers - 1` trailing candidates, is assigned to no worker.
pub fn chunk_size(n: usize, s: usize, workers: usize) -> (r: usize)
    requires
        workers >= 1,
        pow(n as nat, s as nat) <= usize::MAX,
    ensures
        r as nat == pow(n as nat, s as nat) / workers as nat,
{
    let total = space_size(n, s);
    total / workers
}

/// The contiguous sub-range of the space assigned to each worker: worker `k`
/// starts at `k * chunk` and covers `chunk` candidates.
pub fn worker_ranges(n: usize, s: usize, workers: usize) -> (r: Vec<(usize, usize)>)
    requires
        workers >= 1,
        pow(n as nat, s as nat) <= usize::MAX,
    ensures
        r@.len() == workers,
        forall|k: int|
            0 <= k < workers ==> (#[trigger] r@[k]).0 == k * (pow(n as nat, s as nat)
                / workers as nat) && r@[k].1 == pow(n as nat, s as nat) / workers as nat,
{
    let chunk = chunk_size(n, s, workers);
    let ghost total = pow(n as nat, s as nat);
    proof {
        lemma_fundamental_div_mod(total as int, workers as int);
        lemma_mod_bound(total as int, workers as int);
        assert(workers as int * (chunk as int) <= total);
    }
    let mut r: Vec<(usize, usize)> = Vec::new();
    let mut k: usize = 0;
    while k < workers
        invariant
            k <= workers,
            r@.len() == k,
            chunk as nat == total / workers as nat,
            workers as int * (chunk as int) <= total <= usize::MAX,
            forall|t: int|
                0 <= t < k ==> (#[trigger] r@[t]).0 == t * chunk as nat && r@[t].1 == chunk as nat,
        decreases workers - k,
    {
        proof {
            assert(k as int * chunk as int <= workers as int * chunk as int) by (nonlinear_arith)
                requires
                    0 <= k as int <= workers as int,
                    chunk as int >= 0,
            ;
        }
        let start = k * chunk;
        r.push((start, chunk));
        k = k + 1;
    }
    r
}

/// Searches the sub-range of the candidate space that starts `start` steps
/// into the enumeration and spans up to `count` candidates: what one worker
/// does for one job. Returns a candidate of the range whose hash equals
/// `target`, and `None` exactly when the range holds no match.
pub fn search_range(universe: &[u8], size: usize, start: usize, count: usize, target: &Vec<
    u16,
>) -> (r: Option<Vec<u8>>)
    requires
        universe@.len() >= 1,
        size >= 1,
        size + BLOCK_SIZE <= usize::MAX,
        target@.len() == 8,
    ensures
        match r {
            Option::Some(c) => {
                &&& spec_hash(c@) == target@
                &&& c@.len() == size
                &&& exists|p: nat|
                    min_nat(start as nat, pow(universe@.len(), size as nat)) <= p < min_nat(
                        (start + count) as nat,
                        pow(universe@.len(), size as nat),
                    ) && c@ == #[trigger] cand_at(universe@, size as nat, p)
                &&& has_match(
                    universe@,
                    size as nat,
                    target@,
                    min_nat(start as nat, pow(universe@.len(), size as nat)),
                    min_nat((start + count) as nat, pow(universe@.len(), size as nat)),
                )
            },
            Option::None => !has_match(
                universe@,
                size as nat,
                target@,
                min_nat(start as nat, pow(universe@.len(), size as nat)),
                min_nat((start + count) as nat, pow(universe@.len(), size as nat)),
            ),
        },
{
    let mut iter = permutations(universe, size);
    iter.skip(start);
    reverse_hash(&mut iter, count, target)
}

/// If a candidate within the portion of the space that the workers cover
/// hashes to the target, then some worker's chunk holds a match, and by
/// `reverse_hash`'s contract that worker's search of its chunk returns a
/// candidate whose hash equals the target.
pub proof fn lemma_search_coverage(alpha: Seq<u8>, s: nat, d: Seq<u16>, workers: nat, p: nat)
    requires
        workers >= 1,
        p < (pow(alpha.len(), s) / workers) * workers,
        spec_hash(cand_at(alpha, s, p)) == d,
    ensures
        exists|k: nat|
            k < workers && #[trigger] has_match(
                alpha,
                s,
                d,
                k * (pow(alpha.len(), s) / workers),
                k * (pow(alpha.len(), s) / workers) + pow(alpha.len(), s) / workers,
            ),
{
    let chunk = pow(alpha.len(), s) / workers;
    assert(chunk >= 1) by (nonlinear_arith)
        requires
            p < chunk * workers,
            p >= 0,
            chunk >= 0,
    ;
    let k = p / chunk;
    lemma_fundamental_div_mod(p as int, chunk as int);
    lemma_mod_bound(p as int, chunk as int);
    assert(p < chunk * workers);
    assert(k < workers) by {
        lemma_multiply_divide_lt(p as int, chunk as int, workers as int);
    }
    assert(k * chunk <= p < k * chunk + chunk);
    assert(has_match(alpha, s, d, k * chunk, k * chunk + chunk));
}

} // verus!
