//! A toy sponge-construction hash over a 400-bit state of 25 16-bit lanes,
//! together with a lazy enumerator of fixed-length strings over a byte
//! alphabet and a verified search for preimages of a target digest.
use vstd::prelude::*;

pub mod permutation;
pub mod search;
pub mod rounds;
pub mod utils;

verus! {

/// One absorbed block holds this many bytes (ten big-endian 16-bit words).
pub const BLOCK_SIZE: usize = 20;

/// A big-endian 16-bit word read from two bytes.
pub open spec fn spec_word(hi: u8, lo: u8) -> u16 {
    (hi * 256 + lo) as u16
}

/// The byte sequence `p` read as big-endian 16-bit words.
pub open spec fn spec_words(p: Seq<u8>) -> Seq<u16> {
    Seq::new(p.len() / 2, |i: int| spec_word(p[2 * i], p[2 * i + 1]))
}

/// The all-zero state: the hash is unkeyed.
pub open spec fn zero_state() -> Seq<u16> {
    Seq::new(25, |k: int| 0u16)
}

/// Block `blk` of `w` folded into the state: its first five words into row 0
/// and the next five into row 1; rows 2 to 4 are untouched capacity.
pub open spec fn xor_block(s: Seq<u16>, w: Seq<u16>, blk: int) -> Seq<u16> {
    Seq::new(
        25,
        |k: int|
            if k < 10 {
                s[k] ^ w[10 * blk + k]
            } else {
                s[k]
            },
    )
}

/// The state after the first `k` blocks of `w` have been absorbed in
/// sequence, each absorption followed by one full permutation.
pub open spec fn absorbed(w: Seq<u16>, k: nat) -> Seq<u16>
    decreases k,
{
    if k == 0 {
        zero_state()
    } else {
        rounds::spec_permutation(xor_block(absorbed(w, (k - 1) as nat), w, k - 1))
    }
}

/// The eight-lane digest of message `m`: after the last block, row 0 gives
/// digest lanes 0 to 4; one more permutation, and row 0 gives lanes 5 to 7.
pub open spec fn spec_hash(m: Seq<u8>) -> Seq<u16> {
    let w = spec_words(utils::spec_pad(m));
    let s1 = absorbed(w, w.len() / 10);
    let s2 = rounds::spec_permutation(s1);
    seq![s1[0], s1[1], s1[2], s1[3], s1[4], s2[0], s2[1], s2[2]]
}

/// The hash is deterministic: equal messages yield equal digests.
pub proof fn lemma_hash_deterministic(m1: Seq<u8>, m2: Seq<u8>)
    requires
        m1 == m2,
    ensures
        spec_hash(m1) == spec_hash(m2),
{
}

/// The all-zero starting state.
pub fn init_state() -> (a: Vec<u16>)
    ensures
        a@ == zero_state(),
{
    let mut a: Vec<u16> = Vec::new();
    for k in 0..25
        invariant
            a@.len() == k,
            forall|t: int| 0 <= t < k ==> a@[t] == 0u16,
    {
        a.push(0);
    }
    assert(a@ =~= zero_state());
    a
}

/// Reads the padded bytes as big-endian 16-bit words.
fn to_words(p: &Vec<u8>) -> (w: Vec<u16>)
    ensures
        w@ == spec_words(p@),
{
    let n = p.len() / 2;
    let mut w: Vec<u16> = Vec::new();
    let mut i: usize = 0;
    while i < n
        invariant
            n == p@.len() / 2,
            p@.len() <= usize::MAX,
            i <= n,
            w@.len() == i,
            forall|t: int| 0 <= t < i ==> w@[t] == spec_word(p@[2 * t], p@[2 * t + 1]),
        decreases n - i,
    {
        let v: u16 = (p[2 * i] as u16) * 256 + (p[2 * i + 1] as u16);
        w.push(v);
        i = i + 1;
    }
    assert(w@ =~= spec_words(p@));
    w
}

/// Folds block `blk` of `w` into the first ten lanes of the state.
fn absorb_block(a: &mut Vec<u16>, w: &Vec<u16>, blk: usize)
    requires
        old(a)@.len() == 25,
        10 * blk + 10 <= w@.len(),
    ensures
        final(a)@ == xor_block(old(a)@, w@, blk as int),
{
    let n = w.len();
    let base = 10 * blk;
    for k in 0..10
        invariant
            a@.len() == 25,
            old(a)@.len() == 25,
            base == 10 * blk,
            base + 10 <= n,
            n == w@.len(),
            forall|t: int| k <= t < 25 ==> a@[t] == old(a)@[t],
            forall|t: int| 0 <= t < k ==> a@[t] == xor_block(old(a)@, w@, blk as int)[t],
    {
        a[k] = a[k] ^ w[base + k];
    }
    assert(a@ =~= xor_block(old(a)@, w@, blk as int));
}

/// Hashes an arbitrary byte message into an eight-lane (128-bit) digest.
/// Total: every message, the empty one included, is padded to at least one
/// whole block and absorbed.
#[verifier::rlimit(50)]
pub fn hash(w: &[u8]) -> (digest: Vec<u16>)
    requires
        w@.len() + BLOCK_SIZE <= usize::MAX,
    ensures
        digest@ == spec_hash(w@),
        digest@.len() == 8,
{
    let padded = utils::apply_padding(w);
    let words = to_words(&padded);
    proof {
        utils::lemma_padding_grows(w@);
        assert(padded@.len() == (w@.len() / 20 + 1) * 20);
        assert(words@.len() == (padded@.len() / 2) as int);
        assert((w@.len() / 20 + 1) * 20 / 2 == (w@.len() / 20 + 1) * 10) by (nonlinear_arith);
        assert((w@.len() / 20 + 1) * 10 / 10 == w@.len() / 20 + 1) by (nonlinear_arith);
    }
    let nblocks = words.len() / 10;
    assert(10 * nblocks == words@.len());
    let mut a = init_state();
    for blk in 0..nblocks
        invariant
            words@ == spec_words(utils::spec_pad(w@)),
            10 * nblocks == words@.len(),
            a@.len() == 25,
            a@ == absorbed(words@, blk as nat),
    {
        absorb_block(&mut a, &words, blk);
        rounds::apply_all_rounds(&mut a);
    }
    let mut digest: Vec<u16> = Vec::new();
    digest.push(a[0]);
    digest.push(a[1]);
    digest.push(a[2]);
    digest.push(a[3]);
    digest.push(a[4]);
    rounds::apply_all_rounds(&mut a);
    digest.push(a[0]);
    digest.push(a[1]);
    digest.push(a[2]);
    assert(digest@ =~= spec_hash(w@));
    digest
}

} // verus!
