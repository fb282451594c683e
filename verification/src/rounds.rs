//! The permutation core: five round steps (theta, rho, pi, chi, iota) on a
//! 5x5 matrix of 16-bit lanes, stored row-major as 25 lanes, and their
//! composition into the full ten-round permutation.
//!
//! The lane at row `i`, column `j` sits at index `5 * i + j`.
use vstd::prelude::*;

verus! {

/// The ten round constants, consumed in order, one per round.
pub open spec fn rc(i: int) -> u16 {
    if i == 0 {
        0x3EC2
    } else if i == 1 {
        0x738D
    } else if i == 2 {
        0xB119
    } else if i == 3 {
        0xC5E7
    } else if i == 4 {
        0x86C6
    } else if i == 5 {
        0xDC1B
    } else if i == 6 {
        0x57D6
    } else if i == 7 {
        0xDA3A
    } else if i == 8 {
        0x7710
    } else {
        0x9200
    }
}

pub fn round_constant(i: usize) -> (r: u16)
    requires
        i < 10,
    ensures
        r == rc(i as int),
{
    if i == 0 {
        0x3EC2
    } else if i == 1 {
        0x738D
    } else if i == 2 {
        0xB119
    } else if i == 3 {
        0xC5E7
    } else if i == 4 {
        0x86C6
    } else if i == 5 {
        0xDC1B
    } else if i == 6 {
        0x57D6
    } else if i == 7 {
        0xDA3A
    } else if i == 8 {
        0x7710
    } else {
        0x9200
    }
}

/// Left rotation of a 16-bit lane by `k` bit positions, `k < 16`.
pub open spec fn spec_rotl(x: u16, k: u16) -> u16 {
    if k == 0 {
        x
    } else {
        (x << k) | (x >> (16 - k))
    }
}

pub fn rotl(x: u16, k: u16) -> (r: u16)
    requires
        k < 16,
    ensures
        r == spec_rotl(x, k),
{
    if k == 0 {
        x
    } else {
        (x << k) | (x >> (16 - k))
    }
}

/// Parity of the five lanes of row `i`.
pub open spec fn column_parity(a: Seq<u16>, i: int) -> u16 {
    a[5 * i] ^ a[5 * i + 1] ^ a[5 * i + 2] ^ a[5 * i + 3] ^ a[5 * i + 4]
}

/// The mask that theta folds into every lane of row `i`.
pub open spec fn diffusion_mask(a: Seq<u16>, i: int) -> u16 {
    column_parity(a, (i + 4) % 5) ^ spec_rotl(column_parity(a, (i + 1) % 5), 1)
}

/// Theta: every lane of row `i` absorbs the mask of row `i`.
pub open spec fn spec_theta(a: Seq<u16>) -> Seq<u16> {
    Seq::new(25, |k: int| a[k] ^ diffusion_mask(a, k / 5))
}

/// Rho: the lane at row `i`, column `j` rotates left by `(7 * i + j) % 16`.
pub open spec fn spec_rho(a: Seq<u16>) -> Seq<u16> {
    Seq::new(25, |k: int| spec_rotl(a[k], (((7 * (k / 5) + k % 5)) % 16) as u16))
}

/// Pi: the lane that ends up at row `x`, column `y` came from row `y`,
/// column `(3 * x + y) % 5`; equivalently, the lane at `(i, j)` moves to
/// `((3 * i + 2 * j) % 5, i)`.
pub open spec fn spec_pi(a: Seq<u16>) -> Seq<u16> {
    Seq::new(25, |k: int| a[5 * (k % 5) + (3 * (k / 5) + k % 5) % 5])
}

/// Chi: the lane at `(i, j)` becomes `b[i][j] ^ (!b[i+1][j] & b[i+2][j])`,
/// rows taken cyclically.
pub open spec fn spec_chi(b: Seq<u16>) -> Seq<u16> {
    Seq::new(
        25,
        |k: int| b[k] ^ ((!b[5 * ((k / 5 + 1) % 5) + k % 5]) & b[5 * ((k / 5 + 2) % 5) + k % 5]),
    )
}

/// Iota: the round constant of round `r` folds into the lane at `(0, 0)`.
pub open spec fn spec_iota(a: Seq<u16>, r: int) -> Seq<u16> {
    a.update(0, a[0] ^ rc(r))
}

/// One full round in fixed order: theta, rho, pi, chi, iota.
pub open spec fn spec_round(a: Seq<u16>, r: int) -> Seq<u16> {
    spec_iota(spec_chi(spec_pi(spec_rho(spec_theta(a)))), r)
}

/// The state after the first `k` rounds, rounds applied in index order.
pub open spec fn spec_rounds(a: Seq<u16>, k: nat) -> Seq<u16>
    decreases k,
{
    if k == 0 {
        a
    } else {
        spec_round(spec_rounds(a, (k - 1) as nat), k - 1)
    }
}

/// The full permutation: ten rounds.
pub open spec fn spec_permutation(a: Seq<u16>) -> Seq<u16> {
    spec_rounds(a, 10)
}

pub fn theta(a: &mut Vec<u16>)
    requires
        old(a)@.len() == 25,
    ensures
        final(a)@ == spec_theta(old(a)@),
{
    let mut parity: Vec<u16> = Vec::new();
    for i in 0..5
        invariant
            a@ == old(a)@,
            a@.len() == 25,
            parity@.len() == i,
            forall|t: int| 0 <= t < i ==> parity@[t] == column_parity(a@, t),
    {
        let v = a[5 * i] ^ a[5 * i + 1] ^ a[5 * i + 2] ^ a[5 * i + 3] ^ a[5 * i + 4];
        parity.push(v);
    }
    let mut mask: Vec<u16> = Vec::new();
    for i in 0..5
        invariant
            a@ == old(a)@,
            a@.len() == 25,
            parity@.len() == 5,
            forall|t: int| 0 <= t < 5 ==> parity@[t] == column_parity(a@, t),
            mask@.len() == i,
            forall|t: int| 0 <= t < i ==> mask@[t] == diffusion_mask(a@, t),
    {
        let v = parity[(i + 4) % 5] ^ rotl(parity[(i + 1) % 5], 1);
        mask.push(v);
    }
    for k in 0..25
        invariant
            a@.len() == 25,
            mask@.len() == 5,
            forall|t: int| 0 <= t < 5 ==> mask@[t] == diffusion_mask(old(a)@, t),
            forall|t: int| k <= t < 25 ==> a@[t] == old(a)@[t],
            forall|t: int| 0 <= t < k ==> a@[t] == spec_theta(old(a)@)[t],
    {
        a[k] = a[k] ^ mask[k / 5];
    }
    assert(a@ =~= spec_theta(old(a)@));
}

pub fn rho(a: &mut Vec<u16>)
    requires
        old(a)@.len() == 25,
    ensures
        final(a)@ == spec_rho(old(a)@),
{
    for k in 0..25
        invariant
            a@.len() == 25,
            forall|t: int| k <= t < 25 ==> a@[t] == old(a)@[t],
            forall|t: int| 0 <= t < k ==> a@[t] == spec_rho(old(a)@)[t],
    {
        let amount: u16 = ((7 * (k / 5) + k % 5) % 16) as u16;
        a[k] = rotl(a[k], amount);
    }
    assert(a@ =~= spec_rho(old(a)@));
}

pub fn pi(a: &Vec<u16>, b: &mut Vec<u16>)
    requires
        a@.len() == 25,
        old(b)@.len() == 25,
    ensures
        final(b)@ == spec_pi(a@),
{
    for k in 0..25
        invariant
            a@.len() == 25,
            b@.len() == 25,
            forall|t: int| 0 <= t < k ==> b@[t] == spec_pi(a@)[t],
    {
        b[k] = a[5 * (k % 5) + (3 * (k / 5) + k % 5) % 5];
    }
    assert(b@ =~= spec_pi(a@));
}

pub fn chi(a: &mut Vec<u16>, b: &Vec<u16>)
    requires
        old(a)@.len() == 25,
        b@.len() == 25,
    ensures
        final(a)@ == spec_chi(b@),
{
    for k in 0..25
        invariant
            a@.len() == 25,
            b@.len() == 25,
            forall|t: int| 0 <= t < k ==> a@[t] == spec_chi(b@)[t],
    {
        a[k] = b[k] ^ ((!b[5 * ((k / 5 + 1) % 5) + k % 5]) & b[5 * ((k / 5 + 2) % 5) + k % 5]);
    }
    assert(a@ =~= spec_chi(b@));
}

pub fn iota(i: usize, a: &mut Vec<u16>)
    requires
        i < 10,
        old(a)@.len() == 25,
    ensures
        final(a)@ == spec_iota(old(a)@, i as int),
{
    a[0] = a[0] ^ round_constant(i);
    assert(a@ =~= spec_iota(old(a)@, i as int));
}

pub fn apply_round(round: usize, a: &mut Vec<u16>)
    requires
        round < 10,
        old(a)@.len() == 25,
    ensures
        final(a)@ == spec_round(old(a)@, round as int),
{
    theta(a);
    rho(a);
    let mut b: Vec<u16> = Vec::new();
    for _k in 0..25
        invariant
            b@.len() == _k,
    {
        b.push(0);
    }
    pi(a, &mut b);
    chi(a, &b);
    iota(round, a);
}

pub fn apply_all_rounds(a: &mut Vec<u16>)
    requires
        old(a)@.len() == 25,
    ensures
        final(a)@ == spec_permutation(old(a)@),
{
    for round in 0..10
        invariant
            a@.len() == 25,
            a@ == spec_rounds(old(a)@, round as nat),
    {
        apply_round(round, a);
    }
}

} // verus!
