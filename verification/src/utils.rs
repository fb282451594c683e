//! Byte-level framing of a message into whole blocks: a single `0x80`
//! delimiter byte followed by zero bytes, up to the smallest multiple of
//! `BLOCK_SIZE` strictly greater than the message length. No message is left
//! unpadded: a message that already fills its last block gains a whole extra
//! block.
use vstd::prelude::*;

use crate::BLOCK_SIZE;

verus! {

/// Length of the padded form of a message of `len` bytes: the smallest
/// multiple of the block size strictly greater than `len`.
pub open spec fn padded_len(len: nat) -> nat {
    (len / (BLOCK_SIZE as nat) + 1) * (BLOCK_SIZE as nat)
}

/// The padded form of `m`: the message, one `0x80` delimiter, then zeros up
/// to a whole number of blocks.
pub open spec fn spec_pad(m: Seq<u8>) -> Seq<u8> {
    Seq::new(
        padded_len(m.len()),
        |i: int|
            if i < m.len() {
                m[i]
            } else if i == m.len() {
                0x80u8
            } else {
                0u8
            },
    )
}

/// Padding strictly grows the input by at least the delimiter byte and
/// always completes the last block.
pub proof fn lemma_padding_grows(m: Seq<u8>)
    ensures
        spec_pad(m).len() % (BLOCK_SIZE as nat) == 0,
        spec_pad(m).len() > m.len(),
        spec_pad(m).len() <= m.len() + BLOCK_SIZE,
{
    let len = m.len();
    let b = BLOCK_SIZE as nat;
    vstd::arithmetic::div_mod::lemma_fundamental_div_mod(len as int, b as int);
    assert((len / b + 1) * b == (len / b) * b + b) by (nonlinear_arith);
    vstd::arithmetic::div_mod::lemma_mod_multiples_basic(len as int / b as int + 1, b as int);
}

/// Pads `input` in place.
pub fn add_padding(input: &mut Vec<u8>)
    requires
        old(input)@.len() + BLOCK_SIZE <= usize::MAX,
    ensures
        final(input)@ == spec_pad(old(input)@),
{
    proof {
        lemma_padding_grows(old(input)@);
    }
    let payload_size = input.len();
    let blocks = payload_size / BLOCK_SIZE + 1;
    let bytes = blocks * BLOCK_SIZE;
    input.resize(bytes, 0u8);
    input[payload_size] = 0x80;
    assert(input@ =~= spec_pad(old(input)@));
}

/// Returns the padded form of `x`, leaving `x` untouched.
pub fn apply_padding(x: &[u8]) -> (r: Vec<u8>)
    requires
        x@.len() + BLOCK_SIZE <= usize::MAX,
    ensures
        r@ == spec_pad(x@),
{
    let mut y: Vec<u8> = Vec::new();
    y.extend_from_slice(x);
    assert(y@ =~= x@);
    add_padding(&mut y);
    y
}

} // verus!
