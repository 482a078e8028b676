//! The transfer payload decoder.
//!
//! Payloads follow a fixed external binary layout produced by a foreign
//! call-encoding convention.  The decoder extracts three structured fields at
//! fixed offsets: a recipient field (one length/tag prefix byte at offset 159
//! and a 56-byte window at 160..216), a token field (prefix byte at offset
//! 255, window at 256..312), and a 128-bit amount read from bytes 112..128 as
//! an unsigned big-endian base-256 number folded into a signed 128-bit
//! accumulator.  The offsets are an external-format contract: any drift
//! silently corrupts the fields, so they are pinned here once and proved
//! against the executable code.

use vstd::arithmetic::power2::{lemma2_to64, lemma_pow2_adds, pow2};
use vstd::prelude::*;

verus! {

/// The structured fields extracted from a raw transfer payload.
#[derive(Clone, Debug)]
pub struct DecodedTransferData {
    pub recipient: Vec<u8>,
    pub token: Vec<u8>,
    pub amount: i128,
}

/// The recipient field: its prefix byte followed by its fixed byte window.
pub open spec fn spec_recipient_field(p: Seq<u8>) -> Seq<u8> {
    seq![p[159]] + p.subrange(160, 216)
}

/// The token field: its prefix byte followed by its fixed byte window.
pub open spec fn spec_token_field(p: Seq<u8>) -> Seq<u8> {
    seq![p[255]] + p.subrange(256, 312)
}

/// The first `k` amount bytes folded big-endian: each byte multiplies the
/// accumulator by 256 and is added on.
pub open spec fn spec_amount_fold(p: Seq<u8>, k: int) -> int
    decreases k,
{
    if k <= 0 {
        0
    } else {
        spec_amount_fold(p, k - 1) * 256 + p[112 + k - 1]
    }
}

/// The amount: all 16 bytes folded, then carried into a signed 128-bit value
/// (two's complement, as the fold into a signed accumulator wraps).
pub open spec fn spec_amount(p: Seq<u8>) -> i128 {
    (spec_amount_fold(p, 16) as u128) as i128
}

/// The fold of `k` bytes stays below 2^(8k).
pub proof fn lemma_amount_fold_bound(p: Seq<u8>, k: int)
    requires
        0 <= k <= 16,
    ensures
        0 <= spec_amount_fold(p, k) < pow2((8 * k) as nat),
    decreases k,
{
    lemma2_to64();
    if k == 0 {
    } else {
        lemma_amount_fold_bound(p, k - 1);
        lemma_pow2_adds((8 * (k - 1)) as nat, 8);
        let acc = spec_amount_fold(p, k - 1);
        let b = p[112 + k - 1] as int;
        assert(acc * 256 + b < pow2((8 * (k - 1)) as nat) * 256) by (nonlinear_arith)
            requires
                acc < pow2((8 * (k - 1)) as nat),
                0 <= b < 256,
        ;
        assert(0 <= acc * 256 + b) by (nonlinear_arith)
            requires
                0 <= acc,
                0 <= b,
        ;
    }
}

/// Decodes a raw payload.  A payload shorter than 312 bytes fails, always and
/// deterministically; a long enough payload always decodes, and every field
/// of the result is a function of the payload bytes alone.
pub fn decode_transfer_data(transfer_bytes: &Vec<u8>) -> (r: Option<DecodedTransferData>)
    ensures
        r is Some <==> transfer_bytes@.len() >= 312,
        r matches Some(d) ==> {
            &&& d.recipient@ == spec_recipient_field(transfer_bytes@)
            &&& d.token@ == spec_token_field(transfer_bytes@)
            &&& d.amount == spec_amount(transfer_bytes@)
        },
{
    if transfer_bytes.len() < 312 {
        return None;
    }
    let mut recipient: Vec<u8> = Vec::new();
    recipient.push(transfer_bytes[159]);
    let mut i: usize = 160;
    while i < 216
        invariant
            160 <= i <= 216,
            transfer_bytes@.len() >= 312,
            recipient@ == seq![transfer_bytes@[159]] + transfer_bytes@.subrange(160, i as int),
        decreases 216 - i,
    {
        recipient.push(transfer_bytes[i]);
        assert(recipient@ =~= seq![transfer_bytes@[159]] + transfer_bytes@.subrange(
            160,
            i + 1,
        ));
        i = i + 1;
    }
    let mut token: Vec<u8> = Vec::new();
    token.push(transfer_bytes[255]);
    let mut j: usize = 256;
    while j < 312
        invariant
            256 <= j <= 312,
            transfer_bytes@.len() >= 312,
            token@ == seq![transfer_bytes@[255]] + transfer_bytes@.subrange(256, j as int),
        decreases 312 - j,
    {
        token.push(transfer_bytes[j]);
        assert(token@ =~= seq![transfer_bytes@[255]] + transfer_bytes@.subrange(256, j + 1));
        j = j + 1;
    }
    let mut acc: u128 = 0;
    let mut k: usize = 0;
    while k < 16
        invariant
            0 <= k <= 16,
            transfer_bytes@.len() >= 312,
            acc as int == spec_amount_fold(transfer_bytes@, k as int),
        decreases 16 - k,
    {
        proof {
            lemma_amount_fold_bound(transfer_bytes@, k + 1);
            lemma_pow2_adds(64, 64);
            lemma2_to64();
            if 8 * (k + 1) < 128 {
                vstd::arithmetic::power2::lemma_pow2_strictly_increases(
                    (8 * (k + 1)) as nat,
                    128,
                );
            }
            assert(pow2(128) == 0x100000000000000000000000000000000);
            assert(spec_amount_fold(transfer_bytes@, k + 1) == acc * 256 + transfer_bytes@[
                112 + k
            ]);
        }
        acc = acc * 256 + (transfer_bytes[112 + k] as u128);
        k = k + 1;
    }
    let amount: i128 = #[verifier::truncate] (acc as i128);
    proof {
        assert(recipient@ =~= spec_recipient_field(transfer_bytes@));
        assert(token@ =~= spec_token_field(transfer_bytes@));
    }
    Some(DecodedTransferData { recipient, token, amount })
}

/// The decoder is pure: what it yields is a function of the payload bytes
/// alone, so byte-identical payloads always decode to identical fields.
pub proof fn lemma_decoder_pure(p1: Seq<u8>, p2: Seq<u8>)
    requires
        p1 == p2,
    ensures
        spec_recipient_field(p1) == spec_recipient_field(p2),
        spec_token_field(p1) == spec_token_field(p2),
        spec_amount(p1) == spec_amount(p2),
{
}

} // verus!
