//! The commitment to the whole shielded state that a block header carries.

use crate::bytes::{
    le_bytes, lemma_concat_injective, lemma_le_bytes_len, lemma_le_value_of_bytes, lemma_pow256,
    push_all, push_le,
};
use crate::hash::{blake2b, blake2b_256};
use vstd::prelude::*;

verus! {

/// Personalization of the shielded state root.
pub open spec fn state_root_personal() -> Seq<u8> {
    seq![
        0x66u8, 0x69, 0x72, 0x65, 0x63, 0x61, 0x73, 0x68, 0x5f, 0x73, 0x68, 0x6c, 0x64, 0x72, 0x74,
        0x30,
    ]
}

/// What the root is the digest of: the anchor, the nullifier accumulator and the two
/// supply totals, each at its fixed width.
pub open spec fn state_root_input(
    anchor: Seq<u8>,
    nullifier_root: Seq<u8>,
    coinbase: nat,
    fees: nat,
) -> Seq<u8> {
    anchor + nullifier_root + le_bytes(coinbase, 16) + le_bytes(fees, 16)
}

/// The root of the shielded state: one digest over the note-tree anchor, the nullifier
/// accumulator and the turnstile totals.
pub fn shielded_state_root(
    anchor: &[u8; 32],
    nullifier_root: &[u8; 32],
    cumulative_coinbase: u128,
    cumulative_fees: u128,
) -> (root: [u8; 32])
    ensures
        root@ == blake2b(
            state_root_personal(),
            32,
            state_root_input(
                anchor@,
                nullifier_root@,
                cumulative_coinbase as nat,
                cumulative_fees as nat,
            ),
        ),
{
    let mut input: Vec<u8> = Vec::new();
    push_all(&mut input, anchor);
    push_all(&mut input, nullifier_root);
    push_le(&mut input, cumulative_coinbase, 16);
    push_le(&mut input, cumulative_fees, 16);
    let personal: [u8; 16] = [
        0x66, 0x69, 0x72, 0x65, 0x63, 0x61, 0x73, 0x68, 0x5f, 0x73, 0x68, 0x6c, 0x64, 0x72, 0x74,
        0x30,
    ];
    proof {
        assert(personal@ =~= state_root_personal());
        assert(input@ =~= state_root_input(
            anchor@,
            nullifier_root@,
            cumulative_coinbase as nat,
            cumulative_fees as nat,
        ));
    }
    blake2b_256(&personal, input.as_slice())
}

/// The root covers every part: two states with the same digest input are the same state,
/// so no part can stand in for another.
pub proof fn state_root_input_is_injective(
    a1: Seq<u8>,
    n1: Seq<u8>,
    c1: nat,
    f1: nat,
    a2: Seq<u8>,
    n2: Seq<u8>,
    c2: nat,
    f2: nat,
)
    requires
        a1.len() == 32,
        a2.len() == 32,
        n1.len() == 32,
        n2.len() == 32,
        c1 <= u128::MAX,
        c2 <= u128::MAX,
        f1 <= u128::MAX,
        f2 <= u128::MAX,
        state_root_input(a1, n1, c1, f1) == state_root_input(a2, n2, c2, f2),
    ensures
        a1 == a2,
        n1 == n2,
        c1 == c2,
        f1 == f2,
{
    lemma_le_bytes_len(c1, 16);
    lemma_le_bytes_len(c2, 16);
    lemma_le_bytes_len(f1, 16);
    lemma_le_bytes_len(f2, 16);
    lemma_concat_injective(
        a1 + n1 + le_bytes(c1, 16),
        le_bytes(f1, 16),
        a2 + n2 + le_bytes(c2, 16),
        le_bytes(f2, 16),
    );
    lemma_concat_injective(a1 + n1, le_bytes(c1, 16), a2 + n2, le_bytes(c2, 16));
    lemma_concat_injective(a1, n1, a2, n2);
    lemma_pow256();
    lemma_le_value_of_bytes(c1, 16);
    lemma_le_value_of_bytes(c2, 16);
    lemma_le_value_of_bytes(f1, 16);
    lemma_le_value_of_bytes(f2, 16);
}

} // verus!
