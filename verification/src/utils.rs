//! Big-endian encoding of identifiers.
//!
//! Identifiers are stored as their eight big-endian bytes so that index
//! keys sharing a field/value prefix group correctly under prefix scans.

use vstd::prelude::*;
use crate::err::Error;

verus! {

/// The eight big-endian bytes of a 64-bit value.
pub open spec fn be_bytes(value: u64) -> Seq<u8> {
    seq![
        (value >> 56) as u8,
        (value >> 48) as u8,
        (value >> 40) as u8,
        (value >> 32) as u8,
        (value >> 24) as u8,
        (value >> 16) as u8,
        (value >> 8) as u8,
        value as u8,
    ]
}

/// The 64-bit value read back from eight big-endian bytes.
pub open spec fn u64_of_be(s: Seq<u8>) -> u64
    recommends
        s.len() == 8,
{
    ((s[0] as u64) << 56) | ((s[1] as u64) << 48) | ((s[2] as u64) << 40)
        | ((s[3] as u64) << 32) | ((s[4] as u64) << 24) | ((s[5] as u64) << 16)
        | ((s[6] as u64) << 8) | (s[7] as u64)
}

/// Decoding the encoding of any 64-bit value returns the original value.
pub proof fn lemma_u64_round_trip(value: u64)
    ensures
        u64_of_be(be_bytes(value)) == value,
{
    assert((((((value >> 56) as u8) as u64) << 56)
        | ((((value >> 48) as u8) as u64) << 48)
        | ((((value >> 40) as u8) as u64) << 40)
        | ((((value >> 32) as u8) as u64) << 32)
        | ((((value >> 24) as u8) as u64) << 24)
        | ((((value >> 16) as u8) as u64) << 16)
        | ((((value >> 8) as u8) as u64) << 8)
        | ((value as u8) as u64)) == value) by (bit_vector);
}

/// Encoding the decoding of any eight bytes returns the same eight bytes.
pub proof fn lemma_be_round_trip(s: Seq<u8>)
    requires
        s.len() == 8,
    ensures
        be_bytes(u64_of_be(s)) == s,
{
    let b0 = s[0];
    let b1 = s[1];
    let b2 = s[2];
    let b3 = s[3];
    let b4 = s[4];
    let b5 = s[5];
    let b6 = s[6];
    let b7 = s[7];
    let v = ((b0 as u64) << 56) | ((b1 as u64) << 48) | ((b2 as u64) << 40)
        | ((b3 as u64) << 32) | ((b4 as u64) << 24) | ((b5 as u64) << 16)
        | ((b6 as u64) << 8) | (b7 as u64);
    assert(((v >> 56) as u8) == b0 && ((v >> 48) as u8) == b1 && ((v >> 40) as u8) == b2
        && ((v >> 32) as u8) == b3 && ((v >> 24) as u8) == b4 && ((v >> 16) as u8) == b5
        && ((v >> 8) as u8) == b6 && (v as u8) == b7) by (bit_vector)
        requires
            v == ((b0 as u64) << 56) | ((b1 as u64) << 48) | ((b2 as u64) << 40) | ((
            b3 as u64) << 32) | ((b4 as u64) << 24) | ((b5 as u64) << 16) | ((b6 as u64) << 8) | (
            b7 as u64),
    ;
    assert(be_bytes(u64_of_be(s)) =~= s);
}

/// Two distinct values never share an encoding.
pub proof fn lemma_be_bytes_injective(a: u64, b: u64)
    requires
        be_bytes(a) == be_bytes(b),
    ensures
        a == b,
{
    lemma_u64_round_trip(a);
    lemma_u64_round_trip(b);
}

/// Encode a 64-bit value as its eight big-endian bytes.
pub fn u64_to_bytes(value: u64) -> (r: [u8; 8])
    ensures
        r@ == be_bytes(value),
{
    let r: [u8; 8] = [
        #[verifier::truncate] ((value >> 56) as u8),
        #[verifier::truncate] ((value >> 48) as u8),
        #[verifier::truncate] ((value >> 40) as u8),
        #[verifier::truncate] ((value >> 32) as u8),
        #[verifier::truncate] ((value >> 24) as u8),
        #[verifier::truncate] ((value >> 16) as u8),
        #[verifier::truncate] ((value >> 8) as u8),
        #[verifier::truncate] (value as u8),
    ];
    proof {
        assert(r@ =~= be_bytes(value));
    }
    r
}

/// Decode eight big-endian bytes back into a 64-bit value; any other
/// length is rejected with a custom error.
pub fn bytes_to_u64(value: &[u8]) -> (r: Result<u64, Error>)
    ensures
        value@.len() == 8 ==> (r matches Ok(v) && v == u64_of_be(value@)),
        value@.len() != 8 ==> (r matches Err(e) && e matches Error::Custom(_)),
{
    if value.len() != 8 {
        return Err(Error::Custom(String::new()));
    }
    Ok(((value[0] as u64) << 56) | ((value[1] as u64) << 48) | ((value[2] as u64) << 40)
        | ((value[3] as u64) << 32) | ((value[4] as u64) << 24) | ((value[5] as u64) << 16)
        | ((value[6] as u64) << 8) | (value[7] as u64))
}

} // verus!
