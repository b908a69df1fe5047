//! The single-byte XOR transform.

use vstd::prelude::*;

verus! {

/// The byte sequence obtained by combining every byte of `data` with `key`
/// through bitwise exclusive-or.
pub open spec fn xor_bytes(data: Seq<u8>, key: u8) -> Seq<u8> {
    Seq::new(data.len(), |i: int| data[i] ^ key)
}

/// Encrypts (or decrypts) a message by XORing each byte with `key`.
pub fn single_key_xor(plaintext: &Vec<u8>, key: u8) -> (out: Vec<u8>)
    ensures
        out@ == xor_bytes(plaintext@, key),
{
    let n: usize = plaintext.len();
    let mut out: Vec<u8> = Vec::with_capacity(n);
    let mut i: usize = 0;
    while i < n
        invariant
            n == plaintext@.len(),
            i <= n,
            out@ == xor_bytes(plaintext@.take(i as int), key),
        decreases n - i,
    {
        out.push(plaintext[i] ^ key);
        i += 1;
    }
    out
}

/// Applying the same key twice gives the input back.
pub proof fn lemma_xor_involution(data: Seq<u8>, key: u8)
    ensures
        xor_bytes(xor_bytes(data, key), key) == data,
{
    assert forall|i: int| 0 <= i < data.len() implies (data[i] ^ key) ^ key == data[i] by {
        let b: u8 = data[i];
        assert((b ^ key) ^ key == b) by (bit_vector);
    }
}

} // verus!
