//! The SHAKE-256 extendable-output function, from the `sha3` crate.
use vstd::prelude::*;
use sha3::digest::ExtendableOutput;

verus! {

/// Byte `i` of the SHAKE-256 output stream for `input`.
pub uninterp spec fn shake256_byte(input: Seq<u8>, i: nat) -> u8;

/// The first `len` bytes that SHAKE-256 outputs for `input`.
pub closed spec fn shake256_spec(input: Seq<u8>, len: nat) -> Seq<u8> {
    Seq::new(len, |i: int| shake256_byte(input, i as nat))
}

/// A shorter read of the stream is a prefix of a longer one.
pub proof fn lemma_shake256_prefix(input: Seq<u8>, n: nat, m: nat)
    requires
        n <= m,
    ensures
        shake256_spec(input, n).len() == n,
        shake256_spec(input, m).len() == m,
        shake256_spec(input, n) == shake256_spec(input, m).subrange(0, n as int),
{
    assert(shake256_spec(input, n) =~= shake256_spec(input, m).subrange(0, n as int));
}

/// Calls `<sha3::Shake256 as ExtendableOutput>::digest_xof`, which absorbs
/// `input` and squeezes as many bytes as the output buffer holds, in order
/// from the start of the output stream. The contract names byte `i` of that
/// stream `shake256_byte(input, i)`, so the bytes
/// returned are `shake256_spec(input, out_len)`.
#[verifier::external_body]
pub(crate) fn shake256(input: &[u8], out_len: usize) -> (out: Vec<u8>)
    ensures
        out@ == shake256_spec(input@, out_len as nat),
        out@.len() == out_len,
        forall|i: int| 0 <= i < out_len ==> #[trigger] out@[i] == shake256_byte(input@, i as nat),
{
    let mut out = vec![0u8; out_len];
    sha3::Shake256::digest_xof(input, &mut out);
    out
}

} // verus!
