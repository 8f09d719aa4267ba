//! The repeating-key XOR transform.
//!
//! Given a data buffer and a non-empty key buffer, every output byte is the
//! corresponding input byte XORed with the key byte at the same index taken
//! modulo the key length. The transform is length-preserving and its own
//! inverse; an empty key is rejected rather than degrading to a no-op.

use vstd::prelude::*;

verus! {

/// Why the transform can fail: the key buffer was empty. An empty key cannot
/// drive the cyclic XOR, and silently copying the input through is never
/// acceptable, so this is a hard error distinct from any I/O condition.
#[derive(Debug, Clone, Copy, PartialEq, Eq, Structural)]
pub enum TransformError {
    EmptyKey,
}

/// The transformed buffer: each byte of `data` XORed with the key byte at the
/// same index modulo the key length.
pub open spec fn xor_with_key(data: Seq<u8>, key: Seq<u8>) -> Seq<u8>
    recommends
        key.len() > 0,
{
    Seq::new(data.len(), |i: int| data[i] ^ key[i % key.len() as int])
}

/// Applies the repeating-key XOR transform to `data` with `key`.
///
/// Fails with `EmptyKey` exactly when the key is empty; otherwise returns a
/// buffer of the same length as `data` whose bytes are given by
/// [`xor_with_key`].
pub fn transform(data: &Vec<u8>, key: &Vec<u8>) -> (result: Result<Vec<u8>, TransformError>)
    ensures
        key@.len() == 0 ==> result == Err::<Vec<u8>, TransformError>(TransformError::EmptyKey),
        key@.len() > 0 ==> (result matches Ok(out) && out@ == xor_with_key(data@, key@)),
{
    if key.len() == 0 {
        return Err(TransformError::EmptyKey);
    }
    let mut out: Vec<u8> = Vec::new();
    let mut i: usize = 0;
    while i < data.len()
        invariant
            key@.len() > 0,
            i <= data@.len(),
            out@.len() == i,
            forall|j: int| 0 <= j < i ==> out@[j] == data@[j] ^ key@[j % key@.len() as int],
        decreases data@.len() - i,
    {
        let b = data[i] ^ key[i % key.len()];
        out.push(b);
        i = i + 1;
    }
    assert(out@ =~= xor_with_key(data@, key@));
    Ok(out)
}

/// Length preservation: the transform never grows or shrinks the buffer.
pub proof fn lemma_transform_preserves_length(data: Seq<u8>, key: Seq<u8>)
    requires
        key.len() > 0,
    ensures
        xor_with_key(data, key).len() == data.len(),
{
}

/// Self-inverse: applying the transform twice with the same non-empty key
/// reproduces the original bytes exactly, so the same operation serves both
/// to apply and to reverse the transform.
pub proof fn lemma_transform_self_inverse(data: Seq<u8>, key: Seq<u8>)
    requires
        key.len() > 0,
    ensures
        xor_with_key(xor_with_key(data, key), key) == data,
{
    let once = xor_with_key(data, key);
    let twice = xor_with_key(once, key);
    assert(forall|b: u8, k: u8| (b ^ k) ^ k == b) by (bit_vector);
    assert forall|i: int| 0 <= i < data.len() implies twice[i] == data[i] by {
        assert(once[i] == data[i] ^ key[i % key.len() as int]);
    }
    assert(twice =~= data);
}

} // verus!
