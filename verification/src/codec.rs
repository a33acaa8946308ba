//! The stored form of a backing record: the RLP list of a reference count and
//! a payload, in that order.

use vstd::prelude::*;

verus! {

/// The longest payload a record can carry. The encoder writes every length as
/// a 32-bit number, and the list of an encoded count (at most five bytes) and
/// an encoded payload (at most five bytes of header) must itself be shorter
/// than 2^32 bytes.
pub const MAX_PAYLOAD_LEN: usize = 0xFFFF_FFF5;

/// The bytes that `rlp::RlpStream` puts out for the two-item list of the
/// count `rc` and the byte string `payload`.
pub uninterp spec fn encoded_record(rc: u32, payload: Seq<u8>) -> Seq<u8>;

/// What `rlp::Rlp` reads from `bytes` as a list whose item 0 is a `u32` count
/// and whose item 1 is a byte string: the payload and the count, or `None`
/// where either item cannot be read.
pub uninterp spec fn decoded_record(bytes: Seq<u8>) -> Option<(Seq<u8>, u32)>;

/// Encodes a record with `rlp::RlpStream`: `new_list(2)`, `append` of the
/// count, `append` of the payload, `out`.
///
/// The contract names the output and claims one thing of it that is not
/// proved here: read back with `rlp::Rlp` (see `rlp_decode`), it yields the
/// same payload and count. The encoder writes the count without leading zero
/// bytes and every length in its shortest form, which is what the decoder
/// accepts. Payloads longer than `MAX_PAYLOAD_LEN` are left out: the encoder
/// would cut their length to 32 bits.
#[verifier::external_body]
pub(crate) fn rlp_encode(rc: u32, payload: &[u8]) -> (out: Vec<u8>)
    requires
        payload@.len() <= MAX_PAYLOAD_LEN,
    ensures
        out@ == encoded_record(rc, payload@),
        decoded_record(out@) == Some((payload@, rc)),
{
    let mut stream = rlp::RlpStream::new_list(2);
    stream.append(&rc);
    stream.append(&payload);
    stream.out().to_vec()
}

/// Decodes a record with `rlp::Rlp`: `val_at::<u32>(0)` for the count and
/// `val_at::<Vec<u8>>(1)` for the payload. Either call reports malformed
/// input as an error, which becomes `None`. The contract only names the
/// outcome.
#[verifier::external_body]
pub(crate) fn rlp_decode(bytes: &[u8]) -> (out: Option<(Vec<u8>, u32)>)
    ensures
        match out {
            Some((payload, rc)) => decoded_record(bytes@) == Some((payload@, rc)),
            None => decoded_record(bytes@) is None,
        },
{
    let list = rlp::Rlp::new(bytes);
    match (list.val_at::<u32>(0), list.val_at::<Vec<u8>>(1)) {
        (Ok(rc), Ok(payload)) => Some((payload, rc)),
        _ => None,
    }
}

/// Whether `bytes` is the stored form of a live record: it decodes, its count
/// is positive and its payload can be encoded again.
pub open spec fn is_stored_record(bytes: Seq<u8>) -> bool {
    match decoded_record(bytes) {
        Some((payload, rc)) => rc > 0 && payload.len() <= MAX_PAYLOAD_LEN,
        None => false,
    }
}

/// Tests `is_stored_record`.
pub fn check_stored_record(bytes: &[u8]) -> (ok: bool)
    ensures
        ok == is_stored_record(bytes@),
{
    match rlp_decode(bytes) {
        Some((payload, rc)) => rc > 0 && payload.len() <= MAX_PAYLOAD_LEN,
        None => false,
    }
}

} // verus!
