//! Helpers for driving the store in tests.

use vstd::prelude::*;
use bytes::BufMut;

verus! {

/// The four bytes of `n`, most significant first.
pub open spec fn be_bytes(n: u32) -> Seq<u8> {
    seq![
        (n / 16777216) as u8,
        (n / 65536 % 256) as u8,
        (n / 256 % 256) as u8,
        (n % 256) as u8,
    ]
}

/// `BufMut::put_u32` of the bytes crate, on a `Vec<u8>`. The contract
/// claims what the crate documents of it: that it writes `n` to the end of
/// the buffer in big-endian byte order, which makes the buffer four bytes
/// longer and leaves what was there.
#[verifier::external_body]
fn put_u32(buf: &mut Vec<u8>, n: u32)
    requires
        old(buf)@.len() + 4 <= isize::MAX,
    ensures
        final(buf)@ == old(buf)@ + be_bytes(n),
{
    buf.put_u32(n);
}

/// `BufMut::put_slice` of the bytes crate, on a `Vec<u8>`. The contract
/// claims what the crate's source shows of it: that it extends the buffer
/// by the bytes of `src`, in order, and leaves what was there.
#[verifier::external_body]
fn put_slice(buf: &mut Vec<u8>, src: &[u8])
    requires
        old(buf)@.len() + src@.len() <= isize::MAX,
    ensures
        final(buf)@ == old(buf)@ + src@,
{
    buf.put_slice(src);
}

/// `key` behind the dummy table id `0`.
pub open spec fn spec_prefixed_key(key: Seq<u8>) -> Seq<u8> {
    be_bytes(0) + key
}

/// Prefix the `key` with a dummy table id.
/// We use `0` because:
/// - This value is used in the code to identify unit tests and prevent some
///   parameters that are not easily constructible in tests from breaking
///   the test.
/// - When calling state store interfaces, we normally pass
///   `TableId::default()`, which is `0`.
pub fn prefixed_key(key: &[u8]) -> (prefixed: Vec<u8>)
    requires
        key@.len() + 4 <= isize::MAX,
    ensures
        prefixed@ == spec_prefixed_key(key@),
        prefixed@.len() == key@.len() + 4,
        forall|i: int| 0 <= i < 4 ==> prefixed@[i] == 0,
        forall|i: int| 0 <= i < key@.len() ==> prefixed@[i + 4] == key@[i],
{
    let mut buf: Vec<u8> = Vec::new();
    put_u32(&mut buf, 0);
    put_slice(&mut buf, key);
    assert(buf@ =~= be_bytes(0) + key@);
    buf
}

/// What a subscriber is told when its channel yields `received`: the end
/// of the stream where the channel is closed, else the message or the
/// status that was sent.
pub fn message<T, E>(received: Option<Result<T, E>>) -> (told: Result<Option<T>, E>)
    ensures
        told == match received {
            None => Ok(None),
            Some(Ok(message)) => Ok(Some(message)),
            Some(Err(status)) => Err(status),
        },
{
    match received {
        None => Ok(None),
        Some(result) => match result {
            Ok(message) => Ok(Some(message)),
            Err(status) => Err(status),
        },
    }
}

} // verus!
