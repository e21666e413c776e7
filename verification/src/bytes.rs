use crate::errors::AsarError;
use vstd::bytes::{spec_u32_from_le_bytes, u32_from_le_bytes};
use vstd::prelude::*;

verus! {

/// The little-endian `u32` stored in the four bytes of `b` that start at `at`.
pub open spec fn le_u32_at(b: Seq<u8>, at: int) -> u32 {
    spec_u32_from_le_bytes(b.subrange(at, at + 4))
}

/// Splits `data` after its first `n` bytes, when it has that many.
pub(crate) fn get_split(data: &[u8], n: usize) -> (res: Option<(&[u8], &[u8])>)
    ensures
        res is Some <==> n <= data@.len(),
        res matches Some((head, tail)) ==> head@ == data@.take(n as int) && tail@ == data@.skip(
            n as int,
        ),
{
    if n <= data.len() {
        let (head, tail) = data.split_at(n);
        assert(head@ =~= data@.take(n as int));
        assert(tail@ =~= data@.skip(n as int));
        Some((head, tail))
    } else {
        None
    }
}

/// Reads a little-endian `u32` from the front of `data` and returns it with the rest.
pub(crate) fn get_u32(data: &[u8]) -> (res: Result<(u32, &[u8]), AsarError>)
    ensures
        res is Ok <==> data@.len() >= 4,
        res matches Ok((v, rest)) ==> v == le_u32_at(data@, 0) && rest@ == data@.skip(4),
        res matches Err(e) ==> e is Eof,
{
    match get_split(data, 4) {
        Some((head, rest)) => {
            assert(head@ == data@.subrange(0, 4));
            Ok((u32_from_le_bytes(head), rest))
        },
        None => Err(AsarError::Eof),
    }
}

} // verus!
