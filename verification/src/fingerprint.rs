//! A 64-bit fingerprint of a text.
//!
//! Equal texts have equal fingerprints, so comparing fingerprints first
//! spares most comparisons of whole texts. Nothing else is claimed of a
//! fingerprint: different texts may share one.

use vstd::prelude::*;
use vstd::string::StringSliceAdditionalSpecFns;
use vstd::utf8::encode_utf8;

verus! {

/// The fingerprint before any byte.
pub const FINGERPRINT_START: u64 = 0xcbf2_9ce4_8422_2325;

/// The factor by which the fingerprint is multiplied after every byte.
pub const FINGERPRINT_FACTOR: u64 = 0x0000_0100_0000_01b3;

/// The fingerprint after one more byte.
pub open spec fn mixed(fingerprint: u64, byte: u8) -> u64 {
    (((fingerprint ^ (byte as u64)) as int * FINGERPRINT_FACTOR as int)
        % 0x1_0000_0000_0000_0000) as u64
}

/// The fingerprint of a sequence of bytes.
pub open spec fn fingerprint_of_bytes(bytes: Seq<u8>) -> u64
    decreases bytes.len(),
{
    if bytes.len() == 0 {
        FINGERPRINT_START
    } else {
        mixed(fingerprint_of_bytes(bytes.drop_last()), bytes.last())
    }
}

/// The fingerprint of a text: that of its UTF-8 encoding.
pub open spec fn fingerprint_of(text: Seq<char>) -> u64 {
    fingerprint_of_bytes(encode_utf8(text))
}

/// Computes the fingerprint of `text`.
pub fn fingerprint(text: &String) -> (r: u64)
    ensures
        r == fingerprint_of(text@),
{
    let bytes = text.as_str().as_bytes();
    let mut result: u64 = FINGERPRINT_START;
    let mut i: usize = 0;
    while i < bytes.len()
        invariant
            i <= bytes@.len(),
            result == fingerprint_of_bytes(bytes@.take(i as int)),
        decreases bytes@.len() - i,
    {
        assert(bytes@.take(i + 1).drop_last() =~= bytes@.take(i as int));
        let wide: u128 = ((result ^ (bytes[i] as u64)) as u128) * (FINGERPRINT_FACTOR as u128);
        result = (wide % 0x1_0000_0000_0000_0000) as u64;
        i += 1;
    }
    assert(bytes@.take(i as int) =~= bytes@);
    result
}

} // verus!
