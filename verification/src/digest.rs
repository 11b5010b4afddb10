//! SHA-256 digests, and bytes in hexadecimal.
use crate::text::digit;
use sha2::Digest;
use vstd::prelude::*;
use vstd::string::*;

verus! {

/// What `sha2::Sha256` computes of a byte string.
pub uninterp spec fn sha256(bytes: Seq<u8>) -> Seq<u8>;

/// `sha2::Sha256::digest` computes the SHA-256 digest, which takes 32 bytes and
/// is a function of the input alone.
#[verifier::external_body]
pub(crate) fn sha256_digest(bytes: &[u8]) -> (digest: Vec<u8>)
    ensures
        digest@ == sha256(bytes@),
        digest@.len() == 32,
{
    sha2::Sha256::digest(bytes).to_vec()
}

/// Bytes in lower-case hexadecimal, two digits for each.
pub open spec fn hex(bytes: Seq<u8>) -> Seq<char>
    decreases bytes.len(),
{
    if bytes.len() == 0 {
        seq![]
    } else {
        hex(bytes.drop_last()) + seq![
            digit((bytes.last() / 16) as nat),
            digit((bytes.last() % 16) as nat),
        ]
    }
}

/// A digit of a byte in hexadecimal.
fn hex_digit(value: u8) -> (c: char)
    requires
        value < 16,
    ensures
        c == digit(value as nat),
{
    if value < 10 {
        (48 + value) as char
    } else {
        (87 + value) as char
    }
}

/// Bytes in lower-case hexadecimal, two digits for each.
pub fn hex_text(bytes: &[u8]) -> (text: String)
    ensures
        text@ == hex(bytes@),
        text@.len() == 2 * bytes@.len(),
{
    let mut text = String::new();
    let mut index: usize = 0;
    while index < bytes.len()
        invariant
            index <= bytes@.len(),
            text@ == hex(bytes@.take(index as int)),
            text@.len() == 2 * index,
        decreases bytes@.len() - index,
    {
        let ghost head = bytes@.take(index + 1);
        assert(head.drop_last() =~= bytes@.take(index as int));
        let ghost before = text@;
        let byte: u8 = bytes[index];
        text.push(hex_digit(byte / 16));
        text.push(hex_digit(byte % 16));
        assert(text@ =~= before + seq![digit((byte / 16) as nat), digit((byte % 16) as nat)]);
        index += 1;
    }
    assert(bytes@.take(index as int) =~= bytes@);
    text
}

} // verus!
