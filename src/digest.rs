//! SHA-256 digests and their lowercase hexadecimal text.
use vstd::prelude::*;

use crate::codec::string_of;
use vstd::utf8::encode_utf8;

verus! {

/// The SHA-256 digest of a byte sequence.
pub uninterp spec fn sha256_of(data: Seq<u8>) -> Seq<u8>;

/// Relies on `sha2::Sha256::digest` (through `sha2::Digest`): the 32-byte SHA-256 digest
/// of the data.
#[verifier::external_body]
fn sha256(data: &[u8]) -> (r: Vec<u8>)
    ensures
        r@ == sha256_of(data@),
        r@.len() == 32,
{
    <sha2::Sha256 as sha2::Digest>::digest(data).to_vec()
}

/// The sixteen lowercase hexadecimal digits.
pub open spec fn hex_digits() -> Seq<char> {
    seq!['0', '1', '2', '3', '4', '5', '6', '7', '8', '9', 'a', 'b', 'c', 'd', 'e', 'f']
}

/// Two lowercase hexadecimal digits for each byte, most significant first.
pub open spec fn hex_spec(b: Seq<u8>) -> Seq<char>
    decreases b.len(),
{
    if b.len() == 0 {
        Seq::empty()
    } else {
        hex_spec(b.drop_last()) + seq![
            hex_digits()[(b.last() / 16) as int],
            hex_digits()[(b.last() % 16) as int],
        ]
    }
}

proof fn lemma_hex_len(b: Seq<u8>)
    ensures
        hex_spec(b).len() == 2 * b.len(),
    decreases b.len(),
{
    if b.len() > 0 {
        lemma_hex_len(b.drop_last());
    }
}

fn hex_digit(n: u8) -> (c: char)
    requires
        n < 16,
    ensures
        c == hex_digits()[n as int],
{
    let digits = vec!['0', '1', '2', '3', '4', '5', '6', '7', '8', '9', 'a', 'b', 'c', 'd', 'e', 'f'];
    assert(digits@ =~= hex_digits());
    digits[n as usize]
}

/// The lowercase hexadecimal text of a byte sequence.
pub fn hex_lower(b: &[u8]) -> (r: String)
    ensures
        r@ == hex_spec(b@),
{
    let mut out: Vec<char> = Vec::new();
    let mut i: usize = 0;
    while i < b.len()
        invariant
            i <= b@.len(),
            out@ == hex_spec(b@.subrange(0, i as int)),
        decreases b@.len() - i,
    {
        assert(b@.subrange(0, i + 1).drop_last() =~= b@.subrange(0, i as int));
        out.push(hex_digit(b[i] / 16));
        out.push(hex_digit(b[i] % 16));
        i = i + 1;
    }
    assert(b@.subrange(0, b@.len() as int) =~= b@);
    string_of(out.as_slice())
}

/// The lowercase hexadecimal SHA-256 digest of the UTF-8 bytes of a text.
pub open spec fn sha256_hex_spec(s: Seq<char>) -> Seq<char> {
    hex_spec(sha256_of(encode_utf8(s)))
}

/// The lowercase hexadecimal SHA-256 digest of the UTF-8 bytes of `s`: 64 digits.
pub fn sha256_hex(s: &str) -> (r: String)
    ensures
        r@ == sha256_hex_spec(s@),
        r@.len() == 64,
{
    let d = sha256(s.as_bytes());
    proof {
        lemma_hex_len(d@);
    }
    hex_lower(d.as_slice())
}

/// A lowercase hexadecimal digit.
pub open spec fn is_hex_digit(c: char) -> bool {
    ('0' as u32 <= c as u32 <= '9' as u32) || ('a' as u32 <= c as u32 <= 'f' as u32)
}

/// Hexadecimal text holds hexadecimal digits alone.
pub proof fn lemma_hex_digits_only(b: Seq<u8>)
    ensures
        forall|i: int| 0 <= i < hex_spec(b).len() ==> is_hex_digit(#[trigger] hex_spec(b)[i]),
    decreases b.len(),
{
    if b.len() > 0 {
        lemma_hex_digits_only(b.drop_last());
        lemma_hex_len(b.drop_last());
        let hi = (b.last() / 16) as int;
        let lo = (b.last() % 16) as int;
        assert(is_hex_digit(hex_digits()[hi]));
        assert(is_hex_digit(hex_digits()[lo]));
        let h = hex_spec(b);
        assert forall|i: int| 0 <= i < h.len() implies is_hex_digit(#[trigger] h[i]) by {
            if i < hex_spec(b.drop_last()).len() {
                assert(h[i] == hex_spec(b.drop_last())[i]);
            }
        }
    }
}

} // verus!
