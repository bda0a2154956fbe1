//! The fingerprint of a source text: the SHA-256 digest of its UTF-8 bytes, in
//! lower-case hexadecimal.

use vstd::prelude::*;

use crate::text;

verus! {

/// The SHA-256 digest of `bytes`.
pub uninterp spec fn sha256(bytes: Seq<u8>) -> Seq<u8>;

/// Calls `sha2::Sha256::digest`. Its result is the SHA-256 digest of the bytes
/// that it is given, 32 bytes long, and depends on nothing else.
#[verifier::external_body]
fn sha256_digest(bytes: &[u8]) -> (digest: Vec<u8>)
    ensures
        digest@ == sha256(bytes@),
        digest@.len() == 32,
{
    <sha2::Sha256 as sha2::Digest>::digest(bytes).to_vec()
}

/// The lower-case hexadecimal digit of a value below sixteen.
pub open spec fn hex_digit(n: int) -> char {
    if n < 10 {
        text::digit(n)
    } else {
        ((87 + n) as u32) as char
    }
}

/// Two hexadecimal digits for each byte, the high one first.
pub open spec fn hex(bytes: Seq<u8>) -> Seq<char> {
    Seq::new(
        2 * bytes.len(),
        |i: int|
            if i % 2 == 0 {
                hex_digit(bytes[i / 2] as int / 16)
            } else {
                hex_digit(bytes[i / 2] as int % 16)
            },
    )
}

/// The fingerprint by which a source text is known.
pub open spec fn source_hash(source: Seq<char>) -> Seq<char> {
    hex(sha256(vstd::utf8::encode_utf8(source)))
}

fn hex_char(n: u8) -> (c: char)
    requires
        n < 16,
    ensures
        c == hex_digit(n as int),
{
    let code: u8 = if n < 10 {
        48 + n
    } else {
        87 + n
    };
    code as char
}

/// The bytes in hexadecimal (see [`hex`]).
pub fn hex_text(bytes: &Vec<u8>) -> (s: String)
    ensures
        s@ == hex(bytes@),
{
    let mut s = String::new();
    for i in 0..bytes.len()
        invariant
            s@ == hex(bytes@.take(i as int)),
    {
        let b = bytes[i];
        s.push(hex_char(b / 16));
        s.push(hex_char(b % 16));
        assert(s@ =~= hex(bytes@.take(i + 1)));
    }
    assert(bytes@.take(bytes@.len() as int) =~= bytes@);
    s
}

/// The fingerprint of `source` (see [`source_hash`]): 64 hexadecimal digits.
pub fn hex_sha256(source: &str) -> (hash: String)
    ensures
        hash@ == source_hash(source@),
        hash@.len() == 64,
{
    let digest = sha256_digest(source.as_bytes());
    hex_text(&digest)
}

/// Each byte can be read off its two digits, which are decimal ones or the letters
/// `a` to `f`, and there are no others.
pub proof fn bytes_can_be_read_back(bytes: Seq<u8>, i: int)
    requires
        0 <= i < bytes.len(),
    ensures
        hex(bytes).len() == 2 * bytes.len(),
        ({
            let high = hex(bytes)[2 * i];
            let low = hex(bytes)[2 * i + 1];
            let h = if '0' <= high <= '9' { high as u32 - '0' as u32 } else { high as u32 - 'a' as u32 + 10 };
            let l = if '0' <= low <= '9' { low as u32 - '0' as u32 } else { low as u32 - 'a' as u32 + 10 };
            &&& '0' <= high <= '9' || 'a' <= high <= 'f'
            &&& '0' <= low <= '9' || 'a' <= low <= 'f'
            &&& bytes[i] == 16 * h + l
        }),
{
    let b = bytes[i] as int;
    assert(hex(bytes)[2 * i] == hex_digit(b / 16));
    assert((2 * i + 1) % 2 == 1 && (2 * i + 1) / 2 == i);
    assert(hex(bytes)[2 * i + 1] == hex_digit(b % 16));
    lemma_hex_digit(b / 16);
    lemma_hex_digit(b % 16);
}

proof fn lemma_hex_digit(n: int)
    requires
        0 <= n < 16,
    ensures
        n < 10 ==> hex_digit(n) as u32 == '0' as u32 + n,
        n >= 10 ==> hex_digit(n) as u32 == 'a' as u32 + n - 10,
{
    assert(0 <= 48 + n < 256 && 0 <= 87 + n < 256);
}

/// Bytes that differ have different hexadecimal texts.
pub proof fn hex_tells_bytes_apart(a: Seq<u8>, b: Seq<u8>)
    requires
        hex(a) == hex(b),
    ensures
        a == b,
{
    assert(hex(a).len() == 2 * a.len() && hex(b).len() == 2 * b.len());
    assert forall|i: int| 0 <= i < a.len() implies a[i] == b[i] by {
        bytes_can_be_read_back(a, i);
        bytes_can_be_read_back(b, i);
    }
    assert(a =~= b);
}

/// A fingerprint spells the SHA-256 digest of the whole text in UTF-8, byte by byte.
pub proof fn fingerprint_spells_digest(source: Seq<char>, i: int)
    requires
        0 <= i < sha256(vstd::utf8::encode_utf8(source)).len(),
    ensures
        source_hash(source).len() == 2 * sha256(vstd::utf8::encode_utf8(source)).len(),
        ({
            let high = source_hash(source)[2 * i];
            let low = source_hash(source)[2 * i + 1];
            let h = if '0' <= high <= '9' { high as u32 - '0' as u32 } else { high as u32 - 'a' as u32 + 10 };
            let l = if '0' <= low <= '9' { low as u32 - '0' as u32 } else { low as u32 - 'a' as u32 + 10 };
            sha256(vstd::utf8::encode_utf8(source))[i] == 16 * h + l
        }),
{
    bytes_can_be_read_back(sha256(vstd::utf8::encode_utf8(source)), i);
}

} // verus!
