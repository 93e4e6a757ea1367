//! Message digests: MD5, SHA-1, SHA-256 and SHA-512 of a text, shown as
//! a lowercase hex string of a fixed, algorithm-specific length. The
//! hashes themselves come from outside crates; turning the text into
//! bytes and the hash into hex is verified.

use vstd::prelude::*;
use vstd::string::StrSliceExecFns;
use vstd::utf8::encode_utf8;

use crate::strutil::push_char;

verus! {

/// The digest algorithms the digest tool offers.
#[derive(Clone, Copy, PartialEq, Eq, Structural, Debug)]
pub enum DigestAlgorithm {
    Md5,
    Sha1,
    Sha256,
    Sha512,
}

/// The bytes of the MD5 hash of a byte sequence.
pub uninterp spec fn md5_of(data: Seq<u8>) -> Seq<u8>;

/// The bytes of the SHA-1 hash of a byte sequence.
pub uninterp spec fn sha1_of(data: Seq<u8>) -> Seq<u8>;

/// The bytes of the SHA-256 hash of a byte sequence.
pub uninterp spec fn sha256_of(data: Seq<u8>) -> Seq<u8>;

/// The bytes of the SHA-512 hash of a byte sequence.
pub uninterp spec fn sha512_of(data: Seq<u8>) -> Seq<u8>;

/// How many bytes a digest of the given algorithm has.
pub open spec fn digest_len(a: DigestAlgorithm) -> int {
    match a {
        DigestAlgorithm::Md5 => 16,
        DigestAlgorithm::Sha1 => 20,
        DigestAlgorithm::Sha256 => 32,
        DigestAlgorithm::Sha512 => 64,
    }
}

/// The digest of a byte sequence under the given algorithm.
pub open spec fn digest_bytes_spec(data: Seq<u8>, a: DigestAlgorithm) -> Seq<u8> {
    match a {
        DigestAlgorithm::Md5 => md5_of(data),
        DigestAlgorithm::Sha1 => sha1_of(data),
        DigestAlgorithm::Sha256 => sha256_of(data),
        DigestAlgorithm::Sha512 => sha512_of(data),
    }
}

/// Relies on `md5::Md5::digest` (RustCrypto): the MD5 hash of the input,
/// a pure function of it, 16 bytes long.
#[verifier::external_body]
fn md5_digest(data: &[u8]) -> (r: Vec<u8>)
    ensures
        r@ == md5_of(data@),
        r@.len() == 16,
{
    <md5::Md5 as md5::Digest>::digest(data).as_slice().to_vec()
}

/// Relies on `sha1::Sha1::digest` (RustCrypto): the SHA-1 hash of the
/// input, a pure function of it, 20 bytes long.
#[verifier::external_body]
fn sha1_digest(data: &[u8]) -> (r: Vec<u8>)
    ensures
        r@ == sha1_of(data@),
        r@.len() == 20,
{
    <sha1::Sha1 as sha1::Digest>::digest(data).as_slice().to_vec()
}

/// Relies on `sha2::Sha256::digest` (RustCrypto): the SHA-256 hash of
/// the input, a pure function of it, 32 bytes long.
#[verifier::external_body]
fn sha256_digest(data: &[u8]) -> (r: Vec<u8>)
    ensures
        r@ == sha256_of(data@),
        r@.len() == 32,
{
    <sha2::Sha256 as sha2::Digest>::digest(data).as_slice().to_vec()
}

/// Relies on `sha2::Sha512::digest` (RustCrypto): the SHA-512 hash of
/// the input, a pure function of it, 64 bytes long.
#[verifier::external_body]
fn sha512_digest(data: &[u8]) -> (r: Vec<u8>)
    ensures
        r@ == sha512_of(data@),
        r@.len() == 64,
{
    <sha2::Sha512 as sha2::Digest>::digest(data).as_slice().to_vec()
}

/// The lowercase hex digit for a value below sixteen.
pub open spec fn hex_digit(v: int) -> char {
    if 0 <= v < 10 {
        ((48 + v) as u32) as char  // '0'..='9'
    } else {
        ((97 + v - 10) as u32) as char  // 'a'..='f'
    }
}

/// The lowercase hex rendering of a byte sequence, two digits per byte.
pub open spec fn hex_of(data: Seq<u8>) -> Seq<char>
    decreases data.len(),
{
    if data.len() == 0 {
        seq![]
    } else {
        seq![hex_digit(data[0] as int / 16), hex_digit(data[0] as int % 16)] + hex_of(
            data.skip(1),
        )
    }
}

/// Hex has two digits per byte.
proof fn lemma_hex_of_len(data: Seq<u8>)
    ensures
        hex_of(data).len() == 2 * data.len(),
    decreases data.len(),
{
    if data.len() > 0 {
        lemma_hex_of_len(data.skip(1));
    }
}

/// Hex of a concatenation is the concatenation of the hex parts.
proof fn lemma_hex_of_append(x: Seq<u8>, y: Seq<u8>)
    ensures
        hex_of(x + y) == hex_of(x) + hex_of(y),
    decreases x.len(),
{
    if x.len() == 0 {
        assert(x + y =~= y);
        assert(hex_of(x) + hex_of(y) =~= hex_of(y));
    } else {
        assert((x + y).skip(1) =~= x.skip(1) + y);
        lemma_hex_of_append(x.skip(1), y);
        assert(hex_of(x + y) =~= hex_of(x) + hex_of(y));
    }
}

/// The lowercase hex digit for a value below sixteen.
fn hex_digit_exec(v: u8) -> (c: char)
    requires
        v < 16,
    ensures
        c == hex_digit(v as int),
{
    if v < 10 {
        (48 + v) as char
    } else {
        (97 + (v - 10)) as char
    }
}

/// Renders a byte vector as lowercase hex.
fn to_hex(data: &Vec<u8>) -> (r: String)
    ensures
        r@ == hex_of(data@),
{
    let mut out = String::new();
    let n = data.len();
    let mut i: usize = 0;
    while i < n
        invariant
            i <= n,
            n == data@.len(),
            out@ == hex_of(data@.take(i as int)),
        decreases n - i,
    {
        let b = data[i];
        push_char(&mut out, hex_digit_exec(b / 16));
        push_char(&mut out, hex_digit_exec(b % 16));
        proof {
            let pre = data@.take(i as int);
            let g = data@.subrange(i as int, i + 1);
            assert(data@.take(i + 1) =~= pre + g);
            lemma_hex_of_append(pre, g);
            assert(g.skip(1) =~= Seq::<u8>::empty());
            assert(hex_of(g.skip(1)) =~= Seq::<char>::empty());
            assert(hex_of(g) =~= seq![
                hex_digit(g[0] as int / 16),
                hex_digit(g[0] as int % 16),
            ]);
            assert(out@ =~= hex_of(data@.take(i + 1)));
        }
        i = i + 1;
    }
    proof {
        assert(data@.take(n as int) =~= data@);
    }
    out
}

/// The hex digest of a text under the given algorithm.
pub open spec fn digest_spec(t: Seq<char>, a: DigestAlgorithm) -> Seq<char> {
    hex_of(digest_bytes_spec(encode_utf8(t), a))
}

/// Computes the lowercase hex digest of a text. It never fails, it is a
/// pure function of text and algorithm, and its length is fixed by the
/// algorithm alone: 32, 40, 64 or 128 hex digits.
pub fn digest(text: &str, algorithm: DigestAlgorithm) -> (r: String)
    ensures
        r@ == digest_spec(text@, algorithm),
        r@.len() == 2 * digest_len(algorithm),
{
    let bytes = text.as_bytes_vec();
    let d = match algorithm {
        DigestAlgorithm::Md5 => md5_digest(bytes.as_slice()),
        DigestAlgorithm::Sha1 => sha1_digest(bytes.as_slice()),
        DigestAlgorithm::Sha256 => sha256_digest(bytes.as_slice()),
        DigestAlgorithm::Sha512 => sha512_digest(bytes.as_slice()),
    };
    proof {
        lemma_hex_of_len(d@);
    }
    to_hex(&d)
}

/// The digest is deterministic: equal texts and algorithms always give
/// the same hex digest.
pub proof fn lemma_digest_deterministic(
    t1: Seq<char>,
    a1: DigestAlgorithm,
    t2: Seq<char>,
    a2: DigestAlgorithm,
)
    requires
        t1 == t2,
        a1 == a2,
    ensures
        digest_spec(t1, a1) == digest_spec(t2, a2),
{
}

} // verus!
