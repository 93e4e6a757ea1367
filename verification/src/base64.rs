//! Base64 codec: encoding never fails, decoding is strict and reports
//! `DecodeError` on anything that is not a canonical encoding of the
//! chosen variant. The round trip (decoding an encoding) is proved.

use vstd::prelude::*;
use vstd::string::StrSliceExecFns;
use vstd::string::StringExecFns;
use vstd::utf8::{decode_utf8, encode_utf8, valid_utf8};

use crate::strutil::{bytes_to_string, chars_of, string_of};

verus! {

broadcast use vstd::utf8::char_u32_cast;

/// Which of the two base64 alphabets is used.
#[derive(Clone, Copy, PartialEq, Eq, Structural, Debug)]
pub enum Alphabet {
    Standard,
    UrlSafe,
}

/// A base64 variant: the alphabet together with the padding policy.
#[derive(Clone, Copy, PartialEq, Eq, Structural, Debug)]
pub struct Variant {
    pub alphabet: Alphabet,
    pub padded: bool,
}

/// Decoding failed: the input is not a canonical base64 string of the
/// chosen variant, or the decoded bytes are not valid UTF-8.
#[derive(Clone, Copy, PartialEq, Eq, Structural, Debug)]
pub struct DecodeError;

impl DecodeError {
    /// The message shown in place of a result when decoding fails.
    pub fn message(&self) -> (r: String)
        ensures
            r@ == "invalid base64 input"@,
    {
        String::from_str("invalid base64 input")
    }
}

/// The character that encodes the six-bit value `v`.
pub open spec fn symbol_char(a: Alphabet, v: int) -> char {
    if 0 <= v < 26 {
        ((65 + v) as u32) as char  // 'A'..='Z'
    } else if 26 <= v < 52 {
        ((97 + v - 26) as u32) as char  // 'a'..='z'
    } else if 52 <= v < 62 {
        ((48 + v - 52) as u32) as char  // '0'..='9'
    } else if v == 62 {
        if a is Standard {
            '+'
        } else {
            '-'
        }
    } else {
        if a is Standard {
            '/'
        } else {
            '_'
        }
    }
}

/// The six-bit value a character stands for, or `-1` if the character is
/// not in the alphabet.
pub open spec fn symbol_val(a: Alphabet, c: char) -> int {
    let u = c as u32;
    if 65 <= u <= 90 {
        u - 65
    } else if 97 <= u <= 122 {
        u - 97 + 26
    } else if 48 <= u <= 57 {
        u - 48 + 52
    } else if u == 43 && a is Standard {
        62
    } else if u == 45 && a is UrlSafe {
        62
    } else if u == 47 && a is Standard {
        63
    } else if u == 95 && a is UrlSafe {
        63
    } else {
        -1
    }
}

/// The six-bit symbol values that encode a byte sequence (no padding).
pub open spec fn symbols_of(b: Seq<u8>) -> Seq<int>
    decreases b.len(),
{
    if b.len() == 0 {
        seq![]
    } else if b.len() == 1 {
        let b0 = b[0] as int;
        seq![b0 / 4, (b0 % 4) * 16]
    } else if b.len() == 2 {
        let b0 = b[0] as int;
        let b1 = b[1] as int;
        seq![b0 / 4, (b0 % 4) * 16 + b1 / 16, (b1 % 16) * 4]
    } else {
        let b0 = b[0] as int;
        let b1 = b[1] as int;
        let b2 = b[2] as int;
        seq![
            b0 / 4,
            (b0 % 4) * 16 + b1 / 16,
            (b1 % 16) * 4 + b2 / 64,
            b2 % 64,
        ] + symbols_of(b.skip(3))
    }
}

/// The symbol characters of the encoding of `b`, without padding.
pub open spec fn syms_chars(b: Seq<u8>, a: Alphabet) -> Seq<char> {
    symbols_of(b).map(|i: int, s: int| symbol_char(a, s))
}

/// The padding characters appended for a final group of `rem` bytes.
pub open spec fn pad_chars(rem: int) -> Seq<char> {
    if rem == 1 {
        seq!['=', '=']
    } else if rem == 2 {
        seq!['=']
    } else {
        seq![]
    }
}

/// The base64 encoding of the bytes `b` under variant `v`.
pub open spec fn encode_spec(b: Seq<u8>, v: Variant) -> Seq<char> {
    if v.padded {
        syms_chars(b, v.alphabet) + pad_chars(b.len() as int % 3)
    } else {
        syms_chars(b, v.alphabet)
    }
}

/// Strips and checks the padding of `s`: the bare symbol characters, or
/// `None` if the length or the padding is wrong.
pub open spec fn unpadded(s: Seq<char>, padded: bool) -> Option<Seq<char>> {
    if padded {
        if s.len() % 4 != 0 {
            None
        } else if s.len() == 0 {
            Some(s)
        } else if s.last() == '=' {
            if s[s.len() - 2] == '=' {
                Some(s.take(s.len() - 2))
            } else {
                Some(s.take(s.len() - 1))
            }
        } else {
            Some(s)
        }
    } else {
        if s.len() % 4 == 1 {
            None
        } else {
            Some(s)
        }
    }
}

/// Decodes bare symbol characters: groups of four, a final group of two
/// or three; `None` on an invalid character, a bad length, or nonzero
/// trailing bits.
pub open spec fn decode_symbols(s: Seq<char>, a: Alphabet) -> Option<Seq<u8>>
    decreases s.len(),
{
    if s.len() == 0 {
        Some(seq![])
    } else if s.len() == 1 {
        None
    } else if s.len() == 2 {
        let v0 = symbol_val(a, s[0]);
        let v1 = symbol_val(a, s[1]);
        if v0 >= 0 && v1 >= 0 && v1 % 16 == 0 {
            Some(seq![(v0 * 4 + v1 / 16) as u8])
        } else {
            None
        }
    } else if s.len() == 3 {
        let v0 = symbol_val(a, s[0]);
        let v1 = symbol_val(a, s[1]);
        let v2 = symbol_val(a, s[2]);
        if v0 >= 0 && v1 >= 0 && v2 >= 0 && v2 % 4 == 0 {
            Some(seq![(v0 * 4 + v1 / 16) as u8, ((v1 % 16) * 16 + v2 / 4) as u8])
        } else {
            None
        }
    } else {
        let v0 = symbol_val(a, s[0]);
        let v1 = symbol_val(a, s[1]);
        let v2 = symbol_val(a, s[2]);
        let v3 = symbol_val(a, s[3]);
        if v0 >= 0 && v1 >= 0 && v2 >= 0 && v3 >= 0 {
            match decode_symbols(s.skip(4), a) {
                Some(rest) => Some(
                    seq![
                        (v0 * 4 + v1 / 16) as u8,
                        ((v1 % 16) * 16 + v2 / 4) as u8,
                        ((v2 % 4) * 64 + v3) as u8,
                    ] + rest,
                ),
                None => None,
            }
        } else {
            None
        }
    }
}

/// The bytes that `s` encodes under variant `v`, or `None` if `s` is not
/// a canonical encoding.
pub open spec fn decode_spec(s: Seq<char>, v: Variant) -> Option<Seq<u8>> {
    match unpadded(s, v.padded) {
        Some(t) => decode_symbols(t, v.alphabet),
        None => None,
    }
}

/// Every six-bit value comes back from its own symbol character.
proof fn lemma_symbol_char_val(a: Alphabet, v: int)
    requires
        0 <= v < 64,
    ensures
        symbol_val(a, symbol_char(a, v)) == v,
        symbol_char(a, v) != '=',
{
    let c = symbol_char(a, v);
    if 0 <= v < 26 {
        assert(c as u32 == 65 + v);
    } else if 26 <= v < 52 {
        assert(c as u32 == 97 + v - 26);
    } else if 52 <= v < 62 {
        assert(c as u32 == 48 + v - 52);
    } else if v == 62 {
        assert(c as u32 == 43 || c as u32 == 45);
    } else {
        assert(c as u32 == 47 || c as u32 == 95);
    }
    assert(c as u32 != 61 && '=' as u32 == 61);
}

/// Unfolds the symbols of a one-byte remainder group.
proof fn lemma_symbols_of_1(g: Seq<u8>)
    requires
        g.len() == 1,
    ensures
        symbols_of(g) == seq![g[0] as int / 4, (g[0] as int % 4) * 16],
{
}

/// Unfolds the symbols of a two-byte remainder group.
proof fn lemma_symbols_of_2(g: Seq<u8>)
    requires
        g.len() == 2,
    ensures
        symbols_of(g) == seq![
            g[0] as int / 4,
            (g[0] as int % 4) * 16 + g[1] as int / 16,
            (g[1] as int % 16) * 4,
        ],
{
}

/// Unfolds the symbols of one full three-byte group.
proof fn lemma_symbols_of_3(g: Seq<u8>)
    requires
        g.len() == 3,
    ensures
        symbols_of(g) == seq![
            g[0] as int / 4,
            (g[0] as int % 4) * 16 + g[1] as int / 16,
            (g[1] as int % 16) * 4 + g[2] as int / 64,
            g[2] as int % 64,
        ],
{
    assert(g.skip(3) =~= Seq::<u8>::empty());
    assert(symbols_of(g.skip(3)) =~= Seq::<int>::empty());
    assert(symbols_of(g) =~= seq![
        g[0] as int / 4,
        (g[0] as int % 4) * 16 + g[1] as int / 16,
        (g[1] as int % 16) * 4 + g[2] as int / 64,
        g[2] as int % 64,
    ]);
}

/// All symbol values of an encoding lie between 0 and 63.
proof fn lemma_symbols_bounds(b: Seq<u8>)
    ensures
        forall|j: int|
            0 <= j < symbols_of(b).len() ==> 0 <= #[trigger] symbols_of(b)[j] < 64,
    decreases b.len(),
{
    if b.len() == 0 {
    } else if b.len() == 1 {
        let b0 = b[0] as int;
        assert(0 <= b0 / 4 < 64);
        assert(0 <= (b0 % 4) * 16 < 64);
    } else if b.len() == 2 {
        let b0 = b[0] as int;
        let b1 = b[1] as int;
        assert(0 <= b0 / 4 < 64);
        assert(0 <= (b0 % 4) * 16 + b1 / 16 < 64);
        assert(0 <= (b1 % 16) * 4 < 64);
    } else {
        lemma_symbols_bounds(b.skip(3));
        let b0 = b[0] as int;
        let b1 = b[1] as int;
        let b2 = b[2] as int;
        assert(0 <= b0 / 4 < 64);
        assert(0 <= (b0 % 4) * 16 + b1 / 16 < 64);
        assert(0 <= (b1 % 16) * 4 + b2 / 64 < 64);
        assert(0 <= b2 % 64 < 64);
        assert forall|j: int| 0 <= j < symbols_of(b).len() implies 0 <= #[trigger] symbols_of(
            b,
        )[j] < 64 by {
            if j >= 4 {
                assert(symbols_of(b)[j] == symbols_of(b.skip(3))[j - 4]);
            }
        }
    }
}

/// The number of symbols an encoding has.
proof fn lemma_symbols_len(b: Seq<u8>)
    ensures
        symbols_of(b).len() == 4 * (b.len() / 3) + (if b.len() % 3 == 0 {
            0int
        } else if b.len() % 3 == 1 {
            2int
        } else {
            3int
        }),
    decreases b.len(),
{
    if b.len() > 2 {
        lemma_symbols_len(b.skip(3));
    }
}

/// Symbols of a concatenation split at a group boundary.
proof fn lemma_symbols_append(x: Seq<u8>, y: Seq<u8>)
    requires
        x.len() % 3 == 0,
    ensures
        symbols_of(x + y) == symbols_of(x) + symbols_of(y),
    decreases x.len(),
{
    if x.len() == 0 {
        assert(x + y =~= y);
        assert(symbols_of(x) + symbols_of(y) =~= symbols_of(y));
    } else {
        let xy = x + y;
        assert(xy.len() >= 3);
        assert(xy.skip(3) =~= x.skip(3) + y);
        lemma_symbols_append(x.skip(3), y);
        assert(symbols_of(x + y) =~= symbols_of(x) + symbols_of(y));
    }
}

/// Decoding the bare symbol characters of an encoding gives the bytes back.
#[verifier::rlimit(60)]
proof fn lemma_decode_symbols_encode(b: Seq<u8>, a: Alphabet)
    ensures
        decode_symbols(syms_chars(b, a), a) == Some(b),
    decreases b.len(),
{
    lemma_symbols_bounds(b);
    let s = syms_chars(b, a);
    if b.len() == 0 {
        assert(s =~= Seq::<char>::empty());
        assert(decode_symbols(s, a) == Some(Seq::<u8>::empty()));
        assert(b =~= Seq::<u8>::empty());
    } else if b.len() == 1 {
        let b0 = b[0] as int;
        assert(s.len() == 2);
        lemma_symbol_char_val(a, b0 / 4);
        lemma_symbol_char_val(a, (b0 % 4) * 16);
        assert(symbol_val(a, s[0]) == b0 / 4);
        assert(symbol_val(a, s[1]) == (b0 % 4) * 16);
        assert(((b0 % 4) * 16) % 16 == 0);
        assert((b0 / 4) * 4 + ((b0 % 4) * 16) / 16 == b0);
        assert(decode_symbols(s, a) == Some(seq![b[0]]));
        assert(seq![b[0]] =~= b);
    } else if b.len() == 2 {
        let b0 = b[0] as int;
        let b1 = b[1] as int;
        assert(s.len() == 3);
        lemma_symbol_char_val(a, b0 / 4);
        lemma_symbol_char_val(a, (b0 % 4) * 16 + b1 / 16);
        lemma_symbol_char_val(a, (b1 % 16) * 4);
        let v0 = symbol_val(a, s[0]);
        let v1 = symbol_val(a, s[1]);
        let v2 = symbol_val(a, s[2]);
        assert(v0 == b0 / 4);
        assert(v1 == (b0 % 4) * 16 + b1 / 16);
        assert(v2 == (b1 % 16) * 4);
        assert(v2 % 4 == 0);
        assert(v1 % 16 == b1 / 16);
        assert(v0 * 4 + v1 / 16 == b0);
        assert((v1 % 16) * 16 + v2 / 4 == b1);
        assert(decode_symbols(s, a) == Some(seq![b[0], b[1]]));
        assert(seq![b[0], b[1]] =~= b);
    } else {
        let b0 = b[0] as int;
        let b1 = b[1] as int;
        let b2 = b[2] as int;
        let rest = b.skip(3);
        lemma_decode_symbols_encode(rest, a);
        assert(s.len() == symbols_of(b).len());
        assert(s.len() >= 4);
        lemma_symbol_char_val(a, b0 / 4);
        lemma_symbol_char_val(a, (b0 % 4) * 16 + b1 / 16);
        lemma_symbol_char_val(a, (b1 % 16) * 4 + b2 / 64);
        lemma_symbol_char_val(a, b2 % 64);
        let v0 = symbol_val(a, s[0]);
        let v1 = symbol_val(a, s[1]);
        let v2 = symbol_val(a, s[2]);
        let v3 = symbol_val(a, s[3]);
        assert(v0 == b0 / 4);
        assert(v1 == (b0 % 4) * 16 + b1 / 16);
        assert(v2 == (b1 % 16) * 4 + b2 / 64);
        assert(v3 == b2 % 64);
        assert(s.skip(4) =~= syms_chars(rest, a));
        assert(v0 * 4 + v1 / 16 == b0);
        assert((v1 % 16) * 16 + v2 / 4 == b1);
        assert((v2 % 4) * 64 + v3 == b2);
        assert(decode_symbols(s, a) == Some(seq![b[0], b[1], b[2]] + rest));
        assert(seq![b[0], b[1], b[2]] + rest =~= b);
    }
}

/// Stripping the padding of an encoding gives back the bare symbols.
proof fn lemma_unpadded_encode(b: Seq<u8>, v: Variant)
    ensures
        unpadded(encode_spec(b, v), v.padded) == Some(syms_chars(b, v.alphabet)),
{
    lemma_symbols_len(b);
    lemma_symbols_bounds(b);
    let syms = syms_chars(b, v.alphabet);
    let s = encode_spec(b, v);
    let rem = b.len() as int % 3;
    if v.padded {
        if rem == 0 {
            assert(s =~= syms);
            assert(s.len() % 4 == 0);
            if s.len() > 0 {
                lemma_symbol_char_val(v.alphabet, symbols_of(b)[s.len() - 1]);
                assert(s.last() == symbol_char(v.alphabet, symbols_of(b)[s.len() - 1]));
                assert(s.last() != '=');
            }
        } else if rem == 1 {
            assert(s.len() == syms.len() + 2);
            assert(s.len() % 4 == 0);
            assert(s.last() == '=');
            assert(s[s.len() - 2] == '=');
            assert(s.take(s.len() - 2) =~= syms);
        } else {
            assert(s.len() == syms.len() + 1);
            assert(s.len() % 4 == 0);
            assert(s.last() == '=');
            lemma_symbol_char_val(v.alphabet, symbols_of(b)[syms.len() - 1]);
            assert(s[s.len() - 2] == syms[syms.len() - 1]);
            assert(s[s.len() - 2] != '=');
            assert(s.take(s.len() - 1) =~= syms);
        }
    } else {
        assert(s =~= syms);
        assert(s.len() % 4 != 1);
    }
}

/// Round trip at the byte level: decoding an encoding yields the bytes.
pub proof fn lemma_round_trip_bytes(b: Seq<u8>, v: Variant)
    ensures
        decode_spec(encode_spec(b, v), v) == Some(b),
{
    lemma_unpadded_encode(b, v);
    lemma_decode_symbols_encode(b, v.alphabet);
}

/// Round trip for text: decoding the encoding of any text yields the
/// text again, for every variant.
pub proof fn lemma_round_trip_text(t: Seq<char>, v: Variant)
    ensures
        decode_spec(encode_spec(encode_utf8(t), v), v) == Some(encode_utf8(t)),
        valid_utf8(encode_utf8(t)),
        decode_utf8(encode_utf8(t)) == t,
{
    broadcast use vstd::utf8::encode_utf8_valid_utf8, vstd::utf8::encode_utf8_decode_utf8;

    lemma_round_trip_bytes(encode_utf8(t), v);
}

/// The character that encodes the six-bit value `v`.
fn symbol_char_exec(a: Alphabet, v: u8) -> (c: char)
    requires
        v < 64,
    ensures
        c == symbol_char(a, v as int),
{
    if v < 26 {
        (65 + v) as char
    } else if v < 52 {
        (97 + (v - 26)) as char
    } else if v < 62 {
        (48 + (v - 52)) as char
    } else if v == 62 {
        match a {
            Alphabet::Standard => '+',
            Alphabet::UrlSafe => '-',
        }
    } else {
        match a {
            Alphabet::Standard => '/',
            Alphabet::UrlSafe => '_',
        }
    }
}

/// The six-bit value of a symbol character, `None` outside the alphabet.
fn symbol_val_exec(a: Alphabet, c: char) -> (r: Option<u8>)
    ensures
        match r {
            Some(v) => v < 64 && symbol_val(a, c) == v as int,
            None => symbol_val(a, c) == -1,
        },
{
    let u = c as u32;
    if 65 <= u && u <= 90 {
        Some((u - 65) as u8)
    } else if 97 <= u && u <= 122 {
        Some((u - 97 + 26) as u8)
    } else if 48 <= u && u <= 57 {
        Some((u - 48 + 52) as u8)
    } else if u == 43 && matches!(a, Alphabet::Standard) {
        Some(62)
    } else if u == 45 && matches!(a, Alphabet::UrlSafe) {
        Some(62)
    } else if u == 47 && matches!(a, Alphabet::Standard) {
        Some(63)
    } else if u == 95 && matches!(a, Alphabet::UrlSafe) {
        Some(63)
    } else {
        None
    }
}

/// Base64-encodes a byte vector.
#[verifier::rlimit(60)]
pub fn base64_encode_bytes(data: &Vec<u8>, variant: Variant) -> (r: String)
    ensures
        r@ == encode_spec(data@, variant),
{
    let a = variant.alphabet;
    let mut out: Vec<char> = Vec::new();
    let n = data.len();
    let mut i: usize = 0;
    while n - i >= 3
        invariant
            i <= n,
            n == data@.len(),
            i % 3 == 0,
            out@ == syms_chars(data@.take(i as int), a),
        decreases n - i,
    {
        let b0 = data[i];
        let b1 = data[i + 1];
        let b2 = data[i + 2];
        out.push(symbol_char_exec(a, b0 / 4));
        out.push(symbol_char_exec(a, (b0 % 4) * 16 + b1 / 16));
        out.push(symbol_char_exec(a, (b1 % 16) * 4 + b2 / 64));
        out.push(symbol_char_exec(a, b2 % 64));
        proof {
            let pre = data@.take(i as int);
            let g = data@.subrange(i as int, i + 3);
            assert(data@.take(i + 3) =~= pre + g);
            lemma_symbols_append(pre, g);
            lemma_symbols_of_3(g);
            assert(out@ =~= syms_chars(data@.take(i + 3), a));
        }
        i = i + 3;
    }
    let rem = n - i;
    if rem == 1 {
        let b0 = data[i];
        out.push(symbol_char_exec(a, b0 / 4));
        out.push(symbol_char_exec(a, (b0 % 4) * 16));
        proof {
            let pre = data@.take(i as int);
            let g = data@.subrange(i as int, n as int);
            assert(data@ =~= pre + g);
            lemma_symbols_append(pre, g);
            lemma_symbols_of_1(g);
            assert(out@ =~= syms_chars(data@, a));
        }
    } else if rem == 2 {
        let b0 = data[i];
        let b1 = data[i + 1];
        out.push(symbol_char_exec(a, b0 / 4));
        out.push(symbol_char_exec(a, (b0 % 4) * 16 + b1 / 16));
        out.push(symbol_char_exec(a, (b1 % 16) * 4));
        proof {
            let pre = data@.take(i as int);
            let g = data@.subrange(i as int, n as int);
            assert(data@ =~= pre + g);
            lemma_symbols_append(pre, g);
            lemma_symbols_of_2(g);
            assert(out@ =~= syms_chars(data@, a));
        }
    } else {
        proof {
            assert(data@.take(i as int) =~= data@);
        }
    }
    if variant.padded {
        if rem == 1 {
            out.push('=');
            out.push('=');
        } else if rem == 2 {
            out.push('=');
        }
        proof {
            assert(data@.len() as int % 3 == rem as int);
            assert(out@ =~= syms_chars(data@, a) + pad_chars(data@.len() as int % 3));
        }
    }
    string_of(&out)
}

/// Base64-encodes the UTF-8 bytes of a text. Encoding never fails.
pub fn base64_encode(text: &str, variant: Variant) -> (r: String)
    ensures
        r@ == encode_spec(encode_utf8(text@), variant),
{
    let bytes = text.as_bytes_vec();
    base64_encode_bytes(&bytes, variant)
}

/// Base64-decodes a text into the encoded bytes. `Ok` exactly on
/// canonical encodings of the chosen variant.
#[verifier::rlimit(60)]
pub fn base64_decode_bytes(text: &str, variant: Variant) -> (r: Result<Vec<u8>, DecodeError>)
    ensures
        match r {
            Ok(b) => decode_spec(text@, variant) == Some(b@),
            Err(_) => decode_spec(text@, variant) is None,
        },
{
    let a = variant.alphabet;
    let chars = chars_of(text);
    let n = chars.len();
    let m: usize;
    if variant.padded {
        if n % 4 != 0 {
            return Err(DecodeError);
        }
        if n == 0 {
            m = 0;
        } else if chars[n - 1] == '=' {
            if chars[n - 2] == '=' {
                m = n - 2;
            } else {
                m = n - 1;
            }
        } else {
            m = n;
        }
    } else {
        if n % 4 == 1 {
            return Err(DecodeError);
        }
        m = n;
    }
    let ghost s = text@.take(m as int);
    proof {
        if m == n {
            assert(text@.take(n as int) =~= text@);
        }
        assert(unpadded(text@, variant.padded) == Some(s));
        assert(s.skip(0) =~= s);
        match decode_symbols(s, a) {
            Some(rest) => {
                assert(Seq::<u8>::empty() + rest =~= rest);
            },
            None => {},
        }
    }
    let mut acc: Vec<u8> = Vec::new();
    let mut i: usize = 0;
    while m - i >= 4
        invariant
            i <= m,
            m <= n,
            n == chars@.len(),
            chars@ == text@,
            s == text@.take(m as int),
            unpadded(text@, variant.padded) == Some(s),
            a == variant.alphabet,
            i % 4 == 0,
            decode_symbols(s, a) == (match decode_symbols(s.skip(i as int), a) {
                Some(rest) => Some(acc@ + rest),
                None => None::<Seq<u8>>,
            }),
        decreases m - i,
    {
        let r0 = symbol_val_exec(a, chars[i]);
        let r1 = symbol_val_exec(a, chars[i + 1]);
        let r2 = symbol_val_exec(a, chars[i + 2]);
        let r3 = symbol_val_exec(a, chars[i + 3]);
        proof {
            assert(s.skip(i as int).len() >= 4);
            assert(s.skip(i as int)[0] == text@[i as int]);
            assert(s.skip(i as int)[1] == text@[i + 1]);
            assert(s.skip(i as int)[2] == text@[i + 2]);
            assert(s.skip(i as int)[3] == text@[i + 3]);
        }
        match (r0, r1, r2, r3) {
            (Some(v0), Some(v1), Some(v2), Some(v3)) => {
                let ghost acc0 = acc@;
                acc.push(v0 * 4 + v1 / 16);
                acc.push((v1 % 16) * 16 + v2 / 4);
                acc.push((v2 % 4) * 64 + v3);
                proof {
                    assert(s.skip(i as int).skip(4) =~= s.skip(i + 4));
                    let g3 = seq![
                        ((v0 as int) * 4 + (v1 as int) / 16) as u8,
                        (((v1 as int) % 16) * 16 + (v2 as int) / 4) as u8,
                        (((v2 as int) % 4) * 64 + (v3 as int)) as u8,
                    ];
                    assert(acc@ =~= acc0 + g3);
                    match decode_symbols(s.skip(i + 4), a) {
                        Some(r) => {
                            assert(acc0 + (g3 + r) =~= (acc0 + g3) + r);
                        },
                        None => {},
                    }
                }
                i = i + 4;
            },
            _ => {
                return Err(DecodeError);
            },
        }
    }
    let rem = m - i;
    if rem == 0 {
        proof {
            assert(s.skip(i as int) =~= Seq::<char>::empty());
            assert(acc@ + Seq::<u8>::empty() =~= acc@);
        }
        Ok(acc)
    } else if rem == 1 {
        Err(DecodeError)
    } else if rem == 2 {
        let r0 = symbol_val_exec(a, chars[i]);
        let r1 = symbol_val_exec(a, chars[i + 1]);
        proof {
            assert(s.skip(i as int).len() == 2);
            assert(s.skip(i as int)[0] == text@[i as int]);
            assert(s.skip(i as int)[1] == text@[i + 1]);
        }
        match (r0, r1) {
            (Some(v0), Some(v1)) => {
                if v1 % 16 != 0 {
                    return Err(DecodeError);
                }
                let ghost acc0 = acc@;
                acc.push(v0 * 4 + v1 / 16);
                proof {
                    let g1 = seq![((v0 as int) * 4 + (v1 as int) / 16) as u8];
                    assert(decode_symbols(s.skip(i as int), a) == Some(g1));
                    assert(acc@ =~= acc0 + g1);
                }
                Ok(acc)
            },
            _ => Err(DecodeError),
        }
    } else {
        let r0 = symbol_val_exec(a, chars[i]);
        let r1 = symbol_val_exec(a, chars[i + 1]);
        let r2 = symbol_val_exec(a, chars[i + 2]);
        proof {
            assert(s.skip(i as int).len() == 3);
            assert(s.skip(i as int)[0] == text@[i as int]);
            assert(s.skip(i as int)[1] == text@[i + 1]);
            assert(s.skip(i as int)[2] == text@[i + 2]);
        }
        match (r0, r1, r2) {
            (Some(v0), Some(v1), Some(v2)) => {
                if v2 % 4 != 0 {
                    return Err(DecodeError);
                }
                let ghost acc0 = acc@;
                acc.push(v0 * 4 + v1 / 16);
                acc.push((v1 % 16) * 16 + v2 / 4);
                proof {
                    let g2 = seq![
                        ((v0 as int) * 4 + (v1 as int) / 16) as u8,
                        (((v1 as int) % 16) * 16 + (v2 as int) / 4) as u8,
                    ];
                    assert(decode_symbols(s.skip(i as int), a) == Some(g2));
                    assert(acc@ =~= acc0 + g2);
                }
                Ok(acc)
            },
            _ => Err(DecodeError),
        }
    }
}

/// Base64-decodes a text back into text: `Ok` exactly on canonical
/// encodings whose bytes are valid UTF-8.
pub fn base64_decode(text: &str, variant: Variant) -> (r: Result<String, DecodeError>)
    ensures
        match r {
            Ok(s) => (match decode_spec(text@, variant) {
                Some(b) => valid_utf8(b) && encode_utf8(s@) == b,
                None => false,
            }),
            Err(_) => (match decode_spec(text@, variant) {
                Some(b) => !valid_utf8(b),
                None => true,
            }),
        },
{
    let bytes = match base64_decode_bytes(text, variant) {
        Ok(b) => b,
        Err(e) => {
            return Err(e);
        },
    };
    match bytes_to_string(bytes) {
        Some(s) => Ok(s),
        None => Err(DecodeError),
    }
}

} // verus!
