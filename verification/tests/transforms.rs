use text_tools::base64::{base64_decode, base64_encode, Alphabet, Variant};
use text_tools::base_conv::convert_base;
use text_tools::char_count::count_chars;
use text_tools::digest::{digest, DigestAlgorithm};
use text_tools::regex_gen::generate_regex;
use text_tools::sudden_death::generate_sudden_death;

fn all_variants() -> Vec<Variant> {
    vec![
        Variant { alphabet: Alphabet::Standard, padded: true },
        Variant { alphabet: Alphabet::Standard, padded: false },
        Variant { alphabet: Alphabet::UrlSafe, padded: true },
        Variant { alphabet: Alphabet::UrlSafe, padded: false },
    ]
}

#[test]
fn base64_round_trip_every_variant() {
    let texts = ["", "a", "ab", "abc", "hello world", "na\u{00ef}ve \u{98a8}"];
    for v in all_variants() {
        for t in texts {
            let enc = base64_encode(t, v);
            let dec = base64_decode(&enc, v).unwrap();
            assert_eq!(dec, t);
        }
    }
}

#[test]
fn base64_known_values() {
    let std_padded = Variant { alphabet: Alphabet::Standard, padded: true };
    let std_bare = Variant { alphabet: Alphabet::Standard, padded: false };
    let url_bare = Variant { alphabet: Alphabet::UrlSafe, padded: false };
    assert_eq!(base64_encode("hello", std_padded), "aGVsbG8=");
    assert_eq!(base64_encode("hello", std_bare), "aGVsbG8");
    assert_eq!(base64_encode("~~~", std_bare), "fn5+");
    assert_eq!(base64_encode("~~~", url_bare), "fn5-");
    assert_eq!(base64_encode("", std_padded), "");
}

#[test]
fn base64_decode_rejects_garbage() {
    let v = Variant { alphabet: Alphabet::Standard, padded: true };
    assert!(base64_decode("***", v).is_err());
    assert!(base64_decode("****", v).is_err());
    assert!(base64_decode("abc", v).is_err());
    assert!(base64_decode("a===", v).is_err());
    assert!(base64_decode("fn5-", v).is_err());
    let bare = Variant { alphabet: Alphabet::Standard, padded: false };
    assert!(base64_decode("aGVsbG8=", bare).is_err());
    assert!(base64_decode("f", bare).is_err());
}

#[test]
fn base64_decode_rejects_invalid_utf8() {
    let v = Variant { alphabet: Alphabet::Standard, padded: true };
    // "/w==" holds the single byte 0xff, which is not valid UTF-8.
    assert!(base64_decode("/w==", v).is_err());
}

#[test]
fn base64_decode_rejects_nonzero_trailing_bits() {
    let bare = Variant { alphabet: Alphabet::Standard, padded: false };
    // "aGVsbG9" would leave nonzero bits after the last whole byte.
    assert!(base64_decode("aGVsbG9", bare).is_err());
    assert_eq!(base64_decode("aGVsbG8", bare).unwrap(), "hello");
}

#[test]
fn digest_known_values() {
    assert_eq!(digest("", DigestAlgorithm::Md5), "d41d8cd98f00b204e9800998ecf8427e");
    assert_eq!(digest("abc", DigestAlgorithm::Sha1), "a9993e364706816aba3e25717850c26c9cd0d89d");
    assert_eq!(
        digest("abc", DigestAlgorithm::Sha256),
        "ba7816bf8f01cfea414140de5dae2223b00361a396177a9cb410ff61f20015ad"
    );
    assert_eq!(
        digest("abc", DigestAlgorithm::Sha512),
        "ddaf35a193617abacc417349ae20413112e6fa4e89a97ea20a9eeee64b55d39a\
         2192992a274fc1a836ba3c23a3feebbd454d4423643ce80e2a9ac94fa54ca49f"
    );
}

#[test]
fn digest_lengths_and_determinism() {
    let texts = ["", "abc", "some longer input with spaces"];
    let algs = [
        (DigestAlgorithm::Md5, 32),
        (DigestAlgorithm::Sha1, 40),
        (DigestAlgorithm::Sha256, 64),
        (DigestAlgorithm::Sha512, 128),
    ];
    for (alg, hexlen) in algs {
        for t in texts {
            let first = digest(t, alg);
            let second = digest(t, alg);
            assert_eq!(first.len(), hexlen);
            assert_eq!(first, second);
        }
    }
}

#[test]
fn convert_base_known_values() {
    assert_eq!(convert_base("FF", 16, 10).unwrap(), "255");
    assert_eq!(convert_base("10", 2, 10).unwrap(), "2");
    assert_eq!(convert_base("255", 10, 16).unwrap(), "ff");
    assert_eq!(convert_base("-255", 10, 16).unwrap(), "-ff");
    assert_eq!(convert_base("0", 10, 2).unwrap(), "0");
    assert_eq!(convert_base("-0", 10, 2).unwrap(), "0");
    assert_eq!(convert_base("007", 8, 10).unwrap(), "7");
    assert_eq!(convert_base("zz", 36, 10).unwrap(), "1295");
}

#[test]
fn convert_base_round_trip() {
    let cases = [("FF", 16u32, 10u32), ("10", 2, 10), ("-3e8", 16, 7), ("12345", 6, 36)];
    for (text, b1, b2) in cases {
        let there = convert_base(text, b1, b2).unwrap();
        let back = convert_base(&there, b2, b1).unwrap();
        let canonical = convert_base(text, b1, b1).unwrap();
        assert_eq!(back, canonical);
    }
}

#[test]
fn convert_base_large_values() {
    // 2^128, larger than any machine word.
    let big = "340282366920938463463374607431768211456";
    let hex = convert_base(big, 10, 16).unwrap();
    assert_eq!(hex, "100000000000000000000000000000000");
    assert_eq!(convert_base(&hex, 16, 10).unwrap(), big);
}

#[test]
fn convert_base_rejects_bad_digits() {
    assert!(convert_base("12a", 10, 16).is_err());
    assert!(convert_base("2", 2, 10).is_err());
    assert!(convert_base("", 10, 10).is_err());
    assert!(convert_base("-", 10, 10).is_err());
    assert!(convert_base("zz", 35, 10).is_err());
}

#[test]
fn count_chars_empty_is_all_zero() {
    let c = count_chars("");
    assert_eq!(c.characters, 0);
    assert_eq!(c.words, 0);
    assert_eq!(c.lines, 0);
    assert_eq!(c.bytes, 0);
}

#[test]
fn count_chars_small_sample() {
    let c = count_chars("a b\nc");
    assert_eq!(c.characters, 5);
    assert_eq!(c.words, 2);
    assert_eq!(c.lines, 2);
    assert_eq!(c.bytes, 5);
}

#[test]
fn count_chars_multibyte() {
    let c = count_chars("\u{98a8} \u{98a8}");
    assert_eq!(c.characters, 3);
    assert_eq!(c.words, 2);
    assert_eq!(c.lines, 1);
    assert_eq!(c.bytes, 7);
}

#[test]
fn regex_escapes_and_alternates() {
    let samples = vec![String::from("a.b"), String::from("c|d"), String::from("plain")];
    assert_eq!(generate_regex(&samples), "a\\.b|c\\|d|plain");
    let empty: Vec<String> = Vec::new();
    assert_eq!(generate_regex(&empty), "");
    let one = vec![String::from("x+y")];
    assert_eq!(generate_regex(&one), "x\\+y");
}

#[test]
fn sudden_death_deterministic_and_framed() {
    let first = generate_sudden_death(0);
    let second = generate_sudden_death(0);
    assert_eq!(first, second);
    assert_eq!(first, "________________\n> SUDDEN DEATH <\n~~~~~~~~~~~~~~~~");
    let other = generate_sudden_death(1);
    assert!(other.contains("IT CAME FROM NOWHERE"));
    assert_eq!(generate_sudden_death(4), first);
}
