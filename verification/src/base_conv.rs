//! Numeric base conversion: reads a signed numeral in one base (2 to
//! 36) and renders its canonical form (no leading zeros, a minus sign
//! only for negative values) in another. Fails with `ParseError` exactly
//! when the input is not a numeral of the source base. The numbers may
//! be arbitrarily large: the value is carried as a digit string.

use vstd::arithmetic::div_mod::{
    lemma_div_decreases, lemma_fundamental_div_mod, lemma_fundamental_div_mod_converse,
};
use vstd::prelude::*;
use vstd::string::StringExecFns;

use crate::strutil::{chars_of, string_of};

verus! {

/// The input is not a numeral of the source base.
#[derive(Clone, Copy, PartialEq, Eq, Structural, Debug)]
pub struct ParseError;

impl ParseError {
    /// The message shown in place of a result when parsing fails.
    pub fn message(&self) -> (r: String)
        ensures
            r@ == "invalid digits for the chosen base"@,
    {
        String::from_str("invalid digits for the chosen base")
    }
}

/// The numeric value of a digit character (digits, then letters in
/// either case), or `-1` if it is not a digit.
pub open spec fn digit_val(c: char) -> int {
    let u = c as u32;
    if 48 <= u <= 57 {
        u - 48
    } else if 97 <= u <= 122 {
        u - 97 + 10
    } else if 65 <= u <= 90 {
        u - 65 + 10
    } else {
        -1
    }
}

/// Whether a character is a digit of the given base.
pub open spec fn is_digit(c: char, base: int) -> bool {
    0 <= digit_val(c) < base
}

/// Horner value of a digit-character string, most significant first.
pub open spec fn digits_val(s: Seq<char>, base: int) -> int
    decreases s.len(),
{
    if s.len() == 0 {
        0
    } else {
        digits_val(s.drop_last(), base) * base + digit_val(s.last())
    }
}

/// Whether `s` is a numeral of the base: an optional minus sign, then
/// at least one digit of the base.
pub open spec fn is_numeral(s: Seq<char>, base: int) -> bool {
    if s.len() > 0 && s[0] == '-' {
        s.len() >= 2 && (forall|j: int| 1 <= j < s.len() ==> is_digit(#[trigger] s[j], base))
    } else {
        s.len() >= 1 && (forall|j: int| 0 <= j < s.len() ==> is_digit(#[trigger] s[j], base))
    }
}

/// The signed value of a numeral.
pub open spec fn numeral_val(s: Seq<char>, base: int) -> int {
    if s.len() > 0 && s[0] == '-' {
        -digits_val(s.skip(1), base)
    } else {
        digits_val(s, base)
    }
}

/// The lowercase digit character of a value below thirty-six.
pub open spec fn digit_char(v: int) -> char {
    if 0 <= v < 10 {
        ((48 + v) as u32) as char  // '0'..='9'
    } else {
        ((97 + v - 10) as u32) as char  // 'a'..='z'
    }
}

/// The canonical digits (most significant first) of a value in a base;
/// empty exactly for values that are not positive.
pub open spec fn rep_digits(n: int, base: int) -> Seq<int>
    decreases n,
    via rep_digits_decreases
{
    if n <= 0 || base < 2 {
        seq![]
    } else {
        rep_digits(n / base, base) + seq![n % base]
    }
}

#[via_fn]
proof fn rep_digits_decreases(n: int, base: int) {
    if !(n <= 0 || base < 2) {
        lemma_div_decreases(n, base);
        vstd::arithmetic::div_mod::lemma_div_pos_is_pos(n, base);
    }
}

/// The characters of a digit-value sequence, lowercase.
pub open spec fn digit_chars(ds: Seq<int>) -> Seq<char> {
    ds.map(|i: int, d: int| digit_char(d))
}

/// The canonical text of a value in a base: `-` for negative values,
/// no leading zeros, `0` for zero.
pub open spec fn render_spec(n: int, base: int) -> Seq<char> {
    if n == 0 {
        seq!['0']
    } else if n < 0 {
        seq!['-'] + digit_chars(rep_digits(-n, base))
    } else {
        digit_chars(rep_digits(n, base))
    }
}

/// What base conversion returns: the canonical form of the value of `s`
/// read in `from`, rendered in `to`; nothing if `s` is not a numeral.
pub open spec fn convert_base_spec(s: Seq<char>, from: int, to: int) -> Option<Seq<char>> {
    if is_numeral(s, from) {
        Some(render_spec(numeral_val(s, from), to))
    } else {
        None
    }
}

/// Horner value of raw digit values, most significant first.
pub open spec fn val_digits(ds: Seq<u8>, base: int) -> int
    decreases ds.len(),
{
    if ds.len() == 0 {
        0
    } else {
        val_digits(ds.drop_last(), base) * base + ds.last()
    }
}

/// Digit-value strings are never worth a negative amount, and are worth
/// zero exactly when every digit is zero.
proof fn lemma_val_digits_zero(ds: Seq<u8>, base: int)
    requires
        base >= 2,
    ensures
        val_digits(ds, base) >= 0,
        (val_digits(ds, base) == 0) <==> (forall|j: int| 0 <= j < ds.len() ==> ds[j] == 0),
    decreases ds.len(),
{
    if ds.len() > 0 {
        let front = ds.drop_last();
        lemma_val_digits_zero(front, base);
        let v = val_digits(front, base);
        assert(v * base >= 0 && (v > 0 ==> v * base > 0)) by (nonlinear_arith)
            requires
                v >= 0,
                base >= 2,
        ;
        if val_digits(ds, base) == 0 {
            assert(v == 0 && ds.last() == 0);
            assert forall|j: int| 0 <= j < ds.len() implies ds[j] == 0 by {
                if j < ds.len() - 1 {
                    assert(ds[j] == front[j]);
                }
            }
        }
        if forall|j: int| 0 <= j < ds.len() ==> ds[j] == 0 {
            assert forall|j: int| 0 <= j < front.len() implies front[j] == 0 by {
                assert(front[j] == ds[j]);
            }
            assert(v == 0);
            assert(ds.last() == 0);
        }
    }
}

/// A digit value below thirty-six comes back from its own character,
/// which is never a minus sign.
proof fn lemma_digit_char_val(d: int)
    requires
        0 <= d < 36,
    ensures
        digit_val(digit_char(d)) == d,
        digit_char(d) != '-',
{
    let c = digit_char(d);
    if d < 10 {
        assert(c as u32 == 48 + d);
    } else {
        assert(c as u32 == 97 + d - 10);
    }
    assert(c as u32 != 45 && '-' as u32 == 45);
}

/// The canonical digits of a nonnegative value all lie below the base,
/// and there are none exactly for zero.
proof fn lemma_rep_digits_range(n: int, base: int)
    requires
        n >= 0,
        2 <= base,
    ensures
        forall|j: int|
            0 <= j < rep_digits(n, base).len() ==> 0 <= #[trigger] rep_digits(n, base)[j]
                < base,
        rep_digits(n, base).len() == 0 <==> n == 0,
    decreases n,
{
    if n > 0 {
        lemma_div_decreases(n, base);
        vstd::arithmetic::div_mod::lemma_div_pos_is_pos(n, base);
        lemma_rep_digits_range(n / base, base);
        assert forall|j: int| 0 <= j < rep_digits(n, base).len() implies 0 <= #[trigger] rep_digits(
            n,
            base,
        )[j] < base by {
            if j < rep_digits(n, base).len() - 1 {
                assert(rep_digits(n, base)[j] == rep_digits(n / base, base)[j]);
            }
        }
    }
}

/// Reading the canonical digit characters of a value gives it back.
proof fn lemma_digits_val_rep(n: int, base: int)
    requires
        n >= 0,
        2 <= base <= 36,
    ensures
        digits_val(digit_chars(rep_digits(n, base)), base) == n,
    decreases n,
{
    if n > 0 {
        lemma_div_decreases(n, base);
        vstd::arithmetic::div_mod::lemma_div_pos_is_pos(n, base);
        lemma_digits_val_rep(n / base, base);
        let all = digit_chars(rep_digits(n, base));
        assert(all.drop_last() =~= digit_chars(rep_digits(n / base, base)));
        assert(all.last() == digit_char(n % base));
        lemma_digit_char_val(n % base);
        lemma_fundamental_div_mod(n, base);
        assert(digits_val(all, base) == digits_val(all.drop_last(), base) * base + digit_val(
            all.last(),
        ));
    }
}

/// The canonical text of any value in any base (2 to 36) is itself a
/// numeral of that base, and is worth that value.
proof fn lemma_render_numeral(n: int, base: int)
    requires
        2 <= base <= 36,
    ensures
        is_numeral(render_spec(n, base), base),
        numeral_val(render_spec(n, base), base) == n,
{
    let s = render_spec(n, base);
    if n == 0 {
        assert(s.len() == 1 && s[0] == '0');
        assert('0' as u32 == 48 && '-' as u32 == 45);
        assert(s[0] != '-');
        assert(is_digit(s[0], base));
        assert(s.drop_last() =~= Seq::<char>::empty());
        assert(digits_val(Seq::<char>::empty(), base) == 0);
        assert(digits_val(s, base) == 0);
    } else {
        let m = if n < 0 {
            -n
        } else {
            n
        };
        lemma_rep_digits_range(m, base);
        lemma_digits_val_rep(m, base);
        let digits = digit_chars(rep_digits(m, base));
        assert(digits.len() >= 1);
        assert forall|j: int| 0 <= j < digits.len() implies is_digit(#[trigger] digits[j], base)
            && digits[j] != '-' by {
            lemma_digit_char_val(rep_digits(m, base)[j]);
        }
        if n < 0 {
            assert(s[0] == '-');
            assert(s.skip(1) =~= digits);
            assert forall|j: int| 1 <= j < s.len() implies is_digit(#[trigger] s[j], base) by {
                assert(s[j] == digits[j - 1]);
            }
        } else {
            assert(s =~= digits);
            assert(s[0] != '-');
        }
    }
}

/// Converting a numeral to another base and back gives the canonical
/// form of the original numeral.
pub proof fn lemma_convert_round_trip(s: Seq<char>, b1: int, b2: int)
    requires
        2 <= b1 <= 36,
        2 <= b2 <= 36,
        is_numeral(s, b1),
    ensures
        convert_base_spec(s, b1, b2) is Some,
        convert_base_spec(convert_base_spec(s, b1, b2)->Some_0, b2, b1) == convert_base_spec(
            s,
            b1,
            b1,
        ),
{
    let v = numeral_val(s, b1);
    lemma_render_numeral(v, b2);
}

/// The numeric value of a digit character, if it is one.
fn digit_val_exec(c: char) -> (r: Option<u8>)
    ensures
        match r {
            Some(v) => v < 36 && digit_val(c) == v as int,
            None => digit_val(c) == -1,
        },
{
    let u = c as u32;
    if 48 <= u && u <= 57 {
        Some((u - 48) as u8)
    } else if 97 <= u && u <= 122 {
        Some((u - 97 + 10) as u8)
    } else if 65 <= u && u <= 90 {
        Some((u - 65 + 10) as u8)
    } else {
        None
    }
}

/// The lowercase digit character of a value below thirty-six.
fn digit_char_exec(v: u8) -> (c: char)
    requires
        v < 36,
    ensures
        c == digit_char(v as int),
{
    if v < 10 {
        (48 + v) as char
    } else {
        (97 + (v - 10)) as char
    }
}

/// Divides a digit string (read in `base`) by `d`: the quotient as a
/// digit string of the same length, and the remainder.
fn big_divmod(ds: &Vec<u8>, base: u32, d: u32) -> (qr: (Vec<u8>, u8))
    requires
        2 <= base <= 36,
        2 <= d <= 36,
        forall|j: int| 0 <= j < ds@.len() ==> ds@[j] < base,
    ensures
        qr.0@.len() == ds@.len(),
        forall|j: int| 0 <= j < qr.0@.len() ==> qr.0@[j] < base,
        (qr.1 as int) < d,
        val_digits(qr.0@, base as int) * d + qr.1 == val_digits(ds@, base as int),
        val_digits(qr.0@, base as int) >= 0,
{
    let n = ds.len();
    let mut q: Vec<u8> = Vec::new();
    let mut rem: u32 = 0;
    let mut i: usize = 0;
    proof {
        assert(ds@.take(0) =~= Seq::<u8>::empty());
        assert(val_digits(Seq::<u8>::empty(), base as int) == 0);
        assert(val_digits(q@, base as int) == 0);
        assert(val_digits(ds@.take(0), base as int) == 0);
    }
    while i < n
        invariant
            i <= n,
            n == ds@.len(),
            2 <= base <= 36,
            2 <= d <= 36,
            forall|j: int| 0 <= j < ds@.len() ==> ds@[j] < base,
            q@.len() == i,
            forall|j: int| 0 <= j < q@.len() ==> q@[j] < base,
            rem < d,
            val_digits(q@, base as int) >= 0,
            val_digits(q@, base as int) * d + rem == val_digits(ds@.take(i as int), base as int),
        decreases n - i,
    {
        let ghost q0 = q@;
        let ghost vq0 = val_digits(q@, base as int);
        let ghost vt0 = val_digits(ds@.take(i as int), base as int);
        let ghost remi = rem as int;
        let ghost dsi = ds@[i as int] as int;
        let ghost basei = base as int;
        let ghost di = d as int;
        proof {
            assert(remi * basei <= 1260) by (nonlinear_arith)
                requires
                    0 <= remi <= 35,
                    0 <= basei <= 36,
            ;
        }
        let acc: u32 = rem * base + ds[i] as u32;
        let qd: u32 = acc / d;
        let newrem: u32 = acc % d;
        let ghost acci = acc as int;
        let ghost qdi = qd as int;
        let ghost nri = newrem as int;
        proof {
            lemma_fundamental_div_mod(acci, di);
            assert(acci == qdi * di + nri) by (nonlinear_arith)
                requires
                    acci == di * (acci / di) + (acci % di),
                    qdi == acci / di,
                    nri == acci % di,
            ;
            assert(acci < di * basei) by (nonlinear_arith)
                requires
                    acci == remi * basei + dsi,
                    remi < di,
                    dsi < basei,
                    2 <= basei,
                    2 <= di,
            ;
            assert(qdi < basei) by (nonlinear_arith)
                requires
                    acci < di * basei,
                    acci == qdi * di + nri,
                    0 <= nri,
                    0 <= qdi,
                    2 <= di,
                    2 <= basei,
            ;
            assert((vq0 * basei + qdi) * di + nri == vt0 * basei + dsi) by (nonlinear_arith)
                requires
                    vq0 * di + remi == vt0,
                    acci == remi * basei + dsi,
                    acci == qdi * di + nri,
            ;
        }
        q.push(qd as u8);
        rem = newrem;
        proof {
            assert(q@.drop_last() =~= q0);
            assert(q@.last() == qd as u8);
            assert(ds@.take(i + 1).drop_last() =~= ds@.take(i as int));
            assert(ds@.take(i + 1).last() == ds@[i as int]);
            assert(val_digits(q@, basei) == vq0 * basei + qdi);
            assert(val_digits(ds@.take(i + 1), basei) == vt0 * basei + dsi);
            lemma_val_digits_zero(q@, basei);
        }
        i = i + 1;
    }
    proof {
        assert(ds@.take(n as int) =~= ds@);
    }
    (q, rem as u8)
}

/// The digit values as mathematical integers.
pub open spec fn ints_of(ds: Seq<u8>) -> Seq<int> {
    ds.map(|i: int, d: u8| d as int)
}

/// Whether a digit string is worth zero, i.e. has only zero digits.
fn is_zero_digits(ds: &Vec<u8>, base: u32) -> (r: bool)
    requires
        2 <= base <= 36,
    ensures
        r == (val_digits(ds@, base as int) == 0),
{
    let n = ds.len();
    let mut i: usize = 0;
    while i < n
        invariant
            i <= n,
            n == ds@.len(),
            2 <= base <= 36,
            forall|j: int| 0 <= j < i ==> ds@[j] == 0,
        decreases n - i,
    {
        if ds[i] != 0 {
            proof {
                lemma_val_digits_zero(ds@, base as int);
            }
            return false;
        }
        i = i + 1;
    }
    proof {
        lemma_val_digits_zero(ds@, base as int);
    }
    true
}

/// Converts a numeral from one base (2 to 36) to its canonical form in
/// another: no leading zeros, lowercase digits, a minus sign only for
/// negative values. `Ok` exactly when the input is a numeral of the
/// source base; the value may be arbitrarily large.
#[verifier::rlimit(60)]
pub fn convert_base(text: &str, from_base: u32, to_base: u32) -> (r: Result<String, ParseError>)
    requires
        2 <= from_base <= 36,
        2 <= to_base <= 36,
    ensures
        match r {
            Ok(s) => convert_base_spec(text@, from_base as int, to_base as int) == Some(s@),
            Err(_) => convert_base_spec(text@, from_base as int, to_base as int) is None,
        },
{
    let ghost fbi = from_base as int;
    let ghost tbi = to_base as int;
    let chars = chars_of(text);
    let n = chars.len();
    let neg = n > 0 && chars[0] == '-';
    let start: usize = if neg {
        1
    } else {
        0
    };
    if n == start {
        return Err(ParseError);
    }
    let mut ds: Vec<u8> = Vec::new();
    let mut i: usize = start;
    proof {
        assert(text@.subrange(start as int, start as int) =~= Seq::<char>::empty());
        assert(digits_val(Seq::<char>::empty(), fbi) == 0);
        assert(val_digits(Seq::<u8>::empty(), fbi) == 0);
    }
    while i < n
        invariant
            start <= i <= n,
            start <= 1,
            n == chars@.len(),
            chars@ == text@,
            neg == (n > 0 && text@[0] == '-'),
            neg == (start == 1),
            2 <= from_base <= 36,
            fbi == from_base as int,
            ds@.len() == i - start,
            forall|j: int| start <= j < i ==> is_digit(#[trigger] text@[j], fbi),
            forall|j: int| 0 <= j < ds@.len() ==> ds@[j] < from_base,
            val_digits(ds@, fbi) == digits_val(text@.subrange(start as int, i as int), fbi),
        decreases n - i,
    {
        let c = chars[i];
        let mut good = false;
        let mut v: u8 = 0;
        match digit_val_exec(c) {
            Some(w) => {
                if (w as u32) < from_base {
                    good = true;
                    v = w;
                }
            },
            None => {},
        }
        if !good {
            proof {
                assert(!is_digit(text@[i as int], fbi));
                assert(!is_numeral(text@, fbi));
            }
            return Err(ParseError);
        }
        let ghost ds0 = ds@;
        ds.push(v);
        proof {
            assert(ds@.drop_last() =~= ds0);
            assert(text@.subrange(start as int, i + 1).drop_last() =~= text@.subrange(
                start as int,
                i as int,
            ));
            assert(text@.subrange(start as int, i + 1).last() == text@[i as int]);
        }
        i = i + 1;
    }
    proof {
        assert(text@.subrange(start as int, n as int) =~= text@.skip(start as int));
        assert(is_numeral(text@, fbi));
    }
    let ghost n0 = val_digits(ds@, fbi);
    let ghost value = if neg {
        -n0
    } else {
        n0
    };
    proof {
        lemma_val_digits_zero(ds@, fbi);
        if neg {
            assert(text@.skip(1) == text@.skip(start as int));
            assert(numeral_val(text@, fbi) == value);
        } else {
            assert(text@.skip(0) =~= text@);
            assert(numeral_val(text@, fbi) == value);
        }
    }
    let mut cur = ds;
    let mut out_rev: Vec<u8> = Vec::new();
    proof {
        assert(ints_of(out_rev@).reverse() =~= Seq::<int>::empty());
        assert(rep_digits(n0, tbi) == rep_digits(val_digits(cur@, fbi), tbi) + ints_of(
            out_rev@,
        ).reverse());
    }
    let mut done = is_zero_digits(&cur, from_base);
    while !done
        invariant
            2 <= from_base <= 36,
            2 <= to_base <= 36,
            fbi == from_base as int,
            tbi == to_base as int,
            forall|j: int| 0 <= j < cur@.len() ==> cur@[j] < from_base,
            forall|j: int| 0 <= j < out_rev@.len() ==> out_rev@[j] < to_base,
            done == (val_digits(cur@, fbi) == 0),
            val_digits(cur@, fbi) >= 0,
            rep_digits(n0, tbi) == rep_digits(val_digits(cur@, fbi), tbi) + ints_of(
                out_rev@,
            ).reverse(),
        decreases val_digits(cur@, fbi),
    {
        let ghost v = val_digits(cur@, fbi);
        let qr = big_divmod(&cur, from_base, to_base);
        let q = qr.0;
        let rd = qr.1;
        let ghost vq = val_digits(q@, fbi);
        proof {
            lemma_fundamental_div_mod_converse(v, tbi, vq, rd as int);
            assert(rep_digits(v, tbi) == rep_digits(vq, tbi) + seq![rd as int]);
            let ghost rdi = rd as int;
            assert(vq < v) by (nonlinear_arith)
                requires
                    v == vq * tbi + rdi,
                    0 <= rdi,
                    rdi < tbi,
                    vq >= 0,
                    tbi >= 2,
                    v > 0,
            ;
        }
        let ghost out0 = out_rev@;
        cur = q;
        out_rev.push(rd);
        proof {
            assert(ints_of(out_rev@) =~= ints_of(out0).push(rd as int));
            assert(ints_of(out_rev@).reverse() =~= seq![rd as int] + ints_of(out0).reverse());
            assert(rep_digits(vq, tbi) + (seq![rd as int] + ints_of(out0).reverse()) =~= (
            rep_digits(vq, tbi) + seq![rd as int]) + ints_of(out0).reverse());
        }
        done = is_zero_digits(&cur, from_base);
    }
    proof {
        assert(rep_digits(0, tbi) =~= Seq::<int>::empty());
        assert(Seq::<int>::empty() + ints_of(out_rev@).reverse() =~= ints_of(out_rev@).reverse());
        assert(rep_digits(n0, tbi) == ints_of(out_rev@).reverse());
        lemma_rep_digits_range(n0, tbi);
    }
    let m = out_rev.len();
    let mut outc: Vec<char> = Vec::new();
    if m == 0 {
        outc.push('0');
        proof {
            assert(rep_digits(n0, tbi).len() == 0);
            assert(n0 == 0 && value == 0);
            assert(outc@ =~= render_spec(value, tbi));
        }
    } else {
        if neg {
            outc.push('-');
        }
        let ghost prefix = if neg {
            seq!['-']
        } else {
            Seq::<char>::empty()
        };
        let ghost dd = digit_chars(rep_digits(n0, tbi));
        proof {
            assert(outc@ =~= prefix + dd.take(0));
        }
        let mut k: usize = 0;
        while k < m
            invariant
                k <= m,
                m == out_rev@.len(),
                m == rep_digits(n0, tbi).len(),
                2 <= to_base <= 36,
                tbi == to_base as int,
                forall|j: int| 0 <= j < out_rev@.len() ==> out_rev@[j] < to_base,
                rep_digits(n0, tbi) == ints_of(out_rev@).reverse(),
                dd == digit_chars(rep_digits(n0, tbi)),
                outc@ == prefix + dd.take(k as int),
            decreases m - k,
        {
            let c = digit_char_exec(out_rev[m - 1 - k]);
            outc.push(c);
            proof {
                assert(ints_of(out_rev@).reverse()[k as int] == out_rev@[m - 1 - k] as int);
                assert(dd[k as int] == digit_char(out_rev@[m - 1 - k] as int));
                assert(dd.take(k + 1) =~= dd.take(k as int).push(dd[k as int]));
                assert(outc@ =~= prefix + dd.take(k + 1));
            }
            k = k + 1;
        }
        proof {
            assert(dd.take(m as int) =~= dd);
            assert(n0 != 0);
            if neg {
                assert(value < 0 && -value == n0);
                assert(outc@ == render_spec(value, tbi));
            } else {
                assert(Seq::<char>::empty() + dd =~= dd);
                assert(outc@ == render_spec(value, tbi));
            }
        }
    }
    let s = string_of(&outc);
    Ok(s)
}

} // verus!
