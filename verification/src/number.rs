//! Unsigned integers written as digits: reading them as `str::parse` and
//! `usize::from_str_radix` do, and writing them in decimal.

use vstd::prelude::*;
use vstd::arithmetic::div_mod::lemma_fundamental_div_mod;

verus! {

/// The value of the digit byte `b` in base `radix` (at most 36), as
/// `char::to_digit` gives it: `0`-`9`, then `a`-`z` or `A`-`Z` for 10 to 35.
pub open spec fn digit_value(b: u8, radix: nat) -> Option<nat> {
    let d: int = if 48 <= b <= 57 {
        b - 48
    } else if 97 <= b <= 122 {
        b - 87
    } else if 65 <= b <= 90 {
        b - 55
    } else {
        36
    };
    if d < radix {
        Some(d as nat)
    } else {
        None
    }
}

/// The value of the digit string `s` in base `radix`; `None` if a byte of it
/// is not a digit. The empty string has the value 0.
pub open spec fn digits_value(s: Seq<u8>, radix: nat) -> Option<nat>
    decreases s.len(),
{
    if s.len() == 0 {
        Some(0)
    } else {
        match digits_value(s.drop_last(), radix) {
            Some(v) => match digit_value(s.last(), radix) {
                Some(d) => Some(v * radix + d),
                None => None,
            },
            None => None,
        }
    }
}

/// The digits of `s` once a leading `+` sign, if one is followed by more, is
/// taken off.
pub open spec fn unsigned_digits(s: Seq<u8>) -> Seq<u8> {
    if s.len() > 1 && s[0] == 43 {
        s.drop_first()
    } else {
        s
    }
}

/// What `usize::from_str_radix(s, radix)` returns on the bytes `s`: the value
/// of the digits after an optional `+`, where there is at least one byte, every
/// one of them is a digit and the value fits in a `usize`.
pub open spec fn parse_unsigned(s: Seq<u8>, radix: nat) -> Option<nat> {
    if s.len() == 0 {
        None
    } else {
        match digits_value(unsigned_digits(s), radix) {
            Some(v) => if v <= usize::MAX {
                Some(v)
            } else {
                None
            },
            None => None,
        }
    }
}

/// A prefix of a digit string is one too, and its value is no larger.
pub proof fn lemma_digits_prefix(s: Seq<u8>, radix: nat, k: int)
    requires
        0 <= k <= s.len(),
        radix >= 1,
    ensures
        digits_value(s.subrange(0, k), radix) is None ==> digits_value(s, radix) is None,
        digits_value(s, radix) matches Some(total) ==> digits_value(
            s.subrange(0, k),
            radix,
        ) matches Some(part) && part <= total,
    decreases s.len(),
{
    if k == s.len() {
        assert(s.subrange(0, k) =~= s);
    } else {
        let init = s.drop_last();
        assert(init.subrange(0, k) =~= s.subrange(0, k));
        lemma_digits_prefix(init, radix, k);
        if let Some(v) = digits_value(init, radix) {
            if let Some(d) = digit_value(s.last(), radix) {
                assert(v * radix + d >= v) by (nonlinear_arith)
                    requires
                        radix >= 1,
                ;
            }
        }
    }
}

/// The value of the digit byte `b` in base `radix`.
pub fn digit_of(b: u8, radix: usize) -> (r: Option<usize>)
    requires
        2 <= radix <= 36,
    ensures
        r matches Some(d) ==> digit_value(b, radix as nat) == Some(d as nat),
        r is None ==> digit_value(b, radix as nat) is None,
{
    let d: usize = if 48 <= b && b <= 57 {
        (b - 48) as usize
    } else if 97 <= b && b <= 122 {
        (b - 87) as usize
    } else if 65 <= b && b <= 90 {
        (b - 55) as usize
    } else {
        36
    };
    if d < radix {
        Some(d)
    } else {
        None
    }
}

/// Reads `s` as `usize::from_str_radix` does.
pub fn parse_usize(s: &[u8], radix: usize) -> (r: Option<usize>)
    requires
        2 <= radix <= 36,
    ensures
        r matches Some(v) ==> parse_unsigned(s@, radix as nat) == Some(v as nat),
        r is None ==> parse_unsigned(s@, radix as nat) is None,
{
    let n = s.len();
    if n == 0 {
        return None;
    }
    let start: usize = if n > 1 && s[0] == 43 {
        1
    } else {
        0
    };
    let ghost digits = unsigned_digits(s@);
    assert(digits =~= s@.subrange(start as int, n as int));
    let mut acc: usize = 0;
    let mut i: usize = start;
    assert(digits.subrange(0, 0) =~= Seq::<u8>::empty());
    while i < n
        invariant
            2 <= radix <= 36,
            n == s@.len(),
            start <= i <= n,
            digits == s@.subrange(start as int, n as int),
            digits == unsigned_digits(s@),
            n > 0,
            digits_value(digits.subrange(0, i - start), radix as nat) == Some(acc as nat),
        decreases n - i,
    {
        let ghost k: int = i - start;
        assert(digits.subrange(0, k + 1).drop_last() =~= digits.subrange(0, k));
        assert(digits.subrange(0, k + 1).last() == s@[i as int]);
        match digit_of(s[i], radix) {
            None => {
                proof {
                    lemma_digits_prefix(digits, radix as nat, k + 1);
                }
                return None;
            },
            Some(d) => {
                let next = match acc.checked_mul(radix) {
                    Some(m) => m.checked_add(d),
                    None => None,
                };
                match next {
                    None => {
                        proof {
                            lemma_digits_prefix(digits, radix as nat, k + 1);
                            assert(acc * radix + d > usize::MAX) by (nonlinear_arith)
                                requires
                                    acc * radix > usize::MAX || acc * radix + d > usize::MAX,
                            ;
                        }
                        return None;
                    },
                    Some(v) => {
                        acc = v;
                    },
                }
            },
        }
        i = i + 1;
    }
    assert(digits.subrange(0, n - start) =~= digits);
    Some(acc)
}

/// The character of the decimal digit `d`.
pub open spec fn digit_char(d: nat) -> char {
    seq!['0', '1', '2', '3', '4', '5', '6', '7', '8', '9'][d as int]
}

/// `n` written in decimal, with no leading zero, as `usize`'s `Display` writes it.
pub open spec fn decimal(n: nat) -> Seq<char>
    decreases n,
{
    if n < 10 {
        seq![digit_char(n)]
    } else {
        decimal(n / 10) + seq![digit_char(n % 10)]
    }
}

/// The one-character string of the decimal digit `d`.
fn digit_str(d: usize) -> (r: &'static str)
    requires
        d < 10,
    ensures
        r@ == seq![digit_char(d as nat)],
{
    proof {
        reveal_strlit("0");
        reveal_strlit("1");
        reveal_strlit("2");
        reveal_strlit("3");
        reveal_strlit("4");
        reveal_strlit("5");
        reveal_strlit("6");
        reveal_strlit("7");
        reveal_strlit("8");
        reveal_strlit("9");
    }
    match d {
        0 => "0",
        1 => "1",
        2 => "2",
        3 => "3",
        4 => "4",
        5 => "5",
        6 => "6",
        7 => "7",
        8 => "8",
        _ => "9",
    }
}

/// `n` written in decimal.
pub fn decimal_string(n: usize) -> (r: String)
    ensures
        r@ == decimal(n as nat),
    decreases n,
{
    if n < 10 {
        String::from_str(digit_str(n))
    } else {
        let mut s = decimal_string(n / 10);
        s.append(digit_str(n % 10));
        s
    }
}

/// The bytes of a text of ASCII characters.
pub open spec fn ascii_bytes(s: Seq<char>) -> Seq<u8> {
    s.map_values(|c: char| c as u8)
}

proof fn lemma_digit_char(d: nat)
    requires
        d < 10,
    ensures
        digit_char(d) as u8 == 48 + d,
        (digit_char(d) as u8) < 0x80,
{
    if d == 0 {
        assert(digit_char(d) == '0');
    } else if d == 1 {
        assert(digit_char(d) == '1');
    } else if d == 2 {
        assert(digit_char(d) == '2');
    } else if d == 3 {
        assert(digit_char(d) == '3');
    } else if d == 4 {
        assert(digit_char(d) == '4');
    } else if d == 5 {
        assert(digit_char(d) == '5');
    } else if d == 6 {
        assert(digit_char(d) == '6');
    } else if d == 7 {
        assert(digit_char(d) == '7');
    } else if d == 8 {
        assert(digit_char(d) == '8');
    } else if d == 9 {
        assert(digit_char(d) == '9');
    }
}

proof fn lemma_decimal_digits(n: nat)
    ensures
        ascii_bytes(decimal(n)).len() > 0,
        digit_value(ascii_bytes(decimal(n))[0], 10) is Some,
        digits_value(ascii_bytes(decimal(n)), 10) == Some(n),
    decreases n,
{
    let t = ascii_bytes(decimal(n));
    if n < 10 {
        lemma_digit_char(n);
        assert(t =~= seq![digit_char(n) as u8]);
        assert(t.drop_last() =~= Seq::<u8>::empty());
        assert(digit_value(t.last(), 10) == Some(n));
        assert(digits_value(t.drop_last(), 10) == Some(0nat));
    } else {
        lemma_decimal_digits(n / 10);
        lemma_digit_char(n % 10);
        let front = ascii_bytes(decimal(n / 10));
        assert(t =~= front + seq![digit_char(n % 10) as u8]);
        assert(t.drop_last() =~= front);
        assert(t[0] == front[0]);
        assert(digit_value(t.last(), 10) == Some((n % 10) as nat));
        lemma_fundamental_div_mod(n as int, 10);
        assert((n / 10) * 10 + n % 10 == n);
    }
}

/// Decimal numerals read back: `n` written in decimal is read as `n`.
pub proof fn law_decimal_reads_back(n: nat)
    requires
        n <= usize::MAX,
    ensures
        parse_unsigned(ascii_bytes(decimal(n)), 10) == Some(n),
{
    lemma_decimal_digits(n);
    let t = ascii_bytes(decimal(n));
    assert(t[0] != 43);
    assert(unsigned_digits(t) == t);
}

/// The digits of base 16, `0`-`9` then `a`-`f`.
pub open spec fn lower_hex_digits() -> Seq<u8> {
    seq![48u8, 49u8, 50u8, 51u8, 52u8, 53u8, 54u8, 55u8, 56u8, 57u8, 97u8, 98u8, 99u8, 100u8, 101u8, 102u8]
}

/// The digits of base 16, `0`-`9` then `A`-`F`.
pub open spec fn upper_hex_digits() -> Seq<u8> {
    seq![48u8, 49u8, 50u8, 51u8, 52u8, 53u8, 54u8, 55u8, 56u8, 57u8, 65u8, 66u8, 67u8, 68u8, 69u8, 70u8]
}

/// `n` written in base 16 with the digits `digits`, with no leading zero.
pub open spec fn hex_numeral(n: nat, digits: Seq<u8>) -> Seq<u8>
    decreases n,
{
    if n < 16 {
        seq![digits[n as int]]
    } else {
        hex_numeral(n / 16, digits) + seq![digits[(n % 16) as int]]
    }
}

proof fn lemma_hex_digit(d: nat)
    requires
        d < 16,
    ensures
        digit_value(lower_hex_digits()[d as int], 16) == Some(d),
        digit_value(upper_hex_digits()[d as int], 16) == Some(d),
{
    if d == 0 {
        assert(lower_hex_digits()[d as int] == 48u8);
        assert(upper_hex_digits()[d as int] == 48u8);
    } else if d == 1 {
        assert(lower_hex_digits()[d as int] == 49u8);
        assert(upper_hex_digits()[d as int] == 49u8);
    } else if d == 2 {
        assert(lower_hex_digits()[d as int] == 50u8);
        assert(upper_hex_digits()[d as int] == 50u8);
    } else if d == 3 {
        assert(lower_hex_digits()[d as int] == 51u8);
        assert(upper_hex_digits()[d as int] == 51u8);
    } else if d == 4 {
        assert(lower_hex_digits()[d as int] == 52u8);
        assert(upper_hex_digits()[d as int] == 52u8);
    } else if d == 5 {
        assert(lower_hex_digits()[d as int] == 53u8);
        assert(upper_hex_digits()[d as int] == 53u8);
    } else if d == 6 {
        assert(lower_hex_digits()[d as int] == 54u8);
        assert(upper_hex_digits()[d as int] == 54u8);
    } else if d == 7 {
        assert(lower_hex_digits()[d as int] == 55u8);
        assert(upper_hex_digits()[d as int] == 55u8);
    } else if d == 8 {
        assert(lower_hex_digits()[d as int] == 56u8);
        assert(upper_hex_digits()[d as int] == 56u8);
    } else if d == 9 {
        assert(lower_hex_digits()[d as int] == 57u8);
        assert(upper_hex_digits()[d as int] == 57u8);
    } else if d == 10 {
        assert(lower_hex_digits()[d as int] == 97u8);
        assert(upper_hex_digits()[d as int] == 65u8);
    } else if d == 11 {
        assert(lower_hex_digits()[d as int] == 98u8);
        assert(upper_hex_digits()[d as int] == 66u8);
    } else if d == 12 {
        assert(lower_hex_digits()[d as int] == 99u8);
        assert(upper_hex_digits()[d as int] == 67u8);
    } else if d == 13 {
        assert(lower_hex_digits()[d as int] == 100u8);
        assert(upper_hex_digits()[d as int] == 68u8);
    } else if d == 14 {
        assert(lower_hex_digits()[d as int] == 101u8);
        assert(upper_hex_digits()[d as int] == 69u8);
    } else if d == 15 {
        assert(lower_hex_digits()[d as int] == 102u8);
        assert(upper_hex_digits()[d as int] == 70u8);
    }
}

proof fn lemma_hex_digits(n: nat, digits: Seq<u8>)
    requires
        digits == lower_hex_digits() || digits == upper_hex_digits(),
    ensures
        hex_numeral(n, digits).len() > 0,
        digit_value(hex_numeral(n, digits)[0], 16) is Some,
        digits_value(hex_numeral(n, digits), 16) == Some(n),
    decreases n,
{
    let t = hex_numeral(n, digits);
    if n < 16 {
        lemma_hex_digit(n);
        assert(t.drop_last() =~= Seq::<u8>::empty());
        assert(digit_value(t.last(), 16) == Some(n));
        assert(digits_value(t.drop_last(), 16) == Some(0nat));
    } else {
        lemma_hex_digits(n / 16, digits);
        lemma_hex_digit(n % 16);
        let front = hex_numeral(n / 16, digits);
        assert(t.drop_last() =~= front);
        assert(t[0] == front[0]);
        assert(t.last() == digits[(n % 16) as int]);
        assert(digit_value(t.last(), 16) == Some((n % 16) as nat));
        lemma_fundamental_div_mod(n as int, 16);
        assert((n / 16) * 16 + n % 16 == n);
    }
}

/// Hexadecimal numerals read back: `n` written in base 16, with lower or
/// upper case letters, is read as `n`; each letter `a`-`f` (or `A`-`F`)
/// stands for 10 to 15.
pub proof fn law_hex_reads_back(n: nat, digits: Seq<u8>)
    requires
        digits == lower_hex_digits() || digits == upper_hex_digits(),
        n <= usize::MAX,
    ensures
        parse_unsigned(hex_numeral(n, digits), 16) == Some(n),
{
    lemma_hex_digits(n, digits);
    let t = hex_numeral(n, digits);
    assert(t[0] != 43);
    assert(unsigned_digits(t) == t);
}

} // verus!
