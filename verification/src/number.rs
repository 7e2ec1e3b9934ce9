//! Reading unsigned numbers from text, as `str::parse::<usize>` and
//! `u8::from_str_radix` do.

use vstd::prelude::*;

use crate::error::IntErrorKind;

verus! {

/// The value of a decimal digit.
pub open spec fn decimal_digit(c: char) -> Option<nat> {
    if '0' <= c && c <= '9' {
        Some((c as u32 - '0' as u32) as nat)
    } else {
        None
    }
}

/// The digits `s` read after the value `acc`, left to right: a character
/// that is no digit, or a value above `usize::MAX`, stops the reading.
pub open spec fn read_decimal(s: Seq<char>, acc: nat) -> Result<nat, IntErrorKind>
    decreases s.len(),
{
    if s.len() == 0 {
        Ok(acc)
    } else {
        match decimal_digit(s[0]) {
            None => Err(IntErrorKind::InvalidDigit),
            Some(d) => if acc * 10 + d > usize::MAX {
                Err(IntErrorKind::PosOverflow)
            } else {
                read_decimal(s.drop_first(), acc * 10 + d)
            },
        }
    }
}

/// `str::parse::<usize>`: an optional `+` and decimal digits.
pub open spec fn parse_usize_spec(s: Seq<char>) -> Result<nat, IntErrorKind> {
    if s.len() == 0 {
        Err(IntErrorKind::Empty)
    } else if (s[0] == '+' || s[0] == '-') && s.len() == 1 {
        Err(IntErrorKind::InvalidDigit)
    } else if s[0] == '+' {
        read_decimal(s.drop_first(), 0)
    } else {
        read_decimal(s, 0)
    }
}

/// Reads an unsigned number (`str::parse::<usize>`).
pub fn parse_usize(s: &Vec<char>) -> (r: Result<usize, IntErrorKind>)
    ensures
        match r {
            Ok(v) => parse_usize_spec(s@) == Ok::<nat, IntErrorKind>(v as nat),
            Err(k) => parse_usize_spec(s@) == Err::<nat, IntErrorKind>(k),
        },
{
    let n = s.len();
    if n == 0 {
        return Err(IntErrorKind::Empty);
    }
    if (s[0] == '+' || s[0] == '-') && n == 1 {
        return Err(IntErrorKind::InvalidDigit);
    }
    let mut i: usize = if s[0] == '+' {
        1
    } else {
        0
    };
    let ghost digits = if s@[0] == '+' {
        s@.drop_first()
    } else {
        s@
    };
    proof {
        assert(s@.skip(i as int) =~= digits);
        assert(parse_usize_spec(s@) == read_decimal(digits, 0));
    }
    let mut acc: usize = 0;
    while i < n
        invariant
            i <= n == s.len(),
            read_decimal(digits, 0) == read_decimal(s@.skip(i as int), acc as nat),
            parse_usize_spec(s@) == read_decimal(digits, 0),
        decreases n - i,
    {
        let c = s[i];
        proof {
            assert(s@.skip(i as int)[0] == c);
            assert(s@.skip(i as int).drop_first() == s@.skip(i + 1));
        }
        if c < '0' || c > '9' {
            return Err(IntErrorKind::InvalidDigit);
        }
        let d = (c as u32 - '0' as u32) as usize;
        match acc.checked_mul(10) {
            None => {
                return Err(IntErrorKind::PosOverflow);
            },
            Some(a) => match a.checked_add(d) {
                None => {
                    return Err(IntErrorKind::PosOverflow);
                },
                Some(b) => {
                    acc = b;
                },
            },
        }
        i = i + 1;
    }
    proof {
        assert(s@.skip(i as int).len() == 0);
    }
    Ok(acc)
}

/// The value of a hexadecimal digit byte.
pub open spec fn hex_digit(b: u8) -> Option<u8> {
    if 0x30 <= b && b <= 0x39 {
        Some((b - 0x30) as u8)
    } else if 0x61 <= b && b <= 0x66 {
        Some((b - 0x61 + 10) as u8)
    } else if 0x41 <= b && b <= 0x46 {
        Some((b - 0x41 + 10) as u8)
    } else {
        None
    }
}

/// The value of a hexadecimal digit byte.
pub fn hex_digit_value(b: u8) -> (r: Option<u8>)
    ensures
        r == hex_digit(b),
{
    if 0x30 <= b && b <= 0x39 {
        Some(b - 0x30)
    } else if 0x61 <= b && b <= 0x66 {
        Some(b - 0x61 + 10)
    } else if 0x41 <= b && b <= 0x46 {
        Some(b - 0x41 + 10)
    } else {
        None
    }
}

/// The character of a decimal digit.
pub open spec fn digit_char(d: nat) -> char {
    (d + 48) as char
}

/// The decimal digits of a number, with no leading zero.
pub open spec fn decimal_text(n: nat) -> Seq<char>
    decreases n,
{
    if n < 10 {
        seq![digit_char(n)]
    } else {
        decimal_text(n / 10) + seq![digit_char(n % 10)]
    }
}

proof fn lemma_read_decimal_append(x: Seq<char>, y: Seq<char>, acc: nat)
    ensures
        read_decimal(x + y, acc) == match read_decimal(x, acc) {
            Ok(a) => read_decimal(y, a),
            Err(e) => Err(e),
        },
    decreases x.len(),
{
    if x.len() == 0 {
        assert(x + y == y);
    } else {
        assert((x + y)[0] == x[0]);
        assert((x + y).drop_first() == x.drop_first() + y);
        if let Some(d) = decimal_digit(x[0]) {
            if acc * 10 + d <= usize::MAX {
                lemma_read_decimal_append(x.drop_first(), y, acc * 10 + d);
            }
        }
    }
}

proof fn lemma_digit_char(d: nat)
    requires
        d < 10,
    ensures
        decimal_digit(digit_char(d)) == Some(d),
        digit_char(d) != '+' && digit_char(d) != '-',
{
    assert(digit_char(d) as u32 == d + 48);
}

proof fn lemma_decimal_text_first(n: nat)
    ensures
        decimal_text(n).len() >= 1,
        decimal_text(n)[0] != '+' && decimal_text(n)[0] != '-',
    decreases n,
{
    if n < 10 {
        lemma_digit_char(n);
    } else {
        lemma_decimal_text_first(n / 10);
    }
}

proof fn lemma_read_decimal_text(n: nat)
    requires
        n <= usize::MAX,
    ensures
        read_decimal(decimal_text(n), 0) == Ok::<nat, IntErrorKind>(n),
    decreases n,
{
    if n < 10 {
        lemma_digit_char(n);
        let t = decimal_text(n);
        assert(t == seq![digit_char(n)]);
        assert(t.drop_first() =~= Seq::<char>::empty());
        assert(read_decimal(t.drop_first(), n) == Ok::<nat, IntErrorKind>(n));
        assert(read_decimal(t, 0) == read_decimal(t.drop_first(), 0 * 10 + n));
    } else {
        let q = n / 10;
        let r = n % 10;
        assert(q * 10 + r == n) by (nonlinear_arith)
            requires
                q == n / 10,
                r == n % 10,
        ;
        lemma_read_decimal_text(q);
        lemma_digit_char(r);
        lemma_read_decimal_append(decimal_text(q), seq![digit_char(r)], 0);
        let one = seq![digit_char(r)];
        assert(one.drop_first() =~= Seq::<char>::empty());
        assert(decimal_text(n) == decimal_text(q) + one);
        assert(read_decimal(one.drop_first(), n) == Ok::<nat, IntErrorKind>(n));
        assert(read_decimal(one, q) == read_decimal(one.drop_first(), q * 10 + r));
    }
}

/// Reading the decimal digits of a number gives the number back, for every
/// number that fits in `usize`: every digit `0` to `9` counts with its value.
pub proof fn lemma_parse_decimal_text(n: nat)
    requires
        n <= usize::MAX,
    ensures
        parse_usize_spec(decimal_text(n)) == Ok::<nat, IntErrorKind>(n),
{
    lemma_decimal_text_first(n);
    lemma_read_decimal_text(n);
}

/// The lower-case hexadecimal digits, by value.
pub open spec fn lower_hex_digits() -> Seq<u8> {
    seq![
        0x30u8, 0x31, 0x32, 0x33, 0x34, 0x35, 0x36, 0x37, 0x38, 0x39, 0x61, 0x62, 0x63, 0x64, 0x65, 0x66,
    ]
}

/// The upper-case hexadecimal digits, by value.
pub open spec fn upper_hex_digits() -> Seq<u8> {
    seq![
        0x30u8, 0x31, 0x32, 0x33, 0x34, 0x35, 0x36, 0x37, 0x38, 0x39, 0x41, 0x42, 0x43, 0x44, 0x45, 0x46,
    ]
}

/// A byte is a hexadecimal digit exactly when it is the lower-case or the
/// upper-case digit of some value below 16, and then it reads as that value
/// (as `u8::from_str_radix` with radix 16 reads a single digit).
pub proof fn lemma_hex_digit_table(b: u8)
    ensures
        forall|v: int| 0 <= v < 16 ==> hex_digit(#[trigger] lower_hex_digits()[v]) == Some(v as u8),
        forall|v: int| 0 <= v < 16 ==> hex_digit(#[trigger] upper_hex_digits()[v]) == Some(v as u8),
        hex_digit(b) matches Some(v) ==> v < 16 && (lower_hex_digits()[v as int] == b
            || upper_hex_digits()[v as int] == b),
        hex_digit(b) is None ==> forall|v: int|
            0 <= v < 16 ==> lower_hex_digits()[v] != b && upper_hex_digits()[v] != b,
{
    let lo = lower_hex_digits();
    let up = upper_hex_digits();
    assert(lo.len() == 16 && up.len() == 16);
    assert forall|v: int| 0 <= v < 16 implies lo[v] == (if v < 10 { 0x30 + v } else { 0x61 + v - 10 }) by {}
    assert forall|v: int| 0 <= v < 16 implies up[v] == (if v < 10 { 0x30 + v } else { 0x41 + v - 10 }) by {}
}

} // verus!
