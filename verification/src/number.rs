//! Decimal numbers: reading them from text and writing them out.

use vstd::prelude::*;
use vstd::slice::slice_subrange;

verus! {

/// Whether `c` is one of `0` to `9`.
pub open spec fn is_digit(c: char) -> bool {
    '0' <= c <= '9'
}

/// The value of a digit.
pub open spec fn digit_value(c: char) -> nat {
    (c as u32 - '0' as u32) as nat
}

/// The value of a run of decimal digits.
pub open spec fn digits_value(s: Seq<char>) -> nat
    decreases s.len(),
{
    if s.len() == 0 {
        0
    } else {
        digits_value(s.drop_last()) * 10 + digit_value(s.last())
    }
}

/// Whether `s` is a run of one digit or more.
pub open spec fn is_digits(s: Seq<char>) -> bool {
    s.len() > 0 && forall|i: int| 0 <= i < s.len() ==> is_digit(#[trigger] s[i])
}

/// The natural number that `s` spells: digits, with one `+` allowed in front.
pub open spec fn parse_nat(s: Seq<char>) -> Option<nat> {
    let d = if s.len() > 0 && s[0] == '+' {
        s.skip(1)
    } else {
        s
    };
    if is_digits(d) {
        Some(digits_value(d))
    } else {
        None
    }
}

/// The number that `s` spells, where it is no larger than `max`.
pub open spec fn parse_upto(s: Seq<char>, max: nat) -> Option<nat> {
    match parse_nat(s) {
        Some(n) => if n <= max {
            Some(n)
        } else {
            None
        },
        None => None,
    }
}

/// The 32-bit number that `s` spells.
pub open spec fn parse_u32(s: Seq<char>) -> Option<u32> {
    match parse_upto(s, u32::MAX as nat) {
        Some(n) => Some(n as u32),
        None => None,
    }
}

/// The 64-bit number that `s` spells.
pub open spec fn parse_u64(s: Seq<char>) -> Option<u64> {
    match parse_upto(s, u64::MAX as nat) {
        Some(n) => Some(n as u64),
        None => None,
    }
}

/// The signed 32-bit number that `s` spells: digits, with one `+` or `-`
/// allowed in front.
pub open spec fn parse_i32(s: Seq<char>) -> Option<int> {
    if s.len() > 0 && s[0] == '-' {
        if is_digits(s.skip(1)) && digits_value(s.skip(1)) <= 0x8000_0000 {
            Some(-(digits_value(s.skip(1)) as int))
        } else {
            None
        }
    } else {
        match parse_upto(s, i32::MAX as nat) {
            Some(n) => Some(n as int),
            None => None,
        }
    }
}

/// The character of a digit.
pub open spec fn digit_char(d: nat) -> char {
    ('0' as u32 + d) as char
}

/// `n` in decimal, without leading zeros.
pub open spec fn decimal(n: nat) -> Seq<char>
    decreases n,
{
    if n < 10 {
        seq![digit_char(n)]
    } else {
        decimal(n / 10).push(digit_char(n % 10))
    }
}

/// `n` in decimal, with a `-` in front where it is negative.
pub open spec fn decimal_int(n: int) -> Seq<char> {
    if n < 0 {
        seq!['-'] + decimal((-n) as nat)
    } else {
        decimal(n as nat)
    }
}

/// Reading a number back from its decimal form gives the number.
pub proof fn law_decimal_reads_back(n: nat)
    ensures
        parse_nat(decimal(n)) == Some(n),
{
    lemma_decimal_digits(n);
    assert(is_digit(decimal(n)[0]));
}

/// The decimal form of a number consists of digits and has its value.
pub proof fn lemma_decimal_digits(n: nat)
    ensures
        is_digits(decimal(n)),
        digits_value(decimal(n)) == n,
    decreases n,
{
    if n < 10 {
        let s = decimal(n);
        assert(s.drop_last() =~= Seq::<char>::empty());
        assert(digits_value(s.drop_last()) == 0);
        assert(s.last() == digit_char(n));
    } else {
        lemma_decimal_digits(n / 10);
        let s = decimal(n);
        assert(s.drop_last() =~= decimal(n / 10));
        assert(s.last() == digit_char(n % 10));
        assert forall|i: int| 0 <= i < s.len() implies is_digit(#[trigger] s[i]) by {
            if i < s.len() - 1 {
                assert(s[i] == decimal(n / 10)[i]);
            }
        }
    }
}

/// Whether `c` is one of `0` to `9`.
pub fn digit(c: char) -> (r: bool)
    ensures
        r == is_digit(c),
{
    '0' <= c && c <= '9'
}

/// The value of a run of digits, if it is one and fits.
pub fn read_digits(s: &[char]) -> (r: Option<u64>)
    ensures
        match r {
            Some(n) => is_digits(s@) && digits_value(s@) == n,
            None => !is_digits(s@) || digits_value(s@) > u64::MAX,
        },
{
    if s.len() == 0 {
        return None;
    }
    let mut acc: u64 = 0;
    let mut over: bool = false;
    let mut i: usize = 0;
    assert(s@.take(0) =~= Seq::<char>::empty());
    while i < s.len()
        invariant
            i <= s@.len(),
            forall|j: int| 0 <= j < i ==> is_digit(#[trigger] s@[j]),
            over ==> digits_value(s@.take(i as int)) > u64::MAX,
            !over ==> digits_value(s@.take(i as int)) == acc,
        decreases s@.len() - i,
    {
        let c = s[i];
        if !digit(c) {
            assert(!is_digit(s@[i as int]));
            return None;
        }
        assert(s@.take(i + 1).drop_last() =~= s@.take(i as int));
        assert(s@.take(i + 1).last() == c);
        let d: u64 = (c as u32 - '0' as u32) as u64;
        if !over {
            match acc.checked_mul(10) {
                Some(m) => match m.checked_add(d) {
                    Some(a) => {
                        acc = a;
                    },
                    None => {
                        over = true;
                    },
                },
                None => {
                    over = true;
                },
            }
        }
        i += 1;
    }
    assert(s@.take(i as int) =~= s@);
    if over {
        None
    } else {
        Some(acc)
    }
}

/// Reads an unsigned number of 64 bits.
pub fn read_u64(s: &[char]) -> (r: Option<u64>)
    ensures
        r == parse_u64(s@),
{
    if s.len() > 0 && s[0] == '+' {
        let d = slice_subrange(s, 1, s.len());
        assert(d@ =~= s@.skip(1));
        read_digits(d)
    } else {
        read_digits(s)
    }
}

/// Reads an unsigned number of 32 bits.
pub fn read_u32(s: &[char]) -> (r: Option<u32>)
    ensures
        r == parse_u32(s@),
{
    match read_u64(s) {
        Some(n) => if n <= 0xffff_ffff {
            Some(n as u32)
        } else {
            None
        },
        None => None,
    }
}

/// Reads a signed number of 32 bits.
pub fn read_i32(s: &[char]) -> (r: Option<i32>)
    ensures
        match r {
            Some(n) => parse_i32(s@) == Some(n as int),
            None => parse_i32(s@) is None,
        },
{
    if s.len() > 0 && s[0] == '-' {
        let d = slice_subrange(s, 1, s.len());
        assert(d@ =~= s@.skip(1));
        match read_digits(d) {
            Some(n) => if n <= 0x7fff_ffff {
                Some(-(n as i32))
            } else if n == 0x8000_0000 {
                Some(i32::MIN)
            } else {
                None
            },
            None => None,
        }
    } else {
        match read_u64(s) {
            Some(n) => if n <= 0x7fff_ffff {
                Some(n as i32)
            } else {
                None
            },
            None => None,
        }
    }
}

/// Writes `n` in decimal behind `s`.
pub fn push_decimal(s: &mut String, n: u64)
    ensures
        final(s)@ == old(s)@ + decimal(n as nat),
    decreases n,
{
    if n >= 10 {
        push_decimal(s, n / 10);
    }
    let d: u8 = (n % 10) as u8;
    let c: char = (48u8 + d) as char;
    assert(c == digit_char((n % 10) as nat));
    let ghost before = s@;
    s.push(c);
    proof {
        if n >= 10 {
            assert(s@ =~= old(s)@ + decimal(n as nat));
        } else {
            assert(s@ =~= old(s)@ + decimal(n as nat));
        }
    }
}

/// `n` in decimal.
pub fn decimal_string(n: u64) -> (r: String)
    ensures
        r@ == decimal(n as nat),
{
    let mut s = String::new();
    push_decimal(&mut s, n);
    assert(s@ =~= decimal(n as nat));
    s
}

/// Writes the signed number `n` in decimal behind `s`.
pub fn push_decimal_int(s: &mut String, n: i32)
    ensures
        final(s)@ == old(s)@ + decimal_int(n as int),
{
    if n < 0 {
        s.push('-');
        let m: u64 = (-(n as i64)) as u64;
        push_decimal(s, m);
        assert(s@ =~= old(s)@ + decimal_int(n as int));
    } else {
        push_decimal(s, n as u64);
    }
}

} // verus!
