//! Decimal numerals.

use vstd::prelude::*;

use crate::text;

verus! {

/// Whether `c` is one of the ten decimal digits.
pub open spec fn is_digit(c: char) -> bool {
    48 <= c as u32 <= 57
}

/// Whether `s` holds digits only.
pub open spec fn all_digits(s: Seq<char>) -> bool {
    forall|i: int| 0 <= i < s.len() ==> is_digit(#[trigger] s[i])
}

/// The number that the digits of `s` write.
pub open spec fn value_of(s: Seq<char>) -> nat
    decreases s.len(),
{
    if s.len() == 0 {
        0
    } else {
        (value_of(s.drop_last()) * 10 + (s.last() as u32 - 48)) as nat
    }
}

/// The digit for `n`, which is less than ten.
pub open spec fn digit_char(n: nat) -> char {
    ((48 + n) as u32) as char
}

/// The shortest numeral that writes `n`.
pub open spec fn numeral(n: nat) -> Seq<char>
    decreases n,
{
    if n < 10 {
        seq![digit_char(n)]
    } else {
        numeral(n / 10).push(digit_char(n % 10))
    }
}

/// The number that `s` writes, where it fits in 32 bits: an optional plus sign, then at
/// least one digit, and nothing else.
pub open spec fn u32_of(s: Seq<char>) -> Option<u32> {
    let digits = if s.len() > 0 && s.first() == '+' {
        s.drop_first()
    } else {
        s
    };
    if digits.len() > 0 && all_digits(digits) && value_of(digits) <= u32::MAX {
        Some(value_of(digits) as u32)
    } else {
        None
    }
}

/// More digits never make a smaller number.
proof fn lemma_value_grows(s: Seq<char>, k: int)
    requires
        0 <= k <= s.len(),
        all_digits(s),
    ensures
        value_of(s.take(k)) <= value_of(s),
    decreases s.len() - k,
{
    if k < s.len() {
        lemma_value_grows(s, k + 1);
        let longer = s.take(k + 1);
        assert(longer.drop_last() == s.take(k));
        assert(is_digit(s[k]));
    } else {
        assert(s.take(k) == s);
    }
}

/// A numeral holds digits only, at least one of them, and writes its number.
pub proof fn lemma_numeral_value(n: nat)
    ensures
        numeral(n).len() > 0,
        all_digits(numeral(n)),
        value_of(numeral(n)) == n,
    decreases n,
{
    reveal_with_fuel(value_of, 2);
    if n >= 10 {
        lemma_numeral_value(n / 10);
        assert(numeral(n).drop_last() == numeral(n / 10));
    }
}

/// Reading a written number gives it back.
pub proof fn law_numeral_reads_back(n: u32)
    ensures
        u32_of(numeral(n as nat)) == Some(n),
{
    lemma_numeral_value(n as nat);
    assert(is_digit(numeral(n as nat)[0]));
}

/// `n` times the digit zero.
pub open spec fn zeros(n: nat) -> Seq<char> {
    Seq::new(n, |i: int| '0')
}

/// An optional plus sign.
pub open spec fn plus_sign(plus: bool) -> Seq<char> {
    if plus {
        seq!['+']
    } else {
        Seq::empty()
    }
}

/// Zeros before a numeral do not change its number.
proof fn lemma_value_behind_zeros(n: nat, s: Seq<char>)
    ensures
        value_of(zeros(n) + s) == value_of(s),
    decreases n + s.len(),
{
    let all = zeros(n) + s;
    if s.len() > 0 {
        lemma_value_behind_zeros(n, s.drop_last());
        assert(all.drop_last() =~= zeros(n) + s.drop_last());
        assert(all.last() == s.last());
    } else if n > 0 {
        lemma_value_behind_zeros((n - 1) as nat, s);
        assert(all.drop_last() =~= zeros((n - 1) as nat) + s);
        assert(all.last() == '0');
    } else {
        assert(all =~= s);
    }
}

/// A digit is the one for its value.
proof fn lemma_digit(c: char)
    requires
        is_digit(c),
    ensures
        '0' <= c <= '9',
        digit_char((c as u32 - 48) as nat) == c,
{
}

/// Digits are the numeral of their number, with zeros before it.
proof fn lemma_digits_are_a_padded_numeral(s: Seq<char>) -> (n: nat)
    requires
        s.len() > 0,
        all_digits(s),
    ensures
        s == zeros(n) + numeral(value_of(s)),
    decreases s.len(),
{
    reveal_with_fuel(value_of, 2);
    let c = s.last();
    assert(is_digit(s[s.len() - 1]));
    let digit = (c as u32 - 48) as nat;
    lemma_digit(c);
    assert(digit_char(digit) == c);
    let rest = s.drop_last();
    if rest.len() == 0 {
        assert(value_of(rest) == 0);
        assert(value_of(s) == digit);
        assert(s =~= zeros(0) + numeral(value_of(s)));
        0
    } else {
        assert forall|i: int| 0 <= i < rest.len() implies is_digit(#[trigger] rest[i]) by {
            assert(is_digit(s[i]));
        }
        let k = lemma_digits_are_a_padded_numeral(rest);
        let v = value_of(rest);
        assert(s =~= rest.push(c));
        if v == 0 {
            assert(numeral(0) =~= seq!['0']);
            assert(numeral(value_of(s)) =~= seq![c]);
            assert(s =~= zeros(k + 1) + numeral(value_of(s)));
            k + 1
        } else {
            assert(value_of(s) == v * 10 + digit);
            assert(value_of(s) / 10 == v && value_of(s) % 10 == digit);
            assert(s =~= zeros(k) + numeral(value_of(s)));
            k
        }
    }
}

/// A numeral that fits is read as its number, also with zeros and a plus sign before it.
pub proof fn law_padded_numerals_are_read(plus: bool, n: nat, number: u32)
    ensures
        u32_of(plus_sign(plus) + zeros(n) + numeral(number as nat)) == Some(number),
{
    let digits = zeros(n) + numeral(number as nat);
    let s = plus_sign(plus) + zeros(n) + numeral(number as nat);
    lemma_numeral_value(number as nat);
    lemma_value_behind_zeros(n, numeral(number as nat));
    assert forall|i: int| 0 <= i < digits.len() implies is_digit(#[trigger] digits[i]) by {
        if i >= n {
            assert(digits[i] == numeral(number as nat)[i - n]);
        }
    }
    if plus {
        assert(s.drop_first() =~= digits);
    } else {
        assert(s =~= digits);
        assert(is_digit(digits[0]));
    }
}

/// Nothing else is read: what gives a number is its numeral, with zeros and a plus sign
/// before it or not.
pub proof fn law_only_padded_numerals_are_read(s: Seq<char>) -> (padding: (bool, nat))
    requires
        u32_of(s) is Some,
    ensures
        s == plus_sign(padding.0) + zeros(padding.1) + numeral(u32_of(s)->0 as nat),
{
    let plus = s.len() > 0 && s.first() == '+';
    let digits = if plus {
        s.drop_first()
    } else {
        s
    };
    let n = lemma_digits_are_a_padded_numeral(digits);
    assert(s =~= plus_sign(plus) + digits);
    assert(s =~= plus_sign(plus) + zeros(n) + numeral(u32_of(s)->0 as nat));
    (plus, n)
}

/// A numeral writes its number in digits, the first of which is a zero only for zero itself.
pub proof fn law_numerals_are_shortest(n: nat)
    ensures
        numeral(n).len() > 0,
        value_of(numeral(n)) == n,
        forall|i: int| 0 <= i < numeral(n).len() ==> '0' <= #[trigger] numeral(n)[i] <= '9',
        n > 0 ==> numeral(n)[0] != '0',
    decreases n,
{
    lemma_numeral_value(n);
    assert forall|i: int| 0 <= i < numeral(n).len() implies '0' <= #[trigger] numeral(n)[i]
        <= '9' by {
        assert(is_digit(numeral(n)[i]));
        lemma_digit(numeral(n)[i]);
    }
    if n >= 10 {
        law_numerals_are_shortest(n / 10);
        assert(numeral(n)[0] == numeral(n / 10)[0]);
    }
}

/// The number that `s` writes, where it fits in 32 bits.
pub fn parse_u32(s: &str) -> (r: Option<u32>)
    ensures
        r == u32_of(s@),
{
    let chars = text::chars_of(s);
    let start: usize = if chars.len() > 0 && chars[0] == '+' {
        1
    } else {
        0
    };
    let ghost digits = s@.skip(start as int);
    assert(digits == if s@.len() > 0 && s@.first() == '+' {
        s@.drop_first()
    } else {
        s@
    });
    if start == chars.len() {
        return None;
    }
    let mut total: u64 = 0;
    let mut i: usize = start;
    assert(digits.take(0).len() == 0);
    while i < chars.len()
        invariant
            chars@ == s@,
            start <= i <= chars.len(),
            start < chars.len(),
            digits == s@.skip(start as int),
            u32_of(s@) == (if digits.len() > 0 && all_digits(digits) && value_of(digits) <= u32::MAX {
                Some(value_of(digits) as u32)
            } else {
                None
            }),
            all_digits(digits.take(i - start)),
            total == value_of(digits.take(i - start)),
            total <= u32::MAX,
        decreases chars.len() - i,
    {
        let code: u32 = chars[i] as u32;
        assert(digits[i - start] == chars@[i as int]);
        if code < 48 || code > 57 {
            return None;
        }
        let ghost next = digits.take(i - start + 1);
        assert(next.drop_last() == digits.take(i - start));
        total = total * 10 + (code - 48) as u64;
        if total > u32::MAX as u64 {
            proof {
                if all_digits(digits) {
                    lemma_value_grows(digits, i - start + 1);
                }
            }
            return None;
        }
        i = i + 1;
    }
    assert(digits.take(i - start) == digits);
    Some(total as u32)
}

/// The shortest numeral that writes `n`.
pub fn number_text(n: usize) -> (r: String)
    ensures
        r@ == numeral(n as nat),
    decreases n,
{
    let last: char = (48 + (n % 10) as u8) as char;
    assert(last == digit_char((n % 10) as nat));
    let mut r = if n < 10 {
        String::new()
    } else {
        number_text(n / 10)
    };
    r.push(last);
    assert(n < 10 ==> r@ == seq![last]);
    r
}

} // verus!
