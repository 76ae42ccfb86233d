//! ASCII decimal numbers: what a run of digits denotes, and how a number is
//! written with the fewest digits.

use vstd::prelude::*;
use vstd::string::StringExecFns;

verus! {

/// The byte `-`.
pub const MINUS: u8 = 45;

/// Whether `b` is one of the bytes `0` to `9`.
pub open spec fn is_digit(b: u8) -> bool {
    48 <= b <= 57
}

/// Whether every byte of `s` is a digit.
pub open spec fn all_digits(s: Seq<u8>) -> bool {
    forall|i: int| 0 <= i < s.len() ==> is_digit(#[trigger] s[i])
}

/// The number that the digits `s` denote, most significant digit first.
pub open spec fn digits_value(s: Seq<u8>) -> nat
    decreases s.len(),
{
    if s.len() == 0 {
        0
    } else {
        (digits_value(s.drop_last()) * 10 + (s.last() - 48)) as nat
    }
}

/// The shortest run of digits that denotes `n`.
pub open spec fn decimal_nat(n: nat) -> Seq<u8>
    decreases n,
{
    if n < 10 {
        seq![(48 + n) as u8]
    } else {
        decimal_nat(n / 10).push((48 + n % 10) as u8)
    }
}

/// The shortest decimal form of `n`: a `-` for a negative number, then digits.
pub open spec fn decimal_int(n: int) -> Seq<u8> {
    if n < 0 {
        seq![45u8] + decimal_nat((-n) as nat)
    } else {
        decimal_nat(n as nat)
    }
}

/// The integer that `s` denotes: an optional `-`, then at least one digit.
/// Leading zeros and `-0` are read, not refused.
pub open spec fn parse_int(s: Seq<u8>) -> Option<int> {
    if s.len() > 0 && s[0] == 45 {
        if s.len() > 1 && all_digits(s.skip(1)) {
            Some(-(digits_value(s.skip(1)) as int))
        } else {
            None
        }
    } else if s.len() > 0 && all_digits(s) {
        Some(digits_value(s) as int)
    } else {
        None
    }
}

/// A run of digits denotes at least what any of its prefixes denotes.
pub proof fn lemma_digits_value_prefix(s: Seq<u8>, k: int)
    requires
        all_digits(s),
        0 <= k <= s.len(),
    ensures
        digits_value(s.subrange(0, k)) <= digits_value(s),
    decreases s.len(),
{
    if k == s.len() {
        assert(s.subrange(0, k) =~= s);
    } else {
        let t = s.drop_last();
        assert(t.subrange(0, k) =~= s.subrange(0, k));
        assert(all_digits(t));
        lemma_digits_value_prefix(t, k);
        assert(is_digit(s.last()));
    }
}

/// The shortest form of `n` is made of digits, is not empty, and denotes `n`.
pub proof fn lemma_decimal_nat_denotes(n: nat)
    ensures
        decimal_nat(n).len() >= 1,
        all_digits(decimal_nat(n)),
        digits_value(decimal_nat(n)) == n,
    decreases n,
{
    if n < 10 {
        let s = decimal_nat(n);
        assert(s.drop_last() =~= Seq::<u8>::empty());
        assert(digits_value(s.drop_last()) == 0);
    } else {
        lemma_decimal_nat_denotes(n / 10);
        let s = decimal_nat(n);
        assert(s.drop_last() =~= decimal_nat(n / 10));
    }
}

/// Reading the shortest decimal form of an integer gives the integer back.
pub proof fn lemma_parse_decimal_int(n: int)
    ensures
        parse_int(decimal_int(n)) == Some(n),
        forall|i: int|
            0 <= i < decimal_int(n).len() ==> #[trigger] decimal_int(n)[i] == 45 || is_digit(
                decimal_int(n)[i],
            ),
{
    let s = decimal_int(n);
    if n < 0 {
        lemma_decimal_nat_denotes((-n) as nat);
        assert(s.skip(1) =~= decimal_nat((-n) as nat));
    } else {
        lemma_decimal_nat_denotes(n as nat);
        assert(is_digit(s[0]));
    }
}

/// Whether the bytes of `input` from `start` up to `end` are all digits.
pub fn is_digit_run(input: &[u8], start: usize, end: usize) -> (ok: bool)
    requires
        start <= end <= input@.len(),
    ensures
        ok == all_digits(input@.subrange(start as int, end as int)),
{
    let mut i: usize = start;
    while i < end
        invariant
            start <= i <= end <= input@.len(),
            all_digits(input@.subrange(start as int, i as int)),
        decreases end - i,
    {
        let b: u8 = input[i];
        if b < 48 || b > 57 {
            proof {
                let whole = input@.subrange(start as int, end as int);
                assert(whole[i - start] == b);
            }
            return false;
        }
        proof {
            let before = input@.subrange(start as int, i as int);
            let after = input@.subrange(start as int, i + 1);
            assert forall|j: int| 0 <= j < after.len() implies is_digit(#[trigger] after[j]) by {
                if j < before.len() {
                    assert(after[j] == before[j]);
                }
            }
        }
        i = i + 1;
    }
    true
}

/// Reads the digits of `input` from `start` up to `end` as a number; `None`
/// when the number does not fit in 64 bits.
pub fn read_digits(input: &[u8], start: usize, end: usize) -> (r: Option<u64>)
    requires
        start <= end <= input@.len(),
        all_digits(input@.subrange(start as int, end as int)),
    ensures
        r matches Some(v) ==> v == digits_value(input@.subrange(start as int, end as int)),
        r is None <==> digits_value(input@.subrange(start as int, end as int)) > u64::MAX,
{
    let ghost whole = input@.subrange(start as int, end as int);
    let mut acc: u64 = 0;
    let mut i: usize = start;
    while i < end
        invariant
            start <= i <= end <= input@.len(),
            whole == input@.subrange(start as int, end as int),
            all_digits(whole),
            acc == digits_value(whole.subrange(0, i - start)),
        decreases end - i,
    {
        let b: u8 = input[i];
        proof {
            assert(whole[i - start] == b);
            let next = whole.subrange(0, i + 1 - start);
            assert(next.drop_last() =~= whole.subrange(0, i - start));
            assert(next.last() == b);
            lemma_digits_value_prefix(whole, i + 1 - start);
        }
        let d: u64 = (b - 48) as u64;
        if acc > (u64::MAX - d) / 10 {
            return None;
        }
        acc = acc * 10 + d;
        i = i + 1;
    }
    proof {
        assert(whole.subrange(0, end - start) =~= whole);
    }
    Some(acc)
}

/// Appends the shortest decimal form of `n` to `out`.
pub fn push_decimal(n: u64, out: &mut Vec<u8>)
    ensures
        final(out)@ == old(out)@ + decimal_nat(n as nat),
    decreases n,
{
    if n >= 10 {
        push_decimal(n / 10, out);
    }
    let d: u8 = (n % 10) as u8;
    out.push(48 + d);
    assert(final(out)@ =~= old(out)@ + decimal_nat(n as nat));
}

/// Reads the bytes of `input` from `start` up to `end` as a signed integer;
/// `None` when they are not a decimal number or the number does not fit in
/// 64 bits.
pub fn read_integer(input: &[u8], start: usize, end: usize) -> (r: Option<i64>)
    requires
        start <= end <= input@.len(),
    ensures
        match parse_int(input@.subrange(start as int, end as int)) {
            Some(n) => if i64::MIN <= n <= i64::MAX {
                r == Some(n as i64)
            } else {
                r is None
            },
            None => r is None,
        },
{
    let ghost whole = input@.subrange(start as int, end as int);
    if start == end {
        return None;
    }
    assert(whole[0] == input@[start as int]);
    if input[start] == MINUS {
        if end - start < 2 {
            return None;
        }
        assert(whole.skip(1) =~= input@.subrange(start + 1, end as int));
        if !is_digit_run(input, start + 1, end) {
            return None;
        }
        match read_digits(input, start + 1, end) {
            None => None,
            Some(m) => {
                if m > 9223372036854775808u64 {
                    None
                } else if m == 9223372036854775808u64 {
                    Some(i64::MIN)
                } else {
                    Some(0 - (m as i64))
                }
            },
        }
    } else {
        if !is_digit_run(input, start, end) {
            return None;
        }
        match read_digits(input, start, end) {
            None => None,
            Some(m) => {
                if m > 9223372036854775807u64 {
                    None
                } else {
                    Some(m as i64)
                }
            },
        }
    }
}

/// Appends the shortest decimal form of `n` to `out`.
pub fn push_integer(n: i64, out: &mut Vec<u8>)
    ensures
        final(out)@ == old(out)@ + decimal_int(n as int),
{
    if n < 0 {
        out.push(MINUS);
        let m: u64 = if n == i64::MIN {
            9223372036854775808u64
        } else {
            (0 - n) as u64
        };
        push_decimal(m, out);
        assert(out@ =~= old(out)@ + decimal_int(n as int));
    } else {
        push_decimal(n as u64, out);
    }
}

/// The shortest decimal form of `n` as text.
pub open spec fn decimal_text(n: nat) -> Seq<char> {
    Seq::new(decimal_nat(n).len(), |i: int| decimal_nat(n)[i] as char)
}

/// The text of the digit `d`.
pub fn digit_text(d: u8) -> (text: &'static str)
    requires
        d < 10,
    ensures
        text@ == seq![(48 + d) as u8 as char],
{
    proof {
        reveal_strlit("0");
        reveal_strlit("1");
        reveal_strlit("2");
        reveal_strlit("3");
        reveal_strlit("4");
        reveal_strlit("5");
        reveal_strlit("6");
        reveal_strlit("7");
        reveal_strlit("8");
        reveal_strlit("9");
    }
    let text = if d == 0 {
        "0"
    } else if d == 1 {
        "1"
    } else if d == 2 {
        "2"
    } else if d == 3 {
        "3"
    } else if d == 4 {
        "4"
    } else if d == 5 {
        "5"
    } else if d == 6 {
        "6"
    } else if d == 7 {
        "7"
    } else if d == 8 {
        "8"
    } else {
        "9"
    };
    assert(text@ =~= seq![(48 + d) as u8 as char]);
    text
}

/// Appends the shortest decimal form of `n` to the text `out`.
pub fn push_decimal_text(n: u64, out: &mut String)
    ensures
        final(out)@ == old(out)@ + decimal_text(n as nat),
    decreases n,
{
    if n >= 10 {
        push_decimal_text(n / 10, out);
    }
    out.append(digit_text((n % 10) as u8));
    assert(final(out)@ =~= old(out)@ + decimal_text(n as nat));
}

/// The shortest decimal form of `n` as text.
pub fn decimal_string(n: u64) -> (text: String)
    ensures
        text@ == decimal_text(n as nat),
{
    let mut text = String::new();
    push_decimal_text(n, &mut text);
    assert(text@ =~= decimal_text(n as nat));
    text
}

/// The shortest decimal form of the integer `n` as text.
pub open spec fn decimal_int_text(n: int) -> Seq<char> {
    if n < 0 {
        "-"@ + decimal_text((-n) as nat)
    } else {
        decimal_text(n as nat)
    }
}

/// Appends the shortest decimal form of `n` to the text `out`.
pub fn push_integer_text(n: i64, out: &mut String)
    ensures
        final(out)@ == old(out)@ + decimal_int_text(n as int),
{
    if n < 0 {
        out.append("-");
        let m: u64 = if n == i64::MIN {
            9223372036854775808u64
        } else {
            (0 - n) as u64
        };
        push_decimal_text(m, out);
        assert(out@ =~= old(out)@ + decimal_int_text(n as int));
    } else {
        push_decimal_text(n as u64, out);
    }
}

/// The shortest binary form of `n` as text.
pub open spec fn binary_text(n: nat) -> Seq<char>
    decreases n,
{
    if n < 2 {
        if n == 0 {
            "0"@
        } else {
            "1"@
        }
    } else {
        binary_text(n / 2) + if n % 2 == 0 {
            "0"@
        } else {
            "1"@
        }
    }
}

/// Appends the shortest binary form of `n` to the text `out`.
pub fn push_binary_text(n: u8, out: &mut String)
    ensures
        final(out)@ == old(out)@ + binary_text(n as nat),
    decreases n,
{
    if n >= 2 {
        push_binary_text(n / 2, out);
    }
    if n % 2 == 0 {
        out.append("0");
    } else {
        out.append("1");
    }
    assert(final(out)@ =~= old(out)@ + binary_text(n as nat));
}

} // verus!
