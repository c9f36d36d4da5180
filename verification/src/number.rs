//! Decimal numbers: reading a signed 32-bit integer the way `str::parse`
//! does, and writing one the way `Display` does.
use vstd::prelude::*;

verus! {

/// An ASCII decimal digit.
pub open spec fn is_digit(c: char) -> bool {
    48 <= c as u32 <= 57
}

/// The value of an ASCII digit.
pub open spec fn digit_value(c: char) -> int {
    c as u32 - 48
}

/// Every character of `s` is an ASCII digit.
pub open spec fn all_digits(s: Seq<char>) -> bool {
    forall|i: int| 0 <= i < s.len() ==> #[trigger] is_digit(s[i])
}

/// The value of a string of decimal digits, most significant first.
pub open spec fn digits_value(s: Seq<char>) -> int
    decreases s.len(),
{
    if s.len() == 0 {
        0
    } else {
        digits_value(s.drop_last()) * 10 + digit_value(s.last())
    }
}

/// The integer that `s` spells: an optional `+` or `-` followed by at least
/// one ASCII digit, and nothing else.
pub open spec fn integer_value(s: Seq<char>) -> Option<int> {
    if s.len() > 0 && (s[0] == '+' || s[0] == '-') {
        let d = s.drop_first();
        if d.len() > 0 && all_digits(d) {
            if s[0] == '-' {
                Some(-digits_value(d))
            } else {
                Some(digits_value(d))
            }
        } else {
            None
        }
    } else if s.len() > 0 && all_digits(s) {
        Some(digits_value(s))
    } else {
        None
    }
}

/// What `s.parse::<i32>().ok()` gives: the integer that `s` spells, where it
/// fits in an `i32`.
pub open spec fn parsed_i32(s: Seq<char>) -> Option<i32> {
    match integer_value(s) {
        Some(v) => if i32::MIN <= v <= i32::MAX {
            Some(v as i32)
        } else {
            None
        },
        None => None,
    }
}

/// The character of digit `d`.
pub open spec fn digit_char(d: nat) -> char {
    (48 + d) as char
}

/// The decimal digits of `n`, without leading zeros.
pub open spec fn nat_decimal(n: nat) -> Seq<char>
    decreases n,
{
    if n < 10 {
        seq![digit_char(n)]
    } else {
        nat_decimal(n / 10).push(digit_char(n % 10))
    }
}

/// The decimal form of `n`, with a leading `-` where it is negative.
pub open spec fn int_decimal(n: int) -> Seq<char> {
    if n < 0 {
        seq!['-'] + nat_decimal((-n) as nat)
    } else {
        nat_decimal(n as nat)
    }
}

proof fn lemma_digits_value_nonneg(s: Seq<char>)
    requires
        all_digits(s),
    ensures
        digits_value(s) >= 0,
    decreases s.len(),
{
    if s.len() > 0 {
        assert(is_digit(s[s.len() - 1]));
        assert(all_digits(s.drop_last())) by {
            assert forall|i: int| 0 <= i < s.drop_last().len() implies #[trigger] is_digit(
                s.drop_last()[i],
            ) by {
                assert(is_digit(s[i]));
            }
        }
        lemma_digits_value_nonneg(s.drop_last());
    }
}

proof fn lemma_digits_value_grows(s: Seq<char>, i: int)
    requires
        all_digits(s),
        0 <= i <= s.len(),
    ensures
        digits_value(s.take(i)) <= digits_value(s),
    decreases s.len(),
{
    if i < s.len() {
        let t = s.drop_last();
        assert(all_digits(t)) by {
            assert forall|k: int| 0 <= k < t.len() implies #[trigger] is_digit(t[k]) by {
                assert(is_digit(s[k]));
            }
        }
        assert(is_digit(s[s.len() - 1]));
        lemma_digits_value_grows(t, i);
        assert(t.take(i) =~= s.take(i));
        lemma_digits_value_nonneg(t);
    } else {
        assert(s.take(i) =~= s);
    }
}

/// Reads the integer that `s` spells, as `s.parse::<i32>().ok()` does.
pub fn parse_i32(s: &Vec<char>) -> (r: Option<i32>)
    ensures
        r == parsed_i32(s@),
{
    let n = s.len();
    if n == 0 {
        return None;
    }
    let first = s[0];
    let negative = first == '-';
    let begin: usize = if first == '+' || first == '-' {
        1
    } else {
        0
    };
    if begin == n {
        return None;
    }
    let ghost d = s@.subrange(begin as int, n as int);
    assert(begin == 1 ==> d =~= s@.drop_first());
    assert(begin == 0 ==> d =~= s@);
    let mut acc: i64 = 0;
    let mut i: usize = begin;
    while i < n
        invariant
            n == s@.len(),
            begin <= i <= n,
            begin == 0 || begin == 1,
            d == s@.subrange(begin as int, n as int),
            d.len() > 0,
            (begin == 1) == (s@[0] == '+' || s@[0] == '-'),
            negative == (s@[0] == '-'),
            begin == 1 ==> d == s@.drop_first(),
            begin == 0 ==> d == s@,
            all_digits(s@.subrange(begin as int, i as int)),
            acc == digits_value(s@.subrange(begin as int, i as int)),
            0 <= acc <= 2147483648,
        decreases n - i,
    {
        let c = s[i];
        let v = c as u32;
        let ghost prefix = s@.subrange(begin as int, i as int);
        let ghost next = s@.subrange(begin as int, i + 1);
        assert(next.drop_last() =~= prefix);
        if v < 48 || v > 57 {
            assert(!is_digit(d[i - begin]));
            return None;
        }
        assert(all_digits(next)) by {
            assert forall|k: int| 0 <= k < next.len() implies #[trigger] is_digit(next[k]) by {
                if k < prefix.len() {
                    assert(next[k] == prefix[k]);
                }
            }
        }
        acc = acc * 10 + (v - 48) as i64;
        i += 1;
        if acc > 2147483648 {
            proof {
                if all_digits(d) {
                    assert(d.take(i - begin) =~= next);
                    lemma_digits_value_grows(d, i - begin);
                }
            }
            return None;
        }
    }
    assert(s@.subrange(begin as int, n as int) =~= d);
    if negative {
        Some((-acc) as i32)
    } else if acc > 2147483647 {
        None
    } else {
        Some(acc as i32)
    }
}

proof fn lemma_nat_decimal(n: nat)
    ensures
        nat_decimal(n).len() > 0,
        all_digits(nat_decimal(n)),
        digits_value(nat_decimal(n)) == n,
    decreases n,
{
    let s = nat_decimal(n);
    assert(digit_char(n % 10) as u32 == 48 + n % 10);
    if n < 10 {
        assert(digit_char(n) as u32 == 48 + n);
        assert(s.drop_last() =~= Seq::<char>::empty());
        assert(digits_value(s.drop_last()) == 0);
        assert(digit_value(s.last()) == n);
    } else {
        lemma_nat_decimal(n / 10);
        assert(s.drop_last() =~= nat_decimal(n / 10));
        assert(digit_value(s.last()) == n % 10);
        assert(n == (n / 10) * 10 + n % 10);
        assert forall|i: int| 0 <= i < s.len() implies #[trigger] is_digit(s[i]) by {
            if i < s.len() - 1 {
                assert(s[i] == nat_decimal(n / 10)[i]);
            }
        }
    }
}

/// Writing an `i32` in decimal and reading it back gives the same number.
pub proof fn law_decimal_round_trip(n: i32)
    ensures
        parsed_i32(int_decimal(n as int)) == Some(n),
{
    if n < 0 {
        let m = (-n) as nat;
        lemma_nat_decimal(m);
        let s = int_decimal(n as int);
        assert(s.drop_first() =~= nat_decimal(m));
        assert(s[0] == '-');
    } else {
        lemma_nat_decimal(n as nat);
        let s = nat_decimal(n as nat);
        assert(is_digit(s[0]));
    }
}

/// The decimal form of a number is made of ASCII digits, with at most a
/// leading `-`.
pub proof fn law_decimal_chars(n: int)
    ensures
        int_decimal(n).len() > 0,
        forall|i: int|
            0 <= i < int_decimal(n).len() ==> is_digit(#[trigger] int_decimal(n)[i]) || (i == 0
                && int_decimal(n)[i] == '-'),
{
    if n < 0 {
        let m = (-n) as nat;
        lemma_nat_decimal(m);
        let s = int_decimal(n);
        assert forall|i: int| 0 <= i < s.len() implies is_digit(#[trigger] s[i]) || (i == 0
            && s[i] == '-') by {
            if i > 0 {
                assert(s[i] == nat_decimal(m)[i - 1]);
            }
        }
    } else {
        lemma_nat_decimal(n as nat);
    }
}

fn push_digits(out: &mut Vec<char>, m: u32)
    ensures
        final(out)@ == old(out)@ + nat_decimal(m as nat),
    decreases m,
{
    if m < 10 {
        out.push(((48 + m) as u8) as char);
    } else {
        push_digits(out, m / 10);
        out.push(((48 + m % 10) as u8) as char);
    }
    assert(final(out)@ =~= old(out)@ + nat_decimal(m as nat));
}

/// Appends the decimal form of `n` to `out`.
pub fn push_decimal(out: &mut Vec<char>, n: i32)
    ensures
        final(out)@ == old(out)@ + int_decimal(n as int),
{
    if n < 0 {
        out.push('-');
        let m: u32 = (-(n as i64)) as u32;
        push_digits(out, m);
    } else {
        push_digits(out, n as u32);
    }
    assert(final(out)@ =~= old(out)@ + int_decimal(n as int));
}

} // verus!
