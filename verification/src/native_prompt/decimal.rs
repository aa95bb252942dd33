//! Decimal numbers in wide strings.

use crate::wide::WString;
use vstd::prelude::*;

verus! {

pub open spec fn is_digit(c: char) -> bool {
    '0' <= c <= '9'
}

pub open spec fn all_digits(s: Seq<char>) -> bool {
    forall|i: int| 0 <= i < s.len() ==> is_digit(#[trigger] s[i])
}

/// The number that the digits of `s` write in base ten.
pub open spec fn decimal_value(s: Seq<char>) -> nat
    decreases s.len(),
{
    if s.len() == 0 {
        0
    } else {
        (10 * decimal_value(s.drop_last()) + (s.last() as nat - '0' as nat)) as nat
    }
}

/// The digits of `n` in base ten, without leading zeros.
pub open spec fn decimal_digits(n: nat) -> Seq<char>
    decreases n,
{
    let last = (('0' as nat + n % 10) as u32) as char;
    if n < 10 {
        seq![last]
    } else {
        decimal_digits(n / 10).push(last)
    }
}

/// A number as it is written in base ten.
pub open spec fn decimal_text(n: int) -> Seq<char> {
    if n < 0 {
        seq!['-'] + decimal_digits((-n) as nat)
    } else {
        decimal_digits(n as nat)
    }
}

/// Parse a `usize` from a wide string without an intermediate string: `None` for the empty
/// text, for any character other than an ASCII digit, and for a number that does not fit.
pub fn parse_usize_from_wstr(s: &[char]) -> (r: Option<usize>)
    ensures
        r is Some <==> s@.len() > 0 && all_digits(s@) && decimal_value(s@) <= usize::MAX,
        r matches Some(n) ==> n == decimal_value(s@),
{
    if s.is_empty() {
        return None;
    }
    let mut result: usize = 0;
    for i in 0..s.len()
        invariant
            all_digits(s@.take(i as int)),
            result == decimal_value(s@.take(i as int)),
    {
        let c = s[i];
        assert(s@.take(i + 1).drop_last() == s@.take(i as int));
        if c < '0' || c > '9' {
            assert(!is_digit(s@[i as int]));
            return None;
        }
        let digit: usize = (c as u32 - '0' as u32) as usize;
        proof {
            lemma_value_grows(s@, i + 1);
            assert forall|j: int| 0 <= j < i + 1 implies is_digit(
                #[trigger] s@.take(i + 1)[j],
            ) by {
                if j < i {
                    assert(is_digit(s@.take(i as int)[j]));
                }
            }
        }
        result = match result.checked_mul(10) {
            Some(tens) => match tens.checked_add(digit) {
                Some(next) => next,
                None => return None,
            },
            None => return None,
        };
    }
    assert(s@.take(s@.len() as int) == s@);
    Some(result)
}

fn push_digits(out: &mut WString, n: u32)
    ensures
        final(out)@ == old(out)@ + decimal_digits(n as nat),
    decreases n,
{
    if n >= 10 {
        push_digits(out, n / 10);
    }
    let digit: u8 = (n % 10) as u8;
    out.push((0x30u8 + digit) as char);
    assert(out@ =~= old(out)@ + decimal_digits(n as nat));
}

/// Append `n` to `out`, in base ten.
pub fn push_decimal(out: &mut WString, n: i32)
    ensures
        final(out)@ == old(out)@ + decimal_text(n as int),
{
    if n < 0 {
        out.push('-');
        push_digits(out, (-(n as i64)) as u32);
    } else {
        push_digits(out, n as u32);
    }
    assert(out@ =~= old(out)@ + decimal_text(n as int));
}

/// A number is at least as large as what its leading digits write.
proof fn lemma_value_grows(s: Seq<char>, k: int)
    requires
        0 <= k <= s.len(),
    ensures
        all_digits(s) ==> decimal_value(s.take(k)) <= decimal_value(s),
    decreases s.len() - k,
{
    if k < s.len() && all_digits(s) {
        lemma_value_grows(s, k + 1);
        assert(s.take(k + 1).drop_last() == s.take(k));
        assert(is_digit(s[k]));
    } else if k == s.len() {
        assert(s.take(k) == s);
    }
}

/// Every number is parsed back from its decimal digits.
pub proof fn law_digits_parse_back(n: nat)
    ensures
        decimal_digits(n).len() > 0,
        all_digits(decimal_digits(n)),
        decimal_value(decimal_digits(n)) == n,
    decreases n,
{
    let s = decimal_digits(n);
    if n < 10 {
        assert(s.drop_last() == Seq::<char>::empty());
        assert(decimal_value(s.drop_last()) == 0);
        assert(decimal_value(s) == n);
    } else {
        law_digits_parse_back(n / 10);
        assert(s.drop_last() == decimal_digits(n / 10));
        assert forall|i: int| 0 <= i < s.len() implies is_digit(#[trigger] s[i]) by {
            if i < s.len() - 1 {
                assert(is_digit(decimal_digits(n / 10)[i]));
            }
        }
    }
}

/// Different numbers are written differently.
pub proof fn law_decimal_texts_differ(a: int, b: int)
    requires
        decimal_text(a) == decimal_text(b),
    ensures
        a == b,
{
    let (x, y) = (if a < 0 { -a } else { a }, if b < 0 { -b } else { b });
    let (p, q) = (decimal_digits(x as nat), decimal_digits(y as nat));
    law_digits_parse_back(x as nat);
    law_digits_parse_back(y as nat);
    assert(is_digit(p[0]) && is_digit(q[0]));
    assert(decimal_text(a)[0] == decimal_text(b)[0]);
    if a < 0 {
        assert((seq!['-'] + p).skip(1) =~= p);
        assert((seq!['-'] + q).skip(1) =~= q);
    }
}

/// A text writes a number exactly where each of its characters is one of `0` to `9`, and a further
/// digit makes the number ten times as large and adds itself.
pub proof fn law_digits_add_up(s: Seq<char>, c: char)
    ensures
        all_digits(s) <==> forall|i: int| 0 <= i < s.len() ==> '0' <= #[trigger] s[i] <= '9',
        decimal_value(Seq::empty()) == 0,
        '0' <= c <= '9' ==> decimal_value(s.push(c)) == 10 * decimal_value(s) + (c as nat
            - '0' as nat),
{
    if all_digits(s) {
        assert forall|i: int| 0 <= i < s.len() implies '0' <= #[trigger] s[i] <= '9' by {
            assert(is_digit(s[i]));
        }
    }
    assert(s.push(c).drop_last() =~= s);
}

/// A number below ten is written as its digit, a larger one as what ten goes into it and its last
/// digit, and a negative one as a minus sign and its amount.
pub proof fn law_numbers_are_written_in_base_ten(n: nat)
    ensures
        n < 10 ==> decimal_text(n as int).len() == 1 && decimal_text(n as int)[0] as nat
            == '0' as nat + n,
        n >= 10 ==> decimal_text(n as int) == decimal_text((n / 10) as int) + decimal_text(
            (n % 10) as int,
        ),
        n > 0 ==> decimal_text(-n) == seq!['-'] + decimal_text(n as int),
{
    if n >= 10 {
        let digit = decimal_digits(n % 10);
        assert(digit =~= seq![(('0' as nat + n % 10) as u32) as char]);
        assert(decimal_digits(n) =~= decimal_digits(n / 10) + digit);
    }
}

} // verus!
