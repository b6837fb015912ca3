use vstd::prelude::*;
use vstd::std_specs::iter::IteratorSpec;

verus! {

broadcast use vstd::string::group_string_axioms;

/// The value of one ASCII decimal digit.
pub open spec fn digit_value(c: char) -> Option<int> {
    if '0' <= c && c <= '9' {
        Some(c as int - '0' as int)
    } else {
        None
    }
}

/// The number that a run of ASCII decimal digits writes, most significant
/// digit first. `None` as soon as one character is not a digit.
pub open spec fn digits_value(s: Seq<char>) -> Option<int>
    decreases s.len(),
{
    if s.len() == 0 {
        Some(0)
    } else {
        match (digits_value(s.drop_last()), digit_value(s.last())) {
            (Some(high), Some(low)) => Some(10 * high + low),
            _ => None,
        }
    }
}

/// Whether a text opens with a sign character.
pub open spec fn has_sign(s: Seq<char>) -> bool {
    s.len() > 0 && (s[0] == '-' || s[0] == '+')
}

/// The signed 64-bit integer that a text writes in base 10: an optional `+`
/// or `-`, then at least one digit and nothing else. `None` for any other
/// text and for a number outside the range of `i64`.
pub open spec fn decimal_i64(s: Seq<char>) -> Option<i64> {
    let digits = if has_sign(s) { s.skip(1) } else { s };
    if digits.len() == 0 {
        None
    } else {
        match digits_value(digits) {
            None => None,
            Some(magnitude) => {
                let value = if s[0] == '-' { -magnitude } else { magnitude };
                if i64::MIN <= value && value <= i64::MAX {
                    Some(value as i64)
                } else {
                    None
                }
            },
        }
    }
}

/// A run of digits that continues a prefix: its value is at least the
/// prefix's, and it is no number at all if the prefix is none.
pub proof fn lemma_digits_prefix(s: Seq<char>, n: int)
    requires
        0 <= n <= s.len(),
    ensures
        digits_value(s.take(n)) is None ==> digits_value(s) is None,
        digits_value(s) matches Some(v) ==> digits_value(s.take(n)) matches Some(p) && 0 <= p <= v,
    decreases s.len(),
{
    if n == s.len() {
        assert(s.take(n) == s);
        lemma_digits_nonnegative(s);
    } else {
        let front = s.drop_last();
        lemma_digits_prefix(front, n);
        assert(front.take(n) == s.take(n));
        lemma_digits_nonnegative(front);
    }
}

/// The value of a run of digits is never negative.
pub proof fn lemma_digits_nonnegative(s: Seq<char>)
    ensures
        digits_value(s) matches Some(v) ==> v >= 0,
    decreases s.len(),
{
    if s.len() > 0 {
        lemma_digits_nonnegative(s.drop_last());
    }
}

/// Reads a signed 64-bit integer written in base 10.
pub fn parse_i64(text: &str) -> (r: Option<i64>)
    ensures
        r == decimal_i64(text@),
{
    let mut it = text.chars();
    let ghost s = text@;
    let first = match it.next() {
        None => {
            return None;
        },
        Some(c) => c,
    };
    let negative = first == '-';
    let signed = negative || first == '+';
    let ghost digits = if signed { s.skip(1) } else { s };
    let mut magnitude: u64 = 0;
    let ghost mut count: int = 0;
    let mut any_digit = false;
    if !signed {
        if first < '0' || first > '9' {
            proof {
                lemma_digits_prefix(digits, 1);
                assert(digits.take(1).drop_last() == Seq::<char>::empty());
                assert(digits.take(1).last() == first);
            }
            return None;
        }
        magnitude = (first as u64) - ('0' as u64);
        any_digit = true;
        proof {
            count = 1;
            assert(digits.take(1).drop_last() == Seq::<char>::empty());
            assert(digits.take(1).last() == first);
            assert(digits_value(Seq::<char>::empty()) == Some(0int));
            assert(digits_value(digits.take(1)) == Some(magnitude as int));
        }
    } else {
        assert(digits.take(0) == Seq::<char>::empty());
    }
    loop
        invariant
            digits == if signed { s.skip(1) } else { s },
            signed == has_sign(s),
            signed ==> (negative <==> s[0] == '-'),
            !signed ==> !negative,
            s == text@,
            s.len() > 0,
            0 <= count <= digits.len(),
            any_digit <==> count > 0,
            it.remaining() == digits.skip(count),
            digits_value(digits.take(count)) == Some(magnitude as int),
            magnitude <= 9223372036854775808u64,
        ensures
            count == digits.len(),
        decreases digits.len() - count,
    {
        let c = match it.next() {
            None => {
                break ;
            },
            Some(c) => c,
        };
        proof {
            assert(c == digits[count]);
            assert(digits.take(count + 1).drop_last() == digits.take(count));
            assert(digits.take(count + 1).last() == c);
            lemma_digits_prefix(digits, count + 1);
        }
        if c < '0' || c > '9' {
            return None;
        }
        let d: u64 = (c as u64) - ('0' as u64);
        if magnitude > 922337203685477580u64 {
            return None;
        }
        let next: u64 = magnitude * 10 + d;
        if next > 9223372036854775808u64 {
            return None;
        }
        magnitude = next;
        any_digit = true;
        proof {
            count = count + 1;
        }
        assert(it.remaining() == digits.skip(count));
    }
    assert(digits.take(count) == digits);
    if !any_digit {
        return None;
    }
    if negative {
        if magnitude == 9223372036854775808u64 {
            Some(i64::MIN)
        } else {
            Some(-(magnitude as i64))
        }
    } else {
        if magnitude > 9223372036854775807u64 {
            None
        } else {
            Some(magnitude as i64)
        }
    }
}

} // verus!
