//! Reading numbers out of text.
use vstd::prelude::*;

use crate::text::{decimal, to_chars};

verus! {

/// Whether every character is a decimal digit.
pub open spec fn all_digits(s: Seq<char>) -> bool {
    forall|i: int| 0 <= i < s.len() ==> '0' <= #[trigger] s[i] <= '9'
}

/// The number that decimal digits stand for.
pub open spec fn digits_value(s: Seq<char>) -> int
    decreases s.len(),
{
    if s.len() == 0 {
        0
    } else {
        digits_value(s.drop_last()) * 10 + (s.last() as int - '0' as int)
    }
}

/// The digits of a number that may have a plus sign in front.
pub open spec fn unsigned_digits(s: Seq<char>) -> Seq<char> {
    if s.len() > 0 && s[0] == '+' {
        s.skip(1)
    } else {
        s
    }
}

/// The number that a text stands for, where it is one and no more than `most`.
pub open spec fn number_of(s: Seq<char>, most: int) -> Option<int> {
    let d = unsigned_digits(s);
    if d.len() > 0 && all_digits(d) && digits_value(d) <= most {
        Some(digits_value(d))
    } else {
        None
    }
}

proof fn lemma_value_grows(s: Seq<char>, n: int)
    requires
        0 <= n <= s.len(),
        all_digits(s),
    ensures
        0 <= digits_value(s.take(n)) <= digits_value(s),
    decreases s.len() - n,
{
    if n < s.len() {
        lemma_value_grows(s, n + 1);
        let next = s.take(n + 1);
        assert(next.drop_last() =~= s.take(n));
        assert(next.last() == s[n]);
        lemma_value_positive(s.take(n));
    } else {
        assert(s.take(n) =~= s);
        lemma_value_positive(s);
    }
}

proof fn lemma_value_positive(s: Seq<char>)
    requires
        all_digits(s),
    ensures
        digits_value(s) >= 0,
    decreases s.len(),
{
    if s.len() > 0 {
        assert(all_digits(s.drop_last())) by {
            assert forall|i: int| 0 <= i < s.drop_last().len() implies '0' <= #[trigger] s.drop_last()[i]
                <= '9' by {
                assert(s.drop_last()[i] == s[i]);
            }
        }
        lemma_value_positive(s.drop_last());
        assert('0' <= s[s.len() - 1] <= '9');
    }
}

/// Read a number.
pub fn parse_number(s: &str) -> (n: Option<u64>)
    ensures
        match n {
            Some(v) => number_of(s@, u64::MAX as int) == Some(v as int),
            None => number_of(s@, u64::MAX as int) is None,
        },
{
    let chars = to_chars(s);
    let from: usize = if chars.len() > 0 && chars[0] == '+' {
        1
    } else {
        0
    };
    let ghost d = unsigned_digits(s@);
    assert(d =~= s@.skip(from as int));
    if from == chars.len() {
        return None;
    }
    let mut v: u64 = 0;
    let mut i: usize = from;
    assert(d.take(0) =~= Seq::<char>::empty());
    while i < chars.len()
        invariant
            chars@ == s@,
            d == unsigned_digits(s@),
            d == s@.skip(from as int),
            from <= i <= chars@.len(),
            from < chars@.len(),
            v == digits_value(d.take(i - from)),
            forall|k: int| 0 <= k < i - from ==> '0' <= #[trigger] d[k] <= '9',
        decreases chars@.len() - i,
    {
        let c: char = chars[i];
        assert(d[i - from] == c);
        if c < '0' || c > '9' {
            return None;
        }
        let digit: u64 = c as u64 - '0' as u64;
        proof {
            let next = d.take(i - from + 1);
            assert(next.drop_last() =~= d.take(i - from));
            assert(next.last() == c);
            assert(digits_value(next) == v * 10 + digit);
            if all_digits(d) {
                lemma_value_grows(d, i - from + 1);
            }
        }
        match v.checked_mul(10) {
            Some(w) => match w.checked_add(digit) {
                Some(x) => {
                    v = x;
                },
                None => {
                    return None;
                },
            },
            None => {
                return None;
            },
        }
        i += 1;
    }
    assert(d.take(i - from) =~= d);
    Some(v)
}

proof fn lemma_digit_at_end(s: Seq<char>, d: char)
    requires
        '0' <= d <= '9',
    ensures
        digits_value(s.push(d)) == digits_value(s) * 10 + (d as int - '0' as int),
{
    assert(s.push(d).drop_last() =~= s);
}

/// The decimal digits of a number stand for it.
pub proof fn lemma_decimal_reads_back(n: nat)
    ensures
        decimal(n).len() > 0,
        all_digits(decimal(n)),
        digits_value(decimal(n)) == n,
    decreases n,
{
    let digit = ((48 + n % 10) as u8) as char;
    assert('0' <= digit <= '9');
    assert(digit as int - '0' as int == n % 10);
    if n >= 10 {
        lemma_decimal_reads_back(n / 10);
        let front = decimal(n / 10);
        lemma_digit_at_end(front, digit);
        assert forall|i: int| 0 <= i < decimal(n).len() implies '0' <= #[trigger] decimal(n)[i]
            <= '9' by {
            if i < front.len() {
                assert(decimal(n)[i] == front[i]);
            }
        }
    } else {
        assert(Seq::<char>::empty().push(digit) =~= decimal(n));
        lemma_digit_at_end(Seq::empty(), digit);
    }
}

} // verus!
