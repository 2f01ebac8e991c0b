//! Decimal digits and the numbers they write.

use vstd::prelude::*;

verus! {

/// Whether `c` is one of the ten decimal digits of ASCII.
pub open spec fn is_digit(c: char) -> bool {
    '0' <= c <= '9'
}

/// The value of a decimal digit.
pub open spec fn digit_value(c: char) -> int {
    (c as u32) as int - 48
}

/// Whether `s` holds decimal digits only.
pub open spec fn all_digits(s: Seq<char>) -> bool {
    forall|i: int| 0 <= i < s.len() ==> is_digit(#[trigger] s[i])
}

/// The number that a sequence of decimal digits writes, the empty one 0.
pub open spec fn number(s: Seq<char>) -> int
    decreases s.len(),
{
    if s.len() == 0 {
        0
    } else {
        10 * number(s.drop_last()) + digit_value(s.last())
    }
}

/// The numbers that `digits` digits can write lie below this, for up to
/// four digits.
pub open spec fn limit(digits: int) -> int {
    if digits <= 0 {
        1
    } else if digits == 1 {
        10
    } else if digits == 2 {
        100
    } else if digits == 3 {
        1000
    } else {
        10000
    }
}

/// Tests for a decimal digit.
pub fn is_digit_char(c: char) -> (b: bool)
    ensures
        b == is_digit(c),
{
    '0' <= c && c <= '9'
}

/// Reads the number that the digits from `from` up to `to` write.
pub fn read_number(v: &[char], from: usize, to: usize) -> (n: u32)
    requires
        from <= to <= v@.len(),
        to - from <= 4,
        all_digits(v@.subrange(from as int, to as int)),
    ensures
        n == number(v@.subrange(from as int, to as int)),
        n < limit(to - from),
{
    let mut n: u32 = 0;
    let mut i: usize = from;
    while i < to
        invariant
            from <= i <= to <= v@.len(),
            to - from <= 4,
            all_digits(v@.subrange(from as int, to as int)),
            n == number(v@.subrange(from as int, i as int)),
            n < limit(i - from),
        decreases to - i,
    {
        let c = v[i];
        proof {
            assert(v@.subrange(from as int, to as int)[i - from] == c);
            assert(v@.subrange(from as int, i + 1).drop_last() =~= v@.subrange(
                from as int,
                i as int,
            ));
            assert(v@.subrange(from as int, i + 1).last() == c);
        }
        n = 10 * n + (c as u32 - 48);
        i += 1;
    }
    n
}

} // verus!
