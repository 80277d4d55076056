//! Decimal numbers in text: an optional sign and one or more ASCII digits.

use vstd::prelude::*;

verus! {

/// Whether `b` is an ASCII digit.
pub open spec fn is_digit(b: u8) -> bool {
    48 <= b <= 57
}

/// Whether `s` holds ASCII digits only.
pub open spec fn all_digits(s: Seq<u8>) -> bool {
    forall|i: int| 0 <= i < s.len() ==> is_digit(#[trigger] s[i])
}

/// The number that the decimal digits `s` write.
pub open spec fn digits_value(s: Seq<u8>) -> int
    decreases s.len(),
{
    if s.len() == 0 {
        0
    } else {
        digits_value(s.drop_last()) * 10 + (s.last() - 48)
    }
}

/// The digits of `s`: what stands behind its sign, or all of it where it has
/// no sign.
pub open spec fn unsigned_part(s: Seq<u8>) -> Seq<u8> {
    if s.len() > 0 && (s[0] == 45 || s[0] == 43) {
        s.skip(1)
    } else {
        s
    }
}

/// The number that `s` writes in decimal, with `-` or `+` in front or no
/// sign; `None` where `s` has no digit, holds anything but digits behind the
/// sign, or writes a number that is no `i32`.
pub open spec fn parsed_i32(s: Seq<u8>) -> Option<i32> {
    let body = unsigned_part(s);
    let value = if s.len() > 0 && s[0] == 45 {
        -digits_value(body)
    } else {
        digits_value(body)
    };
    if body.len() == 0 || !all_digits(body) || value < i32::MIN || value > i32::MAX {
        None
    } else {
        Some(value as i32)
    }
}

/// More digits never write a smaller number.
pub proof fn lemma_digits_value_grows(s: Seq<u8>, k: int)
    requires
        all_digits(s),
        0 <= k <= s.len(),
    ensures
        0 <= digits_value(s.take(k)) <= digits_value(s),
    decreases s.len() - k,
{
    if k == s.len() {
        assert(s.take(k) =~= s);
        lemma_digits_value_nonnegative(s);
    } else {
        lemma_digits_value_grows(s, k + 1);
        assert(s.take(k + 1).drop_last() =~= s.take(k));
        assert(is_digit(s[k]));
        assert(s.take(k + 1).last() == s[k]);
        lemma_digits_value_nonnegative(s.take(k));
    }
}

/// Digits write no negative number.
pub proof fn lemma_digits_value_nonnegative(s: Seq<u8>)
    requires
        all_digits(s),
    ensures
        0 <= digits_value(s),
    decreases s.len(),
{
    if s.len() > 0 {
        assert(is_digit(s[s.len() - 1]));
        assert forall|i: int| 0 <= i < s.drop_last().len() implies is_digit(#[trigger] s.drop_last()[i]) by {
            assert(is_digit(s[i]));
        }
        lemma_digits_value_nonnegative(s.drop_last());
    }
}

/// Reads a decimal `i32` from `text`.
pub fn parse_i32(text: &[u8]) -> (r: Option<i32>)
    ensures
        r == parsed_i32(text@),
{
    let n = text.len();
    if n == 0 {
        return None;
    }
    let negative = text[0] == 45;
    let first: usize = if text[0] == 45 || text[0] == 43 {
        1
    } else {
        0
    };
    if first == n {
        return None;
    }
    let ghost body = unsigned_part(text@);
    let mut acc: i64 = 0;
    let mut k: usize = first;
    assert(body.take(0) =~= Seq::<u8>::empty());
    while k < n
        invariant
            first <= k <= n,
            n == text@.len(),
            first <= 1,
            body == unsigned_part(text@),
            body.len() == n - first,
            forall|j: int| 0 <= j < body.len() ==> body[j] == text@[j + first],
            all_digits(body.take(k - first)),
            acc == digits_value(body.take(k - first)),
            0 <= acc <= 0x8000_0000,
        decreases n - k,
    {
        let b = text[k];
        assert(body[k - first] == b);
        if b < 48 || b > 57 {
            assert(!is_digit(body[k - first]));
            return None;
        }
        assert(body.take(k - first + 1).drop_last() =~= body.take(k - first));
        assert(body.take(k - first + 1).last() == b);
        let next: i64 = acc * 10 + (b - 48) as i64;
        assert(all_digits(body.take(k - first + 1))) by {
            assert forall|j: int| 0 <= j < k - first + 1 implies is_digit(
                #[trigger] body.take(k - first + 1)[j],
            ) by {
                if j < k - first {
                    assert(body.take(k - first)[j] == body[j]);
                }
            }
        }
        if next > 0x8000_0000 {
            proof {
                if all_digits(body) {
                    lemma_digits_value_grows(body, k - first + 1);
                }
            }
            return None;
        }
        acc = next;
        k += 1;
    }
    assert(body.take(k - first) =~= body);
    if negative {
        Some((-acc) as i32)
    } else if acc > 0x7fff_ffff {
        None
    } else {
        Some(acc as i32)
    }
}

/// The digits of `s` where no number may be negative: what stands behind a
/// `+`, or all of it.
pub open spec fn plus_part(s: Seq<u8>) -> Seq<u8> {
    if s.len() > 0 && s[0] == 43 {
        s.skip(1)
    } else {
        s
    }
}

/// The number that `s` writes in decimal, with `+` in front or no sign;
/// `None` where `s` has no digit, holds anything but digits behind the sign,
/// or writes a number that is no `u32`.
pub open spec fn parsed_u32(s: Seq<u8>) -> Option<u32> {
    let body = plus_part(s);
    if body.len() == 0 || !all_digits(body) || digits_value(body) > u32::MAX {
        None
    } else {
        Some(digits_value(body) as u32)
    }
}

/// Reads a decimal `u32` from `text`.
pub fn parse_u32(text: &[u8]) -> (r: Option<u32>)
    ensures
        r == parsed_u32(text@),
{
    let n = text.len();
    if n == 0 {
        return None;
    }
    let first: usize = if text[0] == 43 {
        1
    } else {
        0
    };
    if first == n {
        return None;
    }
    let ghost body = plus_part(text@);
    let mut acc: u64 = 0;
    let mut k: usize = first;
    assert(body.take(0) =~= Seq::<u8>::empty());
    while k < n
        invariant
            first <= k <= n,
            n == text@.len(),
            first <= 1,
            body == plus_part(text@),
            body.len() == n - first,
            forall|j: int| 0 <= j < body.len() ==> body[j] == text@[j + first],
            all_digits(body.take(k - first)),
            acc == digits_value(body.take(k - first)),
            acc <= 0xffff_ffff,
        decreases n - k,
    {
        let b = text[k];
        assert(body[k - first] == b);
        if b < 48 || b > 57 {
            assert(!is_digit(body[k - first]));
            return None;
        }
        assert(body.take(k - first + 1).drop_last() =~= body.take(k - first));
        assert(body.take(k - first + 1).last() == b);
        let next: u64 = acc * 10 + (b - 48) as u64;
        assert(all_digits(body.take(k - first + 1))) by {
            assert forall|j: int| 0 <= j < k - first + 1 implies is_digit(
                #[trigger] body.take(k - first + 1)[j],
            ) by {
                if j < k - first {
                    assert(body.take(k - first)[j] == body[j]);
                }
            }
        }
        if next > 0xffff_ffff {
            proof {
                if all_digits(body) {
                    lemma_digits_value_grows(body, k - first + 1);
                }
            }
            return None;
        }
        acc = next;
        k += 1;
    }
    assert(body.take(k - first) =~= body);
    Some(acc as u32)
}

} // verus!
