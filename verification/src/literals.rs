//! Recognizers for the value forms the schema can demand: boolean literals
//! and 32-bit signed integer literals.

use vstd::prelude::*;

verus! {

/// An ASCII decimal digit.
pub open spec fn is_digit(c: char) -> bool {
    '0' <= c && c <= '9'
}

/// The numeric value of one digit.
pub open spec fn digit_val(c: char) -> int {
    c as int - '0' as int
}

/// Every character is a digit, and there is at least one.
pub open spec fn all_digits(s: Seq<char>) -> bool {
    s.len() > 0 && forall|k: int| 0 <= k < s.len() ==> is_digit(#[trigger] s[k])
}

/// The number the digit string denotes, most significant digit first.
pub open spec fn digits_value(s: Seq<char>) -> int
    decreases s.len(),
{
    if s.len() == 0 {
        0
    } else {
        digits_value(s.drop_last()) * 10 + digit_val(s.last())
    }
}

pub proof fn lemma_digits_value_nonneg(s: Seq<char>)
    requires
        forall|k: int| 0 <= k < s.len() ==> is_digit(#[trigger] s[k]),
    ensures
        digits_value(s) >= 0,
    decreases s.len(),
{
    if s.len() > 0 {
        lemma_digits_value_nonneg(s.drop_last());
    }
}

/// A signed 32-bit integer literal: an optional sign, then one or more
/// digits, denoting a value a 32-bit signed integer can hold.
pub open spec fn is_integer_literal(s: Seq<char>) -> bool {
    if s.len() == 0 {
        false
    } else if s[0] == '+' {
        all_digits(s.drop_first()) && digits_value(s.drop_first()) <= 0x7fff_ffff
    } else if s[0] == '-' {
        all_digits(s.drop_first()) && digits_value(s.drop_first()) <= 0x8000_0000
    } else {
        all_digits(s) && digits_value(s) <= 0x7fff_ffff
    }
}

/// The code point of `c` with an ASCII capital letter folded to lower case.
pub open spec fn ascii_lower(c: char) -> int {
    if 'A' <= c && c <= 'Z' {
        c as int + 32
    } else {
        c as int
    }
}

/// Equal up to ASCII case.
pub open spec fn eq_ignore_ascii_case(a: Seq<char>, b: Seq<char>) -> bool {
    a.len() == b.len() && forall|k: int|
        0 <= k < a.len() ==> ascii_lower(a[k]) == ascii_lower(#[trigger] b[k])
}

/// A boolean literal: `true` or `false` in any ASCII case.
pub open spec fn is_bool_literal(s: Seq<char>) -> bool {
    eq_ignore_ascii_case(s, "true"@) || eq_ignore_ascii_case(s, "false"@)
}

/// Folds one ASCII capital letter to lower case, as a code point.
fn ascii_lower_char(c: char) -> (r: u32)
    ensures
        r == ascii_lower(c),
{
    let u: u32 = c as u32;
    if 65 <= u && u <= 90 {
        u + 32
    } else {
        u
    }
}

/// Compares two strings up to ASCII case.
fn str_eq_ignore_case(a: &str, b: &str) -> (r: bool)
    ensures
        r == eq_ignore_ascii_case(a@, b@),
{
    let na: usize = a.unicode_len();
    let nb: usize = b.unicode_len();
    if na != nb {
        return false;
    }
    let mut i: usize = 0;
    while i < na
        invariant
            0 <= i <= na,
            na == a@.len(),
            na == b@.len(),
            forall|k: int| 0 <= k < i ==> ascii_lower(a@[k]) == ascii_lower(#[trigger] b@[k]),
        decreases na - i,
    {
        if ascii_lower_char(a.get_char(i)) != ascii_lower_char(b.get_char(i)) {
            return false;
        }
        i = i + 1;
    }
    true
}

/// Whether `s` is a boolean literal, up to ASCII case.
pub fn is_bool_value(s: &str) -> (b: bool)
    ensures
        b == is_bool_literal(s@),
{
    str_eq_ignore_case(s, "true") || str_eq_ignore_case(s, "false")
}

/// Whether `s` is a decimal literal in the signed 32-bit range.
pub fn is_integer_value(s: &str) -> (b: bool)
    ensures
        b == is_integer_literal(s@),
{
    let n: usize = s.unicode_len();
    if n == 0 {
        return false;
    }
    let c0: char = s.get_char(0);
    let start: usize = if c0 == '+' || c0 == '-' {
        1
    } else {
        0
    };
    let limit: u64 = if c0 == '-' {
        0x8000_0000
    } else {
        0x7fff_ffff
    };
    proof {
        if start == 1 {
            assert(s@.drop_first() =~= s@.subrange(1, n as int));
        } else {
            assert(s@.subrange(0, n as int) =~= s@);
        }
    }
    if start >= n {
        return false;
    }
    let mut i: usize = start;
    let mut acc: u64 = 0;
    let mut over: bool = false;
    while i < n
        invariant
            start <= i <= n,
            n == s@.len(),
            start < n,
            start == 0 || start == 1,
            start == 1 ==> (s@[0] == '+' || s@[0] == '-'),
            start == 0 ==> (s@[0] != '+' && s@[0] != '-'),
            forall|k: int| start <= k < i ==> is_digit(#[trigger] s@[k]),
            !over ==> acc == digits_value(s@.subrange(start as int, i as int)) && acc
                <= 0xffff_ffffu64,
            over ==> digits_value(s@.subrange(start as int, i as int)) > 0xffff_ffff,
        decreases n - i,
    {
        let c: char = s.get_char(i);
        let u: u32 = c as u32;
        if u < 48 || u > 57 {
            proof {
                assert(c as int == u as int);
                assert(!is_digit(s@[i as int]));
                if start == 1 {
                    assert(s@.drop_first()[i - 1] == s@[i as int]);
                    assert(!all_digits(s@.drop_first()));
                } else {
                    assert(!all_digits(s@));
                }
            }
            return false;
        }
        let d: u64 = (u - 48) as u64;
        let ghost prefix = s@.subrange(start as int, i as int);
        let ghost prefix2 = s@.subrange(start as int, i as int + 1);
        proof {
            assert(prefix2.drop_last() =~= prefix);
            assert(prefix2.last() == s@[i as int]);
            assert(digits_value(prefix2) == digits_value(prefix) * 10 + digit_val(s@[i as int]));
            lemma_digits_value_nonneg(prefix);
        }
        if over {
            proof {
                assert(digits_value(prefix) * 10 >= digits_value(prefix));
            }
        } else {
            let next: u64 = acc * 10 + d;
            if next > 0xffff_ffff {
                over = true;
            } else {
                acc = next;
            }
        }
        i = i + 1;
    }
    proof {
        if start == 1 {
            assert(s@.drop_first() =~= s@.subrange(1, n as int));
        } else {
            assert(s@.subrange(0, n as int) =~= s@);
        }
    }
    !over && acc <= limit
}

} // verus!
