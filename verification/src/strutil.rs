//! Verified helpers on strings and characters: equality, ASCII upper-casing
//! and integer parsing, used by the schema tokenizer and parser.

use vstd::prelude::*;
use vstd::string::*;

verus! {

/// Compares two string slices by their character sequences.
pub fn str_eq(a: &str, b: &str) -> (r: bool)
    ensures
        r == (a@ == b@),
{
    let alen = a.unicode_len();
    let blen = b.unicode_len();
    if alen != blen {
        assert(a@ != b@) by {
            assert(a@.len() != b@.len());
        }
        return false;
    }
    let mut i: usize = 0;
    while i < alen
        invariant
            alen == a@.len(),
            alen == b@.len(),
            i <= alen,
            forall|j: int| 0 <= j < i ==> a@[j] == b@[j],
        decreases alen - i,
    {
        if a.get_char(i) != b.get_char(i) {
            return false;
        }
        i += 1;
    }
    proof {
        assert(a@ =~= b@);
    }
    true
}

/// The upper-case form of one character, for the ASCII letters only.
pub open spec fn spec_upper_char(c: char) -> char {
    if 'a' <= c && c <= 'z' {
        ((c as u8) - 32) as char
    } else {
        c
    }
}

/// A character sequence with every ASCII lower-case letter upper-cased.
pub open spec fn spec_upper(s: Seq<char>) -> Seq<char> {
    s.map_values(|c: char| spec_upper_char(c))
}

/// Relies on `String::push`: appends one character at the end.
#[verifier::external_body]
fn push_char(s: &mut String, c: char)
    ensures
        final(s)@ == old(s)@ + seq![c],
{
    s.push(c)
}

/// Upper-cases the ASCII letters of a string. Characters outside the ASCII
/// letters are kept as they are.
pub fn to_ascii_upper(s: &str) -> (r: String)
    ensures
        r@ == spec_upper(s@),
{
    let len = s.unicode_len();
    let mut out = String::new();
    let mut i: usize = 0;
    while i < len
        invariant
            len == s@.len(),
            i <= len,
            out@ == spec_upper(s@.take(i as int)),
        decreases len - i,
    {
        let c = s.get_char(i);
        let u: char = if 'a' <= c && c <= 'z' {
            ((c as u8) - 32) as char
        } else {
            c
        };
        proof {
            assert(u == spec_upper_char(s@[i as int]));
            assert(s@.take(i + 1).drop_last() =~= s@.take(i as int));
            assert(spec_upper(s@.take(i + 1)) =~= spec_upper(s@.take(i as int)) + seq![u]);
        }
        push_char(&mut out, u);
        i += 1;
    }
    proof {
        assert(s@.take(len as int) =~= s@);
    }
    out
}

/// Whether a character is a decimal digit.
pub open spec fn spec_is_digit(c: char) -> bool {
    '0' <= c && c <= '9'
}

/// The numeric value of one decimal digit.
pub open spec fn spec_digit_val(c: char) -> int {
    c as int - '0' as int
}

/// Whether every character of the sequence is a decimal digit.
pub open spec fn spec_all_digits(s: Seq<char>) -> bool {
    forall|i: int| 0 <= i < s.len() ==> spec_is_digit(#[trigger] s[i])
}

/// The value of a sequence of decimal digits, most significant first.
pub open spec fn spec_digits_val(s: Seq<char>) -> int
    decreases s.len(),
{
    if s.len() == 0 {
        0
    } else {
        spec_digits_val(s.drop_last()) * 10 + spec_digit_val(s.last())
    }
}

/// What parsing a decimal integer from a string gives: an optional sign,
/// then at least one digit, and a value within the 32-bit signed range.
pub open spec fn spec_parse_i32(s: Seq<char>) -> Option<i32> {
    let (neg, digits): (bool, Seq<char>) = if s.len() > 0 && s[0] == '-' {
        (true, s.skip(1))
    } else if s.len() > 0 && s[0] == '+' {
        (false, s.skip(1))
    } else {
        (false, s)
    };
    if digits.len() == 0 || !spec_all_digits(digits) {
        None
    } else {
        let v = if neg {
            -spec_digits_val(digits)
        } else {
            spec_digits_val(digits)
        };
        if -0x8000_0000 <= v && v <= 0x7fff_ffff {
            Some(v as i32)
        } else {
            None
        }
    }
}

proof fn lemma_digits_val_nonneg(s: Seq<char>)
    requires
        spec_all_digits(s),
    ensures
        spec_digits_val(s) >= 0,
    decreases s.len(),
{
    if s.len() > 0 {
        lemma_digits_val_nonneg(s.drop_last());
    }
}

/// Parses a decimal integer, exactly when the string is an optional sign
/// followed by digits whose value fits in 32 signed bits.
pub fn parse_decimal_i32(s: &str) -> (r: Option<i32>)
    ensures
        r == spec_parse_i32(s@),
{
    let len = s.unicode_len();
    if len == 0 {
        return None;
    }
    let first = s.get_char(0);
    let neg = first == '-';
    let start: usize = if first == '-' || first == '+' {
        1
    } else {
        0
    };
    if len == start {
        return None;
    }
    let ghost digits: Seq<char> = s@.skip(start as int);
    let mut i: usize = start;
    let mut acc: i64 = 0;
    let mut too_big = false;
    let ghost mut gval: int = 0;
    while i < len
        invariant
            len == s@.len(),
            start <= i <= len,
            start < len,
            start as int == (if s@[0] == '-' || s@[0] == '+' {
                1int
            } else {
                0int
            }),
            neg == (s@[0] == '-'),
            digits == s@.skip(start as int),
            spec_all_digits(s@.subrange(start as int, i as int)),
            gval == spec_digits_val(s@.subrange(start as int, i as int)),
            gval >= 0,
            too_big <==> gval > 0x8000_0000,
            !too_big ==> acc == gval,
            0 <= acc <= 0x8000_0000,
        decreases len - i,
    {
        let c = s.get_char(i);
        if !('0' <= c && c <= '9') {
            proof {
                assert(digits[i - start] == c);
                assert(!spec_all_digits(digits));
            }
            return None;
        }
        let d: i64 = ((c as u32) - 48) as i64;
        proof {
            let pref = s@.subrange(start as int, i as int);
            let pref1 = s@.subrange(start as int, i + 1);
            assert(pref1.drop_last() =~= pref);
            assert(pref1.last() == c);
            assert(spec_digits_val(pref1) == gval * 10 + spec_digit_val(c));
        }
        if too_big {
            proof {
                gval = gval * 10 + spec_digit_val(c);
            }
        } else {
            let next = acc * 10 + d;
            proof {
                gval = gval * 10 + spec_digit_val(c);
                assert(next == gval);
            }
            if next > 0x8000_0000 {
                too_big = true;
                acc = 0x8000_0000;
            } else {
                acc = next;
            }
        }
        i += 1;
    }
    proof {
        assert(s@.subrange(start as int, len as int) =~= digits);
        lemma_digits_val_nonneg(digits);
        assert(digits == if s@[0] == '-' || s@[0] == '+' {
            s@.skip(1)
        } else {
            s@
        });
    }
    if too_big {
        return None;
    }
    if neg {
        Some((-acc) as i32)
    } else {
        if acc > 0x7fff_ffff {
            None
        } else {
            Some(acc as i32)
        }
    }
}

} // verus!
