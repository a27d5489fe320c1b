//! Character and string helpers shared by the matcher and the query compiler.

use vstd::prelude::*;

verus! {

/// ASCII lower-casing of a single character; letters outside `A`..`Z` are kept.
pub open spec fn lower_char_spec(c: char) -> char {
    if 'A' <= c && c <= 'Z' {
        (((c as u32) + 32) as char)
    } else {
        c
    }
}

/// A word character in a pattern: ASCII letters, digits and the underscore.
pub open spec fn is_word_char_spec(c: char) -> bool {
    ('a' <= c && c <= 'z') || ('A' <= c && c <= 'Z') || ('0' <= c && c <= '9') || c == '_'
}

/// Case folding of a whole character sequence.
pub open spec fn lower_seq(s: Seq<char>) -> Seq<char> {
    s.map_values(|c: char| lower_char_spec(c))
}

pub fn lower_char(c: char) -> (r: char)
    ensures
        r == lower_char_spec(c),
{
    if 'A' <= c && c <= 'Z' {
        let b: u8 = c as u8;
        ((b + 32) as char)
    } else {
        c
    }
}

pub fn is_word_char(c: char) -> (r: bool)
    ensures
        r == is_word_char_spec(c),
{
    ('a' <= c && c <= 'z') || ('A' <= c && c <= 'Z') || ('0' <= c && c <= '9') || c == '_'
}

/// Whether two string slices hold the same characters.
pub fn str_eq(a: &str, b: &str) -> (r: bool)
    ensures
        r == (a@ == b@),
{
    let owned_a = a.to_owned();
    let owned_b = b.to_owned();
    owned_a == owned_b
}

/// Relies on `String::push`: appends the given character to the end of the string.
#[verifier::external_body]
pub fn push_char(s: &mut String, c: char)
    ensures
        final(s)@ == old(s)@.push(c),
{
    s.push(c);
}

/// The decimal digits of a non-negative integer, most significant first.
pub open spec fn dec_nat(n: int) -> Seq<char>
    decreases n,
{
    if n < 0 {
        Seq::empty()
    } else if n < 10 {
        seq![((48 + n) as char)]
    } else {
        dec_nat(n / 10).push(((48 + n % 10) as char))
    }
}

/// The decimal rendering of an integer, with a leading minus sign when negative.
pub open spec fn dec_seq(n: int) -> Seq<char> {
    if n < 0 {
        seq!['-'] + dec_nat(-n)
    } else {
        dec_nat(n)
    }
}

fn dec_digits(m: u64) -> (v: Vec<char>)
    ensures
        v@ == dec_nat(m as int),
    decreases m,
{
    if m < 10 {
        let mut v: Vec<char> = Vec::new();
        v.push(((48 + (m as u8)) as char));
        proof {
            assert(v@ =~= dec_nat(m as int));
        }
        v
    } else {
        let mut v = dec_digits(m / 10);
        v.push(((48 + ((m % 10) as u8)) as char));
        proof {
            assert(v@ =~= dec_nat(m as int));
        }
        v
    }
}

/// The decimal text of a 64-bit integer, as a character vector.
pub fn i64_chars(n: i64) -> (v: Vec<char>)
    ensures
        v@ == dec_seq(n as int),
{
    if n >= 0 {
        dec_digits(n as u64)
    } else {
        let m: u64 = if n == i64::MIN {
            9223372036854775808u64
        } else {
            (-n) as u64
        };
        proof {
            assert(m as int == -(n as int));
        }
        let digits = dec_digits(m);
        let mut v: Vec<char> = Vec::new();
        v.push('-');
        let mut i: usize = 0;
        let len = digits.len();
        while i < len
            invariant
                i <= len,
                len == digits@.len(),
                v@ == seq!['-'] + digits@.subrange(0, i as int),
            decreases len - i,
        {
            v.push(digits[i]);
            i = i + 1;
            proof {
                assert(v@ =~= seq!['-'] + digits@.subrange(0, i as int));
            }
        }
        proof {
            assert(digits@.subrange(0, len as int) =~= digits@);
            assert(v@ =~= dec_seq(n as int));
        }
        v
    }
}

/// A string holding exactly the given characters.
pub fn chars_to_string(v: &Vec<char>) -> (s: String)
    ensures
        s@ == v@,
{
    let mut s = String::new();
    let mut i: usize = 0;
    let len = v.len();
    while i < len
        invariant
            i <= len,
            len == v@.len(),
            s@ == v@.subrange(0, i as int),
        decreases len - i,
    {
        push_char(&mut s, v[i]);
        i = i + 1;
        proof {
            assert(s@ =~= v@.subrange(0, i as int));
        }
    }
    proof {
        assert(v@.subrange(0, len as int) =~= v@);
    }
    s
}

/// The characters of a string slice, as a vector.
pub fn str_chars(s: &str) -> (v: Vec<char>)
    ensures
        v@ == s@,
{
    let n: usize = s.unicode_len();
    let mut v: Vec<char> = Vec::new();
    let mut i: usize = 0;
    while i < n
        invariant
            i <= n,
            n == s@.len(),
            v@ == s@.subrange(0, i as int),
        decreases n - i,
    {
        let c = s.get_char(i);
        v.push(c);
        i = i + 1;
        proof {
            assert(v@ =~= s@.subrange(0, i as int));
        }
    }
    proof {
        assert(v@ =~= s@);
    }
    v
}

} // verus!
