//! Small verified text utilities: character extraction, string building,
//! string comparison, and decimal formatting of integers.

use vstd::prelude::*;
use vstd::std_specs::iter::IteratorSpec;

verus! {

broadcast use vstd::string::group_string_axioms;

/// Relies on `alloc::string::String::push`: appends one character to the
/// end of the string.
pub assume_specification[ String::push ](s: &mut String, c: char)
    ensures
        final(s)@ == old(s)@.push(c),
;

/// Relies on `core::char::from_u32`: converts a `u32` to a `char`, returning
/// `None` exactly when the value is a surrogate or above the Unicode maximum.
pub assume_specification[ char::from_u32 ](i: u32) -> (r: Option<char>)
    ensures
        r is Some <==> (i < 0xD800 || (0xE000 <= i && i <= 0x10FFFF)),
        r matches Some(c) ==> c as u32 == i,
;

/// The characters of a string, as an indexable vector.
pub fn chars_of(s: &str) -> (v: Vec<char>)
    ensures
        v@ == s@,
{
    let mut it = s.chars();
    let mut v: Vec<char> = Vec::new();
    loop
        invariant
            it.obeys_prophetic_iter_laws(),
            it.decrease() is Some,
            v@ + it.remaining() == s@,
        ensures
            v@ + it.remaining() == s@,
            it.remaining().len() == 0,
        decreases it.decrease()->0,
    {
        match it.next() {
            Some(c) => {
                v.push(c);
            },
            None => {
                break ;
            },
        }
    }
    proof {
        assert(v@ =~= s@);
    }
    v
}

/// The substring `v[from..to]`, built as an owned string.
pub fn string_of_range(v: &Vec<char>, from: usize, to: usize) -> (s: String)
    requires
        from <= to <= v@.len(),
    ensures
        s@ == v@.subrange(from as int, to as int),
{
    let mut s = String::new();
    let mut i = from;
    while i < to
        invariant
            from <= i <= to <= v@.len(),
            s@ == v@.subrange(from as int, i as int),
        decreases to - i,
    {
        s.push(v[i]);
        proof {
            assert(v@.subrange(from as int, i as int + 1) =~= v@.subrange(
                from as int,
                i as int,
            ).push(v@[i as int]));
        }
        i += 1;
    }
    s
}

/// Content equality of two string slices.
pub fn str_eq(a: &str, b: &str) -> (r: bool)
    ensures
        r == (a@ == b@),
{
    let va = chars_of(a);
    let vb = chars_of(b);
    if va.len() != vb.len() {
        return false;
    }
    let n = va.len();
    for i in 0..n
        invariant
            va@ == a@,
            vb@ == b@,
            n == va@.len() == vb@.len(),
            forall|j: int| 0 <= j < i ==> va@[j] == vb@[j],
    {
        if va[i] != vb[i] {
            return false;
        }
    }
    proof {
        assert(a@ =~= b@);
    }
    true
}

/// `depth` levels of four-space indentation.
pub open spec fn spec_indent_text(depth: nat) -> Seq<char>
    decreases depth,
{
    if depth == 0 {
        Seq::empty()
    } else {
        spec_indent_text((depth - 1) as nat) + "    "@
    }
}

/// The character for one decimal digit.
pub open spec fn dec_digit_char(d: int) -> char {
    if d == 0 {
        '0'
    } else if d == 1 {
        '1'
    } else if d == 2 {
        '2'
    } else if d == 3 {
        '3'
    } else if d == 4 {
        '4'
    } else if d == 5 {
        '5'
    } else if d == 6 {
        '6'
    } else if d == 7 {
        '7'
    } else if d == 8 {
        '8'
    } else {
        '9'
    }
}

/// The decimal digits of `n`, most significant first, with no leading zeros
/// (`0` itself is the single digit `0`).
pub open spec fn spec_u64_digits(n: nat) -> Seq<char>
    decreases n,
{
    if n < 10 {
        seq![dec_digit_char(n as int)]
    } else {
        spec_u64_digits(n / 10).push(dec_digit_char((n % 10) as int))
    }
}

/// The decimal text of a signed value: a minus sign followed by the digits
/// of the magnitude, or just the digits when non-negative.
pub open spec fn spec_i64_text(v: int) -> Seq<char> {
    if v >= 0 {
        spec_u64_digits(v as nat)
    } else {
        seq!['-'] + spec_u64_digits((-v) as nat)
    }
}

fn dec_digit_exec(d: u64) -> (c: char)
    requires
        d < 10,
    ensures
        c == dec_digit_char(d as int),
{
    match d {
        0 => '0',
        1 => '1',
        2 => '2',
        3 => '3',
        4 => '4',
        5 => '5',
        6 => '6',
        7 => '7',
        8 => '8',
        _ => '9',
    }
}

/// Appends the decimal digits of `n` to `out`.
pub fn push_u64_digits(n: u64, out: &mut String)
    ensures
        final(out)@ == old(out)@ + spec_u64_digits(n as nat),
    decreases n,
{
    if n >= 10 {
        push_u64_digits(n / 10, out);
        let c = dec_digit_exec(n % 10);
        out.push(c);
        proof {
            assert(final(out)@ =~= old(out)@ + spec_u64_digits(n as nat));
        }
    } else {
        let c = dec_digit_exec(n);
        out.push(c);
        proof {
            assert(final(out)@ =~= old(out)@ + spec_u64_digits(n as nat));
        }
    }
}

/// Appends the decimal text of `v`, with a minus sign when negative.
pub fn push_i64_text(v: i64, out: &mut String)
    ensures
        final(out)@ == old(out)@ + spec_i64_text(v as int),
{
    if v >= 0 {
        push_u64_digits(v as u64, out);
    } else {
        out.push('-');
        let mag: u64 = (-(v as i128)) as u64;
        push_u64_digits(mag, out);
        proof {
            assert(final(out)@ =~= old(out)@ + spec_i64_text(v as int));
        }
    }
}

} // verus!
