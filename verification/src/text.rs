//! Characters of strings, and strings built from characters.

use vstd::prelude::*;
use vstd::std_specs::iter::IteratorSpec;
use vstd::string::{axiom_spec_iter, next_postcondition};

verus! {

/// Appends one character; calls `String::push`.
#[verifier::external_body]
pub(crate) fn push_char(s: &mut String, c: char)
    ensures
        final(s)@ == old(s)@.push(c),
{
    s.push(c)
}

/// The characters of `s`, in order.
pub fn chars_of(s: &str) -> (v: Vec<char>)
    ensures
        v@ == s@,
{
    broadcast use {axiom_spec_iter, next_postcondition};

    let mut it = s.chars();
    let mut v: Vec<char> = Vec::new();
    loop
        invariant
            it.obeys_prophetic_iter_laws(),
            v@ + it.remaining() == s@,
            it.decrease() is Some,
        decreases it.decrease()->0,
    {
        match it.next() {
            Some(c) => {
                proof {
                    assert(v@.push(c) + it.remaining() =~= s@);
                }
                v.push(c);
            },
            None => {
                proof {
                    assert(v@ =~= s@);
                }
                return v;
            },
        }
    }
}

/// A string holding the given characters.
pub fn string_from_chars(chars: &[char]) -> (s: String)
    ensures
        s@ == chars@,
{
    let mut s = String::new();
    let mut i: usize = 0;
    while i < chars.len()
        invariant
            i <= chars@.len(),
            s@ == chars@.take(i as int),
        decreases chars@.len() - i,
    {
        push_char(&mut s, chars[i]);
        proof {
            assert(chars@.take(i as int + 1) =~= chars@.take(i as int).push(chars@[i as int]));
        }
        i = i + 1;
    }
    proof {
        assert(chars@.take(chars@.len() as int) =~= chars@);
    }
    s
}

/// Whether two character sequences are equal.
pub fn chars_eq(a: &[char], b: &[char]) -> (res: bool)
    ensures
        res == (a@ == b@),
{
    if a.len() != b.len() {
        return false;
    }
    let mut i: usize = 0;
    while i < a.len()
        invariant
            a@.len() == b@.len(),
            i <= a@.len(),
            forall|j: int| 0 <= j < i ==> a@[j] == b@[j],
        decreases a@.len() - i,
    {
        if a[i] != b[i] {
            return false;
        }
        i = i + 1;
    }
    proof {
        assert(a@ =~= b@);
    }
    true
}

/// Whether two strings are equal.
pub fn str_eq(a: &str, b: &str) -> (res: bool)
    ensures
        res == (a@ == b@),
{
    let ac = chars_of(a);
    let bc = chars_of(b);
    chars_eq(ac.as_slice(), bc.as_slice())
}

/// Whether `s` begins with `prefix`.
pub open spec fn starts_with(s: Seq<char>, prefix: Seq<char>) -> bool {
    prefix.len() <= s.len() && s.subrange(0, prefix.len() as int) == prefix
}

/// Whether `s` begins with `prefix`.
pub fn chars_start_with(s: &[char], prefix: &[char]) -> (res: bool)
    ensures
        res == starts_with(s@, prefix@),
{
    if prefix.len() > s.len() {
        return false;
    }
    let mut i: usize = 0;
    while i < prefix.len()
        invariant
            prefix@.len() <= s@.len(),
            i <= prefix@.len(),
            forall|j: int| 0 <= j < i ==> s@[j] == prefix@[j],
        decreases prefix@.len() - i,
    {
        if s[i] != prefix[i] {
            proof {
                assert(s@.subrange(0, prefix@.len() as int)[i as int] != prefix@[i as int]);
            }
            return false;
        }
        i = i + 1;
    }
    proof {
        assert(s@.subrange(0, prefix@.len() as int) =~= prefix@);
    }
    true
}


/// The lowercase hexadecimal digit of `d` (below 16).
pub open spec fn hex_digit_char(d: int) -> char {
    if d == 0 {
        '0'
    } else if d == 1 {
        '1'
    } else if d == 2 {
        '2'
    } else if d == 3 {
        '3'
    } else if d == 4 {
        '4'
    } else if d == 5 {
        '5'
    } else if d == 6 {
        '6'
    } else if d == 7 {
        '7'
    } else if d == 8 {
        '8'
    } else if d == 9 {
        '9'
    } else if d == 10 {
        'a'
    } else if d == 11 {
        'b'
    } else if d == 12 {
        'c'
    } else if d == 13 {
        'd'
    } else if d == 14 {
        'e'
    } else {
        'f'
    }
}

/// The lowercase hexadecimal digits of `n`, without leading zeros ("0" for 0).
pub open spec fn hex_chars(n: nat) -> Seq<char>
    decreases n,
{
    if n < 16 {
        seq![hex_digit_char(n as int)]
    } else {
        hex_chars(n / 16).push(hex_digit_char((n % 16) as int))
    }
}

/// The decimal digits of `n`, without leading zeros ("0" for 0).
pub open spec fn decimal_chars(n: nat) -> Seq<char>
    decreases n,
{
    if n < 10 {
        seq![hex_digit_char(n as int)]
    } else {
        decimal_chars(n / 10).push(hex_digit_char((n % 10) as int))
    }
}

fn digit_char(d: u64) -> (c: char)
    requires
        d < 16,
    ensures
        c == hex_digit_char(d as int),
{
    match d {
        0 => '0',
        1 => '1',
        2 => '2',
        3 => '3',
        4 => '4',
        5 => '5',
        6 => '6',
        7 => '7',
        8 => '8',
        9 => '9',
        10 => 'a',
        11 => 'b',
        12 => 'c',
        13 => 'd',
        14 => 'e',
        _ => 'f',
    }
}

/// The sequence reversed.
pub open spec fn reversed(s: Seq<char>) -> Seq<char> {
    Seq::new(s.len(), |i: int| s[s.len() - 1 - i])
}

/// The digits of `n` in base `radix` (10 or 16), most significant first.
fn digits_of(n: u64, radix: u64) -> (res: Vec<char>)
    requires
        radix == 10 || radix == 16,
    ensures
        radix == 16 ==> res@ == hex_chars(n as nat),
        radix == 10 ==> res@ == decimal_chars(n as nat),
{
    let mut cur = n;
    let mut low: Vec<char> = Vec::new();
    while cur >= radix
        invariant
            radix == 10 || radix == 16,
            radix == 16 ==> hex_chars(n as nat) == hex_chars(cur as nat) + reversed(low@),
            radix == 10 ==> decimal_chars(n as nat) == decimal_chars(cur as nat) + reversed(low@),
        decreases cur,
    {
        let d = cur % radix;
        let c = digit_char(d);
        let ghost low0 = low@;
        low.push(c);
        proof {
            assert(reversed(low@) =~= seq![c] + reversed(low0));
            if radix == 16 {
                assert(hex_chars(cur as nat) == hex_chars((cur / 16) as nat).push(c));
                assert(hex_chars((cur / 16) as nat) + reversed(low@) =~= hex_chars((cur / 16) as nat).push(c) + reversed(low0));
            } else {
                assert(decimal_chars(cur as nat) == decimal_chars((cur / 10) as nat).push(c));
                assert(decimal_chars((cur / 10) as nat) + reversed(low@) =~= decimal_chars((cur / 10) as nat).push(c) + reversed(low0));
            }
        }
        cur = cur / radix;
    }
    let mut out: Vec<char> = Vec::new();
    out.push(digit_char(cur));
    let mut k: usize = low.len();
    while k > 0
        invariant
            k <= low@.len(),
            out@ == seq![hex_digit_char(cur as int)] + reversed(low@).take(low@.len() - k),
        decreases k,
    {
        out.push(low[k - 1]);
        proof {
            assert(reversed(low@).take(low@.len() - k + 1) =~= reversed(low@).take(low@.len() - k).push(low@[k - 1]));
        }
        k = k - 1;
    }
    proof {
        assert(reversed(low@).take(low@.len() as int) =~= reversed(low@));
    }
    out
}

/// `n` as an Ethereum quantity: `0x` and its lowercase hexadecimal digits.
pub fn quantity_hex(n: u64) -> (s: String)
    ensures
        s@ == seq!['0', 'x'] + hex_chars(n as nat),
{
    let digits = digits_of(n, 16);
    let mut chars: Vec<char> = Vec::new();
    chars.push('0');
    chars.push('x');
    let mut i: usize = 0;
    while i < digits.len()
        invariant
            i <= digits@.len(),
            chars@ == seq!['0', 'x'] + digits@.take(i as int),
        decreases digits@.len() - i,
    {
        chars.push(digits[i]);
        proof {
            assert(digits@.take(i + 1) =~= digits@.take(i as int).push(digits@[i as int]));
        }
        i = i + 1;
    }
    proof {
        assert(digits@.take(digits@.len() as int) =~= digits@);
    }
    string_from_chars(chars.as_slice())
}

/// `n` in decimal.
pub fn decimal_string(n: u64) -> (s: String)
    ensures
        s@ == decimal_chars(n as nat),
{
    let digits = digits_of(n, 10);
    string_from_chars(digits.as_slice())
}

} // verus!
