//! The on-disk cache path of a gem's raw sample file.
//!
//! A gem name may hold characters that a file name cannot, so every byte
//! outside lower-case ASCII letters, digits, `-` and `_` is percent-encoded
//! with two upper-case hex digits, and the result is framed as
//! `bettergems/<encoded>.json`.

use vstd::prelude::*;

use vstd::string::StringExecFns;
use vstd::string::StringSliceAdditionalSpecFns;

verus! {

/// Bytes kept as they are in a file name: lower-case ASCII letters, digits,
/// `-` and `_`.
pub open spec fn is_plain_byte(c: u8) -> bool {
    (97 <= c <= 122) || (48 <= c <= 57) || c == 45 || c == 95
}

/// Upper-case hex digit for a value below 16.
pub open spec fn spec_hex_digit(n: u8) -> char {
    if n == 0 {
        '0'
    } else if n == 1 {
        '1'
    } else if n == 2 {
        '2'
    } else if n == 3 {
        '3'
    } else if n == 4 {
        '4'
    } else if n == 5 {
        '5'
    } else if n == 6 {
        '6'
    } else if n == 7 {
        '7'
    } else if n == 8 {
        '8'
    } else if n == 9 {
        '9'
    } else if n == 10 {
        'A'
    } else if n == 11 {
        'B'
    } else if n == 12 {
        'C'
    } else if n == 13 {
        'D'
    } else if n == 14 {
        'E'
    } else {
        'F'
    }
}

/// How one byte appears in the file name: itself when plain, else
/// `%` and its two upper-case hex digits.
pub open spec fn encoded_byte(c: u8) -> Seq<char> {
    if is_plain_byte(c) {
        seq![c as char]
    } else {
        seq!['%', spec_hex_digit(c / 16), spec_hex_digit(c % 16)]
    }
}

/// The whole byte string, encoded byte for byte.
pub open spec fn encoded_bytes(s: Seq<u8>) -> Seq<char>
    decreases s.len(),
{
    if s.len() == 0 {
        Seq::empty()
    } else {
        encoded_bytes(s.drop_last()) + encoded_byte(s.last())
    }
}

/// The cache path of a gem's raw sample file, from the gem name's bytes.
pub open spec fn gem_path_chars(bytes: Seq<u8>) -> Seq<char> {
    "bettergems/"@ + encoded_bytes(bytes) + ".json"@
}

/// Relies on String::push: it appends exactly the given character.
#[verifier::external_body]
fn push_char(s: &mut String, c: char)
    ensures
        final (s)@ == old(s)@ + seq![c],
{
    s.push(c);
}

/// Upper-case hex digit of a value below 16.
fn hex_digit(n: u8) -> (c: char)
    requires
        n < 16,
    ensures
        c == spec_hex_digit(n),
{
    if n == 0 {
        '0'
    } else if n == 1 {
        '1'
    } else if n == 2 {
        '2'
    } else if n == 3 {
        '3'
    } else if n == 4 {
        '4'
    } else if n == 5 {
        '5'
    } else if n == 6 {
        '6'
    } else if n == 7 {
        '7'
    } else if n == 8 {
        '8'
    } else if n == 9 {
        '9'
    } else if n == 10 {
        'A'
    } else if n == 11 {
        'B'
    } else if n == 12 {
        'C'
    } else if n == 13 {
        'D'
    } else if n == 14 {
        'E'
    } else {
        'F'
    }
}

/// The file the raw samples of the named gem are cached in:
/// `bettergems/<name>.json`, the name percent-encoded byte for byte.
#[verifier::loop_isolation(false)]
pub fn better_gem_path(name: &str) -> (r: String)
    ensures
        r@ == gem_path_chars(name.spec_bytes()),
{
    let bytes = name.as_bytes();
    let mut r = String::new();
    r.append("bettergems/");
    proof {
        assert(Seq::<char>::empty() + "bettergems/"@ =~= "bettergems/"@);
        assert(bytes@.take(0) =~= Seq::<u8>::empty());
        assert(r@ =~= "bettergems/"@ + encoded_bytes(bytes@.take(0)));
    }
    let n = bytes.len();
    let mut i: usize = 0;
    while i < n
        invariant
            0 <= i <= n,
            n == bytes@.len(),
            r@ == "bettergems/"@ + encoded_bytes(bytes@.take(i as int)),
        decreases n - i,
    {
        let c = bytes[i];
        if (97 <= c && c <= 122) || (48 <= c && c <= 57) || c == 45 || c == 95 {
            push_char(&mut r, c as char);
        } else {
            push_char(&mut r, '%');
            push_char(&mut r, hex_digit(c / 16));
            push_char(&mut r, hex_digit(c % 16));
        }
        proof {
            assert(bytes@.take(i as int + 1).drop_last() =~= bytes@.take(i as int));
            assert(bytes@.take(i as int + 1).last() == bytes@[i as int]);
            assert(r@ =~= "bettergems/"@ + encoded_bytes(bytes@.take(i as int + 1)));
        }
        i = i + 1;
    }
    r.append(".json");
    proof {
        assert(bytes@.take(n as int) =~= bytes@);
        assert(r@ =~= "bettergems/"@ + encoded_bytes(bytes@) + ".json"@);
    }
    r
}

} // verus!
