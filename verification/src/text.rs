//! Decimal conversion of integers, used by the lexer, the builtins and the
//! diagnostics.
use vstd::prelude::*;

verus! {

/// The decimal digit character for `d` (0..=9).
pub open spec fn digit_char(d: nat) -> char {
    if d == 0 { '0' } else if d == 1 { '1' } else if d == 2 { '2' } else if d == 3 { '3' }
    else if d == 4 { '4' } else if d == 5 { '5' } else if d == 6 { '6' } else if d == 7 { '7' }
    else if d == 8 { '8' } else { '9' }
}

/// The decimal spelling of a natural number, without leading zeros
/// (`0` is spelled `"0"`).
pub open spec fn nat_digits(n: nat) -> Seq<char>
    decreases n,
{
    if n < 10 {
        seq![digit_char(n)]
    } else {
        nat_digits(n / 10).push(digit_char(n % 10))
    }
}

/// The decimal spelling of an integer: a leading `-` for negatives.
pub open spec fn int_digits(n: int) -> Seq<char> {
    if n < 0 {
        seq!['-'] + nat_digits((-n) as nat)
    } else {
        nat_digits(n as nat)
    }
}

/// Spells `n` in decimal.
pub fn u64_to_decimal(n: u64) -> (r: Vec<char>)
    ensures
        r@ == nat_digits(n as nat),
{
    let mut out: Vec<char> = Vec::new();
    let mut m: u64 = n;
    while m >= 10
        invariant
            nat_digits(n as nat) == nat_digits(m as nat) + out@,
        decreases m,
    {
        let c: char = char_of_digit(m % 10);
        proof {
            assert(nat_digits(m as nat) == nat_digits((m / 10) as nat).push(digit_char((m % 10) as nat)));
            assert(nat_digits((m / 10) as nat).push(c) + out@ =~= nat_digits((m / 10) as nat) + out@.insert(0, c));
        }
        out.insert(0, c);
        m = m / 10;
    }
    let c: char = char_of_digit(m);
    proof {
        assert(seq![c] + out@ =~= out@.insert(0, c));
    }
    out.insert(0, c);
    out
}

fn char_of_digit(d: u64) -> (c: char)
    requires
        d < 10,
    ensures
        c == digit_char(d as nat),
{
    if d == 0 { '0' } else if d == 1 { '1' } else if d == 2 { '2' } else if d == 3 { '3' }
    else if d == 4 { '4' } else if d == 5 { '5' } else if d == 6 { '6' } else if d == 7 { '7' }
    else if d == 8 { '8' } else { '9' }
}

} // verus!

verus! {

/// The characters of `s`, in order.
pub fn chars_of(s: &str) -> (v: Vec<char>)
    ensures
        v@ == s@,
{
    broadcast use vstd::string::axiom_spec_iter;
    let mut v: Vec<char> = Vec::new();
    for c in it: s.chars()
        invariant
            it.seq() == s@,
            v@ == it.seq().take(it.index() as int),
    {
        v.push(c);
    }
    proof {
        assert(s@.take(s@.len() as int) =~= s@);
    }
    v
}

/// A `String` holding exactly the characters `v`.
#[verifier::external_body]
pub fn string_of(v: &[char]) -> (s: String)
    ensures
        s@ == v@,
{
    v.iter().collect()
}

/// Spells a signed integer in decimal (`-` for negatives).
pub fn i64_to_decimal(n: i64) -> (r: Vec<char>)
    ensures
        r@ == int_digits(n as int),
{
    if n < 0 {
        let mag: u64 = if n == i64::MIN { 9223372036854775808u64 } else { (-n) as u64 };
        let d = u64_to_decimal(mag);
        let mut out: Vec<char> = Vec::new();
        out.push('-');
        let mut i: usize = 0;
        while i < d.len()
            invariant
                i <= d.len(),
                out@ == seq!['-'] + d@.subrange(0, i as int),
            decreases d.len() - i,
        {
            out.push(d[i]);
            proof {
                assert(d@.subrange(0, i + 1) =~= d@.subrange(0, i as int).push(d@[i as int]));
            }
            i = i + 1;
        }
        proof {
            assert(d@.subrange(0, d.len() as int) =~= d@);
        }
        out
    } else {
        u64_to_decimal(n as u64)
    }
}

/// `String` spelling of a signed integer in decimal.
pub fn i64_to_string(n: i64) -> (s: String)
    ensures
        s@ == int_digits(n as int),
{
    let v = i64_to_decimal(n);
    string_of(v.as_slice())
}

/// `String` spelling of an unsigned integer in decimal.
pub fn u64_to_string(n: u64) -> (s: String)
    ensures
        s@ == nat_digits(n as nat),
{
    let v = u64_to_decimal(n);
    string_of(v.as_slice())
}

/// Concatenation of two strings.
pub fn concat(a: &str, b: &str) -> (s: String)
    ensures
        s@ == a@ + b@,
{
    let mut s = String::from_str(a);
    s.append(b);
    s
}

/// Concatenation of three strings.
pub fn concat3(a: &str, b: &str, c: &str) -> (s: String)
    ensures
        s@ == a@ + b@ + c@,
{
    let mut s = String::from_str(a);
    s.append(b);
    s.append(c);
    s
}

} // verus!

verus! {

/// What std's `Debug` for `str` writes for text `s`: `s` between double
/// quotes, with the escapes of `char::escape_debug` (Unicode tables decide
/// which characters are written `\u{..}`).
pub uninterp spec fn debug_text(s: Seq<char>) -> Seq<char>;

/// `format!("{:?}", s)`: std's `Debug` for `str`.  Its result depends on
/// `s` alone and is named [`debug_text`]; the contract says no more of it.
#[verifier::external_body]
fn str_debug(s: &str) -> (r: String)
    ensures
        r@ == debug_text(s@),
{
    format!("{:?}", s)
}

/// Quoted, escaped rendering of a string, as `{:?}` writes it.
pub fn debug_quote(s: &str) -> (r: String)
    ensures
        r@ == debug_text(s@),
{
    str_debug(s)
}

} // verus!
