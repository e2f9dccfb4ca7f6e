//! Byte-level string operations of the runtime: strings are UTF-8 bytes.
use vstd::prelude::*;
use vstd::utf8::{encode_utf8, encode_scalar, valid_utf8, decode_utf8, is_scalar,
    has_width_1_encoding, has_width_2_encoding, has_width_3_encoding, has_width_4_encoding};
use crate::text::{chars_of, int_digits, i64_to_decimal};

verus! {

/// ASCII bytes of a sequence of ASCII characters.
pub open spec fn ascii_bytes(cs: Seq<char>) -> Seq<u8> {
    cs.map_values(|c: char| (c as u32) as u8)
}

/// Decimal spelling of `n` as bytes.
pub fn int_to_bytes(n: i64) -> (r: Vec<u8>)
    ensures
        r@ == ascii_bytes(int_digits(n as int)),
{
    let ds = i64_to_decimal(n);
    let mut out: Vec<u8> = Vec::new();
    let mut i: usize = 0;
    while i < ds.len()
        invariant
            i <= ds.len(),
            out@ == ascii_bytes(ds@.subrange(0, i as int)),
        decreases ds.len() - i,
    {
        let c = ds[i];
        let b: u8 = (c as u32) as u8;
        out.push(b);
        proof {
            assert(ds@.subrange(0, i + 1) =~= ds@.subrange(0, i as int).push(c));
            assert(ascii_bytes(ds@.subrange(0, i + 1)) =~= ascii_bytes(ds@.subrange(0, i as int)).push((c as u32) as u8));
        }
        i = i + 1;
    }
    proof {
        assert(ds@.subrange(0, ds.len() as int) =~= ds@);
    }
    out
}

/// Every character of a decimal spelling is `-` or a digit.
pub open spec fn decimal_char(c: char) -> bool {
    c == '-' || ('0' <= c && c <= '9')
}

proof fn lemma_nat_digits_chars(n: nat)
    ensures
        forall|i: int| 0 <= i < crate::text::nat_digits(n).len() ==> {
            let c = #[trigger] crate::text::nat_digits(n)[i];
            '0' <= c && c <= '9'
        },
    decreases n,
{
    if n >= 10 {
        lemma_nat_digits_chars(n / 10);
        let s = crate::text::nat_digits(n / 10).push(crate::text::digit_char(n % 10));
        assert(crate::text::nat_digits(n) == s);
        assert forall|i: int| 0 <= i < s.len() implies {
            let c = #[trigger] s[i];
            '0' <= c && c <= '9'
        } by {
            if i < s.len() - 1 {
                assert(s[i] == crate::text::nat_digits(n / 10)[i]);
            }
        }
    }
}

proof fn lemma_digits_chars(n: int)
    ensures
        forall|i: int| 0 <= i < int_digits(n).len() ==> decimal_char(#[trigger] int_digits(n)[i]),
{
    if n < 0 {
        lemma_nat_digits_chars((-n) as nat);
        assert forall|i: int| 0 <= i < int_digits(n).len() implies decimal_char(#[trigger] int_digits(n)[i]) by {
            if i > 0 {
                assert(int_digits(n)[i] == crate::text::nat_digits((-n) as nat)[i - 1]);
            }
        }
    } else {
        lemma_nat_digits_chars(n as nat);
    }
}

/// UTF-8 encoding of one character.
pub fn encode_char(c: char) -> (r: Vec<u8>)
    ensures
        r@ == encode_scalar(c as u32),
{
    proof {
        vstd::utf8::char_is_scalar(c);
    }
    encode_scalar_bytes(c as u32)
}

/// UTF-8 encoding of a Unicode scalar value.
pub fn encode_scalar_bytes(u: u32) -> (r: Vec<u8>)
    requires
        vstd::utf8::is_scalar(u),
    ensures
        r@ == encode_scalar(u),
{
    if u <= 0x7f {
        let mut v: Vec<u8> = Vec::new();
        v.push((u & 0x7f) as u8);
        proof {
            assert(v@ =~= encode_scalar(u));
        }
        v
    } else if u <= 0x7ff {
        let mut v: Vec<u8> = Vec::new();
        v.push(0xC0 | ((u >> 6) & 0x1F) as u8);
        v.push(0x80 | (u & 0x3F) as u8);
        proof {
            assert(v@ =~= encode_scalar(u));
        }
        v
    } else if u <= 0xffff {
        let mut v: Vec<u8> = Vec::new();
        v.push(0xE0 | ((u >> 12) & 0x0F) as u8);
        v.push(0x80 | ((u >> 6) & 0x3F) as u8);
        v.push(0x80 | (u & 0x3F) as u8);
        proof {
            assert(v@ =~= encode_scalar(u));
        }
        v
    } else {
        let mut v: Vec<u8> = Vec::new();
        v.push(0xF0 | ((u >> 18) & 0x7) as u8);
        v.push(0x80 | ((u >> 12) & 0x3F) as u8);
        v.push(0x80 | ((u >> 6) & 0x3F) as u8);
        v.push(0x80 | (u & 0x3F) as u8);
        proof {
            assert(v@ =~= encode_scalar(u));
        }
        v
    }
}

proof fn lemma_encode_utf8_push(cs: Seq<char>, c: char)
    ensures
        encode_utf8(cs.push(c)) == encode_utf8(cs) + encode_scalar(c as u32),
    decreases cs.len(),
{
    if cs.len() == 0 {
        assert(cs.push(c).drop_first() =~= Seq::<char>::empty());
        assert(encode_utf8(Seq::<char>::empty()) == Seq::<u8>::empty());
        assert(encode_utf8(cs.push(c)) =~= encode_scalar(c as u32));
    } else {
        lemma_encode_utf8_push(cs.drop_first(), c);
        assert(cs.push(c).drop_first() =~= cs.drop_first().push(c));
        assert(encode_utf8(cs.push(c)) =~= encode_scalar(cs[0] as u32) + encode_utf8(cs.drop_first().push(c)));
    }
}

/// UTF-8 encoding of a string.
pub fn utf8_of(s: &str) -> (r: Vec<u8>)
    ensures
        r@ == encode_utf8(s@),
{
    let cs = chars_of(s);
    let mut out: Vec<u8> = Vec::new();
    let mut i: usize = 0;
    while i < cs.len()
        invariant
            i <= cs.len(),
            out@ == encode_utf8(cs@.subrange(0, i as int)),
        decreases cs.len() - i,
    {
        let e = encode_char(cs[i]);
        proof {
            lemma_encode_utf8_push(cs@.subrange(0, i as int), cs@[i as int]);
            assert(cs@.subrange(0, i + 1) =~= cs@.subrange(0, i as int).push(cs@[i as int]));
        }
        let mut j: usize = 0;
        let ghost base = out@;
        while j < e.len()
            invariant
                j <= e.len(),
                out@ == base + e@.subrange(0, j as int),
            decreases e.len() - j,
        {
            out.push(e[j]);
            proof {
                assert(e@.subrange(0, j + 1) =~= e@.subrange(0, j as int).push(e@[j as int]));
            }
            j = j + 1;
        }
        proof {
            assert(e@.subrange(0, e.len() as int) =~= e@);
        }
        i = i + 1;
    }
    proof {
        assert(cs@.subrange(0, cs.len() as int) =~= cs@);
    }
    out
}

/// A `String` decoded from UTF-8 bytes, if they are valid UTF-8.
#[verifier::external_body]
pub fn string_from_utf8(b: &Vec<u8>) -> (r: Option<String>)
    ensures
        r is Some <==> valid_utf8(b@),
        r matches Some(s) ==> s@ == decode_utf8(b@),
{
    String::from_utf8(b.clone()).ok()
}

/// Rust's `str::is_char_boundary` on UTF-8 bytes.
pub open spec fn char_boundary(s: Seq<u8>, i: int) -> bool {
    i == 0 || i == s.len() || (0 < i < s.len() && (s[i] < 0x80 || s[i] >= 0xC0))
}

pub fn is_char_boundary(s: &Vec<u8>, i: usize) -> (b: bool)
    ensures
        b == char_boundary(s@, i as int),
{
    if i == 0 {
        true
    } else if i == s.len() {
        true
    } else if i < s.len() {
        s[i] < 0x80 || s[i] >= 0xC0
    } else {
        false
    }
}

/// `s[start .. start + len]`.
pub fn byte_slice(s: &Vec<u8>, start: usize, end: usize) -> (r: Vec<u8>)
    requires
        start <= end <= s.len(),
    ensures
        r@ == s@.subrange(start as int, end as int),
{
    let mut out: Vec<u8> = Vec::new();
    let mut i: usize = start;
    while i < end
        invariant
            start <= i <= end,
            end <= s.len(),
            out@ == s@.subrange(start as int, i as int),
        decreases end - i,
    {
        out.push(s[i]);
        proof {
            assert(s@.subrange(start as int, i + 1) =~= s@.subrange(start as int, i as int).push(s@[i as int]));
        }
        i = i + 1;
    }
    out
}

/// `a ++ b`.
pub fn bytes_concat(a: &Vec<u8>, b: &Vec<u8>) -> (r: Vec<u8>)
    ensures
        r@ == a@ + b@,
{
    let mut out = byte_slice(a, 0, a.len());
    let mut i: usize = 0;
    let ghost base = out@;
    while i < b.len()
        invariant
            i <= b.len(),
            out@ == base + b@.subrange(0, i as int),
        decreases b.len() - i,
    {
        out.push(b[i]);
        proof {
            assert(b@.subrange(0, i + 1) =~= b@.subrange(0, i as int).push(b@[i as int]));
        }
        i = i + 1;
    }
    proof {
        assert(a@.subrange(0, a.len() as int) =~= a@);
        assert(b@.subrange(0, b.len() as int) =~= b@);
    }
    out
}

/// Appends `b` to `out`.
pub fn append_bytes(out: &mut Vec<u8>, b: &Vec<u8>)
    ensures
        final(out)@ == old(out)@ + b@,
{
    let mut i: usize = 0;
    while i < b.len()
        invariant
            i <= b.len(),
            out@ == old(out)@ + b@.subrange(0, i as int),
        decreases b.len() - i,
    {
        out.push(b[i]);
        proof {
            assert(b@.subrange(0, i + 1) =~= b@.subrange(0, i as int).push(b@[i as int]));
        }
        i = i + 1;
    }
    proof {
        assert(b@.subrange(0, b.len() as int) =~= b@);
    }
}

/// Bytes equality.
pub fn bytes_eq(a: &Vec<u8>, b: &Vec<u8>) -> (r: bool)
    ensures
        r == (a@ == b@),
{
    if a.len() != b.len() {
        return false;
    }
    let mut i: usize = 0;
    while i < a.len()
        invariant
            a.len() == b.len(),
            i <= a.len(),
            forall|j: int| 0 <= j < i ==> a@[j] == b@[j],
        decreases a.len() - i,
    {
        if a[i] != b[i] {
            assert(a@ != b@) by {
                if a@ == b@ {
                    assert(a@[i as int] == b@[i as int]);
                }
            }
            return false;
        }
        i = i + 1;
    }
    proof {
        assert(a@ =~= b@);
    }
    true
}

} // verus!

verus! {

/// Why a decimal integer could not be read (Rust's `IntErrorKind`).
#[derive(Debug, Clone, Copy, PartialEq, Eq, Structural)]
pub enum IntErr {
    Empty,
    InvalidDigit,
    PosOverflow,
    NegOverflow,
}

pub open spec fn is_digit_byte(b: u8) -> bool {
    48 <= b <= 57
}

/// Reads the digits `s[i..]` onto `acc`, left to right, failing at the
/// first non-digit or at the first step that leaves the `i64` range.
pub open spec fn scan_digits(s: Seq<u8>, i: int, acc: int, neg: bool) -> Result<int, IntErr>
    decreases s.len() - i,
{
    if i >= s.len() {
        Ok(acc)
    } else if !is_digit_byte(s[i]) {
        Err(IntErr::InvalidDigit)
    } else {
        let d = s[i] - 48;
        let acc2 = if neg { acc * 10 - d } else { acc * 10 + d };
        if acc2 > i64::MAX {
            Err(IntErr::PosOverflow)
        } else if acc2 < i64::MIN {
            Err(IntErr::NegOverflow)
        } else {
            scan_digits(s, i + 1, acc2, neg)
        }
    }
}

/// Rust's `i64::from_str`: an optional sign, then one or more digits.
pub open spec fn parse_int_spec(s: Seq<u8>) -> Result<int, IntErr> {
    if s.len() == 0 {
        Err(IntErr::Empty)
    } else if (s[0] == 43 || s[0] == 45) && s.len() == 1 {
        Err(IntErr::InvalidDigit)
    } else if s[0] == 45 {
        scan_digits(s, 1, 0, true)
    } else if s[0] == 43 {
        scan_digits(s, 1, 0, false)
    } else {
        scan_digits(s, 0, 0, false)
    }
}

/// Reads a decimal `i64` from `s`.
pub fn parse_int(s: &Vec<u8>) -> (r: Result<i64, IntErr>)
    ensures
        match parse_int_spec(s@) {
            Ok(v) => r == Ok::<i64, IntErr>(v as i64),
            Err(e) => r == Err::<i64, IntErr>(e),
        },
{
    let n = s.len();
    if n == 0 {
        return Err(IntErr::Empty);
    }
    if (s[0] == 43 || s[0] == 45) && n == 1 {
        return Err(IntErr::InvalidDigit);
    }
    let neg = s[0] == 45;
    let mut i: usize = if s[0] == 43 || s[0] == 45 { 1 } else { 0 };
    let mut acc: i64 = 0;
    proof {
        assert(parse_int_spec(s@) == scan_digits(s@, i as int, 0, neg));
    }
    while i < n
        invariant
            n == s.len(),
            i <= n,
            parse_int_spec(s@) == scan_digits(s@, i as int, acc as int, neg),
            neg ==> acc <= 0,
            !neg ==> acc >= 0,
        decreases n - i,
    {
        let b = s[i];
        if b < 48 || b > 57 {
            return Err(IntErr::InvalidDigit);
        }
        let d: i64 = (b - 48) as i64;
        if neg {
            if acc < -922337203685477580 || (acc == -922337203685477580 && d > 8) {
                return Err(IntErr::NegOverflow);
            }
            acc = acc * 10 - d;
        } else {
            if acc > 922337203685477580 || (acc == 922337203685477580 && d > 7) {
                return Err(IntErr::PosOverflow);
            }
            acc = acc * 10 + d;
        }
        i = i + 1;
    }
    Ok(acc)
}

} // verus!

verus! {

/// Byte length of the UTF-8 encoding of a Unicode `White_Space`
/// character that starts at `s[i]`, or 0 when none starts there.
pub open spec fn ws_width(s: Seq<u8>, i: int) -> nat {
    if i < 0 || i >= s.len() {
        0
    } else if (0x09 <= s[i] <= 0x0d) || s[i] == 0x20 {
        1
    } else if s[i] == 0xC2 && i + 1 < s.len() && (s[i + 1] == 0x85 || s[i + 1] == 0xA0) {
        2
    } else if s.len() - i > 2 && (
        (s[i] == 0xE1 && s[i + 1] == 0x9A && s[i + 2] == 0x80)
        || (s[i] == 0xE2 && s[i + 1] == 0x80 && ((0x80 <= s[i + 2] <= 0x8A) || s[i + 2] == 0xA8
            || s[i + 2] == 0xA9 || s[i + 2] == 0xAF))
        || (s[i] == 0xE2 && s[i + 1] == 0x81 && s[i + 2] == 0x9F)
        || (s[i] == 0xE3 && s[i + 1] == 0x80 && s[i + 2] == 0x80)) {
        3
    } else {
        0
    }
}

/// Byte length of a `White_Space` character whose encoding ends just
/// before `s[j]` and starts at or after `s[lo]`, or 0.
pub open spec fn ws_width_before(s: Seq<u8>, lo: int, j: int) -> nat {
    if j - lo >= 1 && ((0x09 <= s[j - 1] <= 0x0d) || s[j - 1] == 0x20) {
        1
    } else if j - lo >= 2 && ws_width(s, j - 2) == 2 {
        2
    } else if j - lo >= 3 && ws_width(s, j - 3) == 3 {
        3
    } else {
        0
    }
}

/// Where the text of `s` starts when white space from `i` on is skipped.
pub open spec fn trim_start(s: Seq<u8>, i: int) -> int
    decreases s.len() - i,
{
    if 0 <= i < s.len() && ws_width(s, i) > 0 {
        trim_start(s, i + ws_width(s, i))
    } else {
        i
    }
}

/// Where the text of `s[lo..j]` ends when trailing white space is dropped.
pub open spec fn trim_end(s: Seq<u8>, lo: int, j: int) -> int
    decreases j - lo,
{
    if lo < j && ws_width_before(s, lo, j) > 0 {
        trim_end(s, lo, j - ws_width_before(s, lo, j))
    } else {
        j
    }
}

/// `s` without leading and trailing white space (Rust's `str::trim`).
pub open spec fn trimmed(s: Seq<u8>) -> Seq<u8> {
    let i = trim_start(s, 0);
    s.subrange(i, trim_end(s, i, s.len() as int))
}

/// Byte length of a `White_Space` character encoded at `s[i..]`, or 0.
pub fn ws_len_at(s: &Vec<u8>, i: usize) -> (n: usize)
    requires
        i <= s.len(),
    ensures
        n == ws_width(s@, i as int),
        n <= s.len() - i,
{
    let len = s.len();
    if i >= len {
        return 0;
    }
    let b0 = s[i];
    if (b0 >= 0x09 && b0 <= 0x0d) || b0 == 0x20 {
        return 1;
    }
    if b0 == 0xC2 && i + 1 < len && (s[i + 1] == 0x85 || s[i + 1] == 0xA0) {
        return 2;
    }
    if len - i > 2 {
        let b1 = s[i + 1];
        let b2 = s[i + 2];
        if b0 == 0xE1 && b1 == 0x9A && b2 == 0x80 {
            return 3;
        }
        if b0 == 0xE2 && b1 == 0x80 && ((b2 >= 0x80 && b2 <= 0x8A) || b2 == 0xA8 || b2 == 0xA9 || b2 == 0xAF) {
            return 3;
        }
        if b0 == 0xE2 && b1 == 0x81 && b2 == 0x9F {
            return 3;
        }
        if b0 == 0xE3 && b1 == 0x80 && b2 == 0x80 {
            return 3;
        }
    }
    0
}

/// Byte length of a `White_Space` character encoded just before `s[j]`
/// and after `s[lo]`, or 0.
pub fn ws_len_before(s: &Vec<u8>, lo: usize, j: usize) -> (n: usize)
    requires
        lo <= j <= s.len(),
    ensures
        n == ws_width_before(s@, lo as int, j as int),
        n <= j - lo,
{
    if j > lo && j - lo >= 1 {
        let b = s[j - 1];
        if (b >= 0x09 && b <= 0x0d) || b == 0x20 {
            return 1;
        }
    }
    if j - lo >= 2 {
        let k = ws_len_at(s, j - 2);
        if k == 2 {
            return 2;
        }
    }
    if j - lo >= 3 {
        let k = ws_len_at(s, j - 3);
        if k == 3 {
            return 3;
        }
    }
    0
}

/// The bounds of `s` without leading and trailing white space
/// (Rust's `str::trim`).
pub fn trim_bounds(s: &Vec<u8>) -> (r: (usize, usize))
    ensures
        r.0 <= r.1 <= s.len(),
        r.0 == trim_start(s@, 0),
        r.1 == trim_end(s@, r.0 as int, s.len() as int),
        s@.subrange(r.0 as int, r.1 as int) == trimmed(s@),
{
    let mut i: usize = 0;
    loop
        invariant
            i <= s.len(),
            trim_start(s@, i as int) == trim_start(s@, 0),
        ensures
            i <= s.len(),
            i == trim_start(s@, 0),
        decreases s.len() - i,
    {
        let k = ws_len_at(s, i);
        if k == 0 {
            break;
        }
        i = i + k;
    }
    let mut j: usize = s.len();
    loop
        invariant
            i <= j <= s.len(),
            i == trim_start(s@, 0),
            trim_end(s@, i as int, j as int) == trim_end(s@, i as int, s.len() as int),
        ensures
            i <= j <= s.len(),
            j == trim_end(s@, i as int, s.len() as int),
        decreases j - i,
    {
        let k = ws_len_before(s, i, j);
        if k == 0 {
            break;
        }
        j = j - k;
    }
    (i, j)
}

} // verus!

verus! {

proof fn lemma_digit_byte(d: nat)
    requires
        d < 10,
    ensures
        (crate::text::digit_char(d) as u32) as u8 == 48 + d,
{
}

proof fn lemma_nat_digits_nonempty(m: nat)
    ensures
        crate::text::nat_digits(m).len() >= 1,
    decreases m,
{
    if m >= 10 {
        lemma_nat_digits_nonempty(m / 10);
    }
}

/// Scanning the decimal spelling of `m` from `s[i]` on, starting from 0,
/// reaches the end of the spelling with `m` (or `-m`) in hand.
proof fn lemma_scan_spelling(s: Seq<u8>, i: int, m: nat, neg: bool)
    requires
        0 <= i,
        i + crate::text::nat_digits(m).len() <= s.len(),
        s.subrange(i, i + crate::text::nat_digits(m).len()) == ascii_bytes(crate::text::nat_digits(m)),
        if neg { m <= 0x8000_0000_0000_0000 } else { m <= 0x7fff_ffff_ffff_ffff },
    ensures
        scan_digits(s, i, 0, neg) == scan_digits(s, i + crate::text::nat_digits(m).len(),
            if neg { -m } else { m as int }, neg),
    decreases m,
{
    let ds = crate::text::nat_digits(m);
    let len = ds.len() as int;
    if m < 10 {
        lemma_digit_byte(m);
        assert(s[i] == s.subrange(i, i + len)[0]);
    } else {
        let ps = crate::text::nat_digits(m / 10);
        let pl = ps.len() as int;
        assert(ds == ps.push(crate::text::digit_char(m % 10)));
        assert(s.subrange(i, i + pl) == s.subrange(i, i + len).subrange(0, pl));
        assert(ascii_bytes(ds).subrange(0, pl) =~= ascii_bytes(ps));
        lemma_scan_spelling(s, i, m / 10, neg);
        lemma_digit_byte(m % 10);
        assert(s[i + pl] == s.subrange(i, i + len)[pl]);
        assert(s[i + pl] == 48 + m % 10);
        assert((m / 10) * 10 + m % 10 == m) by (nonlinear_arith);
    }
}

/// `int_to_string` then `string_to_int` gives the integer back: the
/// decimal spelling of every `i64` reads back as that `i64`.
pub proof fn lemma_parse_int_of_spelling(n: i64)
    ensures
        parse_int_spec(ascii_bytes(int_digits(n as int))) == Ok::<int, IntErr>(n as int),
{
    let s = ascii_bytes(int_digits(n as int));
    if n < 0 {
        let m: nat = (-n) as nat;
        let ds = crate::text::nat_digits(m);
        lemma_nat_digits_nonempty(m);
        assert(int_digits(n as int) == seq!['-'] + ds);
        assert(s[0] == 45);
        assert(s.subrange(1, 1 + ds.len() as int) =~= ascii_bytes(ds));
        lemma_scan_spelling(s, 1, m, true);
    } else {
        let m: nat = n as nat;
        let ds = crate::text::nat_digits(m);
        lemma_nat_digits_nonempty(m);
        assert(s.subrange(0, ds.len() as int) =~= ascii_bytes(ds));
        if m < 10 {
            lemma_digit_byte(m);
        } else {
            assert(ds == crate::text::nat_digits(m / 10).push(crate::text::digit_char(m % 10)));
            lemma_nat_digits_nonempty(m / 10);
            lemma_nat_digits_first_digit(m / 10);
        }
        lemma_nat_digits_first_digit(m);
        lemma_scan_spelling(s, 0, m, false);
    }
}

proof fn lemma_nat_digits_first_digit(m: nat)
    ensures
        crate::text::nat_digits(m).len() >= 1,
        is_digit_byte(((crate::text::nat_digits(m)[0]) as u32) as u8),
    decreases m,
{
    lemma_nat_digits_nonempty(m);
    if m < 10 {
        lemma_digit_byte(m);
    } else {
        lemma_nat_digits_first_digit(m / 10);
        assert(crate::text::nat_digits(m)[0] == crate::text::nat_digits(m / 10)[0]);
    }
}

/// A decimal spelling has no white space around it: trimming keeps it.
pub proof fn lemma_spelling_is_trimmed(n: i64)
    ensures
        trimmed(ascii_bytes(int_digits(n as int))) == ascii_bytes(int_digits(n as int)),
{
    let s = ascii_bytes(int_digits(n as int));
    let cs = int_digits(n as int);
    lemma_digits_chars(n as int);
    assert forall|k: int| 0 <= k < s.len() implies s[k] == 45 || 48 <= #[trigger] s[k] <= 57 by {
        assert(decimal_char(cs[k]));
    }
    assert(trim_start(s, 0) == 0);
    assert(trim_end(s, 0, s.len() as int) == s.len());
    assert(s.subrange(0, s.len() as int) =~= s);
}

} // verus!
