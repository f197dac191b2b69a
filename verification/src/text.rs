//! Text helpers: characters of strings, decimal integers and hexadecimal bytes.

use vstd::prelude::*;
use vstd::utf8::{decode_utf8, valid_utf8};

verus! {

/// The characters of `s`, in order (std `str::chars`, collected).
#[verifier::external_body]
pub(crate) fn chars_of(s: &str) -> (r: Vec<char>)
    ensures
        r@ == s@,
{
    s.chars().collect()
}

/// The string made of the characters of `v`, in order (std `FromIterator<&char>` for `String`).
#[verifier::external_body]
pub(crate) fn string_of(v: &[char]) -> (r: String)
    ensures
        r@ == v@,
{
    v.iter().collect()
}

/// Whether two character sequences are the same.
pub fn chars_equal(a: &Vec<char>, b: &Vec<char>) -> (r: bool)
    ensures
        r == (a@ == b@),
{
    if a.len() != b.len() {
        return false;
    }
    let mut i: usize = 0;
    while i < a.len()
        invariant
            i <= a@.len(),
            a@.len() == b@.len(),
            forall|k: int| 0 <= k < i ==> a@[k] == b@[k],
        decreases a@.len() - i,
    {
        if a[i] != b[i] {
            return false;
        }
        i = i + 1;
    }
    assert(a@ =~= b@);
    true
}

/// A character that `str::parse` accepts as a decimal digit.
pub open spec fn is_ascii_digit(c: char) -> bool {
    '0' <= c && c <= '9'
}

/// The value of a decimal digit.
pub open spec fn digit_value(c: char) -> int {
    c as int - '0' as int
}

/// Why a decimal integer could not be read; the four kinds of std's `ParseIntError`
/// that a signed 64-bit parse can give.
#[derive(Clone, Copy, Debug, PartialEq, Eq, Structural)]
pub enum IntErrorKind {
    Empty,
    InvalidDigit,
    PosOverflow,
    NegOverflow,
}

/// Reads the digits `ds` left to right, as std does for a signed 64-bit integer:
/// the first non-digit, or the first step that leaves the `i64` range, decides the error.
pub open spec fn accumulate_digits(ds: Seq<char>, negative: bool) -> Result<int, IntErrorKind>
    decreases ds.len(),
{
    if ds.len() == 0 {
        Ok(0)
    } else {
        match accumulate_digits(ds.drop_last(), negative) {
            Err(k) => Err(k),
            Ok(v) => {
                let c = ds.last();
                if !is_ascii_digit(c) {
                    Err(IntErrorKind::InvalidDigit)
                } else if negative {
                    let nv = v * 10 - digit_value(c);
                    if nv < i64::MIN { Err(IntErrorKind::NegOverflow) } else { Ok(nv) }
                } else {
                    let nv = v * 10 + digit_value(c);
                    if nv > i64::MAX { Err(IntErrorKind::PosOverflow) } else { Ok(nv) }
                }
            },
        }
    }
}

/// What `s.parse::<i64>()` gives: an optional sign, then one or more ASCII digits.
pub open spec fn spec_parse_i64(s: Seq<char>) -> Result<i64, IntErrorKind> {
    if s.len() == 0 {
        Err(IntErrorKind::Empty)
    } else if s.len() == 1 && (s[0] == '+' || s[0] == '-') {
        Err(IntErrorKind::InvalidDigit)
    } else {
        let signed = s[0] == '+' || s[0] == '-';
        let ds = if signed { s.drop_first() } else { s };
        match accumulate_digits(ds, s[0] == '-') {
            Ok(v) => Ok(v as i64),
            Err(k) => Err(k),
        }
    }
}

proof fn lemma_accumulate_range(ds: Seq<char>, negative: bool)
    ensures
        accumulate_digits(ds, negative) matches Ok(v) ==> i64::MIN <= v <= i64::MAX
            && (negative ==> v <= 0) && (!negative ==> v >= 0),
    decreases ds.len(),
{
    if ds.len() > 0 {
        lemma_accumulate_range(ds.drop_last(), negative);
    }
}

fn accumulate_exec(ds: &Vec<char>, start: usize, negative: bool) -> (r: Result<i64, IntErrorKind>)
    requires
        start <= ds.len(),
    ensures
        r == (match accumulate_digits(ds@.skip(start as int), negative) {
            Ok(v) => Ok(v as i64),
            Err(k) => Err(k),
        }),
{
    let ghost s = ds@.skip(start as int);
    let mut acc: i64 = 0;
    let mut i: usize = start;
    assert(s.take(0) =~= Seq::<char>::empty());
    while i < ds.len()
        invariant
            start <= i <= ds.len(),
            s == ds@.skip(start as int),
            accumulate_digits(s.take(i - start), negative) == Ok::<int, IntErrorKind>(acc as int),
        decreases ds.len() - i,
    {
        let c = ds[i];
        proof { lemma_accumulate_range(s.take(i - start), negative); }
        assert(s.take(i - start + 1).drop_last() =~= s.take(i - start));
        assert(s.take(i - start + 1).last() == c);
        if !('0' <= c && c <= '9') {
            proof { lemma_prefix_error(s, (i - start + 1) as int, negative); }
            return Err(IntErrorKind::InvalidDigit);
        }
        let d: i64 = (c as u32 - '0' as u32) as i64;
        if negative {
            match acc.checked_mul(10) {
                Some(m) => match m.checked_sub(d) {
                    Some(nv) => { acc = nv; },
                    None => {
                        proof { lemma_prefix_error(s, (i - start + 1) as int, negative); }
                        return Err(IntErrorKind::NegOverflow);
                    },
                },
                None => {
                    proof { lemma_prefix_error(s, (i - start + 1) as int, negative); }
                    return Err(IntErrorKind::NegOverflow);
                },
            }
        } else {
            match acc.checked_mul(10) {
                Some(m) => match m.checked_add(d) {
                    Some(nv) => { acc = nv; },
                    None => {
                        proof { lemma_prefix_error(s, (i - start + 1) as int, negative); }
                        return Err(IntErrorKind::PosOverflow);
                    },
                },
                None => {
                    proof { lemma_prefix_error(s, (i - start + 1) as int, negative); }
                    return Err(IntErrorKind::PosOverflow);
                },
            }
        }
        i = i + 1;
    }
    assert(s.take(ds.len() - start) =~= s);
    Ok(acc)
}

/// Once a prefix of the digits fails, the whole sequence fails the same way.
proof fn lemma_prefix_error(s: Seq<char>, n: int, negative: bool)
    requires
        0 <= n <= s.len(),
        accumulate_digits(s.take(n), negative) is Err,
    ensures
        accumulate_digits(s, negative) == accumulate_digits(s.take(n), negative),
    decreases s.len() - n,
{
    if n < s.len() {
        assert(s.take(n + 1).drop_last() =~= s.take(n));
        lemma_prefix_error(s, n + 1, negative);
    } else {
        assert(s.take(n) =~= s);
    }
}

/// Reads a signed 64-bit decimal integer the way `str::parse::<i64>` does.
pub fn parse_i64(s: &Vec<char>) -> (r: Result<i64, IntErrorKind>)
    ensures
        r == spec_parse_i64(s@),
{
    if s.len() == 0 {
        return Err(IntErrorKind::Empty);
    }
    let first = s[0];
    let signed = first == '+' || first == '-';
    if s.len() == 1 && signed {
        return Err(IntErrorKind::InvalidDigit);
    }
    let start: usize = if signed { 1 } else { 0 };
    proof {
        if !signed {
            assert(s@.skip(0) =~= s@);
        }
    }
    accumulate_exec(s, start, first == '-')
}


/// The character of a decimal digit `d` (`0 <= d < 10`).
pub open spec fn digit_char(d: int) -> char {
    (d + 48) as char
}

/// The decimal digits of `n`, most significant first, without leading zeros.
pub open spec fn spec_digits(n: nat) -> Seq<char>
    decreases n,
{
    if n < 10 {
        seq![digit_char(n as int)]
    } else {
        spec_digits(n / 10).push(digit_char((n % 10) as int))
    }
}

/// The decimal text of `v`, as `format!("{}", v)` and `format!("{:?}", v)` give it for an `i64`.
pub open spec fn spec_decimal(v: int) -> Seq<char> {
    if v < 0 {
        seq!['-'] + spec_digits((-v) as nat)
    } else {
        spec_digits(v as nat)
    }
}

proof fn lemma_digit_char(d: int)
    requires
        0 <= d < 10,
    ensures
        is_ascii_digit(digit_char(d)),
        digit_value(digit_char(d)) == d,
        digit_char(d) != '-' && digit_char(d) != '+',
{
}

proof fn lemma_digits_first(n: nat)
    ensures
        spec_digits(n).len() >= 1,
        is_ascii_digit(spec_digits(n)[0]),
    decreases n,
{
    if n < 10 {
        lemma_digit_char(n as int);
    } else {
        lemma_digits_first(n / 10);
    }
}

proof fn lemma_accumulate_digits(n: nat, negative: bool)
    requires
        n <= i64::MAX + 1,
        !negative ==> n <= i64::MAX,
    ensures
        accumulate_digits(spec_digits(n), negative) == Ok::<int, IntErrorKind>(
            if negative { -(n as int) } else { n as int },
        ),
    decreases n,
{
    if n < 10 {
        lemma_digit_char(n as int);
        let s = spec_digits(n);
        assert(s.drop_last() =~= Seq::<char>::empty());
        assert(accumulate_digits(s.drop_last(), negative) == Ok::<int, IntErrorKind>(0));
        assert(s.last() == digit_char(n as int));
    } else {
        lemma_accumulate_digits(n / 10, negative);
        lemma_digit_char((n % 10) as int);
        let s = spec_digits(n);
        assert(s.drop_last() =~= spec_digits(n / 10));
        assert(s.last() == digit_char((n % 10) as int));
        assert((n / 10) * 10 + n % 10 == n);
    }
}

/// Reading back the decimal text of an `i64` gives the same number.
pub proof fn lemma_parse_decimal_roundtrip(v: i64)
    ensures
        spec_parse_i64(spec_decimal(v as int)) == Ok::<i64, IntErrorKind>(v),
{
    let s = spec_decimal(v as int);
    if v < 0 {
        let m = (-(v as int)) as nat;
        lemma_accumulate_digits(m, true);
        lemma_digits_first(m);
        assert(s.drop_first() =~= spec_digits(m));
    } else {
        lemma_accumulate_digits(v as nat, false);
        lemma_digits_first(v as nat);
    }
}

fn push_digits(n: u64, out: &mut Vec<char>)
    ensures
        final(out)@ == old(out)@ + spec_digits(n as nat),
    decreases n,
{
    if n >= 10 {
        push_digits(n / 10, out);
    }
    let d = (n % 10) as u8;
    let c = (d + 48) as char;
    assert(c == digit_char((n % 10) as int));
    out.push(c);
    proof {
        if n < 10 {
            assert(old(out)@ + spec_digits(n as nat) =~= old(out)@.push(c));
        } else {
            assert(old(out)@ + spec_digits(n as nat) =~= (old(out)@ + spec_digits((n / 10) as nat)).push(c));
        }
    }
}

/// The decimal text of `v`, as `format!("{}", v)` writes it.
pub fn decimal_chars(v: i64) -> (r: Vec<char>)
    ensures
        r@ == spec_decimal(v as int),
{
    let mut out: Vec<char> = Vec::new();
    if v < 0 {
        out.push('-');
        let m: u64 = (0i128 - v as i128) as u64;
        push_digits(m, &mut out);
    } else {
        push_digits(v as u64, &mut out);
    }
    out
}

/// The decimal text of an unsigned `n`, as `format!("{}", n)` writes it.
pub fn unsigned_decimal_chars(n: u64) -> (r: Vec<char>)
    ensures
        r@ == spec_digits(n as nat),
{
    let mut out: Vec<char> = Vec::new();
    push_digits(n, &mut out);
    assert(out@ =~= spec_digits(n as nat));
    out
}

/// The lower-case hexadecimal digit of `d` (`0 <= d < 16`).
pub open spec fn hex_char(d: int) -> char {
    if d < 10 { (d + 48) as char } else { (d + 87) as char }
}

/// The two lower-case hexadecimal digits of a byte, as `format!("{:02x}", b)` writes them.
pub open spec fn spec_hex_byte(b: u8) -> Seq<char> {
    seq![hex_char(b as int / 16), hex_char(b as int % 16)]
}

/// The bytes as lower-case hexadecimal, two digits each, with nothing between them.
pub open spec fn spec_hex(data: Seq<u8>) -> Seq<char>
    decreases data.len(),
{
    if data.len() == 0 {
        Seq::empty()
    } else {
        spec_hex(data.drop_last()) + spec_hex_byte(data.last())
    }
}

/// Hexadecimal text has two digits per byte.
pub proof fn lemma_hex_len(data: Seq<u8>)
    ensures
        spec_hex(data).len() == 2 * data.len(),
    decreases data.len(),
{
    if data.len() > 0 {
        lemma_hex_len(data.drop_last());
    }
}

fn hex_digit(d: u8) -> (c: char)
    requires
        d < 16,
    ensures
        c == hex_char(d as int),
{
    if d < 10 { (d + 48) as char } else { (d + 87) as char }
}

/// Appends the two hexadecimal digits of `b` to `out`.
pub fn push_hex_byte(b: u8, out: &mut Vec<char>)
    ensures
        final(out)@ == old(out)@ + spec_hex_byte(b),
{
    out.push(hex_digit(b / 16));
    out.push(hex_digit(b % 16));
    assert(final(out)@ =~= old(out)@ + spec_hex_byte(b));
}

/// The bytes as lower-case hexadecimal, two digits each, as the loop
/// `write!(s, "{:02x}", byte)` over them writes it.
pub fn hex_chars(data: &[u8]) -> (r: Vec<char>)
    ensures
        r@ == spec_hex(data@),
{
    let mut out: Vec<char> = Vec::new();
    let mut i: usize = 0;
    assert(data@.take(0) =~= Seq::<u8>::empty());
    while i < data.len()
        invariant
            i <= data.len(),
            out@ == spec_hex(data@.take(i as int)),
        decreases data.len() - i,
    {
        assert(data@.take(i + 1).drop_last() =~= data@.take(i as int));
        push_hex_byte(data[i], &mut out);
        i = i + 1;
    }
    assert(data@.take(data.len() as int) =~= data@);
    out
}


/// What `format!("{:?}", s)` gives for a string `s`: std's quoted, escaped form.
pub uninterp spec fn str_debug(s: Seq<char>) -> Seq<char>;

/// What `String::from_utf8_lossy(bytes)` gives.
pub uninterp spec fn utf8_lossy(bytes: Seq<u8>) -> Seq<char>;

/// `format!("{:?}", s)`: the string quoted and escaped by std's `Debug` for `str`.
/// Claimed: the result is `str_debug(s)`.
#[verifier::external_body]
pub(crate) fn debug_str(s: &str) -> (r: String)
    ensures
        r@ == str_debug(s@),
{
    format!("{:?}", s)
}

/// `String::from_utf8(bytes)`, the rejected bytes handed back on failure
/// (`FromUtf8Error::into_bytes`). Claimed, as std documents: `Ok` exactly for valid UTF-8,
/// holding the decoded characters; `Err` holding the bytes unchanged.
#[verifier::external_body]
pub(crate) fn utf8_string(bytes: Vec<u8>) -> (r: Result<String, Vec<u8>>)
    ensures
        match r {
            Ok(s) => valid_utf8(bytes@) && s@ == decode_utf8(bytes@),
            Err(b) => !valid_utf8(bytes@) && b@ == bytes@,
        },
{
    String::from_utf8(bytes).map_err(|e| e.into_bytes())
}

/// `String::from_utf8_lossy(bytes)`, owned. Claimed: the result is `utf8_lossy(bytes)`, and
/// for valid UTF-8 it is the decoded text (std documents that valid input is returned as is).
#[verifier::external_body]
pub(crate) fn lossy_string(bytes: &[u8]) -> (r: String)
    ensures
        r@ == utf8_lossy(bytes@),
        valid_utf8(bytes@) ==> r@ == decode_utf8(bytes@),
{
    String::from_utf8_lossy(bytes).to_string()
}

/// The text of a `ParseIntError` of each kind, as its `Display` writes it.
pub open spec fn int_error_text(k: IntErrorKind) -> Seq<char> {
    match k {
        IntErrorKind::Empty => "cannot parse integer from empty string"@,
        IntErrorKind::InvalidDigit => "invalid digit found in string"@,
        IntErrorKind::PosOverflow => "number too large to fit in target type"@,
        IntErrorKind::NegOverflow => "number too small to fit in target type"@,
    }
}

/// The text of a `ParseIntError` of kind `k`.
pub fn int_error_string(k: IntErrorKind) -> (r: String)
    ensures
        r@ == int_error_text(k),
{
    match k {
        IntErrorKind::Empty => "cannot parse integer from empty string".to_owned(),
        IntErrorKind::InvalidDigit => "invalid digit found in string".to_owned(),
        IntErrorKind::PosOverflow => "number too large to fit in target type".to_owned(),
        IntErrorKind::NegOverflow => "number too small to fit in target type".to_owned(),
    }
}

/// Reads a signed 64-bit decimal integer from a string, as `str::parse::<i64>` does.
pub fn parse_i64_str(s: &str) -> (r: Result<i64, IntErrorKind>)
    ensures
        r == spec_parse_i64(s@),
{
    let v = chars_of(s);
    parse_i64(&v)
}

} // verus!
