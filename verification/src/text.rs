//! Small verified string builders: decimal and hexadecimal number text,
//! fixed-width zero padding and concatenation. Every piece of text the
//! library produces (UUIDs, GUIDs, timestamps, messages) is built here.
use vstd::prelude::*;
use vstd::string::StrSliceExecFns;

verus! {

/// `String::push` appends one character (std documentation of `String::push`).
pub assume_specification[ String::push ](s: &mut String, ch: char)
    ensures
        final(s)@ == old(s)@.push(ch),
;

/// The character for a digit value below 16 (`0-9`, then `a-f` or `A-F`).
pub open spec fn digit_char(d: nat, upper: bool) -> char {
    if d < 10 {
        (('0' as u32) + d) as char
    } else if upper {
        (('A' as u32) + d - 10) as char
    } else {
        (('a' as u32) + d - 10) as char
    }
}

/// The decimal digits of `n` (no leading zeros; "0" for zero).
pub open spec fn dec_digits(n: nat) -> Seq<char>
    decreases n,
{
    if n < 10 {
        seq![digit_char(n, false)]
    } else {
        dec_digits(n / 10).push(digit_char(n % 10, false))
    }
}

/// The hexadecimal digits of `n` (no leading zeros; "0" for zero).
pub open spec fn hex_digits(n: nat, upper: bool) -> Seq<char>
    decreases n,
{
    if n < 16 {
        seq![digit_char(n, upper)]
    } else {
        hex_digits(n / 16, upper).push(digit_char(n % 16, upper))
    }
}

fn digit(d: u64, upper: bool) -> (c: char)
    requires
        d < 16,
    ensures
        c == digit_char(d as nat, upper),
{
    if d < 10 {
        ((48 + d) as u8) as char
    } else if upper {
        ((55 + d) as u8) as char
    } else {
        ((87 + d) as u8) as char
    }
}

/// `s` left-padded with `'0'` up to `width` characters.
pub open spec fn zero_pad(s: Seq<char>, width: nat) -> Seq<char> {
    if s.len() >= width {
        s
    } else {
        Seq::new((width - s.len()) as nat, |i: int| '0') + s
    }
}

/// Append the decimal text of `n` to `out`.
pub fn push_decimal(out: &mut String, n: u64)
    ensures
        final(out)@ == old(out)@ + dec_digits(n as nat),
    decreases n,
{
    if n < 10 {
        out.push(digit(n, false));
    } else {
        push_decimal(out, n / 10);
        out.push(digit(n % 10, false));
    }
}

/// Append the hexadecimal text of `n` (no prefix) to `out`.
pub fn push_hex(out: &mut String, n: u64, upper: bool)
    ensures
        final(out)@ == old(out)@ + hex_digits(n as nat, upper),
    decreases n,
{
    if n < 16 {
        out.push(digit(n, upper));
    } else {
        push_hex(out, n / 16, upper);
        out.push(digit(n % 16, upper));
    }
}

/// Number of decimal digits of `n`.
fn dec_len(n: u64) -> (l: u64)
    ensures
        l == dec_digits(n as nat).len(),
        1 <= l <= 1 + n / 10,
    decreases n,
{
    if n < 10 {
        1
    } else {
        1 + dec_len(n / 10)
    }
}

/// Number of hexadecimal digits of `n`.
fn hex_len(n: u64, upper: bool) -> (l: u64)
    ensures
        l == hex_digits(n as nat, upper).len(),
        1 <= l <= 1 + n / 16,
    decreases n,
{
    if n < 16 {
        1
    } else {
        1 + hex_len(n / 16, upper)
    }
}

/// Append `count` zero characters.
fn push_zeros(out: &mut String, count: u64)
    ensures
        final(out)@ == old(out)@ + Seq::new(count as nat, |i: int| '0'),
{
    let mut k: u64 = 0;
    while k < count
        invariant
            k <= count,
            out@ == old(out)@ + Seq::new(k as nat, |i: int| '0'),
        decreases count - k,
    {
        out.push('0');
        k = k + 1;
        assert(out@ =~= old(out)@ + Seq::new(k as nat, |i: int| '0'));
    }
}

/// Append the decimal text of `n`, zero-padded to at least `width` digits.
pub fn push_decimal_padded(out: &mut String, n: u64, width: usize)
    ensures
        final(out)@ == old(out)@ + zero_pad(dec_digits(n as nat), width as nat),
{
    let l = dec_len(n);
    let ghost start = out@;
    if l < width as u64 {
        push_zeros(out, width as u64 - l);
    }
    push_decimal(out, n);
    assert(out@ =~= start + zero_pad(dec_digits(n as nat), width as nat));
}

/// Append the hexadecimal text of `n`, zero-padded to at least `width` digits.
pub fn push_hex_padded(out: &mut String, n: u64, width: usize, upper: bool)
    ensures
        final(out)@ == old(out)@ + zero_pad(hex_digits(n as nat, upper), width as nat),
{
    let l = hex_len(n, upper);
    let ghost start = out@;
    if l < width as u64 {
        push_zeros(out, width as u64 - l);
    }
    push_hex(out, n, upper);
    assert(out@ =~= start + zero_pad(hex_digits(n as nat, upper), width as nat));
}

/// The decimal text of `n`.
pub fn decimal(n: u64) -> (s: String)
    ensures
        s@ == dec_digits(n as nat),
{
    let mut s = String::new();
    push_decimal(&mut s, n);
    assert(s@ =~= dec_digits(n as nat));
    s
}

/// `0x`-prefixed lowercase hexadecimal text of `n` (the `{:#x}` form).
pub fn hex_prefixed(n: u64) -> (s: String)
    ensures
        s@ == seq!['0', 'x'] + hex_digits(n as nat, false),
{
    let mut s = String::new();
    s.push('0');
    s.push('x');
    push_hex(&mut s, n, false);
    assert(s@ =~= seq!['0', 'x'] + hex_digits(n as nat, false));
    s
}

/// Append the characters of `t` to `out`.
pub fn push_str(out: &mut String, t: &str)
    ensures
        final(out)@ == old(out)@ + t@,
{
    out.append(t);
}

/// What `String::from_utf8_lossy` makes of `bytes`: the UTF-8 decoding, with
/// each invalid sequence replaced by U+FFFD.
pub uninterp spec fn utf8_lossy(bytes: Seq<u8>) -> Seq<char>;

/// Calls `String::from_utf8_lossy`. Its result is named by [`utf8_lossy`]; by
/// std's documentation a valid UTF-8 input decodes to exactly its characters.
#[verifier::external_body]
pub(crate) fn from_utf8_lossy(bytes: &[u8]) -> (s: String)
    ensures
        s@ == utf8_lossy(bytes@),
        vstd::utf8::valid_utf8(bytes@) ==> s@ == vstd::utf8::decode_utf8(bytes@),
{
    String::from_utf8_lossy(bytes).into_owned()
}

/// What `String::from_utf16_lossy` makes of UTF-16 code units: the decoded
/// text, with each unpaired surrogate replaced by U+FFFD.
pub uninterp spec fn utf16_lossy(units: Seq<u16>) -> Seq<char>;

/// Calls `String::from_utf16_lossy`; its result is named by [`utf16_lossy`].
#[verifier::external_body]
pub(crate) fn from_utf16_lossy(units: &[u16]) -> (s: String)
    ensures
        s@ == utf16_lossy(units@),
{
    String::from_utf16_lossy(units)
}

/// `a` followed by `b`.
pub fn concat(a: &str, b: &str) -> (s: String)
    ensures
        s@ == a@ + b@,
{
    let mut s = String::new();
    s.append(a);
    s.append(b);
    assert(s@ =~= a@ + b@);
    s
}

/// The JSON (RFC 8259) form of character `c` inside a string literal: the
/// quote, the backslash and the control characters escaped (the short
/// escapes where JSON has one, else `\u` and four lowercase hex digits),
/// every other character as itself.
pub open spec fn json_escape_char(c: char) -> Seq<char> {
    if c == '"' {
        seq!['\\', '"']
    } else if c == '\\' {
        seq!['\\', '\\']
    } else if c == '\u{08}' {
        seq!['\\', 'b']
    } else if c == '\u{0c}' {
        seq!['\\', 'f']
    } else if c == '\n' {
        seq!['\\', 'n']
    } else if c == '\r' {
        seq!['\\', 'r']
    } else if c == '\t' {
        seq!['\\', 't']
    } else if (c as u32) < 0x20 {
        seq!['\\', 'u'] + zero_pad(hex_digits(c as nat, false), 4)
    } else {
        seq![c]
    }
}

/// The characters of `s`, each in its JSON form.
pub open spec fn json_escape(s: Seq<char>) -> Seq<char>
    decreases s.len(),
{
    if s.len() == 0 {
        Seq::empty()
    } else {
        json_escape(s.drop_last()) + json_escape_char(s.last())
    }
}

/// Append `s` to `out` as a JSON string literal: quoted, with each
/// character in its JSON form (see [`json_escape_char`]).
pub fn push_json_string(out: &mut String, s: &str)
    ensures
        final(out)@ == old(out)@ + seq!['"'] + json_escape(s@) + seq!['"'],
{
    let ghost start = out@;
    out.push('"');
    let n = s.unicode_len();
    let mut i: usize = 0;
    while i < n
        invariant
            n == s@.len(),
            i <= n,
            out@ == start + seq!['"'] + json_escape(s@.subrange(0, i as int)),
        decreases n - i,
    {
        let c = s.get_char(i);
        let ghost before = out@;
        if c == '"' {
            out.push('\\');
            out.push('"');
        } else if c == '\\' {
            out.push('\\');
            out.push('\\');
        } else if c == '\u{08}' {
            out.push('\\');
            out.push('b');
        } else if c == '\u{0c}' {
            out.push('\\');
            out.push('f');
        } else if c == '\n' {
            out.push('\\');
            out.push('n');
        } else if c == '\r' {
            out.push('\\');
            out.push('r');
        } else if c == '\t' {
            out.push('\\');
            out.push('t');
        } else if (c as u32) < 0x20 {
            out.push('\\');
            out.push('u');
            push_hex_padded(out, c as u64, 4, false);
        } else {
            out.push(c);
        }
        proof {
            assert(s@.subrange(0, i + 1).drop_last() =~= s@.subrange(0, i as int));
            assert(out@ =~= before + json_escape_char(c));
        }
        i = i + 1;
    }
    out.push('"');
    proof {
        assert(s@.subrange(0, n as int) =~= s@);
    }
}

} // verus!
