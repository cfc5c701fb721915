//! Bounds-checked, little-endian primitive reads over a byte slice.
//!
//! Every multi-byte integer in an APFS structure is little-endian. These
//! helpers return `Result` on out-of-range access so no parser ever indexes
//! out of bounds or panics on a short buffer.
use vstd::prelude::*;

use crate::error::{corrupt, ErrorKind, Result};
use crate::text::{self, hex_digits, zero_pad};

verus! {

/// The unsigned value of little-endian bytes `s`.
pub open spec fn le_value(s: Seq<u8>) -> nat
    decreases s.len(),
{
    if s.len() == 0 {
        0
    } else {
        s[0] as nat + 256 * le_value(s.drop_first())
    }
}

/// The little-endian value of the `n` bytes of `b` starting at `off`.
pub open spec fn le_at(b: Seq<u8>, off: int, n: int) -> nat {
    le_value(b.subrange(off, off + n))
}

/// `256^n`.
pub open spec fn pow256(n: nat) -> nat
    decreases n,
{
    if n == 0 {
        1
    } else {
        256 * pow256((n - 1) as nat)
    }
}

/// Changing byte `q` of `s` changes its little-endian value by the change
/// of that byte times `256^q`.
pub(crate) proof fn lemma_le_value_one_byte(s: Seq<u8>, t: Seq<u8>, q: int)
    requires
        s.len() == t.len(),
        0 <= q < s.len(),
        forall|i: int| 0 <= i < s.len() && i != q ==> s[i] == t[i],
    ensures
        le_value(t) as int == le_value(s) as int + (t[q] - s[q]) * pow256(q as nat),
    decreases s.len(),
{
    let s1 = s.drop_first();
    let t1 = t.drop_first();
    if q == 0 {
        assert(s1 =~= t1);
        assert(le_value(t) == t[0] as nat + 256 * le_value(t1));
        assert(le_value(s) == s[0] as nat + 256 * le_value(s1));
        assert(pow256(0) == 1);
        let d: int = t[0] - s[0];
        assert(d * pow256(0) == d);
    } else {
        assert forall|i: int| 0 <= i < s1.len() && i != q - 1 implies s1[i] == t1[i] by {
            assert(s1[i] == s[i + 1] && t1[i] == t[i + 1]);
        }
        lemma_le_value_one_byte(s1, t1, q - 1);
        assert(s[0] == t[0]);
        let d: int = t[q] - s[q];
        assert(t1[q - 1] == t[q] && s1[q - 1] == s[q]);
        let p = pow256((q - 1) as nat);
        assert(pow256(q as nat) == 256 * p);
        assert(256 * (d * p) == d * (256 * p)) by (nonlinear_arith);
        assert(le_value(t) == t[0] as nat + 256 * le_value(t1));
        assert(le_value(s) == s[0] as nat + 256 * le_value(s1));
        assert(le_value(t1) as int == le_value(s1) as int + d * p);
        assert(le_value(t) as int == le_value(s) as int + 256 * (d * p));
        assert(d * pow256(q as nat) == d * (256 * p));
    }
}

pub(crate) proof fn lemma_pow256_mono(a: nat, b: nat)
    requires
        a <= b,
    ensures
        1 <= pow256(a) <= pow256(b),
    decreases b,
{
    if b > a {
        lemma_pow256_mono(a, (b - 1) as nat);
    } else if a > 0 {
        lemma_pow256_mono((a - 1) as nat, (a - 1) as nat);
    }
}

pub(crate) proof fn lemma_le_value_bound(s: Seq<u8>)
    ensures
        le_value(s) < pow256(s.len()),
    decreases s.len(),
{
    if s.len() > 0 {
        lemma_le_value_bound(s.drop_first());
    }
}

/// `u64` range of 8-byte values.
pub(crate) proof fn lemma_pow256_small()
    ensures
        pow256(1) == 0x100,
        pow256(2) == 0x1_0000,
        pow256(4) == 0x1_0000_0000,
        pow256(8) == 0x1_0000_0000_0000_0000,
{
    reveal_with_fuel(pow256, 9);
}

/// Little-endian value of `b[off .. off + n]`, `n <= 8`.
pub fn le_read(b: &[u8], off: usize, n: usize) -> (v: u64)
    requires
        off + n <= b@.len(),
        n <= 8,
    ensures
        v as nat == le_at(b@, off as int, n as int),
{
    let blen = b.len();
    let mut v: u64 = 0;
    let mut i: usize = n;
    proof {
        lemma_pow256_small();
        assert(b@.subrange(off + n, off + n) =~= Seq::<u8>::empty());
    }
    while i > 0
        invariant
            i <= n <= 8,
            off + n <= b@.len() == blen,
            v as nat == le_value(b@.subrange(off + i, off + n)),
            v < pow256((n - i) as nat),
            pow256(8) == 0x1_0000_0000_0000_0000,
        decreases i,
    {
        i = i - 1;
        proof {
            lemma_pow256_mono((n - i) as nat, 8);
            assert(b@.subrange(off + i, off + n).drop_first() =~= b@.subrange(off + i + 1, off + n));
        }
        let byte = b[off + i] as u64;
        proof {
            assert(pow256((n - i) as nat) == 256 * pow256((n - i - 1) as nat));
            assert(v * 256 + byte < pow256((n - i) as nat));
        }
        v = v * 256 + byte;
    }
    v
}

/// Read a `u8` at `off`.
pub fn u8_at(b: &[u8], off: usize) -> (r: Result<u8>)
    ensures
        match r {
            Ok(v) => off < b@.len() && v == b@[off as int],
            Err(e) => off >= b@.len() && e.kind == ErrorKind::Corrupt,
        },
{
    if off < b.len() {
        Ok(b[off])
    } else {
        let mut m = String::from_str("u8 read past end of ");
        text::push_decimal(&mut m, b.len() as u64);
        text::push_str(&mut m, "-byte buffer at ");
        text::push_decimal(&mut m, off as u64);
        Err(corrupt(m))
    }
}

/// Read a little-endian `u16` at `off`.
pub fn u16_at(b: &[u8], off: usize) -> (r: Result<u16>)
    ensures
        match r {
            Ok(v) => off + 2 <= b@.len() && v == le_at(b@, off as int, 2),
            Err(e) => off + 2 > b@.len() && e.kind == ErrorKind::Corrupt,
        },
{
    let s = slice(b, off, 2)?;
    let v = le_read(s, 0, 2);
    proof {
        assert(s@.subrange(0, 2) =~= b@.subrange(off as int, off + 2));
        lemma_pow256_small();
        lemma_le_value_bound(s@.subrange(0, 2));
    }
    Ok(v as u16)
}

/// Read a little-endian `u32` at `off`.
pub fn u32_at(b: &[u8], off: usize) -> (r: Result<u32>)
    ensures
        match r {
            Ok(v) => off + 4 <= b@.len() && v == le_at(b@, off as int, 4),
            Err(e) => off + 4 > b@.len() && e.kind == ErrorKind::Corrupt,
        },
{
    let s = slice(b, off, 4)?;
    let v = le_read(s, 0, 4);
    proof {
        assert(s@.subrange(0, 4) =~= b@.subrange(off as int, off + 4));
        lemma_pow256_small();
        lemma_le_value_bound(s@.subrange(0, 4));
    }
    Ok(v as u32)
}

/// Read a little-endian `u64` at `off`.
pub fn u64_at(b: &[u8], off: usize) -> (r: Result<u64>)
    ensures
        match r {
            Ok(v) => off + 8 <= b@.len() && v == le_at(b@, off as int, 8),
            Err(e) => off + 8 > b@.len() && e.kind == ErrorKind::Corrupt,
        },
{
    let s = slice(b, off, 8)?;
    let v = le_read(s, 0, 8);
    proof {
        assert(s@.subrange(0, 8) =~= b@.subrange(off as int, off + 8));
    }
    Ok(v)
}

/// Read a little-endian `i64` at `off` (used for `paddr_t`).
pub fn i64_at(b: &[u8], off: usize) -> (r: Result<i64>)
    ensures
        match r {
            Ok(v) => off + 8 <= b@.len() && v == (le_at(b@, off as int, 8) as u64) as i64,
            Err(e) => off + 8 > b@.len() && e.kind == ErrorKind::Corrupt,
        },
{
    Ok(u64_at(b, off)? as i64)
}

/// Read a little-endian `i32` at `off`.
pub fn i32_at(b: &[u8], off: usize) -> (r: Result<i32>)
    ensures
        match r {
            Ok(v) => off + 4 <= b@.len() && v == (le_at(b@, off as int, 4) as u32) as i32,
            Err(e) => off + 4 > b@.len() && e.kind == ErrorKind::Corrupt,
        },
{
    Ok(u32_at(b, off)? as i32)
}

/// Borrow `len` bytes at `off`, bounds-checked.
pub fn slice(b: &[u8], off: usize, len: usize) -> (r: Result<&[u8]>)
    ensures
        match r {
            Ok(s) => off + len <= b@.len() && s@ == b@.subrange(off as int, off + len),
            Err(e) => off + len > b@.len() && e.kind == ErrorKind::Corrupt,
        },
{
    let blen = b.len();
    let end = match off.checked_add(len) {
        Some(e) => e,
        None => {
            return Err(corrupt(String::from_str("length overflow in slice")));
        },
    };
    if end <= b.len() {
        Ok(vstd::slice::slice_subrange(b, off, end))
    } else {
        let mut m = String::from_str("slice [");
        text::push_decimal(&mut m, off as u64);
        text::push_str(&mut m, ", ");
        text::push_decimal(&mut m, end as u64);
        text::push_str(&mut m, ") out of ");
        text::push_decimal(&mut m, b.len() as u64);
        text::push_str(&mut m, "-byte buffer");
        Err(corrupt(m))
    }
}

/// Two uppercase hexadecimal digits of a byte (the `{:02X}` form).
pub open spec fn hex2(b: u8) -> Seq<char> {
    zero_pad(hex_digits(b as nat, true), 2)
}

/// The canonical text of the first `n` bytes of a UUID: uppercase hex pairs
/// with dashes before bytes 4, 6, 8 and 10.
pub open spec fn uuid_prefix(s: Seq<u8>, n: nat) -> Seq<char>
    decreases n,
{
    if n == 0 {
        Seq::empty()
    } else {
        let k = (n - 1) as nat;
        let sep: Seq<char> = if k == 4 || k == 6 || k == 8 || k == 10 { seq!['-'] } else { Seq::empty() };
        uuid_prefix(s, k) + sep + hex2(s[k as int])
    }
}

/// The canonical `XXXXXXXX-XXXX-XXXX-XXXX-XXXXXXXXXXXX` text of 16 bytes.
pub open spec fn uuid_text(s: Seq<u8>) -> Seq<char> {
    uuid_prefix(s, 16)
}

/// Read a 16-byte UUID at `off` and format it canonically.
pub fn uuid_at(b: &[u8], off: usize) -> (r: Result<String>)
    ensures
        match r {
            Ok(u) => off + 16 <= b@.len() && u@ == uuid_text(b@.subrange(off as int, off + 16)),
            Err(e) => off + 16 > b@.len() && e.kind == ErrorKind::Corrupt,
        },
{
    let s = slice(b, off, 16)?;
    let mut out = String::new();
    let mut i: usize = 0;
    while i < 16
        invariant
            i <= 16,
            s@.len() == 16,
            out@ == uuid_prefix(s@, i as nat),
        decreases 16 - i,
    {
        if i == 4 || i == 6 || i == 8 || i == 10 {
            out.push('-');
        }
        text::push_hex_padded(&mut out, s[i] as u64, 2, true);
        i = i + 1;
        assert(out@ =~= uuid_prefix(s@, i as nat));
    }
    Ok(out)
}

/// The text of a NUL-terminated UTF-8 field: the bytes before the first NUL
/// (all of them if there is none), lossily decoded.
pub open spec fn cstr_text(s: Seq<u8>) -> Seq<char> {
    text::utf8_lossy(s.take(first_nul(s)))
}

/// Index of the first zero byte of `s` (or its length).
pub open spec fn first_nul(s: Seq<u8>) -> int {
    if exists|i: int| 0 <= i < s.len() && s[i] == 0 {
        choose|i: int| 0 <= i < s.len() && s[i] == 0 && forall|j: int| 0 <= j < i ==> s[j] != 0
    } else {
        s.len() as int
    }
}

/// Decode a NUL-terminated UTF-8 string from a fixed field. Invalid bytes are
/// replaced rather than rejected so a slightly damaged name still renders;
/// valid UTF-8 decodes to exactly its characters.
pub fn cstr_utf8(b: &[u8]) -> (s: String)
    ensures
        s@ == cstr_text(b@),
        vstd::utf8::valid_utf8(b@.take(first_nul(b@))) ==> s@ == vstd::utf8::decode_utf8(b@.take(first_nul(b@))),
{
    let mut end: usize = 0;
    while end < b.len() && b[end] != 0
        invariant
            end <= b@.len(),
            forall|j: int| 0 <= j < end ==> b@[j] != 0,
        decreases b@.len() - end,
    {
        end = end + 1;
    }
    proof {
        if end < b@.len() {
            assert(exists|i: int| 0 <= i < b@.len() && b@[i] == 0);
            let c = choose|i: int| 0 <= i < b@.len() && b@[i] == 0 && forall|j: int| 0 <= j < i ==> b@[j] != 0;
            assert(0 <= end < b@.len() && b@[end as int] == 0 && forall|j: int| 0 <= j < end ==> b@[j] != 0);
            if c < end {
            } else if c > end {
                assert(b@[end as int] != 0);
            }
            assert(first_nul(b@) == end);
        } else {
            assert(!(exists|i: int| 0 <= i < b@.len() && b@[i] == 0));
        }
    }
    let head = vstd::slice::slice_subrange(b, 0, end);
    assert(head@ =~= b@.take(end as int));
    text::from_utf8_lossy(head)
}

} // verus!
