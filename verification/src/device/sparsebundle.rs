//! The layout of a macOS `.sparsebundle`: a directory of fixed-size band
//! files that together form a virtual disk. Band *N* holds logical bytes
//! `[N*band_size, (N+1)*band_size)`, and band file names are the lowercase
//! hexadecimal of the band index. Absent bands are sparse holes that read as
//! zeros; a band file shorter than `band_size` zero-fills its tail. This
//! module decides which bands a read touches, summarizes band coverage, and
//! reads the bundle's `Info.plist` values; the files themselves are read by
//! the caller.
use vstd::prelude::*;

use vstd::string::StringSliceAdditionalSpecFns;

use crate::cli::{parse_unsigned, parse_unsigned_str, trim, trimmed};
use crate::text::{self, hex_digits};

verus! {

/// Cap on the missing band indices listed in a [`BandStats`].
pub const MAX_LISTED_MISSING: usize = 64;

/// Summary of band coverage.
#[derive(Debug, Clone)]
pub struct BandStats {
    pub band_size: u64,
    pub logical_size: u64,
    pub expected_bands: u64,
    pub present_bands: u64,
    /// Indices in `[0, expected_bands)` with no band file (sparse holes),
    /// in order, at most [`MAX_LISTED_MISSING`].
    pub missing_bands: Vec<u64>,
    /// Whether `missing_bands` was cut short because there were too many.
    pub missing_truncated: bool,
    /// Present band files shorter than `band_size` (excluding the final
    /// band), in ascending order.
    pub short_bands: Vec<u64>,
}

/// The file name of band `band`: its lowercase hexadecimal index.
pub fn band_name(band: u64) -> (s: String)
    ensures
        s@ == hex_digits(band as nat, false),
{
    let mut s = String::new();
    text::push_hex(&mut s, band, false);
    s
}

/// One piece of a read that lies within a single band.
#[derive(Debug, Clone, Copy, PartialEq, Eq, Structural)]
pub struct BandRead {
    pub band: u64,
    /// Offset within the band.
    pub within: u64,
    pub len: u64,
}

/// The pieces of a read of `remaining` bytes at logical offset `pos`, in
/// order: each runs from its position to the end of its band or of the read.
pub open spec fn band_reads(pos: nat, remaining: nat, band_size: nat) -> Seq<BandRead>
    decreases remaining,
{
    if remaining == 0 || band_size == 0 {
        Seq::empty()
    } else {
        let within = pos % band_size;
        let avail = (band_size - within) as nat;
        let chunk = if avail < remaining { avail } else { remaining };
        seq![BandRead { band: (pos / band_size) as u64, within: within as u64, len: chunk as u64 }] + band_reads(
            pos + chunk,
            (remaining - chunk) as nat,
            band_size,
        )
    }
}

/// The total length of `pieces`.
pub open spec fn pieces_len(pieces: Seq<BandRead>) -> nat
    decreases pieces.len(),
{
    if pieces.len() == 0 {
        0
    } else {
        pieces_len(pieces.drop_first()) + pieces[0].len as nat
    }
}

/// The pieces of a read cover it exactly, in order: they add up to its
/// length, each starts where the previous one ended (counted in bands of
/// `band_size` bytes), none is empty, and none runs past the end of its band.
pub proof fn band_reads_cover_the_read(pos: nat, remaining: nat, band_size: nat)
    requires
        band_size > 0,
        pos + remaining <= u64::MAX,
    ensures
        pieces_len(band_reads(pos, remaining, band_size)) == remaining,
        band_reads(pos, remaining, band_size).len() > 0 ==> {
            let p = band_reads(pos, remaining, band_size)[0];
            p.band * band_size + p.within == pos
        },
        forall|k: int|
            0 <= k < band_reads(pos, remaining, band_size).len() ==> {
                let p = #[trigger] band_reads(pos, remaining, band_size)[k];
                &&& p.len > 0
                &&& p.within + p.len <= band_size
                &&& k + 1 < band_reads(pos, remaining, band_size).len() ==> {
                    let q = band_reads(pos, remaining, band_size)[k + 1];
                    q.band * band_size + q.within == p.band * band_size + p.within + p.len
                }
            },
    decreases remaining,
{
    if remaining > 0 {
        let within = pos % band_size;
        let avail = (band_size - within) as nat;
        let chunk = if avail < remaining { avail } else { remaining };
        let head = BandRead { band: (pos / band_size) as u64, within: within as u64, len: chunk as u64 };
        let rest = band_reads(pos + chunk, (remaining - chunk) as nat, band_size);
        band_reads_cover_the_read(pos + chunk, (remaining - chunk) as nat, band_size);
        let all = band_reads(pos, remaining, band_size);
        assert(all == seq![head] + rest);
        assert(all.drop_first() =~= rest);
        assert(pos / band_size <= pos);
        assert((pos / band_size) * band_size + pos % band_size == pos) by (nonlinear_arith)
            requires
                band_size > 0,
        ;
        if rest.len() > 0 {
            let q = rest[0];
            assert((q.band as nat) * band_size + (q.within as nat) == pos + chunk);
        }
        assert forall|k: int| 0 <= k < all.len() implies {
            let p = #[trigger] all[k];
            &&& p.len > 0
            &&& p.within + p.len <= band_size
            &&& k + 1 < all.len() ==> {
                let q = all[k + 1];
                q.band * band_size + q.within == p.band * band_size + p.within + p.len
            }
        } by {
            if k > 0 {
                assert(all[k] == rest[k - 1]);
                if k + 1 < all.len() {
                    assert(all[k + 1] == rest[k]);
                }
            } else if k + 1 < all.len() {
                assert(all[1] == rest[0]);
            }
        }
    }
}

/// Split a read of `len` bytes at `offset` into per-band pieces.
pub fn plan_reads(offset: u64, len: u64, band_size: u64) -> (r: Vec<BandRead>)
    requires
        band_size > 0,
        offset + len <= u64::MAX,
    ensures
        r@ == band_reads(offset as nat, len as nat, band_size as nat),
{
    let mut out: Vec<BandRead> = Vec::new();
    let mut done: u64 = 0;
    proof {
        assert(out@ + band_reads(offset as nat, len as nat, band_size as nat) =~= band_reads(
            offset as nat,
            len as nat,
            band_size as nat,
        ));
    }
    while done < len
        invariant
            band_size > 0,
            offset + len <= u64::MAX,
            done <= len,
            out@ + band_reads((offset + done) as nat, (len - done) as nat, band_size as nat) == band_reads(
                offset as nat,
                len as nat,
                band_size as nat,
            ),
        decreases len - done,
    {
        let pos = offset + done;
        let band = pos / band_size;
        let within = pos % band_size;
        let avail = band_size - within;
        let chunk = if avail < len - done { avail } else { len - done };
        let piece = BandRead { band, within, len: chunk };
        let ghost before = out@;
        out.push(piece);
        proof {
            let rest = band_reads((pos + chunk) as nat, (len - done - chunk) as nat, band_size as nat);
            assert(band_reads(pos as nat, (len - done) as nat, band_size as nat) == seq![piece] + rest);
            assert(before + (seq![piece] + rest) =~= out@ + rest);
        }
        done = done + chunk;
    }
    proof {
        assert(out@ + Seq::<BandRead>::empty() =~= out@);
    }
    out
}

/// A directory entry of the `bands` directory.
pub struct BandEntry {
    pub name: String,
    pub is_file: bool,
    pub len: u64,
}

/// `s` stably sorted ascending.
pub open spec fn insert_sorted(s: Seq<u64>, x: u64) -> Seq<u64>
    decreases s.len(),
{
    if s.len() == 0 {
        seq![x]
    } else if s.last() > x {
        insert_sorted(s.drop_last(), x).push(s.last())
    } else {
        s.push(x)
    }
}

/// `s` sorted ascending.
pub open spec fn sorted_u64(s: Seq<u64>) -> Seq<u64>
    decreases s.len(),
{
    if s.len() == 0 {
        s
    } else {
        insert_sorted(sorted_u64(s.drop_last()), s.last())
    }
}

/// The band indices named by the band files among `entries` (names that
/// are hexadecimal numbers, entries that are files), in order.
pub open spec fn present_indices(entries: Seq<(Seq<char>, bool, u64)>) -> Seq<u64>
    decreases entries.len(),
{
    if entries.len() == 0 {
        Seq::empty()
    } else {
        let e = entries.last();
        let prev = present_indices(entries.drop_last());
        match parse_unsigned(e.0, 16) {
            Some(i) => if e.1 {
                prev.push(i)
            } else {
                prev
            },
            None => prev,
        }
    }
}

/// The indices of band files among `entries` shorter than `band_size`, other
/// than the final band `last`, in order.
pub open spec fn short_indices(entries: Seq<(Seq<char>, bool, u64)>, band_size: u64, last: u64) -> Seq<u64>
    decreases entries.len(),
{
    if entries.len() == 0 {
        Seq::empty()
    } else {
        let e = entries.last();
        let prev = short_indices(entries.drop_last(), band_size, last);
        match parse_unsigned(e.0, 16) {
            Some(i) => if e.1 && e.2 < band_size && i != last {
                prev.push(i)
            } else {
                prev
            },
            None => prev,
        }
    }
}

/// The band indices below `n` that `present` lacks, from `i` on, in order.
pub open spec fn missing_from(present: Seq<u64>, i: nat, n: nat) -> Seq<u64>
    decreases n - i,
{
    if i >= n {
        Seq::empty()
    } else if present.contains(i as u64) {
        missing_from(present, i + 1, n)
    } else {
        seq![i as u64] + missing_from(present, i + 1, n)
    }
}

/// The number of bands a bundle of `size` bytes in bands of `band_size`
/// needs.
pub open spec fn band_count(size: nat, band_size: nat) -> nat {
    if size % band_size == 0 {
        size / band_size
    } else {
        size / band_size + 1
    }
}

/// The text of each directory entry.
pub open spec fn entries_view(entries: Seq<BandEntry>) -> Seq<(Seq<char>, bool, u64)> {
    entries.map_values(|e: BandEntry| (e.name@, e.is_file, e.len))
}

proof fn lemma_insert_sorted_after_greater(a: Seq<u64>, b: Seq<u64>, x: u64)
    requires
        forall|m: int| 0 <= m < b.len() ==> #[trigger] b[m] > x,
    ensures
        insert_sorted(a + b, x) == insert_sorted(a, x) + b,
    decreases b.len(),
{
    if b.len() == 0 {
        assert(a + b =~= a);
        assert(insert_sorted(a, x) + b =~= insert_sorted(a, x));
    } else {
        let b1 = b.drop_last();
        assert((a + b).drop_last() =~= a + b1);
        assert((a + b).last() == b.last());
        lemma_insert_sorted_after_greater(a, b1, x);
        assert(insert_sorted(a, x) + b =~= (insert_sorted(a, x) + b1).push(b.last()));
    }
}

/// Sort `v` ascending (insertion sort).
fn sort_u64(v: &mut Vec<u64>)
    ensures
        final(v)@ == sorted_u64(old(v)@),
{
    let ghost orig = v@;
    let n = v.len();
    let mut i: usize = 0;
    proof {
        assert(orig.subrange(0, 0) =~= Seq::<u64>::empty());
        assert(v@.subrange(0, 0) =~= sorted_u64(orig.subrange(0, 0)));
    }
    while i < n
        invariant
            v@.len() == n == orig.len(),
            i <= n,
            v@.subrange(0, i as int) == sorted_u64(orig.subrange(0, i as int)),
            v@.subrange(i as int, n as int) == orig.subrange(i as int, n as int),
        decreases n - i,
    {
        let ghost sorted = v@.subrange(0, i as int);
        let x = v[i];
        assert(x == orig[i as int]) by {
            assert(v@[i as int] == v@.subrange(i as int, n as int)[0]);
        }
        let mut j: usize = i;
        proof {
            assert(v@.subrange(i + 1, n as int) =~= v@.subrange(i as int, n as int).subrange(1, n - i));
            assert(orig.subrange(i + 1, n as int) =~= orig.subrange(i as int, n as int).subrange(1, n - i));
            assert(v@.subrange(i + 1, i + 1) =~= sorted.subrange(i as int, i as int));
            assert(sorted.subrange(0, i as int) =~= sorted);
        }
        while j > 0 && v[j - 1] > x
            invariant
                v@.len() == n,
                j <= i < n,
                v@.subrange(0, j as int) == sorted.subrange(0, j as int),
                v@[j as int] == x,
                v@.subrange(j + 1, i + 1) == sorted.subrange(j as int, i as int),
                v@.subrange(i + 1, n as int) == orig.subrange(i + 1, n as int),
                forall|m: int| j <= m < i ==> #[trigger] sorted[m] > x,
                sorted.len() == i,
            decreases j,
        {
            let ghost before = v@;
            let prev = v[j - 1];
            v.set(j, prev);
            v.set(j - 1, x);
            proof {
                assert(v@.subrange(0, j - 1) =~= before.subrange(0, j - 1));
                assert(sorted.subrange(0, j - 1) =~= sorted.subrange(0, j as int).subrange(0, j - 1));
                assert(prev == sorted[j - 1]) by {
                    assert(before.subrange(0, j as int)[j - 1] == before[j - 1]);
                }
                assert(v@.subrange(j as int, i + 1) =~= seq![prev] + before.subrange(j + 1, i + 1));
                assert(sorted.subrange(j - 1, i as int) =~= seq![sorted[j - 1]] + sorted.subrange(j as int, i as int));
                assert(v@.subrange(i + 1, n as int) =~= before.subrange(i + 1, n as int));
            }
            j = j - 1;
        }
        proof {
            let a = sorted.subrange(0, j as int);
            let b = sorted.subrange(j as int, i as int);
            assert(sorted =~= a + b);
            lemma_insert_sorted_after_greater(a, b, x);
            if j > 0 {
                assert(a.last() == v@[j - 1]) by {
                    assert(v@.subrange(0, j as int)[j - 1] == v@[j - 1]);
                }
            }
            assert(insert_sorted(a, x) == a.push(x));
            assert(orig.subrange(0, i + 1).drop_last() =~= orig.subrange(0, i as int));
            assert(orig.subrange(0, i + 1).last() == x);
            assert(v@.subrange(0, i + 1) =~= a.push(x) + b) by {
                assert(v@.subrange(0, j as int) =~= a);
            }
            assert(v@.subrange(i + 1, n as int) =~= orig.subrange(i + 1, n as int));
        }
        i = i + 1;
    }
    proof {
        assert(v@ =~= v@.subrange(0, n as int));
        assert(orig =~= orig.subrange(0, n as int));
    }
}

/// `v` holds `x`.
fn contains_u64(v: &Vec<u64>, x: u64) -> (r: bool)
    ensures
        r == v@.contains(x),
{
    let mut i: usize = 0;
    while i < v.len()
        invariant
            i <= v@.len(),
            forall|j: int| 0 <= j < i ==> v@[j] != x,
        decreases v@.len() - i,
    {
        if v[i] == x {
            assert(v@[i as int] == x);
            return true;
        }
        i = i + 1;
    }
    false
}

/// Summarize band coverage from the entries of the `bands` directory: the
/// bands a bundle of `logical_size` bytes needs, how many band files exist,
/// which needed bands are absent (the first [`MAX_LISTED_MISSING`]), and
/// which band files other than the final band are short.
pub fn band_stats(band_size: u64, logical_size: u64, entries: &[BandEntry]) -> (r: BandStats)
    requires
        band_size > 0,
    ensures
        ({
            let n = band_count(logical_size as nat, band_size as nat);
            let last: u64 = if n == 0 { 0 } else { (n - 1) as u64 };
            let present = present_indices(entries_view(entries@));
            let missing = missing_from(present, 0, n);
            &&& r.band_size == band_size
            &&& r.logical_size == logical_size
            &&& r.expected_bands == n
            &&& r.present_bands == present.len()
            &&& r.short_bands@ == sorted_u64(short_indices(entries_view(entries@), band_size, last))
            &&& r.missing_truncated == (missing.len() > MAX_LISTED_MISSING)
            &&& r.missing_bands@ == (if missing.len() > MAX_LISTED_MISSING {
                missing.take(MAX_LISTED_MISSING as int)
            } else {
                missing
            })
        }),
{
    let q = logical_size / band_size;
    let expected = if logical_size % band_size == 0 {
        q
    } else {
        assert(q < u64::MAX) by (nonlinear_arith)
            requires
                band_size > 0,
                q == logical_size / band_size,
                logical_size % band_size != 0,
        {
            assert(band_size >= 2);
        }
        q + 1
    };
    let last_band: u64 = if expected == 0 { 0 } else { expected - 1 };
    let ghost ev = entries_view(entries@);
    let mut present: Vec<u64> = Vec::new();
    let mut short: Vec<u64> = Vec::new();
    let mut k: usize = 0;
    while k < entries.len()
        invariant
            ev == entries_view(entries@),
            k <= entries@.len(),
            present@ == present_indices(ev.subrange(0, k as int)),
            short@ == short_indices(ev.subrange(0, k as int), band_size, last_band),
            present@.len() <= k,
        decreases entries@.len() - k,
    {
        let e = &entries[k];
        proof {
            assert(ev.subrange(0, k + 1).drop_last() =~= ev.subrange(0, k as int));
            assert(ev.subrange(0, k + 1).last() == (e.name@, e.is_file, e.len));
        }
        match parse_unsigned_str(e.name.as_str(), 16) {
            Some(idx) => {
                if e.is_file {
                    present.push(idx);
                    if e.len < band_size && idx != last_band {
                        short.push(idx);
                    }
                }
            },
            None => {},
        }
        k = k + 1;
    }
    proof {
        assert(ev.subrange(0, entries@.len() as int) =~= ev);
    }
    sort_u64(&mut short);
    let ghost pres = present@;
    let mut missing: Vec<u64> = Vec::new();
    let mut truncated = false;
    let mut i: u64 = 0;
    let ghost all = missing_from(pres, 0, expected as nat);
    proof {
        assert(missing@ + missing_from(pres, 0, expected as nat) =~= all);
    }
    while i < expected && !truncated
        invariant
            pres == present@,
            i <= expected,
            all == missing_from(pres, 0, expected as nat),
            missing@.len() <= MAX_LISTED_MISSING,
            !truncated ==> missing@ + missing_from(pres, i as nat, expected as nat) == all,
            truncated ==> all.len() > MAX_LISTED_MISSING && missing@ == all.take(MAX_LISTED_MISSING as int),
        decreases expected - i + (if truncated { 0int } else { 1int }),
    {
        let ghost rest = missing_from(pres, i as nat, expected as nat);
        if !contains_u64(&present, i) {
            if missing.len() < MAX_LISTED_MISSING {
                let ghost before = missing@;
                missing.push(i);
                proof {
                    assert(before + (seq![i] + missing_from(pres, (i + 1) as nat, expected as nat)) =~= missing@
                        + missing_from(pres, (i + 1) as nat, expected as nat));
                }
            } else {
                proof {
                    assert(all == missing@ + (seq![i] + missing_from(pres, (i + 1) as nat, expected as nat)));
                    assert(all.take(MAX_LISTED_MISSING as int) =~= missing@);
                }
                truncated = true;
            }
        }
        if !truncated {
            i = i + 1;
        }
    }
    proof {
        if !truncated {
            assert(missing@ + Seq::<u64>::empty() =~= missing@);
        }
    }
    BandStats {
        band_size,
        logical_size,
        expected_bands: expected,
        present_bands: present.len() as u64,
        missing_bands: missing,
        missing_truncated: truncated,
        short_bands: short,
    }
}


/// `needle` occurs in `hay` at `i`.
pub open spec fn occurs_at(hay: Seq<u8>, needle: Seq<u8>, i: int) -> bool {
    0 <= i && i + needle.len() <= hay.len() && hay.subrange(i, i + needle.len()) == needle
}

/// The first occurrence of `needle` in `hay` at or after `from`.
pub open spec fn find_from(hay: Seq<u8>, needle: Seq<u8>, from: int) -> Option<int>
    decreases hay.len() - from,
{
    if from < 0 || from + needle.len() > hay.len() {
        None
    } else if occurs_at(hay, needle, from) {
        Some(from)
    } else if from >= hay.len() {
        None
    } else {
        find_from(hay, needle, from + 1)
    }
}

/// The bytes of `<key>`.
pub open spec fn key_open() -> Seq<u8> {
    seq![0x3cu8, 0x6b, 0x65, 0x79, 0x3e]
}

/// The bytes of `</key>`.
pub open spec fn key_close() -> Seq<u8> {
    seq![0x3cu8, 0x2f, 0x6b, 0x65, 0x79, 0x3e]
}

/// The bytes of `<integer>`.
pub open spec fn integer_open() -> Seq<u8> {
    seq![0x3cu8, 0x69, 0x6e, 0x74, 0x65, 0x67, 0x65, 0x72, 0x3e]
}

/// The bytes of `</integer>`.
pub open spec fn integer_close() -> Seq<u8> {
    seq![0x3cu8, 0x2f, 0x69, 0x6e, 0x74, 0x65, 0x67, 0x65, 0x72, 0x3e]
}

/// The bytes of `<string>`.
pub open spec fn string_open() -> Seq<u8> {
    seq![0x3cu8, 0x73, 0x74, 0x72, 0x69, 0x6e, 0x67, 0x3e]
}

/// The bytes of `</string>`.
pub open spec fn string_close() -> Seq<u8> {
    seq![0x3cu8, 0x2f, 0x73, 0x74, 0x72, 0x69, 0x6e, 0x67, 0x3e]
}

/// The text between the first `open` tag after the first `<key>KEY</key>`
/// of `buf` and the first `close` tag after it. When `strict`, the `open`
/// tag must be the first tag after the key (the first `<` after it).
pub open spec fn plist_field(buf: Seq<u8>, key: Seq<u8>, open: Seq<u8>, close: Seq<u8>, strict: bool) -> Option<Seq<u8>> {
    let needle = key_open() + key + key_close();
    match find_from(buf, needle, 0) {
        None => None,
        Some(a) => match find_from(buf, open, a + needle.len()) {
            None => None,
            Some(o) => if strict && find_from(buf, seq![0x3cu8], a + needle.len()) != Some(o) {
                None
            } else {
                match find_from(buf, close, o + open.len()) {
                    None => None,
                    Some(c) => Some(buf.subrange(o + open.len(), c)),
                }
            },
        },
    }
}

/// `hay[i..]` starts with `needle`.
fn matches_at(hay: &[u8], needle: &[u8], i: usize) -> (r: bool)
    requires
        i + needle@.len() <= hay@.len(),
    ensures
        r == occurs_at(hay@, needle@, i as int),
{
    let h = hay.len();
    let mut k: usize = 0;
    while k < needle.len()
        invariant
            h == hay@.len(),
            i + needle@.len() <= hay@.len(),
            k <= needle@.len(),
            forall|j: int| 0 <= j < k ==> hay@[i + j] == needle@[j],
        decreases needle@.len() - k,
    {
        if hay[i + k] != needle[k] {
            proof {
                assert(hay@.subrange(i as int, i + needle@.len())[k as int] != needle@[k as int]);
            }
            return false;
        }
        k = k + 1;
    }
    assert(hay@.subrange(i as int, i + needle@.len()) =~= needle@);
    true
}

/// The first occurrence of `needle` in `hay` at or after `from`.
fn find_bytes(hay: &[u8], needle: &[u8], from: usize) -> (r: Option<usize>)
    ensures
        match r {
            Some(i) => find_from(hay@, needle@, from as int) == Some(i as int),
            None => find_from(hay@, needle@, from as int) is None,
        },
{
    let n = needle.len();
    let h = hay.len();
    let mut i = from;
    while n <= h && i <= h - n
        invariant
            n == needle@.len(),
            h == hay@.len(),
            from <= i,
            find_from(hay@, needle@, from as int) == find_from(hay@, needle@, i as int),
        decreases h + 1 - i,
    {
        if n == 0 {
            assert(hay@.subrange(i as int, i as int) =~= needle@);
        }
        if matches_at(hay, needle, i) {
            return Some(i);
        }
        i = i + 1;
    }
    None
}

/// The text of a plist field, lossily decoded and trimmed.
fn field_text(buf: &[u8], key: &[u8], open: &[u8], close: &[u8], strict: bool) -> (r: Option<String>)
    ensures
        match plist_field(buf@, key@, open@, close@, strict) {
            None => r is None,
            Some(content) => r matches Some(t) && t@ == trim(text::utf8_lossy(content)),
        },
{
    let mut needle: Vec<u8> = Vec::new();
    let ko: Vec<u8> = vec![0x3cu8, 0x6b, 0x65, 0x79, 0x3e];
    let kc: Vec<u8> = vec![0x3cu8, 0x2f, 0x6b, 0x65, 0x79, 0x3e];
    let mut i: usize = 0;
    while i < ko.len()
        invariant
            i <= ko@.len(),
            needle@ == ko@.subrange(0, i as int),
        decreases ko@.len() - i,
    {
        needle.push(ko[i]);
        i = i + 1;
        assert(needle@ =~= ko@.subrange(0, i as int));
    }
    let mut j: usize = 0;
    while j < key.len()
        invariant
            j <= key@.len(),
            needle@ == ko@ + key@.subrange(0, j as int),
        decreases key@.len() - j,
    {
        needle.push(key[j]);
        j = j + 1;
        assert(needle@ =~= ko@ + key@.subrange(0, j as int));
    }
    let mut k: usize = 0;
    while k < kc.len()
        invariant
            k <= kc@.len(),
            needle@ == ko@ + key@ + kc@.subrange(0, k as int),
        decreases kc@.len() - k,
    {
        needle.push(kc[k]);
        k = k + 1;
        assert(needle@ =~= ko@ + key@ + kc@.subrange(0, k as int));
    }
    proof {
        assert(ko@ =~= key_open());
        assert(kc@ =~= key_close());
        assert(key@.subrange(0, key@.len() as int) =~= key@);
        assert(kc@.subrange(0, kc@.len() as int) =~= kc@);
        assert(needle@ =~= key_open() + key@ + key_close());
    }
    let blen = buf.len();
    let a = find_bytes(buf, needle.as_slice(), 0)?;
    proof {
        lemma_find_from_bounds(buf@, needle@, 0);
    }
    let after = a + needle.len();
    let o = find_bytes(buf, open, after)?;
    proof {
        lemma_find_from_bounds(buf@, open@, after as int);
    }
    if strict {
        let lt: Vec<u8> = vec![0x3cu8];
        proof {
            assert(lt@ =~= seq![0x3cu8]);
        }
        match find_bytes(buf, lt.as_slice(), after) {
            Some(l) => {
                if l != o {
                    return None;
                }
            },
            None => {
                return None;
            },
        }
    }
    let start = o + open.len();
    let c = find_bytes(buf, close, start)?;
    proof {
        lemma_find_from_bounds(buf@, close@, start as int);
    }
    let content = vstd::slice::slice_subrange(buf, start, c);
    let decoded = text::from_utf8_lossy(content);
    Some(trimmed(decoded.as_str()))
}

proof fn lemma_find_from_bounds(hay: Seq<u8>, needle: Seq<u8>, from: int)
    ensures
        find_from(hay, needle, from) matches Some(i) ==> from <= i && i + needle.len() <= hay.len(),
    decreases hay.len() - from,
{
    if !(from < 0 || from + needle.len() > hay.len()) && !occurs_at(hay, needle, from) && from < hay.len() {
        lemma_find_from_bounds(hay, needle, from + 1);
    }
}

/// The integer value of field `key` of a plist held in `buf`.
pub open spec fn plist_int_value(buf: Seq<u8>, key: Seq<u8>) -> Option<u64> {
    match plist_field(buf, key, integer_open(), integer_close(), true) {
        None => None,
        Some(content) => parse_unsigned(trim(text::utf8_lossy(content)), 10),
    }
}

/// The values a sparsebundle's `Info.plist` gives.
#[derive(Debug, Clone)]
pub struct InfoPlist {
    pub band_size: u64,
    pub size: u64,
    pub uuid: Option<String>,
    pub backingstore_version: Option<u64>,
}

/// Read the bundle geometry from the text of `Info.plist`: `band-size` is
/// required and must not be zero (else the bundle is corrupt), `size` is
/// required to bound reads (its absence is unsupported), `uuid` and
/// `bundle-backingstore-version` are optional.
pub fn info_plist(buf: &str) -> (r: crate::error::Result<InfoPlist>)
    ensures
        match plist_int_value(buf.spec_bytes(), "band-size".spec_bytes()) {
            None => r matches Err(e) && e.kind == crate::error::ErrorKind::Corrupt,
            Some(bs) => match plist_int_value(buf.spec_bytes(), "size".spec_bytes()) {
                None => r matches Err(e) && e.kind == crate::error::ErrorKind::UnsupportedFeature,
                Some(sz) => if bs == 0 {
                    r matches Err(e) && e.kind == crate::error::ErrorKind::Corrupt
                } else {
                    r matches Ok(p) && p.band_size == bs && p.size == sz && p.backingstore_version
                        == plist_int_value(buf.spec_bytes(), "bundle-backingstore-version".spec_bytes())
                },
            },
        },
{
    let band_size = match plist_int(buf, "band-size") {
        Some(b) => b,
        None => {
            return Err(crate::error::err(crate::error::ErrorKind::Corrupt, "Info.plist missing or malformed `band-size`"));
        },
    };
    let size = match plist_int(buf, "size") {
        Some(s) => s,
        None => {
            return Err(
                crate::error::err(
                    crate::error::ErrorKind::UnsupportedFeature,
                    "Info.plist has no `size`; cannot determine logical size",
                ),
            );
        },
    };
    if band_size == 0 {
        return Err(crate::error::err(crate::error::ErrorKind::Corrupt, "sparsebundle Info.plist has zero band-size"));
    }
    Ok(InfoPlist {
        band_size,
        size,
        uuid: plist_string(buf, "uuid"),
        backingstore_version: plist_int(buf, "bundle-backingstore-version"),
    })
}

/// The integer value following `<key>KEY</key>` in a small XML plist: the
/// text of the `<integer>` element that must be the key's next tag, trimmed,
/// as a decimal number.
pub fn plist_int(buf: &str, key: &str) -> (r: Option<u64>)
    ensures
        r == (match plist_field(buf.spec_bytes(), key.spec_bytes(), integer_open(), integer_close(), true) {
            None => None,
            Some(content) => parse_unsigned(trim(text::utf8_lossy(content)), 10),
        }),
{
    let open: Vec<u8> = vec![0x3cu8, 0x69, 0x6e, 0x74, 0x65, 0x67, 0x65, 0x72, 0x3e];
    let close: Vec<u8> = vec![0x3cu8, 0x2f, 0x69, 0x6e, 0x74, 0x65, 0x67, 0x65, 0x72, 0x3e];
    proof {
        assert(open@ =~= integer_open());
        assert(close@ =~= integer_close());
    }
    let t = field_text(buf.as_bytes(), key.as_bytes(), open.as_slice(), close.as_slice(), true)?;
    parse_unsigned_str(t.as_str(), 10)
}

/// The string value following `<key>KEY</key>`: the text of the next
/// `<string>` element, trimmed.
pub fn plist_string(buf: &str, key: &str) -> (r: Option<String>)
    ensures
        match plist_field(buf.spec_bytes(), key.spec_bytes(), string_open(), string_close(), false) {
            None => r is None,
            Some(content) => r matches Some(t) && t@ == trim(text::utf8_lossy(content)),
        },
{
    let open: Vec<u8> = vec![0x3cu8, 0x73, 0x74, 0x72, 0x69, 0x6e, 0x67, 0x3e];
    let close: Vec<u8> = vec![0x3cu8, 0x2f, 0x73, 0x74, 0x72, 0x69, 0x6e, 0x67, 0x3e];
    proof {
        assert(open@ =~= string_open());
        assert(close@ =~= string_close());
    }
    field_text(buf.as_bytes(), key.as_bytes(), open.as_slice(), close.as_slice(), false)
}


/// No byte of `s` is `<`.
pub open spec fn free_of_tags(s: Seq<u8>) -> bool {
    forall|i: int| 0 <= i < s.len() ==> s[i] != 0x3cu8
}

proof fn lemma_find_first(h: Seq<u8>, n: Seq<u8>, from: int, at: int)
    requires
        0 <= from <= at,
        occurs_at(h, n, at),
        forall|i: int| from <= i < at ==> !#[trigger] occurs_at(h, n, i),
    ensures
        find_from(h, n, from) == Some(at),
    decreases at - from,
{
    if from < at {
        lemma_find_first(h, n, from + 1, at);
    }
}

/// Positions of `h` from `lo` up to `hi` hold no `<`, so nothing that
/// starts with `<` occurs there.
proof fn lemma_no_tag_in(h: Seq<u8>, n: Seq<u8>, lo: int, hi: int)
    requires
        n.len() > 0,
        n[0] == 0x3cu8,
        0 <= lo <= hi <= h.len(),
        forall|i: int| lo <= i < hi ==> h[i] != 0x3cu8,
    ensures
        forall|i: int| lo <= i < hi ==> !#[trigger] occurs_at(h, n, i),
{
    assert forall|i: int| lo <= i < hi implies !#[trigger] occurs_at(h, n, i) by {
        if occurs_at(h, n, i) {
            assert(h.subrange(i, i + n.len())[0] == h[i]);
        }
    }
}

/// A plist entry `<key>KEY</key>`, then any run of whitespace (or other text
/// free of tags), then the value element `OPEN content CLOSE`: the field
/// reads `content`, whatever the run between the key and the value, as long
/// as that key entry is the first one in the text and the content holds no
/// tag.
pub proof fn plist_field_reads_value_after_key(
    pre: Seq<u8>,
    key: Seq<u8>,
    ws: Seq<u8>,
    open: Seq<u8>,
    content: Seq<u8>,
    close: Seq<u8>,
    rest: Seq<u8>,
    strict: bool,
)
    requires
        open.len() > 0 && open[0] == 0x3cu8,
        close.len() > 0 && close[0] == 0x3cu8,
        free_of_tags(ws),
        free_of_tags(content),
        forall|i: int|
            0 <= i < pre.len() ==> !#[trigger] occurs_at(
                pre + (key_open() + key + key_close()) + ws + open + content + close + rest,
                key_open() + key + key_close(),
                i,
            ),
    ensures
        plist_field(
            pre + (key_open() + key + key_close()) + ws + open + content + close + rest,
            key,
            open,
            close,
            strict,
        ) == Some(content),
{
    let needle = key_open() + key + key_close();
    let buf = pre + needle + ws + open + content + close + rest;
    let a = pre.len() as int;
    let after = a + needle.len();
    let o = after + ws.len();
    let start = o + open.len();
    let c = start + content.len();
    assert(buf.subrange(a, after) =~= needle);
    lemma_find_first(buf, needle, 0, a);
    assert forall|i: int| after <= i < o implies buf[i] != 0x3cu8 by {
        assert(buf[i] == ws[i - after]);
    }
    assert(buf.subrange(o, start) =~= open);
    lemma_no_tag_in(buf, open, after, o);
    lemma_find_first(buf, open, after, o);
    let lt = seq![0x3cu8];
    assert(buf.subrange(o, o + 1) =~= lt) by {
        assert(buf[o] == open[0]);
    }
    lemma_no_tag_in(buf, lt, after, o);
    lemma_find_first(buf, lt, after, o);
    assert forall|i: int| start <= i < c implies buf[i] != 0x3cu8 by {
        assert(buf[i] == content[i - start]);
    }
    assert(buf.subrange(c, c + close.len()) =~= close);
    lemma_no_tag_in(buf, close, start, c);
    lemma_find_first(buf, close, start, c);
    assert(buf.subrange(start, c) =~= content);
}

} // verus!
