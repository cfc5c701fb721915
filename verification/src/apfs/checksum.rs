//! APFS Fletcher-64 checksum.
//!
//! Every object with an `obj_phys_t` header stores an 8-byte Fletcher-64
//! checksum in its first 8 bytes. Validating is equivalent to: compute the
//! checksum over the block treating the first two 32-bit words as absent, and
//! compare against the stored 8 bytes.
use vstd::prelude::*;

use super::raw::{le_at, le_read, le_value, lemma_le_value_one_byte, lemma_pow256_mono, pow256};

verus! {

/// The Fletcher modulus, `2^32 - 1`.
pub open spec fn modulus() -> nat {
    0xFFFF_FFFF
}

/// The running `(simple, second)` sums over the 32-bit words `2 .. k`.
pub open spec fn fletcher_sums(b: Seq<u8>, k: nat) -> (nat, nat)
    decreases k,
{
    if k <= 2 {
        (0, 0)
    } else {
        let prev = fletcher_sums(b, (k - 1) as nat);
        let w = le_at(b, 4 * (k - 1), 4);
        let simple = (prev.0 + w) % modulus();
        (simple, (prev.1 + simple) % modulus())
    }
}

/// The checksum value stored for `block`: second sum in the high half,
/// `M - (simple + second) mod M` in the low half.
pub open spec fn checksum_of(block: Seq<u8>) -> nat {
    let sums = fletcher_sums(block, block.len() / 4);
    let c1: int = modulus() - (sums.0 + sums.1) % modulus();
    (sums.1 * 0x1_0000_0000 + c1) as nat
}

/// The 8-byte value stored at the start of a block (0 if shorter than 8).
pub open spec fn stored_of(block: Seq<u8>) -> nat {
    if block.len() < 8 {
        0
    } else {
        le_at(block, 0, 8)
    }
}

/// A block validates when it has a header and its stored checksum matches.
pub open spec fn valid_block(block: Seq<u8>) -> bool {
    block.len() >= 8 && checksum_of(block) == stored_of(block)
}

/// Compute the stored-checksum value for `block` (first 8 bytes ignored).
pub fn compute(block: &[u8]) -> (c: u64)
    ensures
        c == checksum_of(block@),
{
    let m: u64 = 0xFFFF_FFFF;
    let blen = block.len();
    let num_words = blen / 4;
    let mut simple: u64 = 0;
    let mut second: u64 = 0;
    let mut i: usize = 2;
    if num_words < 2 {
        i = num_words;
    }
    assert(fletcher_sums(block@, i as nat) == (0nat, 0nat));
    while i < num_words
        invariant
            i <= num_words == blen / 4,
            i >= 2 || i == num_words,
            blen == block@.len(),
            m == 0xFFFF_FFFF,
            simple < m,
            second < m,
            fletcher_sums(block@, i as nat) == (simple as nat, second as nat),
        decreases num_words - i,
    {
        let w = le_read(block, i * 4, 4);
        proof {
            super::raw::lemma_le_value_bound(block@.subrange(i * 4, i * 4 + 4));
            super::raw::lemma_pow256_small();
        }
        let ghost prev = fletcher_sums(block@, i as nat);
        simple = (simple + w) % m;
        second = (second + simple) % m;
        i = i + 1;
        assert(fletcher_sums(block@, i as nat) == ((prev.0 + le_at(block@, 4 * (i - 1), 4)) % modulus(),
            (prev.1 + (prev.0 + le_at(block@, 4 * (i - 1), 4)) % modulus()) % modulus()));
    }
    let c1 = m - ((simple + second) % m);
    assert((second << 32u64) | c1 == second * 0x1_0000_0000 + c1) by (bit_vector)
        requires
            second < 0xFFFF_FFFF,
            c1 <= 0xFFFF_FFFF,
    ;
    (second << 32) | c1
}

/// The 8-byte checksum stored at the start of a block.
pub fn stored(block: &[u8]) -> (s: u64)
    ensures
        s == stored_of(block@),
{
    if block.len() < 8 {
        return 0;
    }
    le_read(block, 0, 8)
}

/// True if `block`'s stored checksum matches the computed one.
pub fn is_valid(block: &[u8]) -> (ok: bool)
    ensures
        ok == valid_block(block@),
{
    if block.len() < 8 {
        return false;
    }
    compute(block) == stored(block)
}

/// The checksum reads only the bytes after the 8-byte checksum field.
pub proof fn checksum_ignores_header(a: Seq<u8>, b: Seq<u8>)
    requires
        a.len() == b.len(),
        a.len() >= 8,
        a.subrange(8, a.len() as int) == b.subrange(8, b.len() as int),
    ensures
        checksum_of(a) == checksum_of(b),
{
    lemma_sums_agree(a, b, a.len() / 4);
}

proof fn lemma_sums_agree(a: Seq<u8>, b: Seq<u8>, k: nat)
    requires
        a.len() == b.len(),
        a.len() >= 8,
        k <= a.len() / 4,
        a.subrange(8, a.len() as int) == b.subrange(8, b.len() as int),
    ensures
        fletcher_sums(a, k) == fletcher_sums(b, k),
    decreases k,
{
    if k > 2 {
        lemma_sums_agree(a, b, (k - 1) as nat);
        let o = 4 * (k - 1);
        assert(a.subrange(o, o + 4) =~= a.subrange(8, a.len() as int).subrange(o - 8, o - 4));
        assert(b.subrange(o, o + 4) =~= b.subrange(8, b.len() as int).subrange(o - 8, o - 4));
    }
}

/// Stamping a block: when the first 8 bytes hold, little-endian, the checksum
/// computed over the rest of the block, the block validates.
pub proof fn stamped_block_is_valid(body: Seq<u8>, stamped: Seq<u8>)
    requires
        body.len() >= 8,
        stamped.len() == body.len(),
        stamped.subrange(8, stamped.len() as int) == body.subrange(8, body.len() as int),
        le_at(stamped, 0, 8) == checksum_of(body),
    ensures
        valid_block(stamped),
{
    checksum_ignores_header(stamped, body);
}

/// Blocks `a` and `b` of the same length differ in byte `p` only.
pub open spec fn differ_in_one_byte(a: Seq<u8>, b: Seq<u8>, p: int) -> bool {
    &&& a.len() == b.len()
    &&& 0 <= p < a.len()
    &&& a[p] != b[p]
    &&& forall|i: int| 0 <= i < a.len() && i != p ==> a[i] == b[i]
}

proof fn lemma_word_change(a: Seq<u8>, b: Seq<u8>, p: int)
    requires
        differ_in_one_byte(a, b, p),
        a.len() % 4 == 0,
    ensures
        le_at(b, 4 * (p / 4), 4) as int == le_at(a, 4 * (p / 4), 4) as int + (b[p] - a[p]) * pow256((p - 4 * (p / 4)) as nat),
        forall|i: int| 0 <= i < a.len() / 4 && i != p / 4 ==> #[trigger] le_at(b, 4 * i, 4) == le_at(a, 4 * i, 4),
{
    let j = p / 4;
    let sa = a.subrange(4 * j, 4 * j + 4);
    let sb = b.subrange(4 * j, 4 * j + 4);
    assert forall|i: int| 0 <= i < sa.len() && i != p - 4 * j implies sa[i] == sb[i] by {
        assert(sa[i] == a[4 * j + i] && sb[i] == b[4 * j + i]);
    }
    lemma_le_value_one_byte(sa, sb, p - 4 * j);
    assert forall|i: int| 0 <= i < a.len() / 4 && i != p / 4 implies #[trigger] le_at(b, 4 * i, 4) == le_at(a, 4 * i, 4) by {
        assert(a.subrange(4 * i, 4 * i + 4) =~= b.subrange(4 * i, 4 * i + 4));
    }
}

proof fn lemma_sums_before(a: Seq<u8>, b: Seq<u8>, j: int, k: nat)
    requires
        k <= j,
        forall|i: int| 0 <= i < j ==> #[trigger] le_at(b, 4 * i, 4) == le_at(a, 4 * i, 4),
    ensures
        fletcher_sums(a, k) == fletcher_sums(b, k),
    decreases k,
{
    if k > 2 {
        lemma_sums_before(a, b, j, (k - 1) as nat);
        assert(le_at(b, 4 * (k - 1), 4) == le_at(a, 4 * (k - 1), 4));
    }
}

proof fn lemma_simple_after(a: Seq<u8>, b: Seq<u8>, j: int, delta: int, k: nat)
    requires
        2 <= j < k,
        fletcher_sums(a, j as nat) == fletcher_sums(b, j as nat),
        le_at(b, 4 * j, 4) as int == le_at(a, 4 * j, 4) as int + delta,
        forall|i: int| j < i < k ==> #[trigger] le_at(b, 4 * i, 4) == le_at(a, 4 * i, 4),
    ensures
        fletcher_sums(b, k).0 as int == (fletcher_sums(a, k).0 as int + delta) % (modulus() as int),
    decreases k,
{
    let m = modulus() as int;
    let pa = fletcher_sums(a, (k - 1) as nat);
    let pb = fletcher_sums(b, (k - 1) as nat);
    let wa = le_at(a, 4 * (k - 1), 4) as int;
    if k == j + 1 {
        vstd::arithmetic::div_mod::lemma_add_mod_noop(pa.0 + wa, delta, m);
        vstd::arithmetic::div_mod::lemma_add_mod_noop_right((pa.0 + wa) % m, delta, m);
        assert(fletcher_sums(b, k).0 as int == (pb.0 + wa + delta) % m);
    } else {
        lemma_simple_after(a, b, j, delta, (k - 1) as nat);
        assert(le_at(b, 4 * (k - 1), 4) == le_at(a, 4 * (k - 1), 4));
        vstd::arithmetic::div_mod::lemma_add_mod_noop(pa.0 + delta, wa, m);
        vstd::arithmetic::div_mod::lemma_add_mod_noop_right(wa, pa.0 + delta, m);
        vstd::arithmetic::div_mod::lemma_add_mod_noop(pa.0 + wa, delta, m);
        vstd::arithmetic::div_mod::lemma_add_mod_noop_right((pa.0 + wa) % m, delta, m);
        vstd::arithmetic::div_mod::lemma_add_mod_noop_right(pa.0 + delta, wa, m);
        vstd::arithmetic::div_mod::lemma_add_mod_noop((pa.0 + delta) % m, wa, m);
        assert(fletcher_sums(b, k).0 as int == (pb.0 + wa) % m);
        assert(((pa.0 + delta) % m + wa) % m == (pa.0 + delta + wa) % m);
        assert(fletcher_sums(a, k).0 as int == (pa.0 + wa) % m);
    }
}

proof fn lemma_checksum_fixes_sums(a0: nat, a1: nat, b0: nat, b1: nat)
    requires
        a0 < modulus(),
        a1 < modulus(),
        b0 < modulus(),
        b1 < modulus(),
        a1 * 0x1_0000_0000 + (modulus() - (a0 + a1) % modulus()) == b1 * 0x1_0000_0000 + (modulus() - (b0 + b1)
            % modulus()),
    ensures
        a0 == b0,
        a1 == b1,
{
    let m = modulus() as int;
    let ca: int = m - ((a0 + a1) as int) % m;
    let cb: int = m - ((b0 + b1) as int) % m;
    assert(a1 == b1 && ca == cb) by (nonlinear_arith)
        requires
            a1 * 0x1_0000_0000 + ca == b1 * 0x1_0000_0000 + cb,
            1 <= ca < 0x1_0000_0000,
            1 <= cb < 0x1_0000_0000,
    ;
}

proof fn lemma_shift_moves(x: int, delta: int)
    requires
        0 <= x < modulus(),
        delta != 0,
        -(modulus() as int) < delta < modulus(),
    ensures
        (x + delta) % (modulus() as int) != x,
{
}

proof fn lemma_header_byte_invalidates(a: Seq<u8>, b: Seq<u8>, p: int)
    requires
        valid_block(a),
        differ_in_one_byte(a, b, p),
        p < 8,
    ensures
        !valid_block(b),
{
    assert(a.subrange(8, a.len() as int) =~= b.subrange(8, b.len() as int));
    checksum_ignores_header(a, b);
    let sa = a.subrange(0, 8);
    let sb = b.subrange(0, 8);
    assert forall|i: int| 0 <= i < sa.len() && i != p implies sa[i] == sb[i] by {
        assert(sa[i] == a[i] && sb[i] == b[i]);
    }
    lemma_le_value_one_byte(sa, sb, p);
    lemma_pow256_mono(p as nat, p as nat);
    let d: int = b[p] - a[p];
    let pw = pow256(p as nat);
    assert(d * pw != 0) by (nonlinear_arith)
        requires
            d != 0,
            pw >= 1,
    ;
}

proof fn lemma_word_delta(a: Seq<u8>, b: Seq<u8>, p: int) -> (delta: int)
    requires
        differ_in_one_byte(a, b, p),
        a.len() % 4 == 0,
    ensures
        delta != 0,
        -(modulus() as int) < delta < modulus(),
        le_at(b, 4 * (p / 4), 4) as int == le_at(a, 4 * (p / 4), 4) as int + delta,
        forall|i: int| 0 <= i < a.len() / 4 && i != p / 4 ==> #[trigger] le_at(b, 4 * i, 4) == le_at(a, 4 * i, 4),
{
    let r = p - 4 * (p / 4);
    let d: int = b[p] - a[p];
    lemma_word_change(a, b, p);
    lemma_pow256_mono(r as nat, 3);
    assert(pow256(3) == 16777216) by {
        reveal_with_fuel(pow256, 4);
    }
    let pw = pow256(r as nat);
    let delta = d * pw;
    assert(delta != 0 && -0xFFFF_FFFF < delta < 0xFFFF_FFFF) by (nonlinear_arith)
        requires
            d != 0,
            -255 <= d <= 255,
            1 <= pw <= 16777216,
            delta == d * pw,
    ;
    delta
}

/// Changing one byte of a valid block whose length is a whole number of
/// 32-bit words, in its stored checksum or anywhere in the checksummed
/// words, makes the block invalid.
pub proof fn changed_byte_invalidates(a: Seq<u8>, b: Seq<u8>, p: int)
    requires
        valid_block(a),
        a.len() % 4 == 0,
        differ_in_one_byte(a, b, p),
    ensures
        !valid_block(b),
{
    if p < 8 {
        lemma_header_byte_invalidates(a, b, p);
    } else {
        assert(a.subrange(0, 8) =~= b.subrange(0, 8));
        let kk = a.len() / 4;
        let j = p / 4;
        let delta = lemma_word_delta(a, b, p);
        lemma_sums_before(a, b, j, j as nat);
        lemma_simple_after(a, b, j, delta, kk as nat);
        let sa = fletcher_sums(a, kk as nat);
        let sb = fletcher_sums(b, kk as nat);
        if checksum_of(b) == checksum_of(a) {
            lemma_checksum_fixes_sums(sa.0, sa.1, sb.0, sb.1);
            lemma_shift_moves(sa.0 as int, delta);
        }
    }
}


/// The plain (unreduced) sum of the 32-bit words `2 .. n` of `b`.
pub open spec fn word_total(b: Seq<u8>, n: nat) -> int
    decreases n,
{
    if n <= 2 {
        0
    } else {
        word_total(b, (n - 1) as nat) + le_at(b, 4 * (n - 1), 4)
    }
}

/// The sum of the words `2 .. n` of `b`, each weighted by `k - j` for the
/// word at index `j`: in a block of `k` words the last word counts once, the
/// one before it twice, and so on.
pub open spec fn weighted_total(b: Seq<u8>, k: int, n: nat) -> int
    decreases n,
{
    if n <= 2 {
        0
    } else {
        weighted_total(b, k, (n - 1) as nat) + (k - (n - 1)) * le_at(b, 4 * (n - 1), 4)
    }
}

proof fn lemma_weighted_step(b: Seq<u8>, k: int, n: nat)
    ensures
        weighted_total(b, k + 1, n) == weighted_total(b, k, n) + word_total(b, n),
    decreases n,
{
    if n > 2 {
        lemma_weighted_step(b, k, (n - 1) as nat);
        let w = le_at(b, 4 * (n - 1), 4) as int;
        let a = k - (n - 1);
        assert((a + 1) * w == a * w + w) by (nonlinear_arith);
    }
}

proof fn lemma_sums_closed_form(b: Seq<u8>, k: nat)
    ensures
        fletcher_sums(b, k).0 as int == word_total(b, k) % (modulus() as int),
        fletcher_sums(b, k).1 as int == weighted_total(b, k as int, k) % (modulus() as int),
    decreases k,
{
    let m = modulus() as int;
    if k > 2 {
        let k1 = (k - 1) as nat;
        lemma_sums_closed_form(b, k1);
        lemma_weighted_step(b, k1 as int, k1);
        let w = le_at(b, 4 * (k - 1), 4) as int;
        let wt = word_total(b, k1);
        let tt = weighted_total(b, k1 as int, k1);
        vstd::arithmetic::div_mod::lemma_add_mod_noop(wt, w, m);
        vstd::arithmetic::div_mod::lemma_mod_twice(w, m);
        vstd::arithmetic::div_mod::lemma_mod_twice(wt, m);
        assert(fletcher_sums(b, k).0 as int == (wt + w) % m) by {
            vstd::arithmetic::div_mod::lemma_add_mod_noop_right(wt % m, w, m);
            vstd::arithmetic::div_mod::lemma_add_mod_noop(wt, w, m);
            vstd::arithmetic::div_mod::lemma_mod_twice(wt, m);
            vstd::arithmetic::div_mod::lemma_add_mod_noop(wt % m, w, m);
        }
        assert(word_total(b, k) == wt + w);
        assert((k as int - (k - 1)) * w == w) by (nonlinear_arith);
        assert(weighted_total(b, k as int, k) == weighted_total(b, k as int, k1) + w);
        assert(weighted_total(b, k as int, k1) == tt + wt);
        assert(fletcher_sums(b, k).1 as int == (tt + wt + w) % m) by {
            vstd::arithmetic::div_mod::lemma_add_mod_noop(tt, wt + w, m);
            vstd::arithmetic::div_mod::lemma_mod_twice(tt, m);
            vstd::arithmetic::div_mod::lemma_mod_twice(wt + w, m);
        }
    }
}

/// The checksum is Fletcher-64 over the 32-bit words after the checksum
/// field: with `s` the sum of those words and `t` the sum of the running
/// sums (each word counted once for itself and once for every word after
/// it), both modulo `2^32 - 1`, the stored value is `t` in the high half
/// and `2^32 - 1 - (s + t) mod (2^32 - 1)` in the low half.
pub proof fn checksum_is_fletcher64(b: Seq<u8>)
    ensures
        ({
            let n = b.len() / 4;
            let m = modulus() as int;
            let s = word_total(b, n) % m;
            let t = weighted_total(b, n as int, n) % m;
            checksum_of(b) == t * 0x1_0000_0000 + (m - (s + t) % m)
        }),
{
    lemma_sums_closed_form(b, b.len() / 4);
}

/// Each running second sum adds the simple sum that already includes the
/// current word: `t_k = (t_{k-1} + s_k) mod (2^32 - 1)`.
pub proof fn second_sum_includes_current_word(b: Seq<u8>, k: nat)
    requires
        k >= 2,
    ensures
        fletcher_sums(b, k + 1).0 as int == ((fletcher_sums(b, k).0 + le_at(b, 4 * (k as int), 4)) as int) % (modulus() as int),
        fletcher_sums(b, k + 1).1 as int == ((fletcher_sums(b, k).1 + fletcher_sums(b, k + 1).0) as int) % (modulus() as int),
{
    lemma_sums_closed_form(b, k);
    lemma_sums_closed_form(b, k + 1);
    let m = modulus() as int;
    let w = le_at(b, 4 * (k as int), 4) as int;
    let wt = word_total(b, k);
    lemma_weighted_step(b, k as int, k);
    assert(word_total(b, k + 1) == wt + w);
    assert(((k + 1) as int - ((k + 1) - 1)) * w == w) by (nonlinear_arith);
    assert(weighted_total(b, (k + 1) as int, k + 1) == weighted_total(b, (k + 1) as int, k) + w);
    vstd::arithmetic::div_mod::lemma_add_mod_noop(wt, w, m);
    vstd::arithmetic::div_mod::lemma_mod_twice(w, m);
    vstd::arithmetic::div_mod::lemma_add_mod_noop(weighted_total(b, k as int, k), wt + w, m);
    vstd::arithmetic::div_mod::lemma_mod_twice(wt + w, m);
    vstd::arithmetic::div_mod::lemma_add_mod_noop_right(wt % m, w, m);
    vstd::arithmetic::div_mod::lemma_add_mod_noop(wt % m, w, m);
    vstd::arithmetic::div_mod::lemma_mod_twice(wt, m);
}

} // verus!
