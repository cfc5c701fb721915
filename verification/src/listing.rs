//! Directory-listing order: the command line's listing by name, and the
//! desktop explorer's listing with folders first and names compared without
//! case. Both sorts are stable.
use vstd::prelude::*;
use vstd::string::StrSliceExecFns;

use crate::apfs::jrec::{dt_text, DirRec, DREC_TYPE_MASK};
use crate::commands::same_text;

verus! {

/// `a` sorts strictly before `b`: compared character by character (by code
/// point, which is also the byte order of their UTF-8 forms), a proper
/// prefix first.
pub open spec fn text_less(a: Seq<char>, b: Seq<char>) -> bool
    decreases a.len(),
{
    if a.len() == 0 {
        b.len() > 0
    } else if b.len() == 0 {
        false
    } else if a[0] != b[0] {
        a[0] < b[0]
    } else {
        text_less(a.drop_first(), b.drop_first())
    }
}

/// A sort key: a group (entries of group `false` first) and a text.
pub open spec fn key_less(a: (bool, Seq<char>), b: (bool, Seq<char>)) -> bool {
    (!a.0 && b.0) || (a.0 == b.0 && text_less(a.1, b.1))
}

/// `s` with `e` inserted after every entry that does not sort after it.
pub open spec fn insert_keyed(s: Seq<DirRec>, e: DirRec, key: spec_fn(DirRec) -> (bool, Seq<char>)) -> Seq<DirRec>
    decreases s.len(),
{
    if s.len() == 0 {
        seq![e]
    } else if key_less(key(e), key(s.last())) {
        insert_keyed(s.drop_last(), e, key).push(s.last())
    } else {
        s.push(e)
    }
}

/// `s` stably sorted by `key`.
pub open spec fn sort_keyed(s: Seq<DirRec>, key: spec_fn(DirRec) -> (bool, Seq<char>)) -> Seq<DirRec>
    decreases s.len(),
{
    if s.len() == 0 {
        s
    } else {
        insert_keyed(sort_keyed(s.drop_last(), key), s.last(), key)
    }
}

/// The command line's listing key: the name.
pub open spec fn name_key(d: DirRec) -> (bool, Seq<char>) {
    (false, d.name@)
}

/// What `str::to_lowercase` makes of `s`.
pub uninterp spec fn str_lowercase(s: Seq<char>) -> Seq<char>;

/// Calls `str::to_lowercase`; its result is named by [`str_lowercase`].
#[verifier::external_body]
fn lowercase(s: &str) -> (r: String)
    ensures
        r@ == str_lowercase(s@),
{
    s.to_lowercase()
}

/// The explorer's listing key: folders before everything else, then the
/// lowercased name.
pub open spec fn browser_key(d: DirRec) -> (bool, Seq<char>) {
    (dt_text(d.flags & DREC_TYPE_MASK) != "dir"@, str_lowercase(d.name@))
}

/// `a` sorts strictly before `b`.
fn text_lt(a: &str, b: &str) -> (r: bool)
    ensures
        r == text_less(a@, b@),
{
    let n = a.unicode_len();
    let m = b.unicode_len();
    let mut i: usize = 0;
    proof {
        assert(a@.skip(0) =~= a@);
        assert(b@.skip(0) =~= b@);
    }
    while i < n && i < m
        invariant
            n == a@.len(),
            m == b@.len(),
            i <= n,
            i <= m,
            text_less(a@, b@) == text_less(a@.skip(i as int), b@.skip(i as int)),
        decreases n - i,
    {
        let x = a.get_char(i);
        let y = b.get_char(i);
        proof {
            assert(a@.skip(i as int)[0] == x);
            assert(b@.skip(i as int)[0] == y);
            assert(a@.skip(i as int).drop_first() =~= a@.skip(i + 1));
            assert(b@.skip(i as int).drop_first() =~= b@.skip(i + 1));
        }
        if x != y {
            return x < y;
        }
        i = i + 1;
    }
    i >= n && i < m
}

/// Key `a` sorts strictly before key `b`.
fn key_lt(a: &(bool, String), b: &(bool, String)) -> (r: bool)
    ensures
        r == key_less((a.0, a.1@), (b.0, b.1@)),
{
    (!a.0 && b.0) || (a.0 == b.0 && text_lt(a.1.as_str(), b.1.as_str()))
}

proof fn lemma_insert_after_greater(
    a: Seq<DirRec>,
    b: Seq<DirRec>,
    e: DirRec,
    key: spec_fn(DirRec) -> (bool, Seq<char>),
)
    requires
        forall|m: int| 0 <= m < b.len() ==> key_less(key(e), key(#[trigger] b[m])),
    ensures
        insert_keyed(a + b, e, key) == insert_keyed(a, e, key) + b,
    decreases b.len(),
{
    if b.len() == 0 {
        assert(a + b =~= a);
        assert(insert_keyed(a, e, key) + b =~= insert_keyed(a, e, key));
    } else {
        let b1 = b.drop_last();
        assert((a + b).drop_last() =~= a + b1);
        assert((a + b).last() == b.last());
        assert(key_less(key(e), key(b[b.len() - 1])));
        lemma_insert_after_greater(a, b1, e, key);
        assert(insert_keyed(a, e, key) + b =~= (insert_keyed(a, e, key) + b1).push(b.last()));
    }
}

/// Stably sort `v` by `key`, whose values for `v`'s entries are `keys`.
fn sort_with_keys(v: &mut Vec<DirRec>, keys: &mut Vec<(bool, String)>, Ghost(key): Ghost<spec_fn(DirRec) -> (bool, Seq<char>)>)
    requires
        old(keys)@.len() == old(v)@.len(),
        forall|k: int| 0 <= k < old(v)@.len() ==> (old(keys)@[k].0, old(keys)@[k].1@) == key(#[trigger] old(v)@[k]),
    ensures
        final(v)@ == sort_keyed(old(v)@, key),
{
    let ghost orig = v@;
    let n = v.len();
    let mut i: usize = 0;
    proof {
        assert(orig.subrange(0, 0) =~= Seq::<DirRec>::empty());
        assert(v@ =~= sort_keyed(orig.subrange(0, 0), key) + orig.subrange(0, n as int));
    }
    while i < n
        invariant
            n == orig.len(),
            v@.len() == n,
            keys@.len() == n,
            i <= n,
            v@ == sort_keyed(orig.subrange(0, i as int), key) + orig.subrange(i as int, n as int),
            forall|k: int| 0 <= k < n ==> (keys@[k].0, keys@[k].1@) == key(#[trigger] v@[k]),
        decreases n - i,
    {
        let ghost sorted = sort_keyed(orig.subrange(0, i as int), key);
        let ghost before = v@;
        proof {
            lemma_sort_len(orig.subrange(0, i as int), key);
            assert(before[i as int] == orig[i as int]);
        }
        let e = v.remove(i);
        let ke = keys.remove(i);
        proof {
            assert(v@ =~= sorted + orig.subrange(i + 1, n as int));
            assert((ke.0, ke.1@) == key(e));
            assert forall|k: int| 0 <= k < n - 1 implies (keys@[k].0, keys@[k].1@) == key(#[trigger] v@[k]) by {
                if k < i {
                    assert(v@[k] == before[k]);
                } else {
                    assert(v@[k] == before[k + 1]);
                }
            }
        }
        let mut j: usize = i;
        while j > 0 && key_lt(&ke, &keys[j - 1])
            invariant
                n == orig.len(),
                v@.len() == n - 1,
                keys@.len() == n - 1,
                j <= i < n,
                sorted.len() == i,
                v@ == sorted + orig.subrange(i + 1, n as int),
                (ke.0, ke.1@) == key(e),
                forall|k: int| 0 <= k < n - 1 ==> (keys@[k].0, keys@[k].1@) == key(#[trigger] v@[k]),
                forall|m: int| j <= m < i ==> key_less(key(e), key(#[trigger] sorted[m])),
            decreases j,
        {
            proof {
                assert(v@[j - 1] == sorted[j - 1]);
            }
            j = j - 1;
        }
        let ghost mid = v@;
        v.insert(j, e);
        keys.insert(j, ke);
        proof {
            let a = sorted.subrange(0, j as int);
            let b = sorted.subrange(j as int, i as int);
            assert(sorted =~= a + b);
            lemma_insert_after_greater(a, b, e, key);
            if j > 0 {
                assert(a.last() == mid[j - 1]);
                assert(!key_less(key(e), key(a.last())));
            }
            assert(insert_keyed(a, e, key) == a.push(e));
            assert(orig.subrange(0, i + 1).drop_last() =~= orig.subrange(0, i as int));
            assert(orig.subrange(0, i + 1).last() == e);
            assert(v@ =~= (a.push(e) + b) + orig.subrange(i + 1, n as int));
            assert forall|k: int| 0 <= k < n implies (keys@[k].0, keys@[k].1@) == key(#[trigger] v@[k]) by {
                if k < j {
                    assert(v@[k] == mid[k]);
                } else if k > j {
                    assert(v@[k] == mid[k - 1]);
                }
            }
        }
        i = i + 1;
    }
    proof {
        assert(orig.subrange(0, n as int) =~= orig);
        assert(v@ =~= sort_keyed(orig, key));
    }
}

proof fn lemma_insert_len(s: Seq<DirRec>, e: DirRec, key: spec_fn(DirRec) -> (bool, Seq<char>))
    ensures
        insert_keyed(s, e, key).len() == s.len() + 1,
    decreases s.len(),
{
    if s.len() > 0 && key_less(key(e), key(s.last())) {
        lemma_insert_len(s.drop_last(), e, key);
    }
}

proof fn lemma_sort_len(s: Seq<DirRec>, key: spec_fn(DirRec) -> (bool, Seq<char>))
    ensures
        sort_keyed(s, key).len() == s.len(),
    decreases s.len(),
{
    if s.len() > 0 {
        lemma_sort_len(s.drop_last(), key);
        lemma_insert_len(sort_keyed(s.drop_last(), key), s.last(), key);
    }
}

proof fn lemma_text_less_irreflexive(a: Seq<char>)
    ensures
        !text_less(a, a),
    decreases a.len(),
{
    if a.len() > 0 {
        lemma_text_less_irreflexive(a.drop_first());
    }
}

proof fn lemma_text_less_transitive(a: Seq<char>, b: Seq<char>, c: Seq<char>)
    requires
        text_less(a, b),
        text_less(b, c),
    ensures
        text_less(a, c),
    decreases a.len(),
{
    if a.len() > 0 && b.len() > 0 && c.len() > 0 && a[0] == b[0] && b[0] == c[0] {
        lemma_text_less_transitive(a.drop_first(), b.drop_first(), c.drop_first());
    }
}

proof fn lemma_text_less_total(a: Seq<char>, b: Seq<char>)
    ensures
        a =~= b || text_less(a, b) || text_less(b, a),
    decreases a.len(),
{
    if a.len() > 0 && b.len() > 0 {
        if a[0] == b[0] {
            lemma_text_less_total(a.drop_first(), b.drop_first());
            if a.drop_first() =~= b.drop_first() {
                assert forall|k: int| 0 <= k < a.len() implies a[k] == b[k] by {
                    if k > 0 {
                        assert(a[k] == a.drop_first()[k - 1]);
                        assert(b[k] == b.drop_first()[k - 1]);
                    }
                }
                assert(a =~= b);
            }
        }
    } else if a.len() == 0 && b.len() == 0 {
        assert(a =~= b);
    }
}

proof fn lemma_text_less_asymmetric(a: Seq<char>, b: Seq<char>)
    ensures
        !(text_less(a, b) && text_less(b, a)),
{
    if text_less(a, b) && text_less(b, a) {
        lemma_text_less_transitive(a, b, a);
        lemma_text_less_irreflexive(a);
    }
}

/// Keys in order: `a` does not sort after `b`.
pub open spec fn key_le(a: (bool, Seq<char>), b: (bool, Seq<char>)) -> bool {
    !key_less(b, a)
}

proof fn lemma_key_le_transitive(a: (bool, Seq<char>), b: (bool, Seq<char>), c: (bool, Seq<char>))
    requires
        key_le(a, b),
        key_le(b, c),
    ensures
        key_le(a, c),
{
    lemma_text_less_total(a.1, b.1);
    lemma_text_less_total(b.1, c.1);
    lemma_text_less_total(a.1, c.1);
    if key_less(c, a) {
        if a.0 == b.0 && b.0 == c.0 {
            if text_less(c.1, a.1) {
                if a.1 =~= b.1 {
                    assert(a.1 == b.1);
                } else if text_less(a.1, b.1) {
                    lemma_text_less_transitive(c.1, a.1, b.1);
                }
            }
        }
    }
}

/// A sequence of entries is in order by `key`.
pub open spec fn ordered_by(s: Seq<DirRec>, key: spec_fn(DirRec) -> (bool, Seq<char>)) -> bool {
    forall|i: int, j: int| 0 <= i < j < s.len() ==> key_le(key(#[trigger] s[i]), key(#[trigger] s[j]))
}

proof fn lemma_insert_keeps_order(s: Seq<DirRec>, e: DirRec, key: spec_fn(DirRec) -> (bool, Seq<char>))
    requires
        ordered_by(s, key),
    ensures
        ordered_by(insert_keyed(s, e, key), key),
        insert_keyed(s, e, key).to_multiset() == s.to_multiset().insert(e),
    decreases s.len(),
{
    broadcast use vstd::seq_lib::group_to_multiset_ensures;

    if s.len() == 0 {
        assert(seq![e] =~= Seq::<DirRec>::empty().push(e));
    } else {
        let t = s.drop_last();
        let last = s.last();
        assert(s =~= t.push(last));
        assert(ordered_by(t, key)) by {
            assert forall|i: int, j: int| 0 <= i < j < t.len() implies key_le(key(#[trigger] t[i]), key(#[trigger] t[j])) by {
                assert(t[i] == s[i] && t[j] == s[j]);
            }
        }
        if key_less(key(e), key(last)) {
            lemma_insert_keeps_order(t, e, key);
            let u = insert_keyed(t, e, key);
            assert(u.to_multiset() =~= t.to_multiset().insert(e));
            // Every entry of `u` is `e` or one of `t`, and none sorts after `last`.
            assert forall|m: int| 0 <= m < u.len() implies key_le(key(#[trigger] u[m]), key(last)) by {
                assert(u.to_multiset().count(u[m]) > 0);
                if u[m] != e {
                    assert(t.to_multiset().count(u[m]) > 0);
                    assert(t.contains(u[m]));
                    let k = choose|k: int| 0 <= k < t.len() && t[k] == u[m];
                    assert(s[k] == t[k]);
                    assert(key_le(key(s[k]), key(s[s.len() - 1])));
                } else {
                    lemma_text_less_asymmetric(key(e).1, key(last).1);
                }
            }
            let w = u.push(last);
            assert forall|i: int, j: int| 0 <= i < j < w.len() implies key_le(key(#[trigger] w[i]), key(#[trigger] w[j])) by {
                if j == w.len() - 1 {
                    assert(w[i] == u[i]);
                } else {
                    assert(w[i] == u[i] && w[j] == u[j]);
                }
            }
            assert(w.to_multiset() =~= u.to_multiset().insert(last));
            assert(s.to_multiset() =~= t.to_multiset().insert(last));
        } else {
            let w = s.push(e);
            assert forall|i: int, j: int| 0 <= i < j < w.len() implies key_le(key(#[trigger] w[i]), key(#[trigger] w[j])) by {
                if j == w.len() - 1 {
                    assert(w[i] == s[i]);
                    if i < s.len() - 1 {
                        assert(key_le(key(s[i]), key(s[s.len() - 1])));
                        lemma_key_le_transitive(key(s[i]), key(last), key(e));
                    }
                } else {
                    assert(w[i] == s[i] && w[j] == s[j]);
                }
            }
        }
    }
}

/// A listing sort orders the entries by its key and keeps exactly the
/// entries it was given (each as often as it occurred).
pub proof fn sorted_listing_is_ordered_permutation(s: Seq<DirRec>, key: spec_fn(DirRec) -> (bool, Seq<char>))
    ensures
        ordered_by(sort_keyed(s, key), key),
        sort_keyed(s, key).to_multiset() == s.to_multiset(),
    decreases s.len(),
{
    broadcast use vstd::seq_lib::group_to_multiset_ensures;

    if s.len() == 0 {
        assert(sort_keyed(s, key) =~= Seq::<DirRec>::empty());
    } else {
        sorted_listing_is_ordered_permutation(s.drop_last(), key);
        lemma_insert_keeps_order(sort_keyed(s.drop_last(), key), s.last(), key);
        assert(s =~= s.drop_last().push(s.last()));
    }
}

/// Sort directory entries by name (the command line's `--sort name`).
pub fn sort_by_name(v: &mut Vec<DirRec>)
    ensures
        final(v)@ == sort_keyed(old(v)@, |d: DirRec| name_key(d)),
{
    let mut keys: Vec<(bool, String)> = Vec::new();
    let mut k: usize = 0;
    while k < v.len()
        invariant
            k <= v@.len(),
            keys@.len() == k,
            forall|m: int| 0 <= m < k ==> (keys@[m].0, keys@[m].1@) == name_key(#[trigger] v@[m]),
        decreases v@.len() - k,
    {
        keys.push((false, v[k].name.clone()));
        k = k + 1;
    }
    sort_with_keys(v, &mut keys, Ghost(|d: DirRec| name_key(d)));
}

/// Sort directory entries the way the explorer lists them: folders first,
/// then by lowercased name.
pub fn sort_for_browser(v: &mut Vec<DirRec>)
    ensures
        final(v)@ == sort_keyed(old(v)@, |d: DirRec| browser_key(d)),
{
    let mut keys: Vec<(bool, String)> = Vec::new();
    let mut k: usize = 0;
    proof {
        reveal_strlit("dir");
    }
    while k < v.len()
        invariant
            k <= v@.len(),
            keys@.len() == k,
            forall|m: int| 0 <= m < k ==> (keys@[m].0, keys@[m].1@) == browser_key(#[trigger] v@[m]),
        decreases v@.len() - k,
    {
        let t = v[k].entry_type();
        let is_file = !same_text(t, "dir");
        keys.push((is_file, lowercase(v[k].name.as_str())));
        k = k + 1;
    }
    sort_with_keys(v, &mut keys, Ghost(|d: DirRec| browser_key(d)));
}

} // verus!
