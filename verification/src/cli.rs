//! Dependency-free command-line option parsing.
//!
//! Supports `--flag`, `--key value`, and `--key=value`. Numbers accept decimal
//! or `0x`-prefixed hex. Unknown options are reported as usage errors rather
//! than ignored.
use vstd::prelude::*;
use vstd::string::StrSliceExecFns;

use crate::device::partition::PartitionSelector;
use crate::error::{Error, ErrorKind, Result};
use crate::text;

verus! {

/// `c` has the Unicode `White_Space` property (what `char::is_whitespace`
/// and `str::trim` go by).
pub open spec fn is_white_space(c: char) -> bool {
    ||| '\t' <= c <= '\r'
    ||| c == ' '
    ||| c == '\u{85}'
    ||| c == '\u{a0}'
    ||| c == '\u{1680}'
    ||| '\u{2000}' <= c <= '\u{200a}'
    ||| c == '\u{2028}'
    ||| c == '\u{2029}'
    ||| c == '\u{202f}'
    ||| c == '\u{205f}'
    ||| c == '\u{3000}'
}

/// `s` without its leading white space.
pub open spec fn trim_start(s: Seq<char>) -> Seq<char>
    decreases s.len(),
{
    if s.len() > 0 && is_white_space(s[0]) {
        trim_start(s.drop_first())
    } else {
        s
    }
}

/// `s` without its trailing white space.
pub open spec fn trim_end(s: Seq<char>) -> Seq<char>
    decreases s.len(),
{
    if s.len() > 0 && is_white_space(s.last()) {
        trim_end(s.drop_last())
    } else {
        s
    }
}

/// `s` without leading and trailing white space.
pub open spec fn trim(s: Seq<char>) -> Seq<char> {
    trim_end(trim_start(s))
}

/// The value of digit `c` in base `radix` (10 or 16), if it is one.
pub open spec fn digit_value(c: char, radix: nat) -> Option<nat> {
    if '0' <= c <= '9' && (c as nat) - ('0' as nat) < radix {
        Some(((c as nat) - ('0' as nat)) as nat)
    } else if 'a' <= c <= 'z' && (c as nat) - ('a' as nat) + 10 < radix {
        Some(((c as nat) - ('a' as nat) + 10) as nat)
    } else if 'A' <= c <= 'Z' && (c as nat) - ('A' as nat) + 10 < radix {
        Some(((c as nat) - ('A' as nat) + 10) as nat)
    } else {
        None
    }
}

/// The value of the digits `s` in base `radix`, if all are digits.
pub open spec fn digits_value(s: Seq<char>, radix: nat) -> Option<nat>
    decreases s.len(),
{
    if s.len() == 0 {
        Some(0)
    } else {
        match (digits_value(s.drop_last(), radix), digit_value(s.last(), radix)) {
            (Some(v), Some(d)) => Some(v * radix + d),
            _ => None,
        }
    }
}

/// What `u64::from_str_radix(s, radix)` accepts: an optional `+`, then at
/// least one digit, with a value that fits 64 bits.
pub open spec fn parse_unsigned(s: Seq<char>, radix: nat) -> Option<u64> {
    let digits = if s.len() > 0 && s[0] == '+' { s.drop_first() } else { s };
    if digits.len() == 0 {
        None
    } else {
        match digits_value(digits, radix) {
            Some(v) => if v <= u64::MAX {
                Some(v as u64)
            } else {
                None
            },
            None => None,
        }
    }
}

/// A numeric argument: after trimming white space, `0x`/`0X` and hex
/// digits, or decimal digits.
pub open spec fn number_value(s: Seq<char>) -> Option<u64> {
    let t = trim(s);
    if t.len() >= 2 && t[0] == '0' && (t[1] == 'x' || t[1] == 'X') {
        parse_unsigned(t.skip(2), 16)
    } else {
        parse_unsigned(t, 10)
    }
}

/// The characters of `s`.
fn char_vec(s: &str) -> (v: Vec<char>)
    ensures
        v@ == s@,
{
    let n = s.unicode_len();
    let mut v: Vec<char> = Vec::new();
    let mut i: usize = 0;
    while i < n
        invariant
            n == s@.len(),
            i <= n,
            v@ == s@.subrange(0, i as int),
        decreases n - i,
    {
        v.push(s.get_char(i));
        i = i + 1;
        assert(v@ =~= s@.subrange(0, i as int));
    }
    assert(s@.subrange(0, n as int) =~= s@);
    v
}

/// The characters `v[from..to]` as a string.
fn string_of(v: &Vec<char>, from: usize, to: usize) -> (s: String)
    requires
        from <= to <= v@.len(),
    ensures
        s@ == v@.subrange(from as int, to as int),
{
    let mut s = String::new();
    let mut i = from;
    while i < to
        invariant
            from <= i <= to <= v@.len(),
            s@ == v@.subrange(from as int, i as int),
        decreases to - i,
    {
        s.push(v[i]);
        i = i + 1;
        assert(s@ =~= v@.subrange(from as int, i as int));
    }
    s
}

proof fn lemma_digits_prefix_bound(s: Seq<char>, radix: nat, k: int)
    requires
        0 <= k <= s.len(),
        radix > 0,
    ensures
        digits_value(s, radix) matches Some(v) ==> (digits_value(s.subrange(0, k), radix) matches Some(w) && w <= v),
    decreases s.len(),
{
    if k < s.len() {
        lemma_digits_prefix_bound(s.drop_last(), radix, k);
        assert(s.drop_last().subrange(0, k) =~= s.subrange(0, k));
        if let Some(v) = digits_value(s, radix) {
            let p = digits_value(s.drop_last(), radix)->0;
            assert(p * radix >= p) by (nonlinear_arith)
                requires
                    radix > 0,
            ;
        }
    } else {
        assert(s.subrange(0, k) =~= s);
    }
}

/// Parse `t[from..]` the way `u64::from_str_radix` does.
fn parse_unsigned_at(t: &Vec<char>, from: usize, radix: u64) -> (r: Option<u64>)
    requires
        from <= t@.len(),
        radix == 10 || radix == 16,
    ensures
        r == parse_unsigned(t@.skip(from as int), radix as nat),
{
    let ghost s = t@.skip(from as int);
    let mut i = from;
    if i < t.len() && t[i] == '+' {
        i = i + 1;
    }
    let ghost digits = if s.len() > 0 && s[0] == '+' { s.drop_first() } else { s };
    assert(digits =~= t@.skip(i as int));
    if i == t.len() {
        return None;
    }
    let start = i;
    let mut v: u64 = 0;
    while i < t.len()
        invariant
            start <= i <= t@.len(),
            start < t@.len(),
            radix == 10 || radix == 16,
            digits == t@.skip(start as int),
            s == t@.skip(from as int),
            digits == (if s.len() > 0 && s[0] == '+' { s.drop_first() } else { s }),
            digits_value(t@.subrange(start as int, i as int), radix as nat) == Some(v as nat),
        decreases t@.len() - i,
    {
        let c = t[i];
        let d: u64 = if '0' <= c && c <= '9' && (c as u64) - ('0' as u64) < radix {
            (c as u64) - ('0' as u64)
        } else if 'a' <= c && c <= 'z' && (c as u64) - ('a' as u64) + 10 < radix {
            (c as u64) - ('a' as u64) + 10
        } else if 'A' <= c && c <= 'Z' && (c as u64) - ('A' as u64) + 10 < radix {
            (c as u64) - ('A' as u64) + 10
        } else {
            proof {
                let k = (i - start) as int;
                assert(digits.subrange(0, k + 1).last() == c);
                assert(digits.subrange(0, k + 1).drop_last() =~= t@.subrange(start as int, i as int));
                lemma_digits_prefix_bound(digits, radix as nat, k + 1);
                assert(digit_value(c, radix as nat) is None);
                assert(digits_value(digits.subrange(0, k + 1), radix as nat) is None);
                assert(digits_value(digits, radix as nat) is None);
            }
            return None;
        };
        assert(digit_value(c, radix as nat) == Some(d as nat));
        let ghost k = (i - start) as int;
        proof {
            assert(t@.subrange(start as int, i + 1).drop_last() =~= t@.subrange(start as int, i as int));
            assert(t@.subrange(start as int, i + 1).last() == c);
            assert(digits.subrange(0, k + 1) =~= t@.subrange(start as int, i + 1));
        }
        let next = match v.checked_mul(radix) {
            Some(m) => m.checked_add(d),
            None => None,
        };
        match next {
            Some(n) => {
                v = n;
            },
            None => {
                proof {
                    lemma_digits_prefix_bound(digits, radix as nat, k + 1);
                    assert(digits_value(digits.subrange(0, k + 1), radix as nat) == Some((v * radix + d) as nat));
                    assert(v * radix + d > u64::MAX);
                }
                return None;
            },
        }
        i = i + 1;
    }
    proof {
        assert(t@.subrange(start as int, i as int) =~= digits);
    }
    Some(v)
}

/// Parse a numeric argument: decimal, or `0x`/`0X` hex (surrounding white
/// space ignored).
pub fn parse_number(s: &str) -> (r: Option<u64>)
    ensures
        r == number_value(s@),
{
    let v = char_vec(s);
    let (start, end) = trim_bounds(&v);
    let t = copy_range(&v, start, end);
    proof {
        assert(t@ =~= trim(v@));
    }
    if t.len() >= 2 && t[0] == '0' && (t[1] == 'x' || t[1] == 'X') {
        parse_unsigned_at(&t, 2, 16)
    } else {
        proof {
            assert(t@.skip(0) =~= t@);
        }
        parse_unsigned_at(&t, 0, 10)
    }
}

/// `c` is white space (see [`is_white_space`]).
fn is_ws(c: char) -> (r: bool)
    ensures
        r == is_white_space(c),
{
    ('\t' <= c && c <= '\r') || c == ' ' || c == '\u{85}' || c == '\u{a0}' || c == '\u{1680}' || ('\u{2000}' <= c
        && c <= '\u{200a}') || c == '\u{2028}' || c == '\u{2029}' || c == '\u{202f}' || c == '\u{205f}' || c
        == '\u{3000}'
}

/// The characters `v[from..to]`.
fn copy_range(v: &Vec<char>, from: usize, to: usize) -> (r: Vec<char>)
    requires
        from <= to <= v@.len(),
    ensures
        r@ == v@.subrange(from as int, to as int),
{
    let mut r: Vec<char> = Vec::new();
    let mut i = from;
    while i < to
        invariant
            from <= i <= to <= v@.len(),
            r@ == v@.subrange(from as int, i as int),
        decreases to - i,
    {
        r.push(v[i]);
        i = i + 1;
        assert(r@ =~= v@.subrange(from as int, i as int));
    }
    r
}


/// `s` without leading and trailing white space.
pub fn trimmed(s: &str) -> (r: String)
    ensures
        r@ == trim(s@),
{
    let v = char_vec(s);
    let (start, end) = trim_bounds(&v);
    string_of(&v, start, end)
}

/// The bounds of `v` without its leading and trailing white space.
fn trim_bounds(v: &Vec<char>) -> (r: (usize, usize))
    ensures
        r.0 <= r.1 <= v@.len(),
        v@.subrange(r.0 as int, r.1 as int) == trim(v@),
{
    let mut start: usize = 0;
    let n = v.len();
    assert(v@.skip(0) =~= v@);
    while start < n && is_ws(v[start])
        invariant
            start <= n == v@.len(),
            trim_start(v@) == trim_start(v@.skip(start as int)),
        decreases n - start,
    {
        proof {
            assert(v@.skip(start as int).drop_first() =~= v@.skip(start + 1));
        }
        start = start + 1;
    }
    let mut end: usize = n;
    proof {
        assert(v@.skip(start as int) =~= v@.subrange(start as int, n as int));
    }
    while end > start && is_ws(v[end - 1])
        invariant
            start <= end <= n == v@.len(),
            trim(v@) == trim_end(v@.subrange(start as int, end as int)),
        decreases end,
    {
        proof {
            assert(v@.subrange(start as int, end as int).drop_last() =~= v@.subrange(start as int, end - 1));
        }
        end = end - 1;
    }
    (start, end)
}

/// Parse `s` the way `u64::from_str_radix(s, radix)` does.
pub fn parse_unsigned_str(s: &str, radix: u64) -> (r: Option<u64>)
    requires
        radix == 10 || radix == 16,
    ensures
        r == parse_unsigned(s@, radix as nat),
{
    let v = char_vec(s);
    assert(v@.skip(0) =~= v@);
    parse_unsigned_at(&v, 0, radix)
}

/// Parsed options shared across commands. Commands read the fields they
/// need.
#[derive(Debug, Clone)]
pub struct Options {
    pub container: Option<String>,
    pub volume: Option<u32>,
    pub volume_name: Option<String>,
    pub partition: PartitionSelector,
    pub offset: Option<u64>,
    pub max_xid: u64,
    pub json: bool,
    pub sizes: bool,
    pub path: Option<String>,
    pub fsoid: Option<u64>,
    pub output: Option<String>,
    pub snapshot: Option<String>,
    pub snapshot_xid: Option<u64>,
    pub best_effort: bool,
    pub raw_extents: bool,
    pub overwrite: bool,
    pub dry_run: bool,
    pub records: bool,
    pub extents: bool,
    pub xattrs: bool,
    pub partitions: bool,
    /// Accepted (so `--recursive` isn't rejected) but not consumed by any
    /// command.
    pub recursive: bool,
    pub metadata: Option<String>,
    pub sort: Option<String>,
    /// Per-command `--help`, accepted for forward compatibility.
    pub help: bool,
}

/// The text of an optional string.
pub open spec fn opt_text(o: Option<String>) -> Option<Seq<char>> {
    match o {
        Some(s) => Some(s@),
        None => None,
    }
}

/// The options before any argument is applied: everything off or absent,
/// automatic partition selection, and no xid limit.
pub open spec fn default_options(o: Options) -> bool {
    &&& o.container is None && o.volume is None && o.volume_name is None
    &&& o.partition == PartitionSelector::Auto
    &&& o.offset is None && o.max_xid == u64::MAX
    &&& !o.json && !o.sizes && o.path is None && o.fsoid is None && o.output is None
    &&& o.snapshot is None && o.snapshot_xid is None
    &&& !o.best_effort && !o.raw_extents && !o.overwrite && !o.dry_run && !o.records && !o.extents
    &&& !o.xattrs && !o.partitions && !o.recursive && o.metadata is None && o.sort is None && !o.help
}

impl Default for Options {
    fn default() -> (o: Options)
        ensures
            default_options(o),
    {
        Options {
            container: None,
            volume: None,
            volume_name: None,
            partition: PartitionSelector::Auto,
            offset: None,
            max_xid: u64::MAX,
            json: false,
            sizes: false,
            path: None,
            fsoid: None,
            output: None,
            snapshot: None,
            snapshot_xid: None,
            best_effort: false,
            raw_extents: false,
            overwrite: false,
            dry_run: false,
            records: false,
            extents: false,
            xattrs: false,
            partitions: false,
            recursive: false,
            metadata: None,
            sort: None,
            help: false,
        }
    }
}

/// The boolean flags, which take no value.
pub open spec fn is_flag_name(n: Seq<char>) -> bool {
    ||| n == "json"@
    ||| n == "sizes"@
    ||| n == "best-effort"@
    ||| n == "raw-extents"@
    ||| n == "overwrite"@
    ||| n == "dry-run"@
    ||| n == "records"@
    ||| n == "extents"@
    ||| n == "xattrs"@
    ||| n == "partitions"@
    ||| n == "recursive"@
    ||| n == "help"@
}

/// The options that take a value.
pub open spec fn is_value_key(k: Seq<char>) -> bool {
    ||| k == "container"@
    ||| k == "volume"@
    ||| k == "volume-name"@
    ||| k == "partition"@
    ||| k == "offset"@
    ||| k == "max-xid"@
    ||| k == "path"@
    ||| k == "fsoid"@
    ||| k == "output"@
    ||| k == "snapshot"@
    ||| k == "snapshot-xid"@
    ||| k == "metadata"@
    ||| k == "sort"@
    ||| k == "block-size"@
}

/// `v` is an acceptable value for option `k`.
pub open spec fn value_ok(k: Seq<char>, v: Seq<char>) -> bool {
    if k == "volume"@ {
        number_value(v) matches Some(n) && n <= u32::MAX
    } else if k == "partition"@ {
        v == "auto"@ || (number_value(v) matches Some(n) && n <= u32::MAX)
    } else if k == "offset"@ || k == "max-xid"@ || k == "fsoid"@ || k == "snapshot-xid"@ {
        number_value(v) is Some
    } else {
        true
    }
}

/// The index of the first `c` in `s` from `i` on.
pub open spec fn index_of(s: Seq<char>, c: char, i: int) -> Option<int>
    decreases s.len() - i,
{
    if i >= s.len() {
        None
    } else if s[i] == c {
        Some(i)
    } else {
        index_of(s, c, i + 1)
    }
}

/// Splitting the arguments from `args[i]` on into `(key, value)` pairs and
/// flags, in order; `None` when an argument does not start with `--` or a
/// valued option has no value.
pub open spec fn tokenize(args: Seq<Seq<char>>, i: int) -> Option<(Seq<(Seq<char>, Seq<char>)>, Seq<Seq<char>>)>
    decreases args.len() - i,
{
    if i >= args.len() {
        Some((Seq::empty(), Seq::empty()))
    } else {
        let a = args[i];
        if !(a.len() >= 2 && a[0] == '-' && a[1] == '-') {
            None
        } else {
            let name = a.skip(2);
            match index_of(name, '=', 0) {
                Some(p) => match tokenize(args, i + 1) {
                    None => None,
                    Some((raw, flags)) => Some((seq![(name.take(p), name.skip(p + 1))] + raw, flags)),
                },
                None => if is_flag_name(name) {
                    match tokenize(args, i + 1) {
                        None => None,
                        Some((raw, flags)) => Some((raw, seq![name] + flags)),
                    }
                } else if i + 1 >= args.len() {
                    None
                } else {
                    match tokenize(args, i + 2) {
                        None => None,
                        Some((raw, flags)) => Some((seq![(name, args[i + 1])] + raw, flags)),
                    }
                },
            }
        }
    }
}

/// The value of the last pair of `raw` whose key is `k`.
pub open spec fn raw_last(raw: Seq<(Seq<char>, Seq<char>)>, k: Seq<char>) -> Option<Seq<char>>
    decreases raw.len(),
{
    if raw.len() == 0 {
        None
    } else if raw.last().0 == k {
        Some(raw.last().1)
    } else {
        raw_last(raw.drop_last(), k)
    }
}

/// Every key of `raw` is a valued option, and its last value is acceptable.
pub open spec fn raw_valid(raw: Seq<(Seq<char>, Seq<char>)>) -> bool {
    forall|j: int|
        0 <= j < raw.len() ==> is_value_key(#[trigger] raw[j].0) && value_ok(raw[j].0, raw_last(raw, raw[j].0)->0)
}

/// The numeric option `k` of `raw`, when given.
pub open spec fn raw_number(raw: Seq<(Seq<char>, Seq<char>)>, k: Seq<char>) -> Option<u64> {
    match raw_last(raw, k) {
        None => None,
        Some(v) => number_value(v),
    }
}

/// `o` holds the options given by `raw` and `flags`, the rest at their
/// defaults.
pub open spec fn options_match(o: Options, raw: Seq<(Seq<char>, Seq<char>)>, flags: Seq<Seq<char>>) -> bool {
    &&& o.json == flags.contains("json"@)
    &&& o.sizes == flags.contains("sizes"@)
    &&& o.best_effort == flags.contains("best-effort"@)
    &&& o.raw_extents == flags.contains("raw-extents"@)
    &&& o.overwrite == flags.contains("overwrite"@)
    &&& o.dry_run == flags.contains("dry-run"@)
    &&& o.records == flags.contains("records"@)
    &&& o.extents == flags.contains("extents"@)
    &&& o.xattrs == flags.contains("xattrs"@)
    &&& o.partitions == flags.contains("partitions"@)
    &&& o.recursive == flags.contains("recursive"@)
    &&& o.help == flags.contains("help"@)
    &&& opt_text(o.container) == raw_last(raw, "container"@)
    &&& o.volume == (match raw_number(raw, "volume"@) {
        Some(n) => Some(n as u32),
        None => None,
    })
    &&& opt_text(o.volume_name) == raw_last(raw, "volume-name"@)
    &&& o.partition == (match raw_last(raw, "partition"@) {
        None => PartitionSelector::Auto,
        Some(v) => if v == "auto"@ {
            PartitionSelector::Auto
        } else {
            PartitionSelector::Index(number_value(v)->0 as u32)
        },
    })
    &&& o.offset == raw_number(raw, "offset"@)
    &&& o.max_xid == (match raw_number(raw, "max-xid"@) {
        Some(n) => n,
        None => u64::MAX,
    })
    &&& opt_text(o.path) == raw_last(raw, "path"@)
    &&& o.fsoid == raw_number(raw, "fsoid"@)
    &&& opt_text(o.output) == raw_last(raw, "output"@)
    &&& opt_text(o.snapshot) == raw_last(raw, "snapshot"@)
    &&& o.snapshot_xid == raw_number(raw, "snapshot-xid"@)
    &&& opt_text(o.metadata) == raw_last(raw, "metadata"@)
    &&& opt_text(o.sort) == raw_last(raw, "sort"@)
}

/// The text of each argument.
pub open spec fn args_view(args: Seq<String>) -> Seq<Seq<char>> {
    args.map_values(|a: String| a@)
}

/// The text of each `(key, value)` pair.
pub open spec fn pairs_view(raw: Seq<(String, String)>) -> Seq<(Seq<char>, Seq<char>)> {
    raw.map_values(|p: (String, String)| (p.0@, p.1@))
}

/// The text of each flag.
pub open spec fn names_view(flags: Seq<String>) -> Seq<Seq<char>> {
    flags.map_values(|f: String| f@)
}

/// `name` is one of the boolean flags.
fn is_flag(name: &String) -> (r: bool)
    ensures
        r == is_flag_name(name@),
{
    *name == String::from_str("json") || *name == String::from_str("sizes") || *name == String::from_str("best-effort")
        || *name == String::from_str("raw-extents") || *name == String::from_str("overwrite") || *name
        == String::from_str("dry-run") || *name == String::from_str("records") || *name == String::from_str("extents")
        || *name == String::from_str("xattrs") || *name == String::from_str("partitions") || *name
        == String::from_str("recursive") || *name == String::from_str("help")
}

/// `flags` holds `name`.
fn has_flag(flags: &Vec<String>, name: &str) -> (r: bool)
    ensures
        r == names_view(flags@).contains(name@),
{
    let target = String::from_str(name);
    let mut i: usize = 0;
    while i < flags.len()
        invariant
            target@ == name@,
            i <= flags@.len(),
            forall|j: int| 0 <= j < i ==> names_view(flags@)[j] != name@,
        decreases flags@.len() - i,
    {
        if flags[i] == target {
            assert(names_view(flags@)[i as int] == name@);
            return true;
        }
        i = i + 1;
    }
    false
}

/// The value of the last pair of `raw` whose key is `key`.
fn last_value(raw: &Vec<(String, String)>, key: &str) -> (r: Option<String>)
    ensures
        opt_text(r) == raw_last(pairs_view(raw@), key@),
{
    let target = String::from_str(key);
    let mut i: usize = raw.len();
    assert(pairs_view(raw@).subrange(0, i as int) =~= pairs_view(raw@));
    while i > 0
        invariant
            target@ == key@,
            i <= raw@.len(),
            raw_last(pairs_view(raw@), key@) == raw_last(pairs_view(raw@).subrange(0, i as int), key@),
        decreases i,
    {
        let ghost pre = pairs_view(raw@).subrange(0, i as int);
        proof {
            assert(pre.drop_last() =~= pairs_view(raw@).subrange(0, i - 1));
            assert(pre.last() == (raw@[i - 1].0@, raw@[i - 1].1@));
        }
        if raw[i - 1].0 == target {
            return Some(raw[i - 1].1.clone());
        }
        i = i - 1;
    }
    None
}

/// The numeric option `key` of `raw`, when given.
fn number_option(raw: &Vec<(String, String)>, key: &str) -> (r: Option<u64>)
    ensures
        r == raw_number(pairs_view(raw@), key@),
{
    match last_value(raw, key) {
        Some(v) => parse_number(v.as_str()),
        None => None,
    }
}


/// `a` and `b` in front of the pairs and flags of `t`, when present.
pub open spec fn prepend_tokens(
    a: Seq<(Seq<char>, Seq<char>)>,
    b: Seq<Seq<char>>,
    t: Option<(Seq<(Seq<char>, Seq<char>)>, Seq<Seq<char>>)>,
) -> Option<(Seq<(Seq<char>, Seq<char>)>, Seq<Seq<char>>)> {
    match t {
        None => None,
        Some((r, f)) => Some((a + r, b + f)),
    }
}

proof fn lemma_raw_last_witness(raw: Seq<(Seq<char>, Seq<char>)>, k: Seq<char>) -> (j: int)
    requires
        raw_last(raw, k) is Some,
    ensures
        0 <= j < raw.len(),
        raw[j].0 == k,
    decreases raw.len(),
{
    if raw.last().0 == k {
        raw.len() - 1
    } else {
        let j = lemma_raw_last_witness(raw.drop_last(), k);
        assert(raw.drop_last()[j] == raw[j]);
        j
    }
}

/// `key` names a valued option.
fn is_value_option(key: &String) -> (r: bool)
    ensures
        r == is_value_key(key@),
{
    *key == String::from_str("container") || *key == String::from_str("volume") || *key == String::from_str(
        "volume-name",
    ) || *key == String::from_str("partition") || *key == String::from_str("offset") || *key == String::from_str(
        "max-xid",
    ) || *key == String::from_str("path") || *key == String::from_str("fsoid") || *key == String::from_str("output")
        || *key == String::from_str("snapshot") || *key == String::from_str("snapshot-xid") || *key
        == String::from_str("metadata") || *key == String::from_str("sort") || *key == String::from_str("block-size")
}

/// `v` is an acceptable value for option `key`.
fn value_acceptable(key: &String, v: &String) -> (r: bool)
    ensures
        r == value_ok(key@, v@),
{
    if *key == String::from_str("volume") {
        match parse_number(v.as_str()) {
            Some(n) => n <= u32::MAX as u64,
            None => false,
        }
    } else if *key == String::from_str("partition") {
        if *v == String::from_str("auto") {
            true
        } else {
            match parse_number(v.as_str()) {
                Some(n) => n <= u32::MAX as u64,
                None => false,
            }
        }
    } else if *key == String::from_str("offset") || *key == String::from_str("max-xid") || *key == String::from_str(
        "fsoid",
    ) || *key == String::from_str("snapshot-xid") {
        parse_number(v.as_str()).is_some()
    } else {
        true
    }
}

/// The usage error carrying message `m`.
fn usage(m: String) -> (e: Error)
    ensures
        e.kind == ErrorKind::Usage,
        e.message@ == m@,
        e.context is None,
{
    Error::new(ErrorKind::Usage, m)
}

/// Split the arguments into `(key, value)` pairs and flags.
fn tokenize_args(args: &[String]) -> (r: Result<(Vec<(String, String)>, Vec<String>)>)
    ensures
        match tokenize(args_view(args@), 0) {
            None => r matches Err(e) && e.kind == ErrorKind::Usage,
            Some((raw, flags)) => r matches Ok((rv, fv)) && pairs_view(rv@) == raw && names_view(fv@) == flags,
        },
{
    let ghost av = args_view(args@);
    let mut raw: Vec<(String, String)> = Vec::new();
    let mut flags: Vec<String> = Vec::new();
    let mut i: usize = 0;
    proof {
        assert(pairs_view(raw@) =~= Seq::empty());
        assert(names_view(flags@) =~= Seq::empty());
        let t = tokenize(av, 0);
        if let Some((r0, f0)) = t {
            assert(Seq::<(Seq<char>, Seq<char>)>::empty() + r0 =~= r0);
            assert(Seq::<Seq<char>>::empty() + f0 =~= f0);
        }
    }
    while i < args.len()
        invariant
            av == args_view(args@),
            i <= args@.len(),
            tokenize(av, 0) == prepend_tokens(pairs_view(raw@), names_view(flags@), tokenize(av, i as int)),
        decreases args@.len() - i,
    {
        let chars = char_vec(args[i].as_str());
        let ghost a = av[i as int];
        assert(chars@ == a);
        if !(chars.len() >= 2 && chars[0] == '-' && chars[1] == '-') {
            let mut m = String::from_str("unexpected argument `");
            text::push_str(&mut m, args[i].as_str());
            text::push_str(&mut m, "` (options start with `--`)");
            return Err(usage(m));
        }
        let n = chars.len();
        let ghost name = a.skip(2);
        let mut p: usize = 2;
        while p < n && chars[p] != '='
            invariant
                2 <= p <= n == chars@.len(),
                name == chars@.skip(2),
                index_of(name, '=', 0) == index_of(name, '=', p - 2),
            decreases n - p,
        {
            p = p + 1;
        }
        let ghost rest_before = prepend_tokens(pairs_view(raw@), names_view(flags@), tokenize(av, i as int));
        if p < n {
            let key = string_of(&chars, 2, p);
            let val = string_of(&chars, p + 1, n);
            proof {
                assert(key@ =~= name.take(p - 2));
                assert(val@ =~= name.skip(p - 1));
            }
            let ghost before = raw@;
            raw.push((key, val));
            proof {
                assert(pairs_view(raw@) =~= pairs_view(before).push((key@, val@)));
                if let Some((r1, f1)) = tokenize(av, i + 1) {
                    assert(pairs_view(before) + (seq![(key@, val@)] + r1) =~= pairs_view(raw@) + r1);
                }
            }
            i = i + 1;
        } else {
            let name_s = string_of(&chars, 2, n);
            proof {
                assert(name_s@ =~= name);
            }
            if is_flag(&name_s) {
                let ghost before = flags@;
                flags.push(name_s);
                proof {
                    assert(names_view(flags@) =~= names_view(before).push(name));
                    if let Some((r1, f1)) = tokenize(av, i + 1) {
                        assert(names_view(before) + (seq![name] + f1) =~= names_view(flags@) + f1);
                    }
                }
                i = i + 1;
            } else {
                if i + 1 >= args.len() {
                    let mut m = String::from_str("option `--");
                    text::push_str(&mut m, name_s.as_str());
                    text::push_str(&mut m, "` requires a value");
                    return Err(usage(m));
                }
                let value = args[i + 1].clone();
                let ghost before = raw@;
                raw.push((name_s, value));
                proof {
                    assert(av[i + 1] == args@[i + 1]@);
                    assert(pairs_view(raw@) =~= pairs_view(before).push((name, av[i + 1])));
                    if let Some((r1, f1)) = tokenize(av, i + 2) {
                        assert(pairs_view(before) + (seq![(name, av[i + 1])] + r1) =~= pairs_view(raw@) + r1);
                    }
                }
                i = i + 2;
            }
        }
    }
    proof {
        assert(pairs_view(raw@) + Seq::<(Seq<char>, Seq<char>)>::empty() =~= pairs_view(raw@));
        assert(names_view(flags@) + Seq::<Seq<char>>::empty() =~= names_view(flags@));
    }
    Ok((raw, flags))
}

/// Parse command options from the argument list (after the command name).
pub fn parse(args: &[String]) -> (r: Result<Options>)
    ensures
        match tokenize(args_view(args@), 0) {
            None => r matches Err(e) && e.kind == ErrorKind::Usage,
            Some((raw, flags)) => if raw_valid(raw) {
                r matches Ok(o) && options_match(o, raw, flags)
            } else {
                r matches Err(e) && e.kind == ErrorKind::Usage
            },
        },
{
    let (raw, flags) = tokenize_args(args)?;
    let ghost pv = pairs_view(raw@);
    // Every option must be known and its (last) value acceptable.
    let mut j: usize = 0;
    while j < raw.len()
        invariant
            pv == pairs_view(raw@),
            tokenize(args_view(args@), 0) == Some((pv, names_view(flags@))),
            j <= raw@.len(),
            forall|jj: int|
                0 <= jj < j ==> is_value_key(#[trigger] pv[jj].0) && value_ok(pv[jj].0, raw_last(pv, pv[jj].0)->0),
        decreases raw@.len() - j,
    {
        let key = &raw[j].0;
        assert(pv[j as int].0 == key@);
        if !is_value_option(key) {
            let mut m = String::from_str("unknown option `--");
            text::push_str(&mut m, key.as_str());
            text::push_str(&mut m, "`");
            return Err(usage(m));
        }
        proof {
            assert(pv[j as int].0 == key@);
            assert(raw_last(pv, key@) is Some) by {
                lemma_raw_last_some(pv, j as int);
            }
        }
        let v = match last_value(&raw, key.as_str()) {
            Some(v) => v,
            None => {
                return Err(usage(String::from_str("missing option value")));
            },
        };
        if !value_acceptable(key, &v) {
            let mut m = String::from_str("invalid --");
            text::push_str(&mut m, key.as_str());
            text::push_str(&mut m, " `");
            text::push_str(&mut m, v.as_str());
            text::push_str(&mut m, "`");
            return Err(usage(m));
        }
        j = j + 1;
    }
    let volume = match number_option(&raw, "volume") {
        Some(n) => {
            proof {
                let w = lemma_raw_last_witness(pv, "volume"@);
            }
            Some(n as u32)
        },
        None => None,
    };
    let partition = match last_value(&raw, "partition") {
        None => PartitionSelector::Auto,
        Some(v) => {
            proof {
                let w = lemma_raw_last_witness(pv, "partition"@);
            }
            if v == String::from_str("auto") {
                PartitionSelector::Auto
            } else {
                match parse_number(v.as_str()) {
                    Some(n) => PartitionSelector::Index(n as u32),
                    None => PartitionSelector::Auto,
                }
            }
        },
    };
    let max_xid = match number_option(&raw, "max-xid") {
        Some(n) => n,
        None => u64::MAX,
    };
    let opts = Options {
        container: last_value(&raw, "container"),
        volume,
        volume_name: last_value(&raw, "volume-name"),
        partition,
        offset: number_option(&raw, "offset"),
        max_xid,
        json: has_flag(&flags, "json"),
        sizes: has_flag(&flags, "sizes"),
        path: last_value(&raw, "path"),
        fsoid: number_option(&raw, "fsoid"),
        output: last_value(&raw, "output"),
        snapshot: last_value(&raw, "snapshot"),
        snapshot_xid: number_option(&raw, "snapshot-xid"),
        best_effort: has_flag(&flags, "best-effort"),
        raw_extents: has_flag(&flags, "raw-extents"),
        overwrite: has_flag(&flags, "overwrite"),
        dry_run: has_flag(&flags, "dry-run"),
        records: has_flag(&flags, "records"),
        extents: has_flag(&flags, "extents"),
        xattrs: has_flag(&flags, "xattrs"),
        partitions: has_flag(&flags, "partitions"),
        recursive: has_flag(&flags, "recursive"),
        metadata: last_value(&raw, "metadata"),
        sort: last_value(&raw, "sort"),
        help: has_flag(&flags, "help"),
    };
    Ok(opts)
}

proof fn lemma_raw_last_some(raw: Seq<(Seq<char>, Seq<char>)>, j: int)
    requires
        0 <= j < raw.len(),
    ensures
        raw_last(raw, raw[j].0) is Some,
    decreases raw.len(),
{
    if raw.last().0 != raw[j].0 {
        assert(j < raw.len() - 1);
        assert(raw.drop_last()[j] == raw[j]);
        lemma_raw_last_some(raw.drop_last(), j);
    }
}

} // verus!
