//! Structural check of a JSON-like byte payload and lookup of a field's raw
//! value, both by a single scan over the bytes.
use vstd::prelude::*;

verus! {

pub const QUOTE: u8 = 0x22;
pub const BACKSLASH: u8 = 0x5c;
pub const COLON: u8 = 0x3a;
pub const COMMA: u8 = 0x2c;
pub const SPACE: u8 = 0x20;
pub const OPEN_SQUARE: u8 = 0x5b;
pub const CLOSE_SQUARE: u8 = 0x5d;
pub const OPEN_CURLY: u8 = 0x7b;
pub const CLOSE_CURLY: u8 = 0x7d;

/// The flags that the structural check carries from one byte to the next.
pub struct ScanState {
    /// Not inside a quoted string.
    pub outside: bool,
    /// A colon was seen since the last quote (cleared by an opening quote).
    pub colon: bool,
    /// Square brackets are balanced.
    pub square: bool,
    /// Curly braces are balanced.
    pub curly: bool,
    /// The byte read before the current one.
    pub prev: u8,
}

pub open spec fn scan_start() -> ScanState {
    ScanState { outside: true, colon: true, square: true, curly: true, prev: SPACE }
}

/// One byte of the scan.  A quote preceded by a backslash is escaped.
pub open spec fn scan_step(st: ScanState, b: u8) -> ScanState {
    let square = if b == OPEN_SQUARE && st.outside {
        false
    } else if b == CLOSE_SQUARE && st.outside {
        !st.square
    } else {
        st.square
    };
    let curly = if b == OPEN_CURLY && st.outside {
        false
    } else if b == CLOSE_CURLY && st.outside {
        !st.curly
    } else {
        st.curly
    };
    let unescaped_quote = b == QUOTE && st.prev != BACKSLASH;
    let (outside, colon) = if unescaped_quote && st.outside {
        (false, false)
    } else if b == COLON && st.outside {
        (true, true)
    } else if unescaped_quote && !st.outside {
        (true, true)
    } else {
        (st.outside, st.colon)
    };
    ScanState { outside, colon, square, curly, prev: b }
}

/// The state after scanning `s` from `st`, one byte at a time from the front.
pub open spec fn scan_from(st: ScanState, s: Seq<u8>) -> ScanState
    decreases s.len(),
{
    if s.len() == 0 {
        st
    } else {
        scan_step(scan_from(st, s.drop_last()), s.last())
    }
}

/// Opens with `{` and closes with `}`, or opens with `[` and closes with `]`.
pub open spec fn well_delimited(j: Seq<u8>) -> bool {
    j.len() >= 2 && ((j[0] == OPEN_CURLY && j.last() == CLOSE_CURLY) || (j[0] == OPEN_SQUARE && j.last() == CLOSE_SQUARE))
}

/// The structural check: delimiters at both ends, and a scan that ends outside
/// any string, with the colon flag set and the square brackets balanced.
pub open spec fn json_valid(j: Seq<u8>) -> bool {
    let st = scan_from(scan_start(), j);
    well_delimited(j) && st.outside && st.colon && st.square
}

fn step(st: ScanState, b: u8) -> (r: ScanState)
    ensures
        r == scan_step(st, b),
{
    let square = if b == OPEN_SQUARE && st.outside {
        false
    } else if b == CLOSE_SQUARE && st.outside {
        !st.square
    } else {
        st.square
    };
    let curly = if b == OPEN_CURLY && st.outside {
        false
    } else if b == CLOSE_CURLY && st.outside {
        !st.curly
    } else {
        st.curly
    };
    let unescaped_quote = b == QUOTE && st.prev != BACKSLASH;
    let (outside, colon) = if unescaped_quote && st.outside {
        (false, false)
    } else if b == COLON && st.outside {
        (true, true)
    } else if unescaped_quote && !st.outside {
        (true, true)
    } else {
        (st.outside, st.colon)
    };
    ScanState { outside, colon, square, curly, prev: b }
}

/// Structural check of a JSON payload: balanced quotes and square brackets,
/// matching delimiters at both ends.  Not a full JSON grammar.
pub fn json_check_validity(j: &[u8]) -> (r: bool)
    ensures
        r == json_valid(j@),
{
    let n = j.len();
    if n < 2 {
        return false;
    }
    let first = j[0];
    let last = j[n - 1];
    if !((first == OPEN_CURLY && last == CLOSE_CURLY) || (first == OPEN_SQUARE && last == CLOSE_SQUARE)) {
        return false;
    }
    let mut st = ScanState { outside: true, colon: true, square: true, curly: true, prev: SPACE };
    let mut i: usize = 0;
    while i < n
        invariant
            i <= n,
            n == j@.len(),
            st == scan_from(scan_start(), j@.subrange(0, i as int)),
        decreases n - i,
    {
        assert(j@.subrange(0, i + 1).drop_last() == j@.subrange(0, i as int));
        st = step(st, j[i]);
        i = i + 1;
    }
    assert(j@.subrange(0, n as int) == j@);
    st.outside && st.colon && st.square
}

/// The pattern searched for a key: the key in quotes, then a colon.
pub open spec fn key_pattern(key: Seq<u8>) -> Seq<u8> {
    seq![QUOTE] + key + seq![QUOTE, COLON]
}

/// `k` occurs in `j` at position `x`.
pub open spec fn matches_at(j: Seq<u8>, k: Seq<u8>, x: int) -> bool {
    0 <= x && x + k.len() <= j.len() && j.subrange(x, x + k.len()) == k
}

/// The first position at or after `x` where `k` occurs in `j`.
pub open spec fn find_from(j: Seq<u8>, k: Seq<u8>, x: int) -> Option<int>
    decreases j.len() - x,
{
    if x < 0 || x >= j.len() || x + k.len() > j.len() {
        None
    } else if matches_at(j, k, x) {
        Some(x)
    } else {
        find_from(j, k, x + 1)
    }
}

/// The bytes of a value read from position `i` up to (not including) `end`.
/// `op` is false inside the value's quotes; `os` is false once a `[` opened an
/// array; `lb` is the last byte kept.  Outside the quotes colons are skipped,
/// and the value ends at a closing `}` or at a `,` that is not inside an array;
/// inside them it ends at the next unescaped quote.
pub open spec fn read_value(j: Seq<u8>, i: int, end: int, lb: u8, op: bool, os: bool) -> Seq<u8>
    decreases end - i,
{
    if i < 0 || i >= end || end > j.len() {
        seq![]
    } else {
        let c = j[i];
        let os1 = if c == OPEN_SQUARE && op && os {
            false
        } else {
            os
        };
        let os2 = if c == CLOSE_CURLY && op && !os1 {
            true
        } else {
            os1
        };
        if c == COLON && op {
            read_value(j, i + 1, end, lb, op, os2)
        } else if c == QUOTE && op && lb != BACKSLASH {
            read_value(j, i + 1, end, lb, false, os2)
        } else if (c == QUOTE && !op && lb != BACKSLASH) || (c == CLOSE_CURLY && op) || (c == COMMA
            && op && os2) {
            seq![]
        } else {
            seq![c] + read_value(j, i + 1, end, c, op, os2)
        }
    }
}

/// The raw value of the first field named `key` in `j`, empty when the key
/// does not occur.  The last byte of `j` is never part of a value.
pub open spec fn extract(j: Seq<u8>, key: Seq<u8>) -> Seq<u8> {
    let k = key_pattern(key);
    match find_from(j, k, 0) {
        Some(x) => read_value(j, x + k.len(), j.len() - 1, SPACE, true, true),
        None => seq![],
    }
}

fn occurs_at(j: &[u8], k: &Vec<u8>, x: usize) -> (r: bool)
    requires
        x + k@.len() <= j@.len(),
    ensures
        r == matches_at(j@, k@, x as int),
{
    let n = k.len();
    let jn = j.len();
    let mut i: usize = 0;
    while i < n
        invariant
            i <= n,
            n == k@.len(),
            x + n <= jn,
            jn == j@.len(),
            forall|t: int| 0 <= t < i ==> j@[x + t] == k@[t],
        decreases n - i,
    {
        if j[x + i] != k[i] {
            assert(j@.subrange(x as int, x + n)[i as int] != k@[i as int]);
            return false;
        }
        i = i + 1;
    }
    assert(j@.subrange(x as int, x + n) =~= k@);
    true
}

/// The raw value of the first field named `key` in the payload `j`: the bytes
/// between its quotes for a string, or up to the next `}` or top-level `,`
/// otherwise.  Empty when the key does not occur.
pub fn json_get_value(j: &[u8], key: &[u8]) -> (r: Vec<u8>)
    ensures
        r@ == extract(j@, key@),
{
    let jl = j.len();
    let ghost kp = key_pattern(key@);
    if jl < 3 || key.len() > jl - 3 {
        assert(find_from(j@, kp, 0) is None);
        return Vec::new();
    }
    let mut k: Vec<u8> = Vec::new();
    k.push(QUOTE);
    let mut t: usize = 0;
    while t < key.len()
        invariant
            t <= key@.len(),
            k@ == seq![QUOTE] + key@.subrange(0, t as int),
        decreases key@.len() - t,
    {
        k.push(key[t]);
        t = t + 1;
        assert(k@ =~= seq![QUOTE] + key@.subrange(0, t as int));
    }
    k.push(QUOTE);
    k.push(COLON);
    assert(key@.subrange(0, key@.len() as int) == key@);
    assert(k@ =~= kp);
    let kl = k.len();
    let mut x: usize = 0;
    let mut found = false;
    while x < jl && x <= jl - kl
        invariant_except_break
            !found,
        invariant
            kl == kp.len(),
            kl <= jl,
            jl == j@.len(),
            k@ == kp,
            find_from(j@, kp, 0) == find_from(j@, kp, x as int),
        ensures
            found ==> find_from(j@, kp, 0) == Some(x as int) && x + kl <= jl,
            !found ==> find_from(j@, kp, 0) is None,
        decreases jl - x,
    {
        if occurs_at(j, &k, x) {
            assert(find_from(j@, kp, x as int) == Some(x as int));
            found = true;
            break;
        }
        x = x + 1;
    }
    let mut result: Vec<u8> = Vec::new();
    if !found {
        return result;
    }
    let start = x + kl;
    let end = jl - 1;
    let ghost target = read_value(j@, start as int, end as int, SPACE, true, true);
    let mut lb = SPACE;
    let mut op = true;
    let mut os = true;
    let mut i = start;
    while i < end
        invariant
            end == j@.len() - 1,
            result@ + read_value(j@, i as int, end as int, lb, op, os) == target,
        ensures
            result@ == target,
        decreases end - i,
    {
        let c = j[i];
        if c == OPEN_SQUARE && op && os {
            os = false;
        }
        if c == CLOSE_CURLY && op && !os {
            os = true;
        }
        if c == COLON && op {
            i = i + 1;
        } else if c == QUOTE && op && lb != BACKSLASH {
            op = false;
            i = i + 1;
        } else if (c == QUOTE && !op && lb != BACKSLASH) || (c == CLOSE_CURLY && op) || (c == COMMA
            && op && os) {
            assert(result@ + seq![] =~= result@);
            break;
        } else {
            let ghost before = result@;
            result.push(c);
            lb = c;
            i = i + 1;
            assert(before + (seq![c] + read_value(j@, i as int, end as int, lb, op, os)) =~= result@
                + read_value(j@, i as int, end as int, lb, op, os));
        }
    }
    result
}

/// Text that can stand between quotes as it is: no quote, no backslash.
pub open spec fn plain_string(v: Seq<u8>) -> bool {
    forall|i: int| 0 <= i < v.len() ==> #[trigger] v[i] != QUOTE && v[i] != BACKSLASH
}

/// Text that can stand as an unquoted value as it is: no quote, colon, comma,
/// closing brace or opening square bracket.
pub open spec fn plain_bare(v: Seq<u8>) -> bool {
    forall|i: int|
        0 <= i < v.len() ==> {
            let b = #[trigger] v[i];
            b != QUOTE && b != COLON && b != COMMA && b != CLOSE_CURLY && b != OPEN_SQUARE
        }
}

/// `t` between quotes.
pub open spec fn quoted(t: Seq<u8>) -> Seq<u8> {
    seq![QUOTE] + t + seq![QUOTE]
}

proof fn lemma_find_first(j: Seq<u8>, k: Seq<u8>, x: int, y: int)
    requires
        0 <= y <= x,
        k.len() > 0,
        matches_at(j, k, x),
        forall|z: int| 0 <= z < x ==> !matches_at(j, k, z),
    ensures
        find_from(j, k, y) == Some(x),
    decreases x - y,
{
    if y < x {
        lemma_find_first(j, k, x, y + 1);
    }
}

proof fn lemma_read_string(j: Seq<u8>, i: int, n: int, end: int, lb: u8, os: bool)
    requires
        0 <= i,
        0 <= n,
        i + n < end <= j.len(),
        plain_string(j.subrange(i, i + n)),
        j[i + n] == QUOTE,
        lb != BACKSLASH,
    ensures
        read_value(j, i, end, lb, false, os) == j.subrange(i, i + n),
    decreases n,
{
    if n == 0 {
        assert(j.subrange(i, i) =~= Seq::<u8>::empty());
    } else {
        let c = j[i];
        assert(j.subrange(i, i + n)[0] == c);
        assert(j.subrange(i + 1, i + n) =~= j.subrange(i, i + n).drop_first());
        lemma_read_string(j, i + 1, n - 1, end, c, os);
        assert(j.subrange(i, i + n) =~= seq![c] + j.subrange(i + 1, i + n));
    }
}

proof fn lemma_read_bare(j: Seq<u8>, i: int, n: int, end: int, lb: u8)
    requires
        0 <= i,
        0 <= n,
        i + n <= end <= j.len(),
        plain_bare(j.subrange(i, i + n)),
        i + n == end || j[i + n] == CLOSE_CURLY || j[i + n] == COMMA,
    ensures
        read_value(j, i, end, lb, true, true) == j.subrange(i, i + n),
    decreases n,
{
    if n == 0 {
        assert(j.subrange(i, i) =~= Seq::<u8>::empty());
    } else {
        let c = j[i];
        assert(j.subrange(i, i + n)[0] == c);
        assert(j.subrange(i + 1, i + n) =~= j.subrange(i, i + n).drop_first());
        lemma_read_bare(j, i + 1, n - 1, end, c);
        assert(j.subrange(i, i + n) =~= seq![c] + j.subrange(i + 1, i + n));
    }
}

/// A string field read back: where `"key":"v"` is the first occurrence of the
/// key and `v` holds no quote or backslash, the value extracted is `v`.
pub proof fn law_extract_string(before: Seq<u8>, key: Seq<u8>, v: Seq<u8>, after: Seq<u8>)
    requires
        plain_string(v),
        after.len() > 0,
        forall|y: int|
            0 <= y < before.len() ==> !matches_at(
                before + key_pattern(key) + quoted(v) + after,
                key_pattern(key),
                y,
            ),
    ensures
        extract(before + key_pattern(key) + quoted(v) + after, key) == v,
{
    let k = key_pattern(key);
    let j = before + k + quoted(v) + after;
    let s = (before.len() + k.len()) as int;
    assert(j.subrange(before.len() as int, s) =~= k);
    lemma_find_first(j, k, before.len() as int, 0);
    assert(j[s] == QUOTE);
    assert(j.subrange(s + 1, s + 1 + v.len() as int) =~= v);
    assert(j[s + 1 + v.len() as int] == QUOTE);
    lemma_read_string(j, s + 1, v.len() as int, j.len() - 1, SPACE, true);
}

/// An unquoted field read back: where `"key":v` is the first occurrence of the
/// key, `v` holds none of `"`, `:`, `,`, `}` or `[`, and a `}` or a `,` (or the
/// payload's last byte) follows, the value extracted is `v`.
pub proof fn law_extract_bare(before: Seq<u8>, key: Seq<u8>, v: Seq<u8>, after: Seq<u8>)
    requires
        plain_bare(v),
        after.len() > 0,
        after.len() == 1 || after[0] == CLOSE_CURLY || after[0] == COMMA,
        forall|y: int|
            0 <= y < before.len() ==> !matches_at(before + key_pattern(key) + v + after, key_pattern(key), y),
    ensures
        extract(before + key_pattern(key) + v + after, key) == v,
{
    let k = key_pattern(key);
    let j = before + k + v + after;
    let s = (before.len() + k.len()) as int;
    assert(j.subrange(before.len() as int, s) =~= k);
    lemma_find_first(j, k, before.len() as int, 0);
    assert(j.subrange(s, s + v.len() as int) =~= v);
    lemma_read_bare(j, s, v.len() as int, j.len() - 1, SPACE);
}

/// Text that leaves the structural scan as it is outside strings: no quote,
/// colon, bracket, brace or backslash.
pub open spec fn bare_safe(t: Seq<u8>) -> bool {
    forall|i: int|
        0 <= i < t.len() ==> {
            let b = #[trigger] t[i];
            b != QUOTE && b != COLON && b != OPEN_SQUARE && b != CLOSE_SQUARE && b != OPEN_CURLY
                && b != CLOSE_CURLY && b != BACKSLASH
        }
}

/// A state of the scan between two complete fields: outside any string, with
/// the colon flag set, square brackets balanced and no pending backslash.
pub open spec fn ready(st: ScanState) -> bool {
    st.outside && st.colon && st.square && st.prev != BACKSLASH
}

pub proof fn lemma_scan_concat(st: ScanState, a: Seq<u8>, b: Seq<u8>)
    ensures
        scan_from(st, a + b) == scan_from(scan_from(st, a), b),
    decreases b.len(),
{
    if b.len() == 0 {
        assert(a + b =~= a);
    } else {
        assert((a + b).drop_last() =~= a + b.drop_last());
        lemma_scan_concat(st, a, b.drop_last());
    }
}

proof fn lemma_scan_inside(st: ScanState, t: Seq<u8>)
    requires
        !st.outside,
        plain_string(t),
    ensures
        ({
            let r = scan_from(st, t);
            &&& !r.outside
            &&& r.colon == st.colon
            &&& r.square == st.square
            &&& r.curly == st.curly
            &&& r.prev == if t.len() == 0 {
                st.prev
            } else {
                t.last()
            }
        }),
    decreases t.len(),
{
    if t.len() > 0 {
        assert(plain_string(t.drop_last())) by {
            assert forall|i: int| 0 <= i < t.drop_last().len() implies t.drop_last()[i] == t[i] by {}
        }
        lemma_scan_inside(st, t.drop_last());
        assert(t.last() == t[t.len() - 1]);
    }
}

/// Text without quotes, colons, brackets, braces or backslashes, from a state
/// between fields, ends in such a state.
pub proof fn lemma_ready_bare(st: ScanState, t: Seq<u8>)
    requires
        ready(st),
        bare_safe(t),
    ensures
        ready(scan_from(st, t)),
        scan_from(st, t).curly == st.curly,
    decreases t.len(),
{
    if t.len() > 0 {
        assert(bare_safe(t.drop_last())) by {
            assert forall|i: int| 0 <= i < t.drop_last().len() implies t.drop_last()[i] == t[i] by {}
        }
        lemma_ready_bare(st, t.drop_last());
        assert(t.last() == t[t.len() - 1]);
    }
}

proof fn lemma_scan_one(st: ScanState, b: u8)
    ensures
        scan_from(st, seq![b]) == scan_step(st, b),
{
    let one = seq![b];
    assert(one.drop_last() =~= Seq::<u8>::empty());
    assert(scan_from(st, one.drop_last()) == st);
    assert(one.last() == b);
}

/// A quoted plain string, from a state between fields, ends in such a state.
pub proof fn lemma_ready_quoted(st: ScanState, t: Seq<u8>)
    requires
        ready(st),
        plain_string(t),
    ensures
        ready(scan_from(st, quoted(t))),
{
    let open = seq![QUOTE];
    lemma_scan_one(st, QUOTE);
    let st1 = scan_from(st, open);
    assert(!st1.outside && st1.prev == QUOTE);
    lemma_scan_concat(st, open, t);
    lemma_scan_inside(st1, t);
    let st2 = scan_from(st1, t);
    let close = seq![QUOTE];
    lemma_scan_one(st2, QUOTE);
    lemma_scan_concat(st, open + t, close);
    if t.len() > 0 {
        assert(t.last() == t[t.len() - 1]);
    }
}

/// A colon, a comma or a brace, from a state between fields, ends in such a
/// state.
pub proof fn lemma_ready_byte(st: ScanState, b: u8)
    requires
        ready(st),
        b == COLON || b == COMMA || b == OPEN_CURLY || b == CLOSE_CURLY,
    ensures
        ready(scan_from(st, seq![b])),
{
    lemma_scan_one(st, b);
}

/// The pattern of a key is the quoted key and a colon.
pub proof fn lemma_key_pattern(key: Seq<u8>)
    ensures
        key_pattern(key) == quoted(key) + seq![COLON],
{
    assert(key_pattern(key) =~= quoted(key) + seq![COLON]);
}

} // verus!
