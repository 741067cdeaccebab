//! Byte-string helpers: ASCII whitespace, trimming, and lexicographic order.

use vstd::prelude::*;

verus! {

/// An ASCII whitespace byte, the set recognized by `u8::is_ascii_whitespace`:
/// space, tab, line feed, form feed, carriage return.
pub open spec fn is_ws(b: u8) -> bool {
    b == 32 || b == 9 || b == 10 || b == 12 || b == 13
}

/// Executable test for [`is_ws`].
pub fn is_ws_byte(b: u8) -> (r: bool)
    ensures
        r == is_ws(b),
{
    b == 32 || b == 9 || b == 10 || b == 12 || b == 13
}

/// `s` with its leading ASCII whitespace removed.
pub open spec fn trim_front(s: Seq<u8>) -> Seq<u8>
    decreases s.len(),
{
    if s.len() > 0 && is_ws(s[0]) {
        trim_front(s.drop_first())
    } else {
        s
    }
}

/// `s` with its trailing ASCII whitespace removed.
pub open spec fn trim_back(s: Seq<u8>) -> Seq<u8>
    decreases s.len(),
{
    if s.len() > 0 && is_ws(s.last()) {
        trim_back(s.drop_last())
    } else {
        s
    }
}

/// `s` with leading and trailing ASCII whitespace removed.
pub open spec fn trim(s: Seq<u8>) -> Seq<u8> {
    trim_back(trim_front(s))
}

/// Dropping a non-whitespace-fronted prefix pins `trim_front` down to a subrange.
proof fn lemma_trim_front_is_subrange(s: Seq<u8>, k: int)
    requires
        0 <= k <= s.len(),
        forall|m: int| 0 <= m < k ==> is_ws(s[m]),
        k == s.len() || !is_ws(s[k]),
    ensures
        trim_front(s) == s.subrange(k, s.len() as int),
    decreases k,
{
    if k == 0 {
        assert(trim_front(s) == s) by {
            if s.len() > 0 && is_ws(s[0]) {
                assert(!is_ws(s[0]));
            }
        }
        assert(s.subrange(0, s.len() as int) =~= s);
    } else {
        assert(is_ws(s[0]));
        let t = s.drop_first();
        assert(forall|m: int| 0 <= m < k - 1 ==> is_ws(#[trigger] t[m]));
        lemma_trim_front_is_subrange(t, k - 1);
        assert(t.subrange(k - 1, t.len() as int) =~= s.subrange(k, s.len() as int));
    }
}

/// Dropping a non-whitespace-tailed suffix pins `trim_back` down to a subrange.
proof fn lemma_trim_back_is_subrange(s: Seq<u8>, k: int)
    requires
        0 <= k <= s.len(),
        forall|m: int| k <= m < s.len() ==> is_ws(s[m]),
        k == 0 || !is_ws(s[k - 1]),
    ensures
        trim_back(s) == s.subrange(0, k),
    decreases s.len() - k,
{
    if k == s.len() {
        assert(trim_back(s) == s) by {
            if s.len() > 0 && is_ws(s.last()) {
                assert(!is_ws(s[s.len() - 1]));
            }
        }
        assert(s.subrange(0, s.len() as int) =~= s);
    } else {
        assert(is_ws(s.last()));
        let t = s.drop_last();
        assert(forall|m: int| k <= m < t.len() ==> is_ws(#[trigger] t[m]));
        lemma_trim_back_is_subrange(t, k);
        assert(t.subrange(0, k) =~= s.subrange(0, k));
    }
}

/// Copy of the bytes of `v` in `[start, end)`, with surrounding ASCII
/// whitespace removed.
pub fn trim_range(v: &Vec<u8>, start: usize, end: usize) -> (r: Vec<u8>)
    requires
        start <= end <= v@.len(),
    ensures
        r@ == trim(v@.subrange(start as int, end as int)),
{
    let ghost s = v@.subrange(start as int, end as int);
    let mut lo: usize = start;
    while lo < end && is_ws_byte(v[lo])
        invariant
            start <= lo <= end <= v@.len(),
            forall|m: int| start <= m < lo ==> is_ws(v@[m]),
        decreases end - lo,
    {
        lo = lo + 1;
    }
    proof {
        assert(forall|m: int| 0 <= m < lo - start ==> is_ws(#[trigger] s[m]));
        lemma_trim_front_is_subrange(s, lo - start);
    }
    let ghost f = trim_front(s);
    let mut hi: usize = end;
    while hi > lo && is_ws_byte(v[hi - 1])
        invariant
            start <= lo <= hi <= end <= v@.len(),
            f == s.subrange(lo - start, s.len() as int),
            forall|m: int| hi <= m < end ==> is_ws(v@[m]),
        decreases hi,
    {
        hi = hi - 1;
    }
    proof {
        assert(forall|m: int| hi - lo <= m < f.len() ==> is_ws(#[trigger] f[m]));
        lemma_trim_back_is_subrange(f, hi - lo);
    }
    let mut r: Vec<u8> = Vec::new();
    let mut i: usize = lo;
    while i < hi
        invariant
            lo <= i <= hi <= v@.len(),
            r@ =~= v@.subrange(lo as int, i as int),
        decreases hi - i,
    {
        r.push(v[i]);
        i = i + 1;
    }
    proof {
        assert(r@ =~= f.subrange(0, hi - lo));
    }
    r
}

/// Lexicographic order on byte strings: `a` is less than or equal to `b`.
/// A proper prefix comes before any of its extensions.
pub open spec fn bytes_le(a: Seq<u8>, b: Seq<u8>) -> bool
    decreases a.len(),
{
    if a.len() == 0 {
        true
    } else if b.len() == 0 {
        false
    } else if a[0] < b[0] {
        true
    } else if a[0] > b[0] {
        false
    } else {
        bytes_le(a.drop_first(), b.drop_first())
    }
}

/// `bytes_le` is reflexive.
pub proof fn lemma_bytes_le_refl(a: Seq<u8>)
    ensures
        bytes_le(a, a),
    decreases a.len(),
{
    if a.len() > 0 {
        lemma_bytes_le_refl(a.drop_first());
    }
}

/// `bytes_le` is total: any two byte strings are comparable.
pub proof fn lemma_bytes_le_total(a: Seq<u8>, b: Seq<u8>)
    ensures
        bytes_le(a, b) || bytes_le(b, a),
    decreases a.len(),
{
    if a.len() > 0 && b.len() > 0 && a[0] == b[0] {
        lemma_bytes_le_total(a.drop_first(), b.drop_first());
    }
}

/// `bytes_le` is transitive.
pub proof fn lemma_bytes_le_trans(a: Seq<u8>, b: Seq<u8>, c: Seq<u8>)
    requires
        bytes_le(a, b),
        bytes_le(b, c),
    ensures
        bytes_le(a, c),
    decreases a.len(),
{
    if a.len() > 0 && b.len() > 0 && c.len() > 0 && a[0] == b[0] && b[0] == c[0] {
        lemma_bytes_le_trans(a.drop_first(), b.drop_first(), c.drop_first());
    }
}

/// If `a` and `b` agree on their first `i` bytes, comparing them is the same
/// as comparing what remains.
proof fn lemma_bytes_le_common_prefix(a: Seq<u8>, b: Seq<u8>, i: int)
    requires
        0 <= i <= a.len(),
        i <= b.len(),
        forall|m: int| 0 <= m < i ==> a[m] == b[m],
    ensures
        bytes_le(a, b) == bytes_le(a.skip(i), b.skip(i)),
    decreases i,
{
    if i > 0 {
        assert(a[0] == b[0]);
        assert(a.len() > 0 && b.len() > 0);
        let a1 = a.drop_first();
        let b1 = b.drop_first();
        assert(forall|m: int| 0 <= m < i - 1 ==> #[trigger] a1[m] == b1[m]);
        lemma_bytes_le_common_prefix(a1, b1, i - 1);
        assert(a1.skip(i - 1) =~= a.skip(i));
        assert(b1.skip(i - 1) =~= b.skip(i));
    } else {
        assert(a.skip(0) =~= a);
        assert(b.skip(0) =~= b);
    }
}

/// Executable lexicographic comparison of two byte strings.
pub fn bytes_le_exec(a: &Vec<u8>, b: &Vec<u8>) -> (r: bool)
    ensures
        r == bytes_le(a@, b@),
{
    let mut i: usize = 0;
    loop
        invariant
            i <= a@.len(),
            i <= b@.len(),
            forall|m: int| 0 <= m < i ==> a@[m] == b@[m],
        ensures
            bytes_le(a@, b@) == (a@.len() <= b@.len()),
        decreases a@.len() - i,
    {
        if i >= a.len() || i >= b.len() {
            proof {
                lemma_bytes_le_common_prefix(a@, b@, i as int);
            }
            break;
        }
        if a[i] < b[i] {
            proof {
                lemma_bytes_le_common_prefix(a@, b@, i as int);
            }
            return true;
        }
        if a[i] > b[i] {
            proof {
                lemma_bytes_le_common_prefix(a@, b@, i as int);
            }
            return false;
        }
        i = i + 1;
    }
    a.len() <= b.len()
}

/// A copy of a byte string.
pub fn copy_bytes(v: &Vec<u8>) -> (r: Vec<u8>)
    ensures
        r@ == v@,
{
    let mut r: Vec<u8> = Vec::new();
    let mut i: usize = 0;
    while i < v.len()
        invariant
            i <= v@.len(),
            r@ =~= v@.subrange(0, i as int),
        decreases v@.len() - i,
    {
        r.push(v[i]);
        i = i + 1;
    }
    proof {
        assert(r@ =~= v@);
    }
    r
}

/// Executable equality of two byte strings.
pub fn bytes_eq(a: &Vec<u8>, b: &Vec<u8>) -> (r: bool)
    ensures
        r == (a@ == b@),
{
    if a.len() != b.len() {
        return false;
    }
    let mut i: usize = 0;
    while i < a.len()
        invariant
            a@.len() == b@.len(),
            i <= a@.len(),
            forall|m: int| 0 <= m < i ==> a@[m] == b@[m],
        decreases a@.len() - i,
    {
        if a[i] != b[i] {
            return false;
        }
        i = i + 1;
    }
    proof {
        assert(a@ =~= b@);
    }
    true
}

} // verus!
