//! Sort engine: orders the delta list by one of five interchangeable keys,
//! selected by a cyclic "next" operation.
//!
//! Total-delta sorts descending by the numeric delta; the other four keys
//! sort ascending lexicographically on byte strings, with the `N/A`
//! sentinel standing in for a missing affinity entry or device name so the
//! order is total even with missing data. Ties keep no specified order.

use vstd::multiset::Multiset;
use vstd::prelude::*;

use crate::affinity::{aff_lookup, aff_lookup_exec, aff_view, na_seq, na_bytes, AffView};
use crate::delta::deltas_view;
use crate::parse::{snap_contains, snap_get, SnapView, Snapshot};
use crate::text::{
    bytes_le, bytes_le_exec, copy_bytes, lemma_bytes_le_refl, lemma_bytes_le_total,
    lemma_bytes_le_trans,
};

verus! {

/// The five sort keys, in their fixed rotation order.
#[derive(Clone, Copy, Debug, PartialEq, Eq, Structural)]
pub enum SortBy {
    /// Ascending lexicographic on the IRQ id.
    Irq,
    /// Descending numeric on the total delta.
    Delta,
    /// Ascending lexicographic on the configured-affinity mask text.
    Affinity,
    /// Ascending lexicographic on the effective-affinity mask text.
    EffectiveAffinity,
    /// Ascending lexicographic on the device description.
    Device,
}

/// The key that follows `key` in the fixed rotation:
/// total-delta, id, configured affinity, effective affinity, device.
pub open spec fn next_sort_key(key: SortBy) -> SortBy {
    match key {
        SortBy::Delta => SortBy::Irq,
        SortBy::Irq => SortBy::Affinity,
        SortBy::Affinity => SortBy::EffectiveAffinity,
        SortBy::EffectiveAffinity => SortBy::Device,
        SortBy::Device => SortBy::Delta,
    }
}

/// Cycling the sort key five times returns to the starting key: the five
/// keys form one cycle.
pub proof fn lemma_sort_key_cycle(key: SortBy)
    ensures
        next_sort_key(next_sort_key(next_sort_key(next_sort_key(next_sort_key(key))))) == key,
{
}

/// The device description of `id` in the snapshot, or the `N/A` sentinel.
pub open spec fn name_lookup(snap: SnapView, id: Seq<u8>) -> Seq<u8> {
    if snap_contains(snap, id) {
        snap_get(snap, id).1
    } else {
        na_seq()
    }
}

/// Executable form of [`name_lookup`].
pub fn name_lookup_exec(snap: &Snapshot, id: &Vec<u8>) -> (r: Vec<u8>)
    ensures
        r@ == name_lookup(snap@, id@),
{
    match snap.get(id) {
        Some(stats) => copy_bytes(&stats.name),
        None => na_bytes(),
    }
}

/// The sort key of a delta entry under `key`, for the four byte-string
/// keys; the total-delta key compares the numeric delta instead.
pub open spec fn entry_key(
    key: SortBy,
    amap: AffView,
    emap: AffView,
    snap: SnapView,
    e: (Seq<u8>, u64),
) -> Seq<u8> {
    match key {
        SortBy::Irq => e.0,
        SortBy::Delta => seq![],
        SortBy::Affinity => aff_lookup(amap, e.0),
        SortBy::EffectiveAffinity => aff_lookup(emap, e.0),
        SortBy::Device => name_lookup(snap, e.0),
    }
}

/// The order of two delta entries under `key`: descending numeric for
/// total-delta, ascending lexicographic on the entry key otherwise.
pub open spec fn entry_le(
    key: SortBy,
    amap: AffView,
    emap: AffView,
    snap: SnapView,
    a: (Seq<u8>, u64),
    b: (Seq<u8>, u64),
) -> bool {
    match key {
        SortBy::Delta => a.1 >= b.1,
        _ => bytes_le(
            entry_key(key, amap, emap, snap, a),
            entry_key(key, amap, emap, snap, b),
        ),
    }
}

/// `entry_le` is reflexive.
pub proof fn lemma_entry_le_refl(
    key: SortBy,
    amap: AffView,
    emap: AffView,
    snap: SnapView,
    a: (Seq<u8>, u64),
)
    ensures
        entry_le(key, amap, emap, snap, a, a),
{
    if !(key is Delta) {
        lemma_bytes_le_refl(entry_key(key, amap, emap, snap, a));
    }
}

/// `entry_le` is total: any two entries are comparable.
pub proof fn lemma_entry_le_total(
    key: SortBy,
    amap: AffView,
    emap: AffView,
    snap: SnapView,
    a: (Seq<u8>, u64),
    b: (Seq<u8>, u64),
)
    ensures
        entry_le(key, amap, emap, snap, a, b) || entry_le(key, amap, emap, snap, b, a),
{
    if !(key is Delta) {
        lemma_bytes_le_total(
            entry_key(key, amap, emap, snap, a),
            entry_key(key, amap, emap, snap, b),
        );
    }
}

/// `entry_le` is transitive.
pub proof fn lemma_entry_le_trans(
    key: SortBy,
    amap: AffView,
    emap: AffView,
    snap: SnapView,
    a: (Seq<u8>, u64),
    b: (Seq<u8>, u64),
    c: (Seq<u8>, u64),
)
    requires
        entry_le(key, amap, emap, snap, a, b),
        entry_le(key, amap, emap, snap, b, c),
    ensures
        entry_le(key, amap, emap, snap, a, c),
{
    if !(key is Delta) {
        lemma_bytes_le_trans(
            entry_key(key, amap, emap, snap, a),
            entry_key(key, amap, emap, snap, b),
            entry_key(key, amap, emap, snap, c),
        );
    }
}

/// The delta list is ordered by `key`: every earlier entry is
/// less-than-or-equal to every later one.
pub open spec fn entries_sorted(
    key: SortBy,
    amap: AffView,
    emap: AffView,
    snap: SnapView,
    d: Seq<(Seq<u8>, u64)>,
) -> bool {
    forall|i: int, j: int|
        0 <= i < j < d.len() ==> entry_le(key, amap, emap, snap, d[i], d[j])
}

/// Removing an entry keeps the list ordered.
pub proof fn lemma_sorted_remove(
    key: SortBy,
    amap: AffView,
    emap: AffView,
    snap: SnapView,
    d: Seq<(Seq<u8>, u64)>,
    x: int,
)
    requires
        entries_sorted(key, amap, emap, snap, d),
        0 <= x < d.len(),
    ensures
        entries_sorted(key, amap, emap, snap, d.remove(x)),
{
    let e = d.remove(x);
    assert forall|i: int, j: int| 0 <= i < j < e.len() implies entry_le(
        key,
        amap,
        emap,
        snap,
        e[i],
        e[j],
    ) by {
        let i0 = if i < x {
            i
        } else {
            i + 1
        };
        let j0 = if j < x {
            j
        } else {
            j + 1
        };
        assert(e[i] == d[i0]);
        assert(e[j] == d[j0]);
    }
}

/// Executable comparison of two delta entries under `key`.
fn entry_le_exec(
    key: SortBy,
    amap: &Vec<(Vec<u8>, Vec<u8>)>,
    emap: &Vec<(Vec<u8>, Vec<u8>)>,
    snap: &Snapshot,
    a: &(Vec<u8>, u64),
    b: &(Vec<u8>, u64),
) -> (r: bool)
    ensures
        r == entry_le(key, aff_view(amap@), aff_view(emap@), snap@, (a.0@, a.1), (b.0@, b.1)),
{
    match key {
        SortBy::Irq => bytes_le_exec(&a.0, &b.0),
        SortBy::Delta => b.1 <= a.1,
        SortBy::Affinity => {
            let ka = aff_lookup_exec(amap, &a.0);
            let kb = aff_lookup_exec(amap, &b.0);
            bytes_le_exec(&ka, &kb)
        },
        SortBy::EffectiveAffinity => {
            let ka = aff_lookup_exec(emap, &a.0);
            let kb = aff_lookup_exec(emap, &b.0);
            bytes_le_exec(&ka, &kb)
        },
        SortBy::Device => {
            let ka = name_lookup_exec(snap, &a.0);
            let kb = name_lookup_exec(snap, &b.0);
            bytes_le_exec(&ka, &kb)
        },
    }
}

/// Sort the delta list by `key`: the result is ordered by [`entry_le`] and
/// holds exactly the entries of the input. Which of two tied entries comes
/// first is not specified.
#[verifier::loop_isolation(false)]
pub fn sort_entries(
    key: SortBy,
    deltas: &mut Vec<(Vec<u8>, u64)>,
    amap: &Vec<(Vec<u8>, Vec<u8>)>,
    emap: &Vec<(Vec<u8>, Vec<u8>)>,
    snap: &Snapshot,
)
    ensures
        entries_sorted(
            key,
            aff_view(amap@),
            aff_view(emap@),
            snap@,
            deltas_view(final(deltas)@),
        ),
        deltas_view(final(deltas)@).to_multiset() == deltas_view(old(deltas)@).to_multiset(),
{
    let ghost av = aff_view(amap@);
    let ghost ev = aff_view(emap@);
    let ghost sv = snap@;
    let ghost m0 = deltas_view(deltas@).to_multiset();
    let mut out: Vec<(Vec<u8>, u64)> = Vec::new();
    proof {
        broadcast use vstd::seq_lib::group_to_multiset_ensures;

        assert(deltas_view(out@).to_multiset() =~= Multiset::<(Seq<u8>, u64)>::empty());
    }
    while deltas.len() > 0
        invariant
            deltas_view(out@).to_multiset().add(deltas_view(deltas@).to_multiset()) =~= m0,
            entries_sorted(key, av, ev, sv, deltas_view(out@)),
            forall|p: int, q: int|
                0 <= p < out@.len() && 0 <= q < deltas@.len() ==> entry_le(
                    key,
                    av,
                    ev,
                    sv,
                    #[trigger] deltas_view(out@)[p],
                    #[trigger] deltas_view(deltas@)[q],
                ),
        decreases deltas@.len(),
    {
        // Select a minimal remaining entry.
        let mut idx: usize = 0;
        let mut j: usize = 1;
        proof {
            lemma_entry_le_refl(key, av, ev, sv, deltas_view(deltas@)[0]);
        }
        while j < deltas.len()
            invariant
                idx < j <= deltas@.len(),
                forall|q: int| 0 <= q < j ==> entry_le(
                    key,
                    av,
                    ev,
                    sv,
                    deltas_view(deltas@)[idx as int],
                    #[trigger] deltas_view(deltas@)[q],
                ),
            decreases deltas@.len() - j,
        {
            proof {
                lemma_entry_le_refl(key, av, ev, sv, deltas_view(deltas@)[idx as int]);
            }
            let take = entry_le_exec(key, amap, emap, snap, &deltas[j], &deltas[idx]);
            proof {
                assert(deltas@[j as int] == (deltas@[j as int].0, deltas@[j as int].1));
                assert(deltas_view(deltas@)[j as int] == (deltas@[j as int].0@, deltas@[
                    j as int].1));
            }
            if take {
                proof {
                    let old_idx = idx as int;
                    assert forall|q: int| 0 <= q < j + 1 implies entry_le(
                        key,
                        av,
                        ev,
                        sv,
                        deltas_view(deltas@)[j as int],
                        #[trigger] deltas_view(deltas@)[q],
                    ) by {
                        lemma_entry_le_refl(key, av, ev, sv, deltas_view(deltas@)[j as int]);
                        if q < j {
                            lemma_entry_le_trans(
                                key,
                                av,
                                ev,
                                sv,
                                deltas_view(deltas@)[j as int],
                                deltas_view(deltas@)[old_idx],
                                deltas_view(deltas@)[q],
                            );
                        }
                    }
                }
                idx = j;
            } else {
                proof {
                    lemma_entry_le_total(
                        key,
                        av,
                        ev,
                        sv,
                        deltas_view(deltas@)[j as int],
                        deltas_view(deltas@)[idx as int],
                    );
                }
            }
            j = j + 1;
        }
        proof {
            lemma_entry_le_refl(key, av, ev, sv, deltas_view(deltas@)[idx as int]);
        }

        // Move it to the end of the ordered prefix.
        let ghost d0 = deltas@;
        let ghost o0 = out@;
        let e = deltas.remove(idx);
        out.push(e);
        proof {
            broadcast use vstd::seq_lib::group_to_multiset_ensures;

            assert(deltas_view(deltas@) =~= deltas_view(d0).remove(idx as int));
            assert(deltas_view(out@) =~= deltas_view(o0).push(deltas_view(d0)[idx as int]));
            let ev0 = deltas_view(d0)[idx as int];
            assert(deltas_view(out@).to_multiset().add(deltas_view(deltas@).to_multiset())
                =~= m0);
            assert forall|i: int, j2: int| 0 <= i < j2 < deltas_view(out@).len() implies entry_le(
                key,
                av,
                ev,
                sv,
                deltas_view(out@)[i],
                deltas_view(out@)[j2],
            ) by {
                if j2 < deltas_view(out@).len() - 1 {
                    assert(deltas_view(out@)[i] == deltas_view(o0)[i]);
                    assert(deltas_view(out@)[j2] == deltas_view(o0)[j2]);
                } else {
                    assert(deltas_view(out@)[j2] == ev0);
                    if i < deltas_view(o0).len() {
                        assert(deltas_view(out@)[i] == deltas_view(o0)[i]);
                    }
                }
            }
            assert forall|p: int, q: int|
                0 <= p < out@.len() && 0 <= q < deltas@.len() implies entry_le(
                key,
                av,
                ev,
                sv,
                #[trigger] deltas_view(out@)[p],
                #[trigger] deltas_view(deltas@)[q],
            ) by {
                let q0 = if q < idx {
                    q
                } else {
                    q + 1
                };
                assert(deltas_view(deltas@)[q] == deltas_view(d0)[q0]);
                if p < out@.len() - 1 {
                    assert(deltas_view(out@)[p] == deltas_view(o0)[p]);
                } else {
                    assert(deltas_view(out@)[p] == ev0);
                }
            }
        }
    }
    proof {
        broadcast use vstd::seq_lib::group_to_multiset_ensures;

        assert(deltas_view(deltas@).to_multiset() =~= Multiset::<(Seq<u8>, u64)>::empty());
        assert(deltas_view(out@).to_multiset() =~= m0);
    }
    *deltas = out;
}

/// Sorting is idempotent up to tie permutation: two lists that are both
/// ordered by the same key and hold the same entries agree position by
/// position up to key-equivalence, so re-sorting an already-sorted list can
/// only permute tied entries.
pub proof fn lemma_sort_idempotent_up_to_ties(
    key: SortBy,
    amap: AffView,
    emap: AffView,
    snap: SnapView,
    s: Seq<(Seq<u8>, u64)>,
    t: Seq<(Seq<u8>, u64)>,
)
    requires
        entries_sorted(key, amap, emap, snap, s),
        entries_sorted(key, amap, emap, snap, t),
        s.to_multiset() == t.to_multiset(),
    ensures
        s.len() == t.len(),
        forall|i: int| 0 <= i < s.len() ==> entry_le(key, amap, emap, snap, #[trigger] s[i], t[i])
            && entry_le(key, amap, emap, snap, t[i], #[trigger] s[i]),
    decreases s.len(),
{
    broadcast use vstd::seq_lib::group_to_multiset_ensures;

    assert(s.len() == s.to_multiset().len());
    assert(t.len() == t.to_multiset().len());
    if s.len() > 0 {
        let h = s[0];
        assert(s.contains(h));
        assert(t.to_multiset().count(h) > 0);
        assert(t.contains(h));
        let k = choose|k: int| 0 <= k < t.len() && t[k] == h;

        // The heads are tie-equivalent: each list's head is minimal, and
        // the other list holds an equal entry.
        assert(entry_le(key, amap, emap, snap, t[0], h)) by {
            if k == 0 {
                lemma_entry_le_refl(key, amap, emap, snap, h);
            }
        }
        assert(t.contains(t[0]));
        assert(s.to_multiset().count(t[0]) > 0);
        assert(s.contains(t[0]));
        let k2 = choose|k2: int| 0 <= k2 < s.len() && s[k2] == t[0];
        assert(entry_le(key, amap, emap, snap, h, t[0])) by {
            if k2 == 0 {
                lemma_entry_le_refl(key, amap, emap, snap, h);
            }
        }

        // Drop the head of `s` and the matching entry of `t`, and recurse.
        let s1 = s.drop_first();
        let t1 = t.remove(k);
        assert(s1 =~= s.remove(0));
        assert(s1.to_multiset() == s.to_multiset().remove(h));
        assert(t1.to_multiset() == t.to_multiset().remove(h));
        lemma_sorted_remove(key, amap, emap, snap, s, 0);
        lemma_sorted_remove(key, amap, emap, snap, t, k);
        assert(entries_sorted(key, amap, emap, snap, s1)) by {
            assert(s.remove(0) == s1);
        }
        lemma_sort_idempotent_up_to_ties(key, amap, emap, snap, s1, t1);

        // Entries of `t` at or before `k` are all tie-equivalent to the head.
        assert forall|i: int| 0 <= i < s.len() implies entry_le(
            key,
            amap,
            emap,
            snap,
            #[trigger] s[i],
            t[i],
        ) && entry_le(key, amap, emap, snap, t[i], #[trigger] s[i]) by {
            if i == 0 {
            } else {
                assert(s[i] == s1[i - 1]);
                if i <= k {
                    // t1[i - 1] == t[i - 1]; bound s[i] and t[i] through the
                    // tie class of the head h == t[k].
                    assert(t1[i - 1] == t[i - 1]);
                    // le(h, s[i]) since s is sorted.
                    assert(entry_le(key, amap, emap, snap, h, s[i]));
                    // le(s[i], t[i-1]) and le(t[i-1], s[i]) from recursion.
                    assert(entry_le(key, amap, emap, snap, s[i], t[i - 1]));
                    assert(entry_le(key, amap, emap, snap, t[i - 1], s[i]));
                    if i < k {
                        // le(t[i], t[k]) == le(t[i], h) by sortedness of t.
                        assert(entry_le(key, amap, emap, snap, t[i], h));
                    } else {
                        // i == k: t[i] == h.
                        lemma_entry_le_refl(key, amap, emap, snap, h);
                    }
                    // le(t[i-1], t[i]) by sortedness of t.
                    assert(entry_le(key, amap, emap, snap, t[i - 1], t[i]));
                    // le(s[i], t[i]): s[i] <= t[i-1] <= t[i].
                    lemma_entry_le_trans(key, amap, emap, snap, s[i], t[i - 1], t[i]);
                    // le(t[i], s[i]): t[i] <= h <= s[i].
                    lemma_entry_le_trans(key, amap, emap, snap, t[i], h, s[i]);
                } else {
                    assert(t1[i - 1] == t[i]);
                }
            }
        }
    }
}

} // verus!
