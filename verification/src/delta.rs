//! Delta tracker: turns two successive snapshots into per-IRQ total deltas
//! and per-IRQ per-CPU delta vectors.
//!
//! Every per-CPU difference is a saturating subtraction, so counter resets
//! or wraparound yield zero rather than an underflow. Vectors of unequal
//! length (a CPU was hot-plugged between samples) are zipped up to the
//! shorter one. An IRQ absent from the previous snapshot contributes no
//! total-delta entry; its per-CPU delta vector is its raw current counts.

use vstd::prelude::*;

use crate::parse::{snap_contains, snap_get, snap_wf, SnapView, Snapshot};
use crate::text::copy_bytes;

verus! {

/// The delta of one CPU's counter pair: `curr - prev`, or zero on regression.
pub open spec fn delta_u64(prev: u64, curr: u64) -> u64 {
    if curr >= prev {
        (curr - prev) as u64
    } else {
        0
    }
}

/// The number of zipped positions: the shorter of the two lengths.
pub open spec fn zip_len(prev: Seq<u64>, curr: Seq<u64>) -> int {
    if prev.len() <= curr.len() {
        prev.len() as int
    } else {
        curr.len() as int
    }
}

/// Element-wise saturating deltas, zipped up to the shorter vector.
pub open spec fn zip_deltas(prev: Seq<u64>, curr: Seq<u64>) -> Seq<u64> {
    Seq::new(zip_len(prev, curr) as nat, |i: int| delta_u64(prev[i], curr[i]))
}

/// Sum of the first `n` zipped saturating deltas (mathematical, unbounded).
pub open spec fn total_delta_upto(prev: Seq<u64>, curr: Seq<u64>, n: int) -> int
    decreases n,
        when n >= 0
{
    if n <= 0 {
        0
    } else {
        total_delta_upto(prev, curr, n - 1) + delta_u64(prev[n - 1], curr[n - 1])
    }
}

/// Sum of all zipped saturating deltas (mathematical, unbounded).
pub open spec fn total_delta(prev: Seq<u64>, curr: Seq<u64>) -> int {
    total_delta_upto(prev, curr, zip_len(prev, curr))
}

/// The total delta clamped to the `u64` range.
pub open spec fn total_delta_u64(prev: Seq<u64>, curr: Seq<u64>) -> u64 {
    if total_delta(prev, curr) <= u64::MAX {
        total_delta(prev, curr) as u64
    } else {
        u64::MAX
    }
}

/// Partial sums of deltas are non-negative.
pub proof fn lemma_total_delta_upto_nonneg(prev: Seq<u64>, curr: Seq<u64>, n: int)
    requires
        n >= 0,
    ensures
        total_delta_upto(prev, curr, n) >= 0,
    decreases n,
{
    if n > 0 {
        lemma_total_delta_upto_nonneg(prev, curr, n - 1);
    }
}

/// The per-IRQ total-delta list: one entry for each record of `curr`, in
/// `curr`'s order, whose id was present in `prev`.
pub open spec fn spec_deltas(prev: SnapView, curr: SnapView) -> Seq<(Seq<u8>, u64)>
    decreases curr.len(),
{
    if curr.len() == 0 {
        seq![]
    } else {
        let e = curr[0];
        let rest = spec_deltas(prev, curr.drop_first());
        if snap_contains(prev, e.0) {
            seq![(e.0, total_delta_u64(snap_get(prev, e.0).0, e.1.0))] + rest
        } else {
            rest
        }
    }
}

/// The per-CPU delta map: one entry for every record of `curr`, in order,
/// zipped against the previous record when the id was seen before, else the
/// raw current counts.
pub open spec fn spec_per_cpu_deltas(prev: SnapView, curr: SnapView) -> Seq<(Seq<u8>, Seq<u64>)>
    decreases curr.len(),
{
    if curr.len() == 0 {
        seq![]
    } else {
        let e = curr[0];
        let d = if snap_contains(prev, e.0) {
            zip_deltas(snap_get(prev, e.0).0, e.1.0)
        } else {
            e.1.0
        };
        seq![(e.0, d)] + spec_per_cpu_deltas(prev, curr.drop_first())
    }
}

/// Every total-delta entry belongs to an id present in both snapshots and
/// carries the clamped sum of that id's saturating per-CPU deltas.
pub proof fn lemma_spec_deltas_props(prev: SnapView, curr: SnapView)
    requires
        snap_wf(curr),
    ensures
        forall|m: int| 0 <= m < spec_deltas(prev, curr).len() ==> {
            let e = #[trigger] spec_deltas(prev, curr)[m];
            snap_contains(prev, e.0) && snap_contains(curr, e.0) && e.1 == total_delta_u64(
                snap_get(prev, e.0).0,
                snap_get(curr, e.0).0,
            )
        },
    decreases curr.len(),
{
    if curr.len() > 0 {
        let t = curr.drop_first();
        assert forall|i: int, j: int| 0 <= i < j < t.len() implies (#[trigger] t[i]).0 != (
        #[trigger] t[j]).0 by {
            assert(t[i] == curr[i + 1]);
            assert(t[j] == curr[j + 1]);
        }
        lemma_spec_deltas_props(prev, t);
        let e = curr[0];
        let rest = spec_deltas(prev, t);
        assert(snap_get(curr, e.0) == e.1 && snap_contains(curr, e.0)) by {
            crate::parse::lemma_snap_index_of_char(curr, e.0, 0);
        }
        assert forall|id: Seq<u8>| snap_contains(t, id) implies snap_contains(curr, id)
            && snap_get(curr, id) == snap_get(t, id) by {
            crate::parse::lemma_snap_index_of_props(t, id);
            let r = crate::parse::snap_index_of(t, id);
            assert(t[r] == curr[r + 1]);
            assert forall|m: int| 0 <= m < r + 1 implies (#[trigger] curr[m]).0 != id by {
                if m == 0 {
                    assert(curr[0].0 != curr[r + 1].0);
                } else {
                    assert(curr[m] == t[m - 1]);
                }
            }
            crate::parse::lemma_snap_index_of_char(curr, id, r + 1);
        }
        assert forall|m: int| 0 <= m < spec_deltas(prev, curr).len() implies {
            let d = #[trigger] spec_deltas(prev, curr)[m];
            snap_contains(prev, d.0) && snap_contains(curr, d.0) && d.1 == total_delta_u64(
                snap_get(prev, d.0).0,
                snap_get(curr, d.0).0,
            )
        } by {
            if snap_contains(prev, e.0) {
                if m > 0 {
                    assert(spec_deltas(prev, curr)[m] == rest[m - 1]);
                    assert(snap_contains(t, rest[m - 1].0));
                }
            } else {
                assert(spec_deltas(prev, curr)[m] == rest[m]);
                assert(snap_contains(t, rest[m].0));
            }
        }
    }
}

/// A first-seen IRQ (present in `curr`, absent from `prev`) has no entry in
/// the total-delta list, and its per-CPU delta vector is its raw counts.
pub proof fn lemma_first_seen_irq(prev: SnapView, curr: SnapView, i: int)
    requires
        0 <= i < curr.len(),
        !snap_contains(prev, curr[i].0),
    ensures
        forall|m: int| 0 <= m < spec_deltas(prev, curr).len()
            ==> (#[trigger] spec_deltas(prev, curr)[m]).0 != curr[i].0,
        spec_per_cpu_deltas(prev, curr).len() == curr.len(),
        spec_per_cpu_deltas(prev, curr)[i] == (curr[i].0, curr[i].1.0),
    decreases curr.len(),
{
    lemma_per_cpu_deltas_len(prev, curr);
    let e = curr[0];
    let t = curr.drop_first();
    if i == 0 {
        assert(spec_per_cpu_deltas(prev, curr)[0] == (e.0, e.1.0));
    } else {
        lemma_first_seen_irq(prev, t, i - 1);
        assert(t[i - 1] == curr[i]);
        assert(spec_per_cpu_deltas(prev, curr)[i] == spec_per_cpu_deltas(prev, t)[i - 1]);
    }
    assert forall|m: int| 0 <= m < spec_deltas(prev, curr).len()
        implies (#[trigger] spec_deltas(prev, curr)[m]).0 != curr[i].0 by {
        lemma_deltas_ids_in_prev(prev, curr);
    }
}

/// Every id in the total-delta list is present in `prev`.
proof fn lemma_deltas_ids_in_prev(prev: SnapView, curr: SnapView)
    ensures
        forall|m: int| 0 <= m < spec_deltas(prev, curr).len()
            ==> snap_contains(prev, (#[trigger] spec_deltas(prev, curr)[m]).0),
    decreases curr.len(),
{
    if curr.len() > 0 {
        let t = curr.drop_first();
        lemma_deltas_ids_in_prev(prev, t);
        let e = curr[0];
        let rest = spec_deltas(prev, t);
        assert forall|m: int| 0 <= m < spec_deltas(prev, curr).len() implies snap_contains(
            prev,
            (#[trigger] spec_deltas(prev, curr)[m]).0,
        ) by {
            if snap_contains(prev, e.0) {
                if m > 0 {
                    assert(spec_deltas(prev, curr)[m] == rest[m - 1]);
                }
            } else {
                assert(spec_deltas(prev, curr)[m] == rest[m]);
            }
        }
    }
}

/// The per-CPU delta map has exactly one entry per record of `curr`.
pub proof fn lemma_per_cpu_deltas_len(prev: SnapView, curr: SnapView)
    ensures
        spec_per_cpu_deltas(prev, curr).len() == curr.len(),
    decreases curr.len(),
{
    if curr.len() > 0 {
        lemma_per_cpu_deltas_len(prev, curr.drop_first());
    }
}

/// View of an id/total-delta pair list.
pub open spec fn deltas_view(d: Seq<(Vec<u8>, u64)>) -> Seq<(Seq<u8>, u64)> {
    Seq::new(d.len(), |i: int| (d[i].0@, d[i].1))
}

/// View of an id/per-CPU-delta-vector pair list.
pub open spec fn per_cpu_view(d: Seq<(Vec<u8>, Vec<u64>)>) -> Seq<(Seq<u8>, Seq<u64>)> {
    Seq::new(d.len(), |i: int| (d[i].0@, d[i].1@))
}

/// The saturating delta of one counter pair: `curr - prev` when
/// `curr >= prev`, and zero when `curr < prev`; never an underflow.
pub fn cpu_delta(prev: u64, curr: u64) -> (r: u64)
    ensures
        r == delta_u64(prev, curr),
        curr >= prev ==> r == curr - prev,
        curr < prev ==> r == 0,
{
    curr.saturating_sub(prev)
}

/// The clamped sum of the zipped saturating deltas of one counter pair.
#[verifier::loop_isolation(false)]
fn sum_deltas(prev: &Vec<u64>, curr: &Vec<u64>) -> (r: u64)
    ensures
        r == total_delta_u64(prev@, curr@),
{
    let n = if prev.len() <= curr.len() {
        prev.len()
    } else {
        curr.len()
    };
    let mut acc: u64 = 0;
    let mut i: usize = 0;
    while i < n
        invariant
            i <= n == zip_len(prev@, curr@),
            acc as int == if total_delta_upto(prev@, curr@, i as int) <= u64::MAX {
                total_delta_upto(prev@, curr@, i as int)
            } else {
                u64::MAX as int
            },
        decreases n - i,
    {
        proof {
            lemma_total_delta_upto_nonneg(prev@, curr@, i as int);
        }
        let d = cpu_delta(prev[i], curr[i]);
        acc = acc.saturating_add(d);
        i = i + 1;
    }
    acc
}

/// A copy of the zipped saturating delta vector of one counter pair.
#[verifier::loop_isolation(false)]
fn zip_delta_vec(prev: &Vec<u64>, curr: &Vec<u64>) -> (r: Vec<u64>)
    ensures
        r@ == zip_deltas(prev@, curr@),
{
    let n = if prev.len() <= curr.len() {
        prev.len()
    } else {
        curr.len()
    };
    let mut r: Vec<u64> = Vec::new();
    let mut i: usize = 0;
    while i < n
        invariant
            i <= n == zip_len(prev@, curr@),
            r@.len() == i,
            forall|m: int| 0 <= m < i ==> r@[m] == delta_u64(prev@[m], curr@[m]),
        decreases n - i,
    {
        let d = cpu_delta(prev[i], curr[i]);
        r.push(d);
        i = i + 1;
    }
    proof {
        assert(r@ =~= zip_deltas(prev@, curr@));
    }
    r
}

/// The per-IRQ total-delta list of two snapshots: for each record of `curr`
/// whose id `prev` also has, in `curr`'s order, the clamped sum of the
/// zipped saturating per-CPU deltas. First-seen IRQs contribute no entry.
#[verifier::loop_isolation(false)]
pub fn calculate_delta(prev: &Snapshot, curr: &Snapshot) -> (r: Vec<(Vec<u8>, u64)>)
    ensures
        deltas_view(r@) == spec_deltas(prev@, curr@),
{
    let mut r: Vec<(Vec<u8>, u64)> = Vec::new();
    let mut i: usize = 0;
    proof {
        assert(curr@.skip(0) =~= curr@);
        assert(deltas_view(r@) + spec_deltas(prev@, curr@.skip(0)) =~= spec_deltas(prev@, curr@));
    }
    while i < curr.entries.len()
        invariant
            i <= curr@.len(),
            spec_deltas(prev@, curr@) =~= deltas_view(r@) + spec_deltas(prev@, curr@.skip(i as int)),
        decreases curr@.len() - i,
    {
        let ghost tail = curr@.skip(i as int);
        proof {
            assert(tail.len() == curr@.len() - i);
            assert(tail[0] == curr@[i as int]);
            assert(tail.drop_first() =~= curr@.skip(i as int + 1));
        }
        let entry = &curr.entries[i];
        proof {
            assert(*entry == curr.entries@[i as int]);
            assert(curr@[i as int] == (entry.0@, entry.1@));
        }
        match prev.get(&entry.0) {
            Some(stats) => {
                let total = sum_deltas(&stats.counts, &entry.1.counts);
                let id = copy_bytes(&entry.0);
                r.push((id, total));
                proof {
                    assert(deltas_view(r@) =~= deltas_view(r@.drop_last()) + seq![
                        (curr@[i as int].0, total_delta_u64(
                            snap_get(prev@, curr@[i as int].0).0,
                            curr@[i as int].1.0,
                        )),
                    ]);
                    assert(spec_deltas(prev@, curr@) =~= deltas_view(r@) + spec_deltas(
                        prev@,
                        curr@.skip(i as int + 1),
                    ));
                }
            },
            None => {
                proof {
                    assert(spec_deltas(prev@, curr@) =~= deltas_view(r@) + spec_deltas(
                        prev@,
                        curr@.skip(i as int + 1),
                    ));
                }
            },
        }
        i = i + 1;
    }
    proof {
        assert(curr@.skip(curr@.len() as int).len() == 0);
        assert(deltas_view(r@) =~= spec_deltas(prev@, curr@));
    }
    r
}

/// The per-CPU delta map of two snapshots: one vector per record of `curr`,
/// keyed by id, in order; zipped saturating deltas for ids seen before, the
/// raw current counts for first-seen ids.
#[verifier::loop_isolation(false)]
pub fn per_cpu_deltas_of(prev: &Snapshot, curr: &Snapshot) -> (r: Vec<(Vec<u8>, Vec<u64>)>)
    ensures
        per_cpu_view(r@) == spec_per_cpu_deltas(prev@, curr@),
{
    let mut r: Vec<(Vec<u8>, Vec<u64>)> = Vec::new();
    let mut i: usize = 0;
    proof {
        assert(curr@.skip(0) =~= curr@);
        assert(per_cpu_view(r@) + spec_per_cpu_deltas(prev@, curr@.skip(0)) =~= spec_per_cpu_deltas(
            prev@,
            curr@,
        ));
    }
    while i < curr.entries.len()
        invariant
            i <= curr@.len(),
            spec_per_cpu_deltas(prev@, curr@) =~= per_cpu_view(r@) + spec_per_cpu_deltas(
                prev@,
                curr@.skip(i as int),
            ),
        decreases curr@.len() - i,
    {
        let ghost tail = curr@.skip(i as int);
        proof {
            assert(tail[0] == curr@[i as int]);
            assert(tail.drop_first() =~= curr@.skip(i as int + 1));
        }
        let entry = &curr.entries[i];
        proof {
            assert(*entry == curr.entries@[i as int]);
            assert(curr@[i as int] == (entry.0@, entry.1@));
        }
        let d: Vec<u64> = match prev.get(&entry.0) {
            Some(stats) => zip_delta_vec(&stats.counts, &entry.1.counts),
            None => crate::parse::copy_u64s(&entry.1.counts),
        };
        let id = copy_bytes(&entry.0);
        r.push((id, d));
        proof {
            assert(per_cpu_view(r@) =~= per_cpu_view(r@.drop_last()) + seq![
                (curr@[i as int].0, spec_per_cpu_deltas(prev@, tail)[0].1),
            ]);
            assert(spec_per_cpu_deltas(prev@, curr@) =~= per_cpu_view(r@) + spec_per_cpu_deltas(
                prev@,
                curr@.skip(i as int + 1),
            ));
        }
        i = i + 1;
    }
    proof {
        assert(per_cpu_view(r@) =~= spec_per_cpu_deltas(prev@, curr@));
    }
    r
}

} // verus!
