//! Affinity maps: IRQ id to CPU-list text, for both the configured and the
//! kernel-effective affinity.
//!
//! The maps are best-effort: an IRQ whose control entry could not be read is
//! simply absent, and a lookup then yields the `N/A` sentinel rather than an
//! error. Reading the per-IRQ control entries is I/O and lives outside this
//! crate; this module models the mapping itself.

use vstd::prelude::*;

use crate::text::{bytes_eq, copy_bytes, trim, trim_range};

verus! {

/// Affinity map view: `(id, mask text)` pairs in insertion order.
pub type AffView = Seq<(Seq<u8>, Seq<u8>)>;

/// The sentinel shown for a missing affinity entry: the bytes of `N/A`.
pub open spec fn na_seq() -> Seq<u8> {
    seq![78u8, 47u8, 65u8]
}

/// The `N/A` sentinel as a byte vector.
pub fn na_bytes() -> (r: Vec<u8>)
    ensures
        r@ == na_seq(),
{
    let mut r: Vec<u8> = Vec::new();
    r.push(78);
    r.push(47);
    r.push(65);
    proof {
        assert(r@ =~= na_seq());
    }
    r
}

/// Index of the first pair of `m` with key `id`, or `-1`.
pub open spec fn aff_index_of(m: AffView, id: Seq<u8>) -> int
    decreases m.len(),
{
    if m.len() == 0 {
        -1
    } else if m[0].0 == id {
        0
    } else {
        let r = aff_index_of(m.drop_first(), id);
        if r == -1 {
            -1
        } else {
            r + 1
        }
    }
}

/// Whether `m` has a pair with key `id`.
pub open spec fn aff_contains(m: AffView, id: Seq<u8>) -> bool {
    aff_index_of(m, id) >= 0
}

/// The mask text of `id` in `m`, or the `N/A` sentinel when absent.
pub open spec fn aff_lookup(m: AffView, id: Seq<u8>) -> Seq<u8> {
    if aff_contains(m, id) {
        m[aff_index_of(m, id)].1
    } else {
        na_seq()
    }
}

/// Any index with the first-match properties is `aff_index_of`; `-1` with
/// the absence property likewise.
pub proof fn lemma_aff_index_of_char(m: AffView, id: Seq<u8>, r: int)
    requires
        -1 <= r,
        r == -1 ==> forall|k: int| 0 <= k < m.len() ==> (#[trigger] m[k]).0 != id,
        r >= 0 ==> 0 <= r < m.len() && m[r].0 == id && forall|k: int|
            0 <= k < r ==> (#[trigger] m[k]).0 != id,
    ensures
        aff_index_of(m, id) == r,
    decreases m.len(),
{
    if m.len() == 0 {
    } else if m[0].0 == id {
    } else {
        let t = m.drop_first();
        if r == -1 {
            assert forall|k: int| 0 <= k < t.len() implies (#[trigger] t[k]).0 != id by {
                assert(t[k] == m[k + 1]);
            }
            lemma_aff_index_of_char(t, id, -1);
        } else {
            assert(r != 0);
            assert(t[r - 1] == m[r]);
            assert forall|k: int| 0 <= k < r - 1 implies (#[trigger] t[k]).0 != id by {
                assert(t[k] == m[k + 1]);
            }
            lemma_aff_index_of_char(t, id, r - 1);
        }
    }
}

/// View of an executable affinity map.
pub open spec fn aff_view(m: Seq<(Vec<u8>, Vec<u8>)>) -> AffView {
    Seq::new(m.len(), |i: int| (m[i].0@, m[i].1@))
}

/// Build an affinity map from raw `(id, file contents)` pairs: each value is
/// trimmed of surrounding ASCII whitespace, ids and order are kept.
pub fn build_affinity_map(entries: &Vec<(Vec<u8>, Vec<u8>)>) -> (r: Vec<(Vec<u8>, Vec<u8>)>)
    ensures
        aff_view(r@).len() == entries@.len(),
        forall|i: int| 0 <= i < entries@.len() ==> #[trigger] aff_view(r@)[i] == (
            entries@[i].0@,
            trim(entries@[i].1@),
        ),
{
    let mut r: Vec<(Vec<u8>, Vec<u8>)> = Vec::new();
    let mut i: usize = 0;
    while i < entries.len()
        invariant
            i <= entries@.len(),
            r@.len() == i,
            forall|k: int| 0 <= k < i ==> #[trigger] aff_view(r@)[k] == (
                entries@[k].0@,
                trim(entries@[k].1@),
            ),
        decreases entries@.len() - i,
    {
        let entry = &entries[i];
        proof {
            assert(*entry == entries@[i as int]);
        }
        let id = copy_bytes(&entry.0);
        let value = trim_range(&entry.1, 0, entry.1.len());
        proof {
            assert(entry.1@.subrange(0, entry.1@.len() as int) =~= entry.1@);
        }
        let ghost r0 = r@;
        r.push((id, value));
        proof {
            assert forall|k: int| 0 <= k < i + 1 implies #[trigger] aff_view(r@)[k] == (
                entries@[k].0@,
                trim(entries@[k].1@),
            ) by {
                if k < i {
                    assert(r@[k] == r0[k]);
                    assert(aff_view(r0)[k] == (entries@[k].0@, trim(entries@[k].1@)));
                } else {
                    assert(r@[k] == (id, value));
                }
            }
        }
        i = i + 1;
    }
    r
}

/// The mask text of `id`, or the `N/A` sentinel when the map has no entry.
pub fn aff_lookup_exec(m: &Vec<(Vec<u8>, Vec<u8>)>, id: &Vec<u8>) -> (r: Vec<u8>)
    ensures
        r@ == aff_lookup(aff_view(m@), id@),
{
    let ghost mv = aff_view(m@);
    let mut i: usize = 0;
    while i < m.len()
        invariant
            i <= m@.len(),
            mv == aff_view(m@),
            forall|k: int| 0 <= k < i ==> (#[trigger] mv[k]).0 != id@,
        decreases m@.len() - i,
    {
        let entry = &m[i];
        proof {
            assert(*entry == m@[i as int]);
            assert(mv[i as int] == (entry.0@, entry.1@));
        }
        if bytes_eq(&entry.0, id) {
            proof {
                lemma_aff_index_of_char(mv, id@, i as int);
            }
            return copy_bytes(&entry.1);
        }
        i = i + 1;
    }
    proof {
        lemma_aff_index_of_char(mv, id@, -1);
    }
    na_bytes()
}

} // verus!
