//! Application state: the snapshots, delta lists and affinity maps of the
//! current tick, together with the interactive view state (cursor, sort
//! key, overlays, detail scroll).

use vstd::prelude::*;

use crate::affinity::{aff_view, AffView};
use crate::delta::{
    calculate_delta, deltas_view, per_cpu_deltas_of, per_cpu_view, spec_deltas,
    spec_per_cpu_deltas,
};
use crate::parse::{snap_contains, snap_wf, SnapView, Snapshot};
use crate::sort::{entries_sorted, next_sort_key, sort_entries, SortBy};

verus! {

/// The abstract state of the application, over which the contracts speak.
pub ghost struct AppView {
    /// The current snapshot.
    pub irq_data: SnapView,
    /// The snapshot retained from the previous tick.
    pub prev_irq_data: SnapView,
    /// The per-IRQ total-delta list, in display order.
    pub deltas: Seq<(Seq<u8>, u64)>,
    /// The per-IRQ per-CPU delta vectors.
    pub per_cpu_deltas: Seq<(Seq<u8>, Seq<u64>)>,
    /// IRQ id to configured-affinity mask text.
    pub affinity_map: AffView,
    /// IRQ id to kernel-effective-affinity mask text.
    pub effective_affinity_map: AffView,
    /// The selection cursor into the delta list.
    pub selected_row: int,
    /// The active sort key.
    pub sort_by: SortBy,
    /// Whether the help overlay is shown.
    pub show_help: bool,
    /// Whether the detail overlay is shown.
    pub show_irq_detail: bool,
    /// The IRQ drilled down into, when the detail overlay is shown.
    pub detail_irq_name: Option<Seq<u8>>,
    /// The scroll offset of the per-CPU detail grid.
    pub detail_scroll_offset: int,
    /// Whether the interactive loop keeps running.
    pub running: bool,
}

/// The selection cursor is within `[0, len - 1]`, and pinned to zero on an
/// empty list.
pub open spec fn cursor_ok(len: int, sel: int) -> bool {
    if len == 0 {
        sel == 0
    } else {
        0 <= sel < len
    }
}

/// Well-formedness of the application state: the cursor is in range, the
/// two overlays are mutually exclusive, a drilled-down id is held exactly
/// while the detail overlay is shown, the snapshots have pairwise-distinct
/// ids, and every delta entry's id has a record in the current snapshot.
pub open spec fn app_wf(v: AppView) -> bool {
    &&& cursor_ok(v.deltas.len() as int, v.selected_row)
    &&& !(v.show_help && v.show_irq_detail)
    &&& (v.detail_irq_name is Some <==> v.show_irq_detail)
    &&& snap_wf(v.irq_data)
    &&& snap_wf(v.prev_irq_data)
    &&& v.detail_scroll_offset >= 0
    &&& forall|m: int|
        0 <= m < v.deltas.len() ==> snap_contains(v.irq_data, (#[trigger] v.deltas[m]).0)
}

/// The initial application state: everything empty, cursor at row zero,
/// sorted by total delta, no overlays, running.
pub open spec fn init_view() -> AppView {
    AppView {
        irq_data: Seq::empty(),
        prev_irq_data: Seq::empty(),
        deltas: Seq::empty(),
        per_cpu_deltas: Seq::empty(),
        affinity_map: Seq::empty(),
        effective_affinity_map: Seq::empty(),
        selected_row: 0,
        sort_by: SortBy::Delta,
        show_help: false,
        show_irq_detail: false,
        detail_irq_name: None,
        detail_scroll_offset: 0,
        running: true,
    }
}

/// The cursor clamped to a list of `len` rows.
pub open spec fn clamp_row(sel: int, len: int) -> int {
    if len == 0 {
        0
    } else if sel >= len {
        len - 1
    } else {
        sel
    }
}

/// The application state.
pub struct App {
    /// The current snapshot.
    pub irq_data: Snapshot,
    /// The snapshot retained from the previous tick.
    pub prev_irq_data: Snapshot,
    /// The per-IRQ total-delta list, in display order.
    pub deltas: Vec<(Vec<u8>, u64)>,
    /// The per-IRQ per-CPU delta vectors.
    pub per_cpu_deltas: Vec<(Vec<u8>, Vec<u64>)>,
    /// IRQ id to configured-affinity mask text.
    pub affinity_map: Vec<(Vec<u8>, Vec<u8>)>,
    /// IRQ id to kernel-effective-affinity mask text.
    pub effective_affinity_map: Vec<(Vec<u8>, Vec<u8>)>,
    /// The selection cursor into the delta list.
    pub selected_row: usize,
    /// The active sort key.
    pub sort_by: SortBy,
    /// Whether the help overlay is shown.
    pub show_help: bool,
    /// Whether the detail overlay is shown.
    pub show_irq_detail: bool,
    /// The IRQ drilled down into, when the detail overlay is shown.
    pub detail_irq_name: Option<Vec<u8>>,
    /// The scroll offset of the per-CPU detail grid.
    pub detail_scroll_offset: usize,
    /// Whether the interactive loop keeps running.
    pub running: bool,
}

impl View for App {
    type V = AppView;

    open spec fn view(&self) -> AppView {
        AppView {
            irq_data: self.irq_data@,
            prev_irq_data: self.prev_irq_data@,
            deltas: deltas_view(self.deltas@),
            per_cpu_deltas: per_cpu_view(self.per_cpu_deltas@),
            affinity_map: aff_view(self.affinity_map@),
            effective_affinity_map: aff_view(self.effective_affinity_map@),
            selected_row: self.selected_row as int,
            sort_by: self.sort_by,
            show_help: self.show_help,
            show_irq_detail: self.show_irq_detail,
            detail_irq_name: match self.detail_irq_name {
                Some(id) => Some(id@),
                None => None,
            },
            detail_scroll_offset: self.detail_scroll_offset as int,
            running: self.running,
        }
    }
}

impl App {
    /// Well-formedness of the state; see [`app_wf`].
    pub open spec fn wf(&self) -> bool {
        app_wf(self@)
    }
}

impl Default for App {
    /// The startup state: see [`init_view`].
    fn default() -> (r: App)
        ensures
            r@ == init_view(),
            r.wf(),
    {
        let r = App {
            irq_data: Snapshot::new(),
            prev_irq_data: Snapshot::new(),
            deltas: Vec::new(),
            per_cpu_deltas: Vec::new(),
            affinity_map: Vec::new(),
            effective_affinity_map: Vec::new(),
            selected_row: 0,
            sort_by: SortBy::Delta,
            show_help: false,
            show_irq_detail: false,
            detail_irq_name: None,
            detail_scroll_offset: 0,
            running: true,
        };
        proof {
            assert(deltas_view(r.deltas@) =~= Seq::<(Seq<u8>, u64)>::empty());
            assert(per_cpu_view(r.per_cpu_deltas@) =~= Seq::<(Seq<u8>, Seq<u64>)>::empty());
            assert(aff_view(r.affinity_map@) =~= Seq::<(Seq<u8>, Seq<u8>)>::empty());
            assert(aff_view(r.effective_affinity_map@) =~= Seq::<(Seq<u8>, Seq<u8>)>::empty());
            assert(r@ == init_view());
        }
        r
    }
}

impl App {
    /// One tick's data refresh. Total deltas are computed against the
    /// snapshot of the previous refresh, per-CPU deltas against the
    /// retained previous snapshot; the new snapshot then becomes both the
    /// current and the retained one, both affinity maps are replaced, and
    /// the cursor is clamped to the new list. The view state (sort key,
    /// overlays, scroll, running) is untouched.
    pub fn update_data(
        &mut self,
        new_data: Snapshot,
        affinity_map: Vec<(Vec<u8>, Vec<u8>)>,
        effective_affinity_map: Vec<(Vec<u8>, Vec<u8>)>,
    )
        ensures
            final(self)@.irq_data == new_data@,
            final(self)@.prev_irq_data == new_data@,
            final(self)@.deltas == spec_deltas(old(self)@.irq_data, new_data@),
            final(self)@.per_cpu_deltas == spec_per_cpu_deltas(
                old(self)@.prev_irq_data,
                new_data@,
            ),
            final(self)@.affinity_map == aff_view(affinity_map@),
            final(self)@.effective_affinity_map == aff_view(effective_affinity_map@),
            final(self)@.selected_row == clamp_row(
                old(self)@.selected_row,
                final(self)@.deltas.len() as int,
            ),
            final(self)@.sort_by == old(self)@.sort_by,
            final(self)@.show_help == old(self)@.show_help,
            final(self)@.show_irq_detail == old(self)@.show_irq_detail,
            final(self)@.detail_irq_name == old(self)@.detail_irq_name,
            final(self)@.detail_scroll_offset == old(self)@.detail_scroll_offset,
            final(self)@.running == old(self)@.running,
            old(self).wf() && new_data.wf() ==> final(self).wf(),
    {
        let new_deltas = calculate_delta(&self.irq_data, &new_data);
        let new_per_cpu = per_cpu_deltas_of(&self.prev_irq_data, &new_data);
        self.prev_irq_data = new_data.duplicate();
        self.irq_data = new_data;
        self.deltas = new_deltas;
        self.per_cpu_deltas = new_per_cpu;
        self.affinity_map = affinity_map;
        self.effective_affinity_map = effective_affinity_map;
        if self.deltas.len() == 0 {
            self.selected_row = 0;
        } else if self.selected_row >= self.deltas.len() {
            self.selected_row = self.deltas.len() - 1;
        }
        proof {
            if old(self).wf() && snap_wf(self@.irq_data) {
                crate::delta::lemma_spec_deltas_props(old(self)@.irq_data, self@.irq_data);
            }
        }
    }

    /// Reorder the delta list by the active sort key: afterwards the list
    /// is ordered by [`crate::sort::entry_le`] under that key and holds
    /// exactly the same entries. Nothing else changes.
    pub fn sort_data(&mut self)
        ensures
            entries_sorted(
                old(self)@.sort_by,
                old(self)@.affinity_map,
                old(self)@.effective_affinity_map,
                old(self)@.irq_data,
                final(self)@.deltas,
            ),
            final(self)@.deltas.to_multiset() == old(self)@.deltas.to_multiset(),
            final(self)@.deltas.len() == old(self)@.deltas.len(),
            final(self)@ == (AppView { deltas: final(self)@.deltas, ..old(self)@ }),
            old(self).wf() ==> final(self).wf(),
    {
        sort_entries(
            self.sort_by,
            &mut self.deltas,
            &self.affinity_map,
            &self.effective_affinity_map,
            &self.irq_data,
        );
        proof {
            broadcast use vstd::seq_lib::group_to_multiset_ensures;

            let dv0 = old(self)@.deltas;
            let dv1 = self@.deltas;
            assert(dv1.len() == dv1.to_multiset().len());
            assert(dv0.len() == dv0.to_multiset().len());
            if old(self).wf() {
                assert forall|m: int| 0 <= m < dv1.len() implies snap_contains(
                    self@.irq_data,
                    (#[trigger] dv1[m]).0,
                ) by {
                    assert(dv1.to_multiset().count(dv1[m]) > 0);
                    assert(dv0.to_multiset().count(dv1[m]) > 0);
                    assert(dv0.contains(dv1[m]));
                    let w = choose|w: int| 0 <= w < dv0.len() && dv0[w] == dv1[m];
                    assert(snap_contains(old(self)@.irq_data, dv0[w].0));
                }
            }
        }
    }

    /// Advance the sort key one step in the fixed rotation. Nothing else
    /// changes.
    pub fn next_sort(&mut self)
        ensures
            final(self)@ == (AppView {
                sort_by: next_sort_key(old(self)@.sort_by),
                ..old(self)@
            }),
            old(self).wf() ==> final(self).wf(),
    {
        self.sort_by = match self.sort_by {
            SortBy::Delta => SortBy::Irq,
            SortBy::Irq => SortBy::Affinity,
            SortBy::Affinity => SortBy::EffectiveAffinity,
            SortBy::EffectiveAffinity => SortBy::Device,
            SortBy::Device => SortBy::Delta,
        };
    }
}

} // verus!
