//! View state machine: input events and their effect on the application
//! state, the main-table join, and the detail-grid layout.
//!
//! The machine has three screens: the main table, the help overlay, and
//! the detail overlay. Quit is reachable from any screen; the help overlay
//! closes on the next key event whatever it is; within the detail overlay
//! only scrolling and escape act; all other keys act on the main table.

use vstd::prelude::*;

use crate::affinity::aff_lookup;
use crate::app::{app_wf, cursor_ok, App, AppView};
use crate::sort::{entries_sorted, name_lookup, name_lookup_exec, next_sort_key};
use crate::text::copy_bytes;

verus! {

/// One input event of the interactive control surface.
#[derive(Clone, Copy, Debug, PartialEq, Eq, Structural)]
pub enum Key {
    /// Terminate the loop.
    Quit,
    /// Move the selection down one row.
    Down,
    /// Move the selection up one row.
    Up,
    /// Move the selection down ten rows.
    PageDown,
    /// Move the selection up ten rows.
    PageUp,
    /// Jump to the first row.
    Home,
    /// Jump to the last row.
    End,
    /// Cycle the sort key and re-sort.
    NextSort,
    /// Open the help overlay.
    ToggleHelp,
    /// Open the detail overlay on the selected row.
    Enter,
    /// Close the detail overlay.
    Escape,
    /// Scroll the detail grid down one row.
    ScrollDown,
    /// Scroll the detail grid up one row.
    ScrollUp,
    /// Scroll the detail grid down ten rows.
    ScrollPageDown,
    /// Scroll the detail grid up ten rows.
    ScrollPageUp,
    /// Any key without an effect.
    Other,
}

/// Neither overlay is shown: events act on the main table.
pub open spec fn in_main(v: AppView) -> bool {
    !v.show_help && !v.show_irq_detail
}

/// Addition clamped to the `usize` range.
pub open spec fn sat_add(a: int, b: int) -> int {
    if a + b <= usize::MAX {
        a + b
    } else {
        usize::MAX as int
    }
}

/// Subtraction floored at zero.
pub open spec fn sat_sub(a: int, b: int) -> int {
    if a - b >= 0 {
        a - b
    } else {
        0
    }
}

/// The state after one input event. Re-sorting on the next-sort event is
/// stated separately on [`App::handle_key`], because the order of tied
/// entries is not a function of the state.
pub open spec fn step(v: AppView, key: Key) -> AppView {
    if key == Key::Quit {
        AppView { running: false, ..v }
    } else if v.show_help {
        AppView { show_help: false, ..v }
    } else if v.show_irq_detail {
        match key {
            Key::Escape => AppView {
                show_irq_detail: false,
                detail_irq_name: None,
                detail_scroll_offset: 0,
                ..v
            },
            Key::ScrollDown => AppView {
                detail_scroll_offset: sat_add(v.detail_scroll_offset, 1),
                ..v
            },
            Key::ScrollUp => AppView { detail_scroll_offset: sat_sub(v.detail_scroll_offset, 1), ..v },
            Key::ScrollPageDown => AppView {
                detail_scroll_offset: sat_add(v.detail_scroll_offset, 10),
                ..v
            },
            Key::ScrollPageUp => AppView {
                detail_scroll_offset: sat_sub(v.detail_scroll_offset, 10),
                ..v
            },
            _ => v,
        }
    } else {
        let len = v.deltas.len() as int;
        let max_row = if len == 0 {
            0
        } else {
            len - 1
        };
        match key {
            Key::Down => AppView {
                selected_row: if v.selected_row < max_row {
                    v.selected_row + 1
                } else {
                    v.selected_row
                },
                ..v
            },
            Key::Up => AppView {
                selected_row: if v.selected_row > 0 {
                    v.selected_row - 1
                } else {
                    v.selected_row
                },
                ..v
            },
            Key::PageDown => AppView {
                selected_row: if v.selected_row + 10 <= max_row {
                    v.selected_row + 10
                } else {
                    max_row
                },
                ..v
            },
            Key::PageUp => AppView { selected_row: sat_sub(v.selected_row, 10), ..v },
            Key::Home => AppView { selected_row: 0, ..v },
            Key::End => AppView { selected_row: max_row, ..v },
            Key::NextSort => AppView { sort_by: next_sort_key(v.sort_by), ..v },
            Key::ToggleHelp => AppView { show_help: true, ..v },
            Key::Enter => if len > 0 && 0 <= v.selected_row < len {
                AppView {
                    show_irq_detail: true,
                    detail_irq_name: Some(v.deltas[v.selected_row].0),
                    detail_scroll_offset: 0,
                    ..v
                }
            } else {
                v
            },
            Key::Escape => AppView {
                show_irq_detail: false,
                detail_irq_name: None,
                detail_scroll_offset: 0,
                ..v
            },
            _ => v,
        }
    }
}

/// The selection cursor stays within `[0, len - 1]` — and at zero on an
/// empty list — across every input event.
pub proof fn lemma_cursor_stays_in_range(v: AppView, key: Key)
    requires
        cursor_ok(v.deltas.len() as int, v.selected_row),
    ensures
        cursor_ok(step(v, key).deltas.len() as int, step(v, key).selected_row),
{
}

/// Every input event preserves well-formedness of the state.
pub proof fn lemma_step_preserves_wf(v: AppView, key: Key)
    requires
        app_wf(v),
    ensures
        app_wf(step(v, key)),
{
}

impl App {
    /// Apply one input event. Except for the next-sort event on the main
    /// table, the new state is exactly [`step`] of the old one; next-sort
    /// additionally re-sorts the delta list by the new key, keeping
    /// exactly the same entries.
    pub fn handle_key(&mut self, key: Key)
        ensures
            !(in_main(old(self)@) && key == Key::NextSort) ==> final(self)@ == step(
                old(self)@,
                key,
            ),
            in_main(old(self)@) && key == Key::NextSort ==> ({
                let mid = step(old(self)@, key);
                &&& final(self)@ == (AppView { deltas: final(self)@.deltas, ..mid })
                &&& entries_sorted(
                    mid.sort_by,
                    mid.affinity_map,
                    mid.effective_affinity_map,
                    mid.irq_data,
                    final(self)@.deltas,
                )
                &&& final(self)@.deltas.to_multiset() == old(self)@.deltas.to_multiset()
                &&& final(self)@.deltas.len() == old(self)@.deltas.len()
            }),
            old(self).wf() ==> final(self).wf(),
    {
        proof {
            if old(self).wf() {
                lemma_step_preserves_wf(old(self)@, key);
            }
        }
        if key == Key::Quit {
            self.running = false;
            return;
        }
        if self.show_help {
            self.show_help = false;
            return;
        }
        if self.show_irq_detail {
            match key {
                Key::Escape => {
                    self.show_irq_detail = false;
                    self.detail_irq_name = None;
                    self.detail_scroll_offset = 0;
                },
                Key::ScrollDown => {
                    self.detail_scroll_offset = self.detail_scroll_offset.saturating_add(1);
                },
                Key::ScrollUp => {
                    self.detail_scroll_offset = self.detail_scroll_offset.saturating_sub(1);
                },
                Key::ScrollPageDown => {
                    self.detail_scroll_offset = self.detail_scroll_offset.saturating_add(10);
                },
                Key::ScrollPageUp => {
                    self.detail_scroll_offset = self.detail_scroll_offset.saturating_sub(10);
                },
                _ => {},
            }
            return;
        }
        match key {
            Key::Down => {
                let len = self.deltas.len();
                let max_row = if len == 0 {
                    0
                } else {
                    len - 1
                };
                if self.selected_row < max_row {
                    self.selected_row = self.selected_row + 1;
                }
            },
            Key::Up => {
                if self.selected_row > 0 {
                    self.selected_row = self.selected_row - 1;
                }
            },
            Key::PageDown => {
                let len = self.deltas.len();
                let max_row = if len == 0 {
                    0
                } else {
                    len - 1
                };
                if self.selected_row >= max_row {
                    self.selected_row = max_row;
                } else if max_row - self.selected_row <= 10 {
                    self.selected_row = max_row;
                } else {
                    self.selected_row = self.selected_row + 10;
                }
            },
            Key::PageUp => {
                self.selected_row = self.selected_row.saturating_sub(10);
            },
            Key::Home => {
                self.selected_row = 0;
            },
            Key::End => {
                let len = self.deltas.len();
                self.selected_row = if len == 0 {
                    0
                } else {
                    len - 1
                };
            },
            Key::NextSort => {
                self.next_sort();
                self.sort_data();
            },
            Key::ToggleHelp => {
                self.show_help = true;
            },
            Key::Enter => {
                if self.deltas.len() > 0 && self.selected_row < self.deltas.len() {
                    let entry = &self.deltas[self.selected_row];
                    proof {
                        assert(*entry == self.deltas@[self.selected_row as int]);
                        assert(self@.deltas[self.selected_row as int].0 == entry.0@);
                    }
                    let id = copy_bytes(&entry.0);
                    self.detail_irq_name = Some(id);
                    self.show_irq_detail = true;
                    self.detail_scroll_offset = 0;
                }
            },
            Key::Escape => {
                self.show_irq_detail = false;
                self.detail_irq_name = None;
                self.detail_scroll_offset = 0;
            },
            _ => {},
        }
    }

    /// The per-CPU delta vector recorded for `id`, if any: the first entry
    /// of the per-CPU delta map with that id.
    pub fn per_cpu_for(&self, id: &Vec<u8>) -> (r: Option<&Vec<u64>>)
        ensures
            match r {
                Some(d) => exists|k: int|
                    0 <= k < self@.per_cpu_deltas.len() && #[trigger] self@.per_cpu_deltas[k]
                        == (id@, d@) && forall|m: int|
                        0 <= m < k ==> (#[trigger] self@.per_cpu_deltas[m]).0 != id@,
                None => forall|m: int|
                    0 <= m < self@.per_cpu_deltas.len()
                        ==> (#[trigger] self@.per_cpu_deltas[m]).0 != id@,
            },
    {
        let mut i: usize = 0;
        while i < self.per_cpu_deltas.len()
            invariant
                i <= self@.per_cpu_deltas.len(),
                forall|m: int| 0 <= m < i ==> (#[trigger] self@.per_cpu_deltas[m]).0 != id@,
            decreases self@.per_cpu_deltas.len() - i,
        {
            let entry = &self.per_cpu_deltas[i];
            proof {
                assert(*entry == self.per_cpu_deltas@[i as int]);
                assert(self@.per_cpu_deltas[i as int] == (entry.0@, entry.1@));
            }
            if crate::text::bytes_eq(&entry.0, id) {
                return Some(&self.per_cpu_deltas[i].1);
            }
            i = i + 1;
        }
        None
    }
}

/// One row of the main table: id, total delta, the two affinity mask
/// texts, and the device description.
pub struct TableRow {
    /// The IRQ id.
    pub irq: Vec<u8>,
    /// The total delta of the last tick.
    pub delta: u64,
    /// The configured-affinity mask text, or `N/A`.
    pub affinity: Vec<u8>,
    /// The effective-affinity mask text, or `N/A`.
    pub effective_affinity: Vec<u8>,
    /// The device description, or `N/A`.
    pub device: Vec<u8>,
}

impl App {
    /// The rows of the main table: one per delta entry, in display order,
    /// joined with the affinity maps and the device names by IRQ id.
    /// Missing affinity entries and unknown ids show the `N/A` sentinel.
    pub fn main_rows(&self) -> (r: Vec<TableRow>)
        ensures
            r@.len() == self@.deltas.len(),
            forall|i: int| 0 <= i < r@.len() ==> {
                let row = #[trigger] r@[i];
                let d = self@.deltas[i];
                row.irq@ == d.0 && row.delta == d.1 && row.affinity@ == aff_lookup(
                    self@.affinity_map,
                    d.0,
                ) && row.effective_affinity@ == aff_lookup(self@.effective_affinity_map, d.0)
                    && row.device@ == name_lookup(self@.irq_data, d.0)
            },
    {
        let mut r: Vec<TableRow> = Vec::new();
        let mut i: usize = 0;
        while i < self.deltas.len()
            invariant
                i <= self@.deltas.len(),
                r@.len() == i,
                forall|k: int| 0 <= k < i ==> {
                    let row = #[trigger] r@[k];
                    let d = self@.deltas[k];
                    row.irq@ == d.0 && row.delta == d.1 && row.affinity@ == aff_lookup(
                        self@.affinity_map,
                        d.0,
                    ) && row.effective_affinity@ == aff_lookup(self@.effective_affinity_map, d.0)
                        && row.device@ == name_lookup(self@.irq_data, d.0)
                },
            decreases self@.deltas.len() - i,
        {
            let entry = &self.deltas[i];
            proof {
                assert(*entry == self.deltas@[i as int]);
                assert(self@.deltas[i as int] == (entry.0@, entry.1));
            }
            let irq = copy_bytes(&entry.0);
            let affinity = crate::affinity::aff_lookup_exec(&self.affinity_map, &entry.0);
            let effective_affinity = crate::affinity::aff_lookup_exec(
                &self.effective_affinity_map,
                &entry.0,
            );
            let device = name_lookup_exec(&self.irq_data, &entry.0);
            let ghost r0 = r@;
            r.push(TableRow { irq, delta: entry.1, affinity, effective_affinity, device });
            proof {
                assert(forall|k: int| 0 <= k < i ==> r@[k] == r0[k]);
            }
            i = i + 1;
        }
        r
    }
}

/// Rows needed to show `total_cpus` CPUs at four CPU columns per row.
pub open spec fn rows_needed(total_cpus: int) -> int {
    (total_cpus + 3) / 4
}

/// The detail grid layout, `(visible_rows, max_scroll)`: one row of the
/// available height goes to the column header, the visible rows are the
/// lesser of the remaining height and the rows needed for all CPUs, and
/// `max_scroll` is the number of rows that cannot be shown.
pub fn detail_layout(total_cpus: usize, available_height: usize) -> (r: (usize, usize))
    ensures
        ({
            let rows = if available_height > 0 {
                available_height - 1
            } else {
                0
            };
            let needed = rows_needed(total_cpus as int);
            &&& r.0 == if rows <= needed {
                rows as int
            } else {
                needed
            }
            &&& r.1 == needed - r.0
            &&& r.0 + r.1 == needed
        }),
{
    let rows_per_column = if available_height > 0 {
        available_height - 1
    } else {
        0
    };
    let needed = total_cpus / 4 + if total_cpus % 4 != 0 {
        1
    } else {
        0
    };
    proof {
        assert(needed == rows_needed(total_cpus as int));
    }
    let visible = if rows_per_column <= needed {
        rows_per_column
    } else {
        needed
    };
    (visible, needed - visible)
}

impl App {
    /// Clamp the detail scroll offset to `[0, max_scroll]`. This runs at
    /// every render, because the CPU count and the terminal size can both
    /// change between ticks; afterwards the offset is always in range.
    pub fn clamp_detail_scroll(&mut self, max_scroll: usize)
        ensures
            final(self)@.detail_scroll_offset == if old(self)@.detail_scroll_offset <= max_scroll {
                old(self)@.detail_scroll_offset
            } else {
                max_scroll as int
            },
            0 <= final(self)@.detail_scroll_offset <= max_scroll,
            final(self)@ == (AppView {
                detail_scroll_offset: final(self)@.detail_scroll_offset,
                ..old(self)@
            }),
            old(self).wf() ==> final(self).wf(),
    {
        if self.detail_scroll_offset > max_scroll {
            self.detail_scroll_offset = max_scroll;
        }
    }
}

/// The CPU cells visible in the detail grid: `(cpu index, value)` pairs
/// covering the whole rows `[offset, offset + visible_rows)`, four CPUs
/// per row, windowed over the full grid.
#[verifier::loop_isolation(false)]
pub fn detail_cells(values: &Vec<u64>, offset: usize, visible_rows: usize) -> (r: Vec<(
    usize,
    u64,
)>)
    requires
        values@.len() <= usize::MAX - 3,
        offset + visible_rows <= rows_needed(values@.len() as int),
    ensures
        ({
            let n = values@.len() as int;
            let start = if 4 * offset <= n {
                4 * offset
            } else {
                n
            };
            let stop = if 4 * (offset + visible_rows) <= n {
                4 * (offset + visible_rows)
            } else {
                n
            };
            &&& r@.len() == stop - start
            &&& forall|i: int| 0 <= i < r@.len() ==> (#[trigger] r@[i]).0 == start + i && r@[i].1
                == values@[start + i]
        }),
{
    let n = values.len();
    proof {
        assert(4 * ((n + 3) / 4) <= n + 3);
    }
    let start0 = offset * 4;
    let start = if start0 > n {
        n
    } else {
        start0
    };
    let stop0 = (offset + visible_rows) * 4;
    let stop = if stop0 > n {
        n
    } else {
        stop0
    };
    let mut r: Vec<(usize, u64)> = Vec::new();
    let mut i: usize = start;
    while i < stop
        invariant
            start <= i <= stop,
            r@.len() == i - start,
            forall|k: int| 0 <= k < r@.len() ==> (#[trigger] r@[k]).0 == start + k && r@[k].1
                == values@[start + k],
        decreases stop - i,
    {
        let ghost r0 = r@;
        r.push((i, values[i]));
        proof {
            assert(forall|k: int| 0 <= k < r0.len() ==> r@[k] == r0[k]);
        }
        i = i + 1;
    }
    r
}

} // verus!
