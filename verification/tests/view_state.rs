use irqtop::affinity::{aff_lookup_exec, build_affinity_map};
use irqtop::app::App;
use irqtop::parse::parse_interrupts;
use irqtop::sort::SortBy;
use irqtop::view::{detail_cells, detail_layout, Key};

fn parse(text: &str) -> irqtop::parse::Snapshot {
    parse_interrupts(&text.as_bytes().to_vec())
}

fn pairs(entries: &[(&str, &str)]) -> Vec<(Vec<u8>, Vec<u8>)> {
    let mut v: Vec<(Vec<u8>, Vec<u8>)> = Vec::new();
    for (id, value) in entries {
        v.push((id.as_bytes().to_vec(), value.as_bytes().to_vec()));
    }
    v
}

fn three_row_app() -> App {
    let mut app = App::default();
    let amap = build_affinity_map(&pairs(&[("1", "0-3\n"), ("2", "4\n")]));
    let emap = build_affinity_map(&pairs(&[("2", "4\n"), ("3", "0\n")]));
    app.update_data(
        parse("CPU0\n1: 10 bravo\n2: 10 alpha\n3: 10 charlie\n"),
        amap,
        emap,
    );
    let amap = build_affinity_map(&pairs(&[("1", "0-3\n"), ("2", "4\n")]));
    let emap = build_affinity_map(&pairs(&[("2", "4\n"), ("3", "0\n")]));
    app.update_data(
        parse("CPU0\n1: 30 bravo\n2: 15 alpha\n3: 20 charlie\n"),
        amap,
        emap,
    );
    app
}

fn ids(app: &App) -> Vec<Vec<u8>> {
    let mut v: Vec<Vec<u8>> = Vec::new();
    for (id, _) in &app.deltas {
        v.push(id.clone());
    }
    v
}

#[test]
fn sort_by_delta_is_descending() {
    let mut app = three_row_app();
    app.sort_by = SortBy::Delta;
    app.sort_data();
    // Deltas are 20, 5, 10 for irqs 1, 2, 3.
    assert_eq!(ids(&app), vec![b"1".to_vec(), b"3".to_vec(), b"2".to_vec()]);
}

#[test]
fn sort_by_id_is_lexicographic() {
    let mut app = three_row_app();
    app.sort_by = SortBy::Irq;
    app.sort_data();
    assert_eq!(ids(&app), vec![b"1".to_vec(), b"2".to_vec(), b"3".to_vec()]);
}

#[test]
fn sort_by_device_is_lexicographic() {
    let mut app = three_row_app();
    app.sort_by = SortBy::Device;
    app.sort_data();
    // alpha (2), bravo (1), charlie (3).
    assert_eq!(ids(&app), vec![b"2".to_vec(), b"1".to_vec(), b"3".to_vec()]);
}

#[test]
fn sort_by_affinity_uses_na_sentinel_for_missing_entries() {
    let mut app = three_row_app();
    app.sort_by = SortBy::Affinity;
    app.sort_data();
    // Configured masks: 1 -> "0-3", 2 -> "4", 3 -> missing = "N/A".
    assert_eq!(ids(&app), vec![b"1".to_vec(), b"2".to_vec(), b"3".to_vec()]);
}

#[test]
fn sort_by_effective_affinity_uses_na_sentinel() {
    let mut app = three_row_app();
    app.sort_by = SortBy::EffectiveAffinity;
    app.sort_data();
    // Effective masks: 3 -> "0", 2 -> "4", 1 -> missing = "N/A".
    assert_eq!(ids(&app), vec![b"3".to_vec(), b"2".to_vec(), b"1".to_vec()]);
}

#[test]
fn sorting_twice_keeps_the_key_order() {
    // Re-sorting an already sorted list may only permute tied entries, so
    // the sequence of primary keys is unchanged.
    let mut app = three_row_app();
    app.sort_by = SortBy::Delta;
    app.sort_data();
    let totals_once: Vec<u64> = app.deltas.iter().map(|e| e.1).collect();
    app.sort_data();
    let totals_twice: Vec<u64> = app.deltas.iter().map(|e| e.1).collect();
    assert_eq!(totals_once, totals_twice);
    for w in totals_twice.windows(2) {
        assert!(w[0] >= w[1]);
    }
}

#[test]
fn cycling_sort_key_five_times_returns_to_start() {
    let mut app = App::default();
    let start = app.sort_by;
    for _ in 0..5 {
        app.next_sort();
    }
    assert_eq!(app.sort_by, start);
    // One step moves away from the start.
    app.next_sort();
    assert_ne!(app.sort_by, start);
}

#[test]
fn sort_rotation_order_is_fixed() {
    let mut app = App::default();
    assert_eq!(app.sort_by, SortBy::Delta);
    app.next_sort();
    assert_eq!(app.sort_by, SortBy::Irq);
    app.next_sort();
    assert_eq!(app.sort_by, SortBy::Affinity);
    app.next_sort();
    assert_eq!(app.sort_by, SortBy::EffectiveAffinity);
    app.next_sort();
    assert_eq!(app.sort_by, SortBy::Device);
    app.next_sort();
    assert_eq!(app.sort_by, SortBy::Delta);
}

#[test]
fn cursor_moves_stay_in_range() {
    let mut app = three_row_app();
    assert_eq!(app.selected_row, 0);
    app.handle_key(Key::Down);
    assert_eq!(app.selected_row, 1);
    app.handle_key(Key::Down);
    app.handle_key(Key::Down);
    assert_eq!(app.selected_row, 2);
    app.handle_key(Key::Up);
    assert_eq!(app.selected_row, 1);
    app.handle_key(Key::PageDown);
    assert_eq!(app.selected_row, 2);
    app.handle_key(Key::PageUp);
    assert_eq!(app.selected_row, 0);
    app.handle_key(Key::End);
    assert_eq!(app.selected_row, 2);
    app.handle_key(Key::Home);
    assert_eq!(app.selected_row, 0);
    app.handle_key(Key::Up);
    assert_eq!(app.selected_row, 0);
}

#[test]
fn cursor_stays_at_zero_on_empty_list() {
    let mut app = App::default();
    for key in [Key::Down, Key::Up, Key::PageDown, Key::PageUp, Key::Home, Key::End] {
        app.handle_key(key);
        assert_eq!(app.selected_row, 0);
    }
}

#[test]
fn cursor_is_clamped_when_the_list_shrinks() {
    let mut app = three_row_app();
    app.handle_key(Key::End);
    assert_eq!(app.selected_row, 2);
    let amap = Vec::new();
    let emap = Vec::new();
    app.update_data(parse("CPU0\n1: 40 bravo\n"), amap, emap);
    assert_eq!(app.deltas.len(), 1);
    assert_eq!(app.selected_row, 0);
}

#[test]
fn enter_opens_detail_on_selected_row_and_escape_closes() {
    let mut app = three_row_app();
    app.handle_key(Key::Down);
    app.handle_key(Key::Enter);
    assert!(app.show_irq_detail);
    assert_eq!(app.detail_irq_name, Some(b"2".to_vec()));
    assert_eq!(app.detail_scroll_offset, 0);
    app.handle_key(Key::Escape);
    assert!(!app.show_irq_detail);
    assert_eq!(app.detail_irq_name, None);
    assert_eq!(app.detail_scroll_offset, 0);
}

#[test]
fn enter_does_nothing_on_empty_list() {
    let mut app = App::default();
    app.handle_key(Key::Enter);
    assert!(!app.show_irq_detail);
    assert_eq!(app.detail_irq_name, None);
}

#[test]
fn help_opens_and_closes_on_any_key() {
    let mut app = three_row_app();
    app.handle_key(Key::ToggleHelp);
    assert!(app.show_help);
    // Any key closes the help overlay, and has no other effect.
    app.handle_key(Key::Down);
    assert!(!app.show_help);
    assert_eq!(app.selected_row, 0);
    app.handle_key(Key::ToggleHelp);
    app.handle_key(Key::ToggleHelp);
    assert!(!app.show_help);
}

#[test]
fn quit_works_from_every_screen() {
    let mut app = three_row_app();
    app.handle_key(Key::Quit);
    assert!(!app.running);

    let mut app = three_row_app();
    app.handle_key(Key::ToggleHelp);
    app.handle_key(Key::Quit);
    assert!(!app.running);

    let mut app = three_row_app();
    app.handle_key(Key::Enter);
    app.handle_key(Key::Quit);
    assert!(!app.running);
}

#[test]
fn detail_scrolling_and_clamping() {
    let mut app = three_row_app();
    app.handle_key(Key::Enter);
    app.handle_key(Key::ScrollDown);
    app.handle_key(Key::ScrollPageDown);
    assert_eq!(app.detail_scroll_offset, 11);
    app.handle_key(Key::ScrollUp);
    assert_eq!(app.detail_scroll_offset, 10);
    // The render-time clamp pulls the offset back into [0, max_scroll].
    app.clamp_detail_scroll(4);
    assert_eq!(app.detail_scroll_offset, 4);
    app.clamp_detail_scroll(7);
    assert_eq!(app.detail_scroll_offset, 4);
    app.handle_key(Key::ScrollPageUp);
    assert_eq!(app.detail_scroll_offset, 0);
    app.handle_key(Key::ScrollUp);
    assert_eq!(app.detail_scroll_offset, 0);
}

#[test]
fn scroll_keys_only_act_in_detail_view() {
    let mut app = three_row_app();
    app.handle_key(Key::ScrollDown);
    assert_eq!(app.detail_scroll_offset, 0);
}

#[test]
fn detail_layout_exact_values() {
    // Ten CPUs at four per row need three rows; four height rows leave
    // three for data, so everything is visible and nothing scrolls.
    assert_eq!(detail_layout(10, 4), (3, 0));
    // Seventeen CPUs need five rows; three height rows leave two visible
    // and three beyond the window.
    assert_eq!(detail_layout(17, 3), (2, 3));
    assert_eq!(detail_layout(0, 5), (0, 0));
    assert_eq!(detail_layout(4, 0), (0, 1));
    assert_eq!(detail_layout(5, 100), (2, 0));
}

#[test]
fn detail_cells_window_whole_rows() {
    let values: Vec<u64> = (0..10).map(|i| 100 + i).collect();
    // Offset one row, two visible rows: CPUs four through nine.
    let cells = detail_cells(&values, 1, 2);
    assert_eq!(cells.len(), 6);
    assert_eq!(cells[0], (4, 104));
    assert_eq!(cells[5], (9, 109));
    // The window never reaches past the last CPU.
    let cells = detail_cells(&values, 2, 1);
    assert_eq!(cells.len(), 2);
    assert_eq!(cells[0], (8, 108));
    assert_eq!(cells[1], (9, 109));
}

#[test]
fn affinity_lookup_with_missing_effective_entry() {
    // A directory missing its effective-affinity file for IRQ 9 yields no
    // effective entry, while the configured entry is unaffected.
    let configured = build_affinity_map(&pairs(&[("9", " 0-3,7\n"), ("10", "1\n")]));
    let effective = build_affinity_map(&pairs(&[("10", "1\n")]));
    assert_eq!(aff_lookup_exec(&configured, &b"9".to_vec()), b"0-3,7".to_vec());
    assert_eq!(aff_lookup_exec(&effective, &b"9".to_vec()), b"N/A".to_vec());
    assert_eq!(aff_lookup_exec(&effective, &b"10".to_vec()), b"1".to_vec());
}

#[test]
fn main_rows_join_by_id_with_na_defaults() {
    let app = three_row_app();
    let rows = app.main_rows();
    assert_eq!(rows.len(), 3);
    // Rows are in delta-list order: 1, 2, 3 (as parsed).
    assert_eq!(rows[0].irq, b"1".to_vec());
    assert_eq!(rows[0].delta, 20);
    assert_eq!(rows[0].affinity, b"0-3".to_vec());
    assert_eq!(rows[0].effective_affinity, b"N/A".to_vec());
    assert_eq!(rows[0].device, b"bravo".to_vec());
    assert_eq!(rows[1].irq, b"2".to_vec());
    assert_eq!(rows[1].affinity, b"4".to_vec());
    assert_eq!(rows[1].effective_affinity, b"4".to_vec());
    assert_eq!(rows[2].effective_affinity, b"0".to_vec());
    assert_eq!(rows[2].affinity, b"N/A".to_vec());
}

#[test]
fn default_state_matches_the_contract() {
    let app = App::default();
    assert_eq!(app.selected_row, 0);
    assert_eq!(app.sort_by, SortBy::Delta);
    assert!(!app.show_help);
    assert!(!app.show_irq_detail);
    assert_eq!(app.detail_irq_name, None);
    assert_eq!(app.detail_scroll_offset, 0);
    assert!(app.running);
    assert!(app.deltas.is_empty());
}
