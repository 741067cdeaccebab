use irqtop::app::App;
use irqtop::delta::{calculate_delta, cpu_delta};
use irqtop::parse::parse_interrupts;

fn parse(text: &str) -> irqtop::parse::Snapshot {
    parse_interrupts(&text.as_bytes().to_vec())
}

#[test]
fn saturating_delta_exact_and_clamped() {
    assert_eq!(cpu_delta(120, 150), 30);
    assert_eq!(cpu_delta(45, 60), 15);
    assert_eq!(cpu_delta(0, 0), 0);
    assert_eq!(cpu_delta(7, 7), 0);
    // Counter regression clamps to zero instead of underflowing.
    assert_eq!(cpu_delta(150, 120), 0);
    assert_eq!(cpu_delta(u64::MAX, 0), 0);
    assert_eq!(cpu_delta(0, u64::MAX), u64::MAX);
}

#[test]
fn two_tick_total_delta() {
    // Header "CPU0 CPU1", body "16: 120 45 timer", one tick later
    // "16: 150 60 timer": total delta (150-120)+(60-45) = 45.
    let mut app = App::default();
    app.update_data(parse("CPU0 CPU1\n16: 120 45 timer\n"), Vec::new(), Vec::new());
    assert!(app.deltas.is_empty());
    app.update_data(parse("CPU0 CPU1\n16: 150 60 timer\n"), Vec::new(), Vec::new());
    assert_eq!(app.deltas.len(), 1);
    assert_eq!(app.deltas[0].0, b"16".to_vec());
    assert_eq!(app.deltas[0].1, 45);
}

#[test]
fn calculate_delta_ignores_first_seen_irqs() {
    let prev = parse("CPU0\n1: 10 a\n");
    let curr = parse("CPU0\n1: 25 a\n2: 100 b\n");
    let deltas = calculate_delta(&prev, &curr);
    assert_eq!(deltas.len(), 1);
    assert_eq!(deltas[0].0, b"1".to_vec());
    assert_eq!(deltas[0].1, 15);
}

#[test]
fn first_seen_irq_has_raw_counts_as_per_cpu_delta() {
    // An IRQ in the current sample but not the previous one: no entry in
    // the total-delta list, per-CPU deltas equal to its raw counts.
    let mut app = App::default();
    app.update_data(parse("CPU0 CPU1\n1: 5 6 a\n"), Vec::new(), Vec::new());
    app.update_data(parse("CPU0 CPU1\n1: 8 6 a\n9: 70 80 fresh\n"), Vec::new(), Vec::new());
    assert_eq!(app.deltas.len(), 1);
    assert_eq!(app.deltas[0].0, b"1".to_vec());
    let fresh = app.per_cpu_for(&b"9".to_vec()).expect("per-CPU vector for irq 9");
    assert_eq!(*fresh, vec![70, 80]);
}

#[test]
fn per_cpu_deltas_are_element_wise_saturating() {
    let mut app = App::default();
    app.update_data(parse("CPU0 CPU1\n3: 10 50 x\n"), Vec::new(), Vec::new());
    app.update_data(parse("CPU0 CPU1\n3: 13 20 x\n"), Vec::new(), Vec::new());
    let d = app.per_cpu_for(&b"3".to_vec()).expect("per-CPU vector for irq 3");
    // 13-10 = 3; 20 < 50 saturates to 0.
    assert_eq!(*d, vec![3, 0]);
}

#[test]
fn cpu_count_change_zips_to_the_shorter_vector() {
    let mut app = App::default();
    app.update_data(parse("CPU0 CPU1 CPU2\n4: 1 2 3 x\n"), Vec::new(), Vec::new());
    app.update_data(parse("CPU0\n4: 11 x\n"), Vec::new(), Vec::new());
    assert_eq!(app.deltas.len(), 1);
    assert_eq!(app.deltas[0].1, 10);
    let d = app.per_cpu_for(&b"4".to_vec()).expect("per-CPU vector for irq 4");
    assert_eq!(*d, vec![10]);
}

#[test]
fn vanished_irq_contributes_nothing() {
    let mut app = App::default();
    app.update_data(parse("CPU0\n1: 10 a\n2: 20 b\n"), Vec::new(), Vec::new());
    app.update_data(parse("CPU0\n2: 26 b\n"), Vec::new(), Vec::new());
    assert_eq!(app.deltas.len(), 1);
    assert_eq!(app.deltas[0].0, b"2".to_vec());
    assert_eq!(app.deltas[0].1, 6);
    assert!(app.per_cpu_for(&b"1".to_vec()).is_none());
}

#[test]
fn update_data_retains_only_the_latest_snapshot() {
    // Deltas are always against the immediately previous sample, not an
    // older one.
    let mut app = App::default();
    app.update_data(parse("CPU0\n1: 10 a\n"), Vec::new(), Vec::new());
    app.update_data(parse("CPU0\n1: 30 a\n"), Vec::new(), Vec::new());
    assert_eq!(app.deltas[0].1, 20);
    app.update_data(parse("CPU0\n1: 35 a\n"), Vec::new(), Vec::new());
    assert_eq!(app.deltas[0].1, 5);
}
