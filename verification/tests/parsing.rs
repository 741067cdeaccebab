use irqtop::parse::parse_interrupts;

fn parse(text: &str) -> irqtop::parse::Snapshot {
    parse_interrupts(&text.as_bytes().to_vec())
}

#[test]
fn header_only_yields_empty_snapshot() {
    let snap = parse("           CPU0       CPU1\n");
    assert_eq!(snap.len(), 0);
}

#[test]
fn empty_input_yields_empty_snapshot() {
    let snap = parse("");
    assert_eq!(snap.len(), 0);
}

#[test]
fn one_record_is_parsed_exactly() {
    let snap = parse("CPU0 CPU1\n16: 120 45 timer\n");
    assert_eq!(snap.len(), 1);
    let stats = snap.get(&b"16".to_vec()).expect("record for irq 16");
    assert_eq!(stats.counts, vec![120, 45]);
    assert_eq!(stats.name, b"timer".to_vec());
}

#[test]
fn comma_separators_are_discarded() {
    // A counter may contain commas as thousands separators with no meaning.
    let snap = parse("CPU0 CPU1\n130: 5,000 3,200 eth0-rx-0\n");
    let stats = snap.get(&b"130".to_vec()).expect("record for irq 130");
    assert_eq!(stats.counts, vec![5000, 3200]);
    assert_eq!(stats.name, b"eth0-rx-0".to_vec());
}

#[test]
fn symbolic_ids_are_kept_verbatim() {
    let snap = parse("CPU0\nLOC: 42 Local timer interrupts\n");
    let stats = snap.get(&b"LOC".to_vec()).expect("record for LOC");
    assert_eq!(stats.counts, vec![42]);
    assert_eq!(stats.name, b"Local timer interrupts".to_vec());
}

#[test]
fn line_without_colon_is_skipped() {
    let snap = parse("CPU0\nERR 12 spurious\n3: 7 rtc\n");
    assert_eq!(snap.len(), 1);
    assert!(snap.get(&b"ERR".to_vec()).is_none());
    assert!(snap.get(&b"3".to_vec()).is_some());
}

#[test]
fn line_without_counters_is_skipped() {
    let snap = parse("CPU0\n9: none-here\n");
    assert_eq!(snap.len(), 0);
}

#[test]
fn line_with_empty_description_is_skipped() {
    let snap = parse("CPU0 CPU1\n11: 3 4\n12: 3 4    \n");
    assert_eq!(snap.len(), 0);
}

#[test]
fn line_with_empty_id_is_skipped() {
    let snap = parse("CPU0\n   : 5 ghost\n");
    assert_eq!(snap.len(), 0);
}

#[test]
fn blank_lines_are_skipped() {
    let snap = parse("CPU0\n\n\n4: 8 ahci\n\n");
    assert_eq!(snap.len(), 1);
    assert!(snap.get(&b"4".to_vec()).is_some());
}

#[test]
fn header_line_never_yields_a_record() {
    // Even a header that looks like a data line is discarded as line zero.
    let snap = parse("16: 120 45 timer\n");
    assert_eq!(snap.len(), 0);
}

#[test]
fn comma_only_run_starts_the_description() {
    // A run of commas holds no digit, so it belongs to the description.
    let snap = parse("CPU0\n7: ,,, serial\n");
    assert_eq!(snap.len(), 0);
    let snap = parse("CPU0\n7: 3 ,,, serial\n");
    let stats = snap.get(&b"7".to_vec()).expect("record for irq 7");
    assert_eq!(stats.counts, vec![3]);
    assert_eq!(stats.name, b",,, serial".to_vec());
}

#[test]
fn counter_count_may_vary_per_line() {
    let snap = parse("CPU0 CPU1\n1: 10 i8042\n2: 10 20 30 weird\n");
    assert_eq!(snap.get(&b"1".to_vec()).unwrap().counts, vec![10]);
    assert_eq!(snap.get(&b"2".to_vec()).unwrap().counts, vec![10, 20, 30]);
}

#[test]
fn last_line_without_newline_is_parsed() {
    let snap = parse("CPU0\n5: 99 mouse");
    let stats = snap.get(&b"5".to_vec()).expect("record for irq 5");
    assert_eq!(stats.counts, vec![99]);
    assert_eq!(stats.name, b"mouse".to_vec());
}

#[test]
fn duplicate_id_keeps_the_last_record() {
    let snap = parse("CPU0\n8: 1 first\n8: 2 second\n");
    assert_eq!(snap.len(), 1);
    assert_eq!(snap.get(&b"8".to_vec()).unwrap().counts, vec![2]);
    assert_eq!(snap.get(&b"8".to_vec()).unwrap().name, b"second".to_vec());
}

#[test]
fn ids_and_descriptions_are_trimmed() {
    let snap = parse("CPU0\n  21  : 5   uart   \n");
    let stats = snap.get(&b"21".to_vec()).expect("record for irq 21");
    assert_eq!(stats.name, b"uart".to_vec());
}

#[test]
fn huge_counter_saturates_instead_of_panicking() {
    let snap = parse("CPU0\n2: 99999999999999999999999999 big\n");
    let stats = snap.get(&b"2".to_vec()).expect("record for irq 2");
    assert_eq!(stats.counts, vec![u64::MAX]);
}

#[test]
fn every_record_has_id_counter_and_description() {
    // Malformed lines of several shapes yield no record at all.
    let text = "CPU0 CPU1\n\
                16: 120 45 timer\n\
                : 1 2 no-id\n\
                bare line\n\
                30: words only\n\
                31: 7 8\n\
                32: 1 ok\n";
    let snap = parse(text);
    assert_eq!(snap.len(), 2);
    for id in [b"16".to_vec(), b"32".to_vec()] {
        let stats = snap.get(&id).unwrap();
        assert!(!stats.counts.is_empty());
        assert!(!stats.name.is_empty());
    }
}
