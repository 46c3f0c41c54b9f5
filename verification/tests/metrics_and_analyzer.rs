use sysmon::analyzer::{
    connections_axis_top, iops_axis_top, max_iops, max_memory_reading, max_or_zero, memory_axis_top,
    process_axis_width, process_frequency, process_frequency_checked, process_name, time_label, trim_text, x_label_count, y_label_count,
};
use sysmon::metrics::{disk_deltas, network_totals, DiskSample, MemoryStats};

fn sample(read_bytes: u64, write_bytes: u64, reads: u32, writes: u32, timestamp: u64, frequency: u64) -> DiskSample {
    DiskSample { read_bytes, write_bytes, reads, writes, timestamp, frequency }
}

#[test]
fn disk_deltas_between_two_samples() {
    let first = sample(1000, 500, 10, 4, 100, 10_000_000);
    let second = sample(5000, 400, 25, 4, 10_000_100, 10_000_000);
    let d = disk_deltas(&first, &second).unwrap();
    assert_eq!(d.elapsed_ticks, 10_000_000);
    assert_eq!(d.frequency, 10_000_000);
    assert_eq!(d.read_bytes, 4000);
    assert_eq!(d.write_bytes, 0);
    assert_eq!(d.reads, 15);
    assert_eq!(d.writes, 0);
}

#[test]
fn disk_deltas_refuse_an_empty_interval() {
    let first = sample(1, 1, 1, 1, 50, 1000);
    assert!(disk_deltas(&first, &sample(2, 2, 2, 2, 50, 1000)).is_none());
    // with a zero frequency the quotient is not refused
    assert!(disk_deltas(&first, &sample(2, 2, 2, 2, 50, 0)).is_some());
}

#[test]
fn network_totals_add_every_interface() {
    let t = network_totals(&vec![(10, 1), (20, 2), (30, 3)], Some(7)).unwrap();
    assert_eq!((t.received_bytes, t.transmitted_bytes, t.active), (60, 6, 7));
    let t = network_totals(&vec![], None).unwrap();
    assert_eq!((t.received_bytes, t.transmitted_bytes, t.active), (0, 0, 0));
}

#[test]
fn network_totals_overflow_is_reported() {
    assert!(network_totals(&vec![(u64::MAX, 0), (1, 0)], Some(1)).is_none());
    assert!(network_totals(&vec![(0, u64::MAX), (0, 1)], None).is_none());
    assert!(network_totals(&vec![(u64::MAX, u64::MAX)], None).is_some());
}

#[test]
fn process_name_is_text_before_separator() {
    assert_eq!(process_name("firefox - 12.50%"), "firefox");
    assert_eq!(process_name("a - b - c"), "a");
    assert_eq!(process_name("no separator"), "no separator");
    assert_eq!(process_name("x -y"), "x -y");
    assert_eq!(process_name(" - 1%"), "");
    assert_eq!(process_name(""), "");
    assert_eq!(process_name("ñandú - 3.00%"), "ñandú");
}

#[test]
fn process_frequency_counts_names() {
    let records = vec![
        vec!["a - 1.00%".to_string(), "b - 2.00%".to_string()],
        vec!["b - 5.00%".to_string(), "c - 1.00%".to_string(), "b - 0.10%".to_string()],
        vec![],
        vec!["a - 9.00%".to_string()],
    ];
    let table = process_frequency(&records);
    assert_eq!(
        table,
        vec![("b".to_string(), 3), ("a".to_string(), 2), ("c".to_string(), 1)]
    );
    let total: u32 = table.iter().map(|r| r.1).sum();
    assert_eq!(total, 6);
    assert_eq!(process_axis_width(&table), 4);
    assert_eq!(process_axis_width(&vec![]), 1);
    assert!(process_frequency(&vec![]).is_empty());
    assert_eq!(process_frequency_checked(&records), Some(table));
    assert_eq!(process_frequency_checked(&vec![]), Some(vec![]));
}

#[test]
fn maxima_of_logged_figures() {
    let memory = vec![
        MemoryStats { physic: 10, swap: 40, cache: 5 },
        MemoryStats { physic: 30, swap: 0, cache: 35 },
    ];
    assert_eq!(max_memory_reading(&memory), 40);
    assert_eq!(max_memory_reading(&vec![]), 0);
    assert_eq!(max_iops(&vec![(3, 9), (12, 1)]), 12);
    assert_eq!(max_iops(&vec![]), 0);
    assert_eq!(max_or_zero(&vec![4, 17, 2]), 17);
    assert_eq!(max_or_zero(&vec![]), 0);
}

#[test]
fn axis_tops() {
    assert_eq!(memory_axis_top(40), 1040);
    assert_eq!(memory_axis_top((i32::MAX - 1000) as u64), i32::MAX);
    assert_eq!(iops_axis_top(12), 62);
    assert_eq!(iops_axis_top(1u64 << 32), 50);
    assert_eq!(connections_axis_top(7), 17);
    assert_eq!(connections_axis_top((1u64 << 32) + 3), 13);
}

#[test]
fn label_counts() {
    assert_eq!(x_label_count(0), 2);
    assert_eq!(x_label_count(89), 2);
    assert_eq!(x_label_count(90), 3);
    assert_eq!(x_label_count(330), 10);
    assert_eq!(x_label_count(300), 10);
    assert_eq!(x_label_count(299), 9);
    assert_eq!(x_label_count(3000), 10);
    assert_eq!(y_label_count(12), 12);
    assert_eq!(y_label_count(51), 50);
}

#[test]
fn trimming_and_time_labels() {
    assert_eq!(trim_text("  a b \t\n"), "a b");
    assert_eq!(trim_text("\u{3000}x\u{a0}"), "x");
    assert_eq!(trim_text("   "), "");
    assert_eq!(time_label("Tue, 1 Jul 2003 10:52:37 +0200"), "Tue, 1 Jul 2003 10:52:37");
    assert_eq!(time_label(" +0200"), "");
    let t = "Sat, 14 Jun 2025 08:00:00 -0600";
    assert_eq!(time_label(t), t[..t.len() - 6].trim());
}

#[test]
fn frequency_table_ignores_log_order() {
    let records = vec![
        vec!["a - 1.00%".to_string(), "b - 2.00%".to_string(), "c - 0.50%".to_string()],
        vec!["b - 5.00%".to_string(), "a - 1.00%".to_string()],
        vec!["d - 9.00%".to_string()],
    ];
    let reordered = vec![
        vec!["d - 9.00%".to_string()],
        vec!["a - 1.00%".to_string(), "b - 5.00%".to_string()],
        vec!["c - 0.50%".to_string(), "b - 2.00%".to_string(), "a - 1.00%".to_string()],
    ];
    let t1 = process_frequency(&records);
    let t2 = process_frequency(&reordered);
    assert_eq!(t1.len(), t2.len());
    let counts1: Vec<u32> = t1.iter().map(|r| r.1).collect();
    let counts2: Vec<u32> = t2.iter().map(|r| r.1).collect();
    assert_eq!(counts1, vec![2, 2, 1, 1]);
    assert_eq!(counts1, counts2);
    for row in &t1 {
        assert!(t2.contains(row));
    }
}
