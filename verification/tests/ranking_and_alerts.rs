use sysmon::defense::{
    detect_cpu_spikes, detect_ddos_attack, detect_memory_leaks, get_memory_stats, get_processes_cpu,
    get_processes_mem, NetworkStats, ProcessStat, ProcessStatMem, DDOS_ACTIVE_THRESHOLD,
};
use sysmon::monitor;
use sysmon::ranking::top_positions;

fn cpu(name: &str, key: u32) -> ProcessStat {
    ProcessStat { name: name.to_string(), cpu: key }
}

fn mem(name: &str, key: u32) -> ProcessStatMem {
    ProcessStatMem { name: name.to_string(), memory: key }
}

#[test]
fn top_positions_is_a_stable_descending_cut() {
    let keys = vec![5, 9, 5, 1, 9, 7];
    assert_eq!(top_positions(&keys, 3), vec![1, 4, 5]);
    assert_eq!(top_positions(&keys, 10), vec![1, 4, 5, 0, 2, 3]);
    assert_eq!(top_positions(&keys, 0), Vec::<usize>::new());
    assert_eq!(top_positions(&Vec::new(), 4), Vec::<usize>::new());
}

#[test]
fn top_positions_matches_std_stable_sort() {
    let keys: Vec<u32> = (0..40u32).map(|i| (i * 7919) % 13).collect();
    let mut expected: Vec<usize> = (0..keys.len()).collect();
    expected.sort_by(|a, b| keys[*b].cmp(&keys[*a]));
    expected.truncate(10);
    assert_eq!(top_positions(&keys, 10), expected);
}

#[test]
fn cpu_list_keeps_ten_busiest() {
    let processes: Vec<ProcessStat> = (0..15u32).map(|i| cpu(&format!("p{}", i), i)).collect();
    let top = get_processes_cpu(&processes);
    assert_eq!(top.len(), 10);
    let names: Vec<&str> = top.iter().map(|p| p.name.as_str()).collect();
    assert_eq!(names, vec!["p14", "p13", "p12", "p11", "p10", "p9", "p8", "p7", "p6", "p5"]);
}

#[test]
fn cpu_list_keeps_ties_in_given_order() {
    let processes = vec![cpu("a", 3), cpu("b", 8), cpu("c", 3), cpu("d", 8)];
    let top = get_processes_cpu(&processes);
    let names: Vec<&str> = top.iter().map(|p| p.name.as_str()).collect();
    assert_eq!(names, vec!["b", "d", "a", "c"]);
}

#[test]
fn memory_list_keeps_ten_largest() {
    let processes: Vec<ProcessStatMem> = (0..12u32).map(|i| mem(&format!("m{}", i), (i * 5) % 12)).collect();
    let top = get_processes_mem(&processes);
    assert_eq!(top.len(), 10);
    assert_eq!(top[0].memory, 11);
    assert!(top.windows(2).all(|w| w[0].memory >= w[1].memory));
}

#[test]
fn logger_lists_five_processes() {
    let processes: Vec<(String, u32)> = vec![
        ("x".to_string(), 1),
        ("y".to_string(), 4),
        ("z".to_string(), 2),
        ("w".to_string(), 4),
        ("v".to_string(), 0),
        ("u".to_string(), 9),
    ];
    let top = monitor::get_processes(&processes);
    let names: Vec<&str> = top.iter().map(|p| p.0.as_str()).collect();
    assert_eq!(names, vec!["u", "y", "w", "z", "x"]);
    assert_eq!(monitor::get_processes(&Vec::new()).len(), 0);
}

#[test]
fn cpu_spike_names_first_process_at_threshold() {
    let processes = vec![cpu("a", 10), cpu("b", 80), cpu("c", 95)];
    assert_eq!(detect_cpu_spikes(&processes, 80), Some(1));
    assert_eq!(detect_cpu_spikes(&processes, 96), None);
    assert_eq!(detect_cpu_spikes(&[], 0), None);
}

#[test]
fn memory_leak_names_first_process_at_threshold() {
    let processes = vec![mem("a", 7), mem("b", 4)];
    assert_eq!(detect_memory_leaks(&processes, 5), Some(0));
    assert_eq!(detect_memory_leaks(&processes, 8), None);
}

#[test]
fn alert_over_top_list_sees_busiest_process() {
    let mut processes: Vec<ProcessStat> = (0..20u32).map(|i| cpu(&format!("p{}", i), 1)).collect();
    processes.push(cpu("hog", 90));
    let top = get_processes_cpu(&processes);
    assert_eq!(detect_cpu_spikes(&top, 80), Some(0));
    assert_eq!(top[0].name, "hog");
}

#[test]
fn ddos_alert_on_traffic_or_connections() {
    let quiet = NetworkStats { received: 10, transmitted: 3, active: 5 };
    let busy_traffic = NetworkStats { received: 200, transmitted: 3, active: 5 };
    let busy_sockets = NetworkStats { received: 10, transmitted: 3, active: 101 };
    let at_limit = NetworkStats { received: 100, transmitted: 3, active: 100 };
    assert!(!detect_ddos_attack(&quiet, 100, DDOS_ACTIVE_THRESHOLD));
    assert!(detect_ddos_attack(&busy_traffic, 100, DDOS_ACTIVE_THRESHOLD));
    assert!(detect_ddos_attack(&busy_sockets, 100, DDOS_ACTIVE_THRESHOLD));
    assert!(!detect_ddos_attack(&at_limit, 100, DDOS_ACTIVE_THRESHOLD));
}

#[test]
fn memory_in_mib_and_kib() {
    let stats = get_memory_stats(3 * 1024 * 1024 + 5, 1024 * 1024 - 1, 7 * 1024 * 1024);
    assert_eq!((stats.physic, stats.swap, stats.cache), (3, 0, 7));
    let stats = monitor::get_memory_stats(2048, 1023, 4096);
    assert_eq!((stats.physic, stats.swap, stats.cache), (2, 0, 4));
}
