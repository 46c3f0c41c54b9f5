//! Core of the defense dashboard: the top-CPU and top-memory process lists,
//! memory in MiB, and the three alert rules (CPU spike, memory leak, DDoS).
//!
//! Shares of CPU, memory in GB and received megabits are floating-point
//! figures in the dashboard; here each is carried by its order key, an
//! unsigned integer that the caller derives from the figure such that one
//! figure is larger than another exactly when its key is larger.
use vstd::prelude::*;
use crate::metrics::{MemoryStats, memory_in_units, MIB};
use crate::ranking::{top_positions, top_order, is_top_order, top_entry_is_maximal, min_nat, ranks_before};

verus! {

/// How many processes the dashboard lists by CPU and by memory.
pub const TOP_PROCESSES: usize = 10;

/// Open TCP connections above which a DDoS alert is raised.
pub const DDOS_ACTIVE_THRESHOLD: u64 = 100;

/// A process and the order key of its share of the CPU.
pub struct ProcessStat {
    pub name: String,
    pub cpu: u32,
}

/// A process and the order key of the memory it uses.
pub struct ProcessStatMem {
    pub name: String,
    pub memory: u32,
}

/// Network figures of the dashboard: the order keys of the received and
/// transmitted megabits, and the open TCP connections.
pub struct NetworkStats {
    pub received: u64,
    pub transmitted: u64,
    pub active: u64,
}

/// The CPU keys of a list of processes.
pub open spec fn cpu_keys(processes: Seq<ProcessStat>) -> Seq<u32> {
    Seq::new(processes.len(), |i: int| processes[i].cpu)
}

/// The memory keys of a list of processes.
pub open spec fn memory_keys(processes: Seq<ProcessStatMem>) -> Seq<u32> {
    Seq::new(processes.len(), |i: int| processes[i].memory)
}

/// `top` lists the processes of `all` at the positions `order`, in that order.
pub open spec fn picks_cpu(top: Seq<ProcessStat>, all: Seq<ProcessStat>, order: Seq<usize>) -> bool {
    &&& top.len() == order.len()
    &&& forall|p: int| 0 <= p < top.len() ==> {
        &&& (#[trigger] top[p]).name@ == all[order[p] as int].name@
        &&& top[p].cpu == all[order[p] as int].cpu
    }
}

/// `top` lists the processes of `all` at the positions `order`, in that order.
pub open spec fn picks_memory(top: Seq<ProcessStatMem>, all: Seq<ProcessStatMem>, order: Seq<usize>) -> bool {
    &&& top.len() == order.len()
    &&& forall|p: int| 0 <= p < top.len() ==> {
        &&& (#[trigger] top[p]).name@ == all[order[p] as int].name@
        &&& top[p].memory == all[order[p] as int].memory
    }
}

/// The `TOP_PROCESSES` processes with the largest CPU share, largest first,
/// processes with equal shares kept in the order given (a stable sort by
/// descending share, cut to `TOP_PROCESSES`).
pub fn get_processes_cpu(processes: &Vec<ProcessStat>) -> (top: Vec<ProcessStat>)
    ensures
        is_top_order(cpu_keys(processes@), TOP_PROCESSES as nat, top_order(cpu_keys(processes@), TOP_PROCESSES as nat)),
        picks_cpu(top@, processes@, top_order(cpu_keys(processes@), TOP_PROCESSES as nat)),
        top@.len() == min_nat(TOP_PROCESSES as nat, processes@.len()),
        forall|p: int, q: int| 0 <= p < q < top@.len() ==> (#[trigger] top@[p]).cpu >= (#[trigger] top@[q]).cpu,
        forall|p: int, j: usize|
            0 <= p < top@.len() && j < processes@.len()
                && !#[trigger] top_order(cpu_keys(processes@), TOP_PROCESSES as nat).contains(j)
                ==> (#[trigger] top@[p]).cpu >= processes@[j as int].cpu,
{
    let mut keys: Vec<u32> = Vec::new();
    let mut i: usize = 0;
    while i < processes.len()
        invariant
            i <= processes@.len(),
            keys@ =~= cpu_keys(processes@).take(i as int),
        decreases processes@.len() - i,
    {
        keys.push(processes[i].cpu);
        i = i + 1;
    }
    assert(keys@ =~= cpu_keys(processes@));
    let order = top_positions(&keys, TOP_PROCESSES);
    let mut top: Vec<ProcessStat> = Vec::new();
    let mut p: usize = 0;
    while p < order.len()
        invariant
            p <= order@.len(),
            order@ == top_order(cpu_keys(processes@), TOP_PROCESSES as nat),
            forall|q: int| 0 <= q < order@.len() ==> #[trigger] order@[q] < processes@.len(),
            picks_cpu(top@, processes@, order@.take(p as int)),
        decreases order@.len() - p,
    {
        let chosen = &processes[order[p]];
        top.push(ProcessStat { name: chosen.name.clone(), cpu: chosen.cpu });
        p = p + 1;
    }
    assert(order@.take(p as int) =~= order@);
    proof {
        lemma_listed_by_cpu(processes@, order@, top@);
    }
    top
}

/// The `TOP_PROCESSES` processes using the most memory, largest first,
/// processes with equal use kept in the order given (a stable sort by
/// descending use, cut to `TOP_PROCESSES`).
pub fn get_processes_mem(processes: &Vec<ProcessStatMem>) -> (top: Vec<ProcessStatMem>)
    ensures
        is_top_order(memory_keys(processes@), TOP_PROCESSES as nat, top_order(memory_keys(processes@), TOP_PROCESSES as nat)),
        picks_memory(top@, processes@, top_order(memory_keys(processes@), TOP_PROCESSES as nat)),
        top@.len() == min_nat(TOP_PROCESSES as nat, processes@.len()),
        forall|p: int, q: int| 0 <= p < q < top@.len() ==> (#[trigger] top@[p]).memory >= (#[trigger] top@[q]).memory,
        forall|p: int, j: usize|
            0 <= p < top@.len() && j < processes@.len()
                && !#[trigger] top_order(memory_keys(processes@), TOP_PROCESSES as nat).contains(j)
                ==> (#[trigger] top@[p]).memory >= processes@[j as int].memory,
{
    let mut keys: Vec<u32> = Vec::new();
    let mut i: usize = 0;
    while i < processes.len()
        invariant
            i <= processes@.len(),
            keys@ =~= memory_keys(processes@).take(i as int),
        decreases processes@.len() - i,
    {
        keys.push(processes[i].memory);
        i = i + 1;
    }
    assert(keys@ =~= memory_keys(processes@));
    let order = top_positions(&keys, TOP_PROCESSES);
    let mut top: Vec<ProcessStatMem> = Vec::new();
    let mut p: usize = 0;
    while p < order.len()
        invariant
            p <= order@.len(),
            order@ == top_order(memory_keys(processes@), TOP_PROCESSES as nat),
            forall|q: int| 0 <= q < order@.len() ==> #[trigger] order@[q] < processes@.len(),
            picks_memory(top@, processes@, order@.take(p as int)),
        decreases order@.len() - p,
    {
        let chosen = &processes[order[p]];
        top.push(ProcessStatMem { name: chosen.name.clone(), memory: chosen.memory });
        p = p + 1;
    }
    assert(order@.take(p as int) =~= order@);
    proof {
        lemma_listed_by_memory(processes@, order@, top@);
    }
    top
}

/// Memory in use, swap in use and free memory, in whole MiB (rounded down).
pub fn get_memory_stats(used_memory: u64, used_swap: u64, free_memory: u64) -> (stats: MemoryStats)
    ensures
        stats.physic == used_memory / MIB,
        stats.swap == used_swap / MIB,
        stats.cache == free_memory / MIB,
{
    memory_in_units(used_memory, used_swap, free_memory, 1024 * 1024)
}

/// The position of the first process whose CPU share reaches `threshold`
/// (the one the spike alert names), or `None` when no process reaches it.
pub fn detect_cpu_spikes(processes: &[ProcessStat], threshold: u32) -> (first_spike: Option<usize>)
    ensures
        match first_spike {
            Some(i) => {
                &&& i < processes@.len()
                &&& processes@[i as int].cpu >= threshold
                &&& forall|j: int| 0 <= j < i ==> #[trigger] processes@[j].cpu < threshold
            },
            None => forall|j: int| 0 <= j < processes@.len() ==> #[trigger] processes@[j].cpu < threshold,
        },
{
    let mut i: usize = 0;
    while i < processes.len()
        invariant
            i <= processes@.len(),
            forall|j: int| 0 <= j < i ==> #[trigger] processes@[j].cpu < threshold,
        decreases processes@.len() - i,
    {
        if processes[i].cpu >= threshold {
            return Some(i);
        }
        i = i + 1;
    }
    None
}

/// The position of the first process whose memory use reaches `threshold`
/// (the one the memory alert names), or `None` when no process reaches it.
pub fn detect_memory_leaks(processes: &[ProcessStatMem], threshold: u32) -> (first_leak: Option<usize>)
    ensures
        match first_leak {
            Some(i) => {
                &&& i < processes@.len()
                &&& processes@[i as int].memory >= threshold
                &&& forall|j: int| 0 <= j < i ==> #[trigger] processes@[j].memory < threshold
            },
            None => forall|j: int| 0 <= j < processes@.len() ==> #[trigger] processes@[j].memory < threshold,
        },
{
    let mut i: usize = 0;
    while i < processes.len()
        invariant
            i <= processes@.len(),
            forall|j: int| 0 <= j < i ==> #[trigger] processes@[j].memory < threshold,
        decreases processes@.len() - i,
    {
        if processes[i].memory >= threshold {
            return Some(i);
        }
        i = i + 1;
    }
    None
}

/// A DDoS alert is raised when the received traffic is above its threshold or
/// the open connections are above theirs.
pub fn detect_ddos_attack(network_stats: &NetworkStats, threshold_received: u64, threshold_active: u64) -> (alert: bool)
    ensures
        alert == (network_stats.received > threshold_received || network_stats.active > threshold_active),
{
    network_stats.received > threshold_received || network_stats.active > threshold_active
}

/// The CPU alert looks only at the top list, yet it fires exactly when some
/// process at all reaches the threshold: the busiest process is always listed.
pub proof fn cpu_alert_sees_every_process(
    processes: Seq<ProcessStat>,
    top: Seq<ProcessStat>,
    order: Seq<usize>,
    threshold: u32,
)
    requires
        processes.len() <= usize::MAX,
        is_top_order(cpu_keys(processes), TOP_PROCESSES as nat, order),
        picks_cpu(top, processes, order),
    ensures
        (exists|p: int| 0 <= p < top.len() && #[trigger] top[p].cpu >= threshold)
            <==> (exists|j: int| 0 <= j < processes.len() && #[trigger] processes[j].cpu >= threshold),
{
    let keys = cpu_keys(processes);
    if exists|p: int| 0 <= p < top.len() && #[trigger] top[p].cpu >= threshold {
        let p = choose|p: int| 0 <= p < top.len() && #[trigger] top[p].cpu >= threshold;
        assert(processes[order[p] as int].cpu >= threshold);
    }
    if exists|j: int| 0 <= j < processes.len() && #[trigger] processes[j].cpu >= threshold {
        let j = choose|j: int| 0 <= j < processes.len() && #[trigger] processes[j].cpu >= threshold;
        assert(order.len() == min_nat(TOP_PROCESSES as nat, keys.len()));
        top_entry_is_maximal(keys, TOP_PROCESSES as nat, order, j);
        assert(keys[j] == processes[j].cpu);
        assert(top[0].cpu == processes[order[0] as int].cpu);
        assert(top[0].cpu >= threshold);
    }
}

/// The memory alert looks only at the top list, yet it fires exactly when
/// some process at all reaches the threshold: the largest user is always listed.
pub proof fn memory_alert_sees_every_process(
    processes: Seq<ProcessStatMem>,
    top: Seq<ProcessStatMem>,
    order: Seq<usize>,
    threshold: u32,
)
    requires
        processes.len() <= usize::MAX,
        is_top_order(memory_keys(processes), TOP_PROCESSES as nat, order),
        picks_memory(top, processes, order),
    ensures
        (exists|p: int| 0 <= p < top.len() && #[trigger] top[p].memory >= threshold)
            <==> (exists|j: int| 0 <= j < processes.len() && #[trigger] processes[j].memory >= threshold),
{
    let keys = memory_keys(processes);
    if exists|p: int| 0 <= p < top.len() && #[trigger] top[p].memory >= threshold {
        let p = choose|p: int| 0 <= p < top.len() && #[trigger] top[p].memory >= threshold;
        assert(processes[order[p] as int].memory >= threshold);
    }
    if exists|j: int| 0 <= j < processes.len() && #[trigger] processes[j].memory >= threshold {
        let j = choose|j: int| 0 <= j < processes.len() && #[trigger] processes[j].memory >= threshold;
        assert(order.len() == min_nat(TOP_PROCESSES as nat, keys.len()));
        top_entry_is_maximal(keys, TOP_PROCESSES as nat, order, j);
        assert(keys[j] == processes[j].memory);
        assert(top[0].memory == processes[order[0] as int].memory);
        assert(top[0].memory >= threshold);
    }
}

/// A top list picked by a top order of the CPU keys is sorted by CPU share,
/// and every listed process has at least the share of every one left out.
proof fn lemma_listed_by_cpu(processes: Seq<ProcessStat>, order: Seq<usize>, top: Seq<ProcessStat>)
    requires
        is_top_order(cpu_keys(processes), TOP_PROCESSES as nat, order),
        picks_cpu(top, processes, order),
    ensures
        forall|p: int, q: int| 0 <= p < q < top.len() ==> (#[trigger] top[p]).cpu >= (#[trigger] top[q]).cpu,
        forall|p: int, j: usize|
            0 <= p < top.len() && j < processes.len() && !#[trigger] order.contains(j)
                ==> (#[trigger] top[p]).cpu >= processes[j as int].cpu,
{
    let keys = cpu_keys(processes);
    assert forall|p: int, q: int| 0 <= p < q < top.len() implies (#[trigger] top[p]).cpu >= (#[trigger] top[q]).cpu by {
        assert(ranks_before(keys, order[p] as int, order[q] as int));
    }
    assert forall|p: int, j: usize|
        0 <= p < top.len() && j < processes.len() && !#[trigger] order.contains(j)
            implies (#[trigger] top[p]).cpu >= processes[j as int].cpu by {
        assert(ranks_before(keys, order[p] as int, j as int));
    }
}

/// A top list picked by a top order of the memory keys is sorted by memory
/// use, and every listed process uses at least as much as every one left out.
proof fn lemma_listed_by_memory(processes: Seq<ProcessStatMem>, order: Seq<usize>, top: Seq<ProcessStatMem>)
    requires
        is_top_order(memory_keys(processes), TOP_PROCESSES as nat, order),
        picks_memory(top, processes, order),
    ensures
        forall|p: int, q: int| 0 <= p < q < top.len() ==> (#[trigger] top[p]).memory >= (#[trigger] top[q]).memory,
        forall|p: int, j: usize|
            0 <= p < top.len() && j < processes.len() && !#[trigger] order.contains(j)
                ==> (#[trigger] top[p]).memory >= processes[j as int].memory,
{
    let keys = memory_keys(processes);
    assert forall|p: int, q: int| 0 <= p < q < top.len() implies (#[trigger] top[p]).memory >= (#[trigger] top[q]).memory by {
        assert(ranks_before(keys, order[p] as int, order[q] as int));
    }
    assert forall|p: int, j: usize|
        0 <= p < top.len() && j < processes.len() && !#[trigger] order.contains(j)
            implies (#[trigger] top[p]).memory >= processes[j as int].memory by {
        assert(ranks_before(keys, order[p] as int, j as int));
    }
}

} // verus!
