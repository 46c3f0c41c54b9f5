//! Core of the metrics logger: memory in KiB and the five busiest processes.
//!
//! A process's CPU usage is a floating-point figure in the logger; here it is
//! carried by its order key, an unsigned integer that the caller derives from
//! the figure such that one usage is larger than another exactly when its
//! key is larger.
use vstd::prelude::*;
use crate::metrics::{MemoryStats, memory_in_units, KIB};
use crate::ranking::{top_positions, top_order, is_top_order, ranks_before, top_entry_is_maximal, min_nat};

verus! {

/// How many processes each log entry names.
pub const TOP_PROCESSES: usize = 5;

/// The usage keys of a list of `(name, usage key)` pairs.
pub open spec fn usage_keys(processes: Seq<(String, u32)>) -> Seq<u32> {
    Seq::new(processes.len(), |i: int| processes[i].1)
}

/// `top` lists the pairs of `all` at the positions `order`, in that order.
pub open spec fn picks(top: Seq<(String, u32)>, all: Seq<(String, u32)>, order: Seq<usize>) -> bool {
    &&& top.len() == order.len()
    &&& forall|p: int| 0 <= p < top.len() ==> {
        &&& (#[trigger] top[p]).0@ == all[order[p] as int].0@
        &&& top[p].1 == all[order[p] as int].1
    }
}

/// Memory in use, swap in use and free memory, in whole KiB (rounded down).
pub fn get_memory_stats(used_memory: u64, used_swap: u64, free_memory: u64) -> (stats: MemoryStats)
    ensures
        stats.physic == used_memory / KIB,
        stats.swap == used_swap / KIB,
        stats.cache == free_memory / KIB,
{
    memory_in_units(used_memory, used_swap, free_memory, KIB)
}

/// The `TOP_PROCESSES` `(name, usage)` pairs with the largest usage, largest
/// first, equal usages kept in the order given (a stable sort by descending
/// usage, cut to `TOP_PROCESSES`).
pub fn get_processes(processes: &Vec<(String, u32)>) -> (top: Vec<(String, u32)>)
    ensures
        is_top_order(usage_keys(processes@), TOP_PROCESSES as nat, top_order(usage_keys(processes@), TOP_PROCESSES as nat)),
        picks(top@, processes@, top_order(usage_keys(processes@), TOP_PROCESSES as nat)),
        top@.len() == min_nat(TOP_PROCESSES as nat, processes@.len()),
        forall|p: int, q: int| 0 <= p < q < top@.len() ==> (#[trigger] top@[p]).1 >= (#[trigger] top@[q]).1,
        forall|p: int, j: usize|
            0 <= p < top@.len() && j < processes@.len()
                && !#[trigger] top_order(usage_keys(processes@), TOP_PROCESSES as nat).contains(j)
                ==> (#[trigger] top@[p]).1 >= processes@[j as int].1,
{
    let mut keys: Vec<u32> = Vec::new();
    let mut i: usize = 0;
    while i < processes.len()
        invariant
            i <= processes@.len(),
            keys@ =~= usage_keys(processes@).take(i as int),
        decreases processes@.len() - i,
    {
        keys.push(processes[i].1);
        i = i + 1;
    }
    assert(keys@ =~= usage_keys(processes@));
    let order = top_positions(&keys, TOP_PROCESSES);
    let mut top: Vec<(String, u32)> = Vec::new();
    let mut p: usize = 0;
    while p < order.len()
        invariant
            p <= order@.len(),
            order@ == top_order(usage_keys(processes@), TOP_PROCESSES as nat),
            forall|q: int| 0 <= q < order@.len() ==> #[trigger] order@[q] < processes@.len(),
            picks(top@, processes@, order@.take(p as int)),
        decreases order@.len() - p,
    {
        let chosen = &processes[order[p]];
        top.push((chosen.0.clone(), chosen.1));
        p = p + 1;
    }
    assert(order@.take(p as int) =~= order@);
    proof {
        lemma_listed_by_usage(processes@, order@, top@);
    }
    top
}

/// A top list picked by a top order of the usages is sorted by usage, and
/// every listed pair has at least the usage of every pair left out.
proof fn lemma_listed_by_usage(processes: Seq<(String, u32)>, order: Seq<usize>, top: Seq<(String, u32)>)
    requires
        is_top_order(usage_keys(processes), TOP_PROCESSES as nat, order),
        picks(top, processes, order),
    ensures
        forall|p: int, q: int| 0 <= p < q < top.len() ==> (#[trigger] top[p]).1 >= (#[trigger] top[q]).1,
        forall|p: int, j: usize|
            0 <= p < top.len() && j < processes.len() && !#[trigger] order.contains(j)
                ==> (#[trigger] top[p]).1 >= processes[j as int].1,
{
    let keys = usage_keys(processes);
    assert forall|p: int, q: int| 0 <= p < q < top.len() implies (#[trigger] top[p]).1 >= (#[trigger] top[q]).1 by {
        assert(ranks_before(keys, order[p] as int, order[q] as int));
    }
    assert forall|p: int, j: usize|
        0 <= p < top.len() && j < processes.len() && !#[trigger] order.contains(j)
            implies (#[trigger] top[p]).1 >= processes[j as int].1 by {
        assert(ranks_before(keys, order[p] as int, j as int));
    }
}

/// The logger's first listed process has the largest usage of all the
/// processes it was given, and the list runs from larger to smaller usage.
pub proof fn logged_top_is_busiest(processes: Seq<(String, u32)>, order: Seq<usize>, top: Seq<(String, u32)>)
    requires
        processes.len() <= usize::MAX,
        processes.len() > 0,
        is_top_order(usage_keys(processes), TOP_PROCESSES as nat, order),
        picks(top, processes, order),
    ensures
        top.len() > 0,
        forall|j: int| 0 <= j < processes.len() ==> top[0].1 >= #[trigger] processes[j].1,
        forall|p: int, q: int| 0 <= p < q < top.len() ==> (#[trigger] top[p]).1 >= (#[trigger] top[q]).1,
{
    let keys = usage_keys(processes);
    lemma_listed_by_usage(processes, order, top);
    assert forall|j: int| 0 <= j < processes.len() implies top[0].1 >= #[trigger] processes[j].1 by {
        top_entry_is_maximal(keys, TOP_PROCESSES as nat, order, j);
        assert(keys[j] == processes[j].1);
    }
}

} // verus!
