//! Integer core of the metrics that both monitors sample: memory in
//! fixed units, disk counter deltas between two samples, and network totals.
use vstd::prelude::*;

verus! {

/// Bytes in a KiB.
pub const KIB: u64 = 1024;

/// Bytes in a MiB.
pub const MIB: u64 = 1024 * 1024;

/// Memory figures as both monitors report them, each in the unit that the
/// reporting program chose (KiB for the logger, MiB for the dashboard).
pub struct MemoryStats {
    pub physic: u64,
    pub swap: u64,
    pub cache: u64,
}

/// Memory in use, swap in use and free memory, each divided by `unit` bytes
/// (rounded down), in the fields `physic`, `swap` and `cache`.
pub fn memory_in_units(used_memory: u64, used_swap: u64, free_memory: u64, unit: u64) -> (stats: MemoryStats)
    requires
        unit > 0,
    ensures
        stats.physic == used_memory / unit,
        stats.swap == used_swap / unit,
        stats.cache == free_memory / unit,
{
    MemoryStats { physic: used_memory / unit, swap: used_swap / unit, cache: free_memory / unit }
}

/// One raw reading of the physical-disk performance counters.
pub struct DiskSample {
    pub read_bytes: u64,
    pub write_bytes: u64,
    pub reads: u32,
    pub writes: u32,
    /// Performance-counter timestamp, in ticks.
    pub timestamp: u64,
    /// Ticks per second of the performance counter.
    pub frequency: u64,
}

/// Growth of the disk counters between two readings.
pub struct DiskDelta {
    /// Ticks between the two readings.
    pub elapsed_ticks: u64,
    /// Ticks per second, as the second reading gives it.
    pub frequency: u64,
    pub read_bytes: u64,
    pub write_bytes: u64,
    pub reads: u32,
    pub writes: u32,
}

/// The rates derived from two readings are refused exactly when the elapsed
/// time `elapsed / frequency` is zero or less: no tick elapsed while the
/// frequency is positive (with a zero frequency the quotient is not a
/// number, or infinite, and is not refused).
pub open spec fn disk_interval_refused(first: DiskSample, second: DiskSample) -> bool {
    second.timestamp == first.timestamp && second.frequency != 0
}

/// The counter growth between two readings, each counter floored at zero
/// when it went backwards; `None` when the interval is refused.
/// The timestamp difference is taken unchecked by the monitors, so the
/// second reading must not be older than the first.
pub fn disk_deltas(first: &DiskSample, second: &DiskSample) -> (delta: Option<DiskDelta>)
    requires
        first.timestamp <= second.timestamp,
    ensures
        delta is None <==> disk_interval_refused(*first, *second),
        delta is None <==> (second.timestamp == first.timestamp && second.frequency != 0),
        delta matches Some(d) ==> {
            &&& d.elapsed_ticks == second.timestamp - first.timestamp
            &&& d.frequency == second.frequency
            &&& d.read_bytes == second.read_bytes.saturating_sub(first.read_bytes)
            &&& d.write_bytes == second.write_bytes.saturating_sub(first.write_bytes)
            &&& d.reads == second.reads.saturating_sub(first.reads)
            &&& d.writes == second.writes.saturating_sub(first.writes)
        },
{
    let elapsed_ticks = second.timestamp - first.timestamp;
    if elapsed_ticks == 0 && second.frequency != 0 {
        return None;
    }
    Some(DiskDelta {
        elapsed_ticks,
        frequency: second.frequency,
        read_bytes: second.read_bytes.saturating_sub(first.read_bytes),
        write_bytes: second.write_bytes.saturating_sub(first.write_bytes),
        reads: second.reads.saturating_sub(first.reads),
        writes: second.writes.saturating_sub(first.writes),
    })
}

/// Sum of the received-byte counters of the given interfaces.
pub open spec fn total_received(interfaces: Seq<(u64, u64)>) -> int
    decreases interfaces.len(),
{
    if interfaces.len() == 0 {
        0
    } else {
        total_received(interfaces.drop_last()) + interfaces.last().0
    }
}

/// Sum of the transmitted-byte counters of the given interfaces.
pub open spec fn total_transmitted(interfaces: Seq<(u64, u64)>) -> int
    decreases interfaces.len(),
{
    if interfaces.len() == 0 {
        0
    } else {
        total_transmitted(interfaces.drop_last()) + interfaces.last().1
    }
}

/// Byte totals over all interfaces, and the TCP sockets in use.
pub struct NetworkTotals {
    pub received_bytes: u64,
    pub transmitted_bytes: u64,
    pub active: u64,
}

/// Adds up the `(received, transmitted)` byte counters of every interface and
/// takes the count of TCP sockets in use, or 0 when the socket statistics
/// could not be read (`None`). The monitors add in `u64`, which overflows
/// when a total exceeds `u64::MAX`: then the result is `None`.
pub fn network_totals(interfaces: &Vec<(u64, u64)>, tcp_sockets_in_use: Option<usize>) -> (totals: Option<NetworkTotals>)
    ensures
        totals is None <==> (total_received(interfaces@) > u64::MAX || total_transmitted(interfaces@) > u64::MAX),
        totals matches Some(t) ==> {
            &&& t.received_bytes == total_received(interfaces@)
            &&& t.transmitted_bytes == total_transmitted(interfaces@)
            &&& t.active == match tcp_sockets_in_use {
                Some(n) => n as u64,
                None => 0u64,
            }
        },
{
    let mut received: u64 = 0;
    let mut transmitted: u64 = 0;
    let mut i: usize = 0;
    while i < interfaces.len()
        invariant
            i <= interfaces@.len(),
            received == total_received(interfaces@.take(i as int)),
            transmitted == total_transmitted(interfaces@.take(i as int)),
        decreases interfaces@.len() - i,
    {
        let (r, t) = interfaces[i];
        proof {
            assert(interfaces@.take(i + 1).drop_last() =~= interfaces@.take(i as int));
        }
        match (received.checked_add(r), transmitted.checked_add(t)) {
            (Some(nr), Some(nt)) => {
                received = nr;
                transmitted = nt;
            },
            _ => {
                proof {
                    lemma_totals_grow(interfaces@, i + 1);
                }
                return None;
            },
        }
        i = i + 1;
    }
    proof {
        assert(interfaces@.take(i as int) =~= interfaces@);
    }
    let active: u64 = match tcp_sockets_in_use {
        Some(n) => n as u64,
        None => 0,
    };
    Some(NetworkTotals { received_bytes: received, transmitted_bytes: transmitted, active })
}

/// A prefix of the interfaces never sums to more than all of them.
proof fn lemma_totals_grow(interfaces: Seq<(u64, u64)>, k: int)
    requires
        0 <= k <= interfaces.len(),
    ensures
        total_received(interfaces.take(k)) <= total_received(interfaces),
        total_transmitted(interfaces.take(k)) <= total_transmitted(interfaces),
    decreases interfaces.len() - k,
{
    if k < interfaces.len() {
        lemma_totals_grow(interfaces, k + 1);
        assert(interfaces.take(k + 1).drop_last() =~= interfaces.take(k));
    } else {
        assert(interfaces.take(k) =~= interfaces);
    }
}

/// Two readings taken at different times always give counter growth,
/// whatever their byte and operation counters: only an interval with no
/// elapsed tick (at a positive frequency) is refused.
pub proof fn disk_interval_refused_only_when_no_time_passed(first: DiskSample, second: DiskSample)
    ensures
        first.timestamp != second.timestamp ==> !disk_interval_refused(first, second),
        second.frequency == 0 ==> !disk_interval_refused(first, second),
        first.timestamp == second.timestamp && second.frequency > 0 ==> disk_interval_refused(first, second),
{
}

/// Every interface adds its own received and transmitted bytes to the
/// totals: appending an interface `(r, t)` adds exactly `r` and `t`.
pub proof fn totals_add_each_interface(interfaces: Seq<(u64, u64)>, r: u64, t: u64)
    ensures
        total_received(interfaces.push((r, t))) == total_received(interfaces) + r,
        total_transmitted(interfaces.push((r, t))) == total_transmitted(interfaces) + t,
        total_received(Seq::<(u64, u64)>::empty()) == 0,
        total_transmitted(Seq::<(u64, u64)>::empty()) == 0,
{
    assert(interfaces.push((r, t)).drop_last() =~= interfaces);
}

/// The totals of two groups of interfaces together are the sums of their
/// totals: no interface is dropped or counted twice.
pub proof fn totals_add_over_groups(a: Seq<(u64, u64)>, b: Seq<(u64, u64)>)
    ensures
        total_received(a + b) == total_received(a) + total_received(b),
        total_transmitted(a + b) == total_transmitted(a) + total_transmitted(b),
    decreases b.len(),
{
    if b.len() == 0 {
        assert(a + b =~= a);
    } else {
        let last = b.last();
        totals_add_over_groups(a, b.drop_last());
        assert((a + b).drop_last() =~= a + b.drop_last());
        assert((a + b).last() == last);
    }
}

} // verus!
