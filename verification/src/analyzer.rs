//! Integer and text core of the metrics analyzer: the process names behind
//! the logged `name - usage%` entries, how often each appears, and the
//! integer axis bounds and label counts of the plots.
use vstd::prelude::*;
use vstd::string::*;
use vstd::utf8::{decode_utf8, encode_utf8_decode_utf8, is_char_boundary};
use crate::ranking::{top_positions, ranks_before};
use crate::metrics::MemoryStats;

verus! {

/// The separator between a process name and its usage in a log entry.
pub open spec fn separator_at(s: Seq<char>, i: int) -> bool {
    &&& 0 <= i
    &&& i + 3 <= s.len()
    &&& s[i] == ' '
    &&& s[i + 1] == '-'
    &&& s[i + 2] == ' '
}

/// The name part of a log entry: everything before the first `" - "`, or the
/// whole entry when it holds none.
pub open spec fn name_part(entry: Seq<char>) -> Seq<char> {
    if exists|i: int| separator_at(entry, i) {
        entry.take(choose|i: int| separator_at(entry, i) && forall|j: int| 0 <= j < i ==> !separator_at(entry, j))
    } else {
        entry
    }
}

/// The process name of a logged entry `name - usage%`: the text before the
/// first `" - "`, or the whole entry when it holds none.
pub fn process_name(entry: &str) -> (name: String)
    ensures
        name@ == name_part(entry@),
{
    let n = entry.unicode_len();
    let mut i: usize = 0;
    while n >= 3 && i <= n - 3
        invariant
            n == entry@.len(),
            i <= n,
            forall|j: int| 0 <= j < i ==> !separator_at(entry@, j),
        decreases n - i,
    {
        if entry.get_char(i) == ' ' && entry.get_char(i + 1) == '-' && entry.get_char(i + 2) == ' ' {
            proof {
                assert(separator_at(entry@, i as int));
                lemma_first_separator(entry@, i as int);
            }
            let prefix = entry.substring_char(0, i);
            return String::from_str(prefix);
        }
        i = i + 1;
    }
    proof {
        // past the loop no separator fits: every one would start before `i`
        assert(forall|j: int| !separator_at(entry@, j));
        assert(entry@.take(n as int) =~= entry@);
    }
    String::from_str(entry)
}

/// When `i` is the first separator, the name part is the text before it.
proof fn lemma_first_separator(entry: Seq<char>, i: int)
    requires
        separator_at(entry, i),
        forall|j: int| 0 <= j < i ==> !separator_at(entry, j),
    ensures
        name_part(entry) == entry.take(i),
{
    let k = choose|k: int| separator_at(entry, k) && forall|j: int| 0 <= j < k ==> !separator_at(entry, j);
    assert(separator_at(entry, k) && forall|j: int| 0 <= j < k ==> !separator_at(entry, j));
    if k < i {
        assert(!separator_at(entry, k));
    }
    if i < k {
        assert(!separator_at(entry, i));
    }
}

/// The name parts of all logged entries, record by record, in order.
pub open spec fn logged_names(records: Seq<Vec<String>>) -> Seq<Seq<char>>
    decreases records.len(),
{
    if records.len() == 0 {
        Seq::empty()
    } else {
        logged_names(records.drop_last()) + records.last()@.map_values(|e: String| name_part(e@))
    }
}

/// How many times `name` occurs in `names`.
pub open spec fn occurrences(names: Seq<Seq<char>>, name: Seq<char>) -> nat
    decreases names.len(),
{
    if names.len() == 0 {
        0
    } else {
        occurrences(names.drop_last(), name) + if names.last() == name { 1nat } else { 0nat }
    }
}

/// Some row of `table` carries `name`.
pub open spec fn lists_name(table: Seq<(String, u32)>, name: Seq<char>) -> bool {
    exists|p: int| 0 <= p < table.len() && (#[trigger] table[p]).0@ == name
}

/// `table` pairs each distinct name of `names` with the number of times it
/// occurs there, most frequent first.
pub open spec fn is_frequency_table(table: Seq<(String, u32)>, names: Seq<Seq<char>>) -> bool {
    &&& forall|p: int, q: int| 0 <= p < q < table.len() ==> (#[trigger] table[p]).0@ != (#[trigger] table[q]).0@
    &&& forall|p: int| 0 <= p < table.len() ==> {
        &&& names.contains((#[trigger] table[p]).0@)
        &&& table[p].1 == occurrences(names, table[p].0@)
    }
    &&& forall|k: int| 0 <= k < names.len() ==> #[trigger] lists_name(table, names[k])
    &&& forall|p: int, q: int| 0 <= p < q < table.len() ==> (#[trigger] table[p]).1 >= (#[trigger] table[q]).1
}

/// The names counted so far, in first-appearance order, with their counts.
spec fn counts_so_far(table: Seq<(String, u32)>, names: Seq<Seq<char>>) -> bool {
    &&& forall|p: int, q: int| 0 <= p < q < table.len() ==> (#[trigger] table[p]).0@ != (#[trigger] table[q]).0@
    &&& forall|p: int| 0 <= p < table.len() ==> {
        &&& names.contains((#[trigger] table[p]).0@)
        &&& table[p].1 == occurrences(names, table[p].0@)
    }
    &&& forall|k: int| 0 <= k < names.len() ==> #[trigger] lists_name(table, names[k])
}

/// A name never occurs more often than there are names.
proof fn lemma_occurrences_bounded(names: Seq<Seq<char>>, name: Seq<char>)
    ensures
        occurrences(names, name) <= names.len(),
        !names.contains(name) ==> occurrences(names, name) == 0,
    decreases names.len(),
{
    if names.len() > 0 {
        lemma_occurrences_bounded(names.drop_last(), name);
        if !names.contains(name) {
            assert(!names.drop_last().contains(name)) by {
                if names.drop_last().contains(name) {
                    let k = choose|k: int| 0 <= k < names.drop_last().len() && names.drop_last()[k] == name;
                    assert(names[k] == name);
                }
            }
            assert(names.last() != name) by {
                assert(names[names.len() - 1] == names.last());
            }
        }
    }
}

/// No name occurs more than `u32::MAX` times among `names`: every count of a
/// frequency table of them fits in `u32`.
pub open spec fn counts_fit(names: Seq<Seq<char>>) -> bool {
    forall|k: int| 0 <= k < names.len() ==> occurrences(names, #[trigger] names[k]) <= u32::MAX
}

/// Counts how often each process name appears across all logged records
/// (each entry reduced to its name part), most frequent first. The counts are
/// `u32`, so no name may appear more than `u32::MAX` times.
pub fn process_frequency(records: &Vec<Vec<String>>) -> (table: Vec<(String, u32)>)
    requires
        counts_fit(logged_names(records@)),
    ensures
        is_frequency_table(table@, logged_names(records@)),
{
    match tally(records) {
        Some(counts) => rank_by_count(&counts, Ghost(logged_names(records@))),
        None => {
            proof {
                assert(false);
            }
            Vec::new()
        },
    }
}

/// The frequency table of `process_frequency`, or `None` exactly when some
/// name appears more than `u32::MAX` times, so that its count would overflow.
pub fn process_frequency_checked(records: &Vec<Vec<String>>) -> (table: Option<Vec<(String, u32)>>)
    ensures
        table is None <==> !counts_fit(logged_names(records@)),
        table matches Some(t) ==> is_frequency_table(t@, logged_names(records@)),
{
    match tally(records) {
        Some(counts) => Some(rank_by_count(&counts, Ghost(logged_names(records@)))),
        None => None,
    }
}

/// The names of all records with their counts, in first-appearance order;
/// `None` when a count would pass `u32::MAX`.
fn tally(records: &Vec<Vec<String>>) -> (counts: Option<Vec<(String, u32)>>)
    ensures
        match counts {
            Some(c) => counts_fit(logged_names(records@)) && counts_so_far(c@, logged_names(records@)),
            None => !counts_fit(logged_names(records@)),
        },
{
    let ghost full = logged_names(records@);
    let mut counts: Vec<(String, u32)> = Vec::new();
    let ghost mut done: Seq<Seq<char>> = Seq::empty();
    let mut r: usize = 0;
    while r < records.len()
        invariant
            r <= records@.len(),
            full == logged_names(records@),
            done == logged_names(records@.take(r as int)),
            counts_so_far(counts@, done),
        decreases records@.len() - r,
    {
        let record = &records[r];
        proof {
            assert(records@.take(r + 1).drop_last() =~= records@.take(r as int));
            lemma_logged_names_is_prefix(records@, r + 1);
            lemma_logged_names_is_prefix(records@, r as int);
        }
        let mut e: usize = 0;
        while e < record.len()
            invariant
                r < records@.len(),
                full == logged_names(records@),
                record == records@[r as int],
                e <= record@.len(),
                logged_names(records@.take(r + 1)) == logged_names(records@.take(r as int))
                    + record@.map_values(|x: String| name_part(x@)),
                logged_names(records@.take(r + 1)).len() <= full.len(),
                full.take(logged_names(records@.take(r + 1)).len() as int) == logged_names(records@.take(r + 1)),
                done == logged_names(records@.take(r as int)) + record@.take(e as int).map_values(|x: String| name_part(x@)),
                counts_so_far(counts@, done),
            decreases record@.len() - e,
        {
            let name = process_name(record[e].as_str());
            let ghost before = done;
            proof {
                let whole = logged_names(records@.take(r + 1));
                done = done.push(name@);
                assert(record@.take(e + 1).map_values(|x: String| name_part(x@))
                    =~= record@.take(e as int).map_values(|x: String| name_part(x@)).push(name_part(record@[e as int]@)));
                assert(done =~= logged_names(records@.take(r as int)) + record@.take(e + 1).map_values(|x: String| name_part(x@)));
                assert(done =~= whole.take(done.len() as int));
                assert(full.take(done.len() as int) =~= full.take(whole.len() as int).take(done.len() as int));
                assert(done.drop_last() =~= before);
            }
            let counted = count_name(&mut counts, name, Ghost(before));
            if !counted {
                proof {
                    let k = done.len() - 1;
                    assert(done[k] == full[k]);
                    assert(occurrences(done, full[k]) == occurrences(before, full[k]) + 1);
                    lemma_prefix_occurrences(full, done.len() as int, full[k]);
                    assert(full.take(done.len() as int) == done);
                }
                return None;
            }
            e = e + 1;
        }
        proof {
            assert(record@.take(record@.len() as int) =~= record@);
        }
        r = r + 1;
    }
    proof {
        assert(records@.take(records@.len() as int) =~= records@);
        assert forall|k: int| 0 <= k < full.len() implies occurrences(full, #[trigger] full[k]) <= u32::MAX by {
            assert(lists_name(counts@, full[k]));
            let p = choose|p: int| 0 <= p < counts@.len() && (#[trigger] counts@[p]).0@ == full[k];
            assert(counts@[p].1 == occurrences(full, counts@[p].0@));
        }
    }
    Some(counts)
}

/// Counts one more occurrence of `name` in a table in first-appearance
/// order: its row's count grows by one, or a row `(name, 1)` is appended.
/// Returns `false`, counting nothing, when the count is already `u32::MAX`.
fn count_name(counts: &mut Vec<(String, u32)>, name: String, Ghost(before): Ghost<Seq<Seq<char>>>) -> (counted: bool)
    requires
        counts_so_far(old(counts)@, before),
    ensures
        counted ==> counts_so_far(final(counts)@, before.push(name@)),
        !counted ==> occurrences(before, name@) == u32::MAX,
{
    let ghost done = before.push(name@);
    proof {
        assert(done.drop_last() =~= before);
    }
    // look the name up among those counted so far
    let mut p: usize = 0;
    while p < counts.len() && !(counts[p].0 == name)
        invariant
            p <= counts@.len(),
            forall|q: int| 0 <= q < p ==> (#[trigger] counts@[q]).0@ != name@,
        decreases counts@.len() - p,
    {
        p = p + 1;
    }
    let ghost old_counts = counts@;
    if p < counts.len() {
        let c: u32 = counts[p].1;
        if c == u32::MAX {
            return false;
        }
        let kept = counts[p].0.clone();
        counts.set(p, (kept, c + 1));
        proof {
            lemma_count_one_more(old_counts, counts@, before, done, p as int, name@);
        }
    } else {
        proof {
            assert(!before.contains(name@)) by {
                if before.contains(name@) {
                    let k = choose|k: int| 0 <= k < before.len() && before[k] == name@;
                    assert(lists_name(old_counts, before[k]));
                    let w = choose|w: int| 0 <= w < old_counts.len() && (#[trigger] old_counts[w]).0@ == before[k];
                    assert(old_counts[w].0@ != name@);
                }
            }
            lemma_occurrences_bounded(before, name@);
        }
        counts.push((name, 1));
        proof {
            assert(counts@.drop_last() =~= old_counts);
            lemma_count_new_name(old_counts, counts@, before, done);
        }
    }
    true
}

/// A table in first-appearance order, re-ordered most frequent first (a
/// stable sort by descending count).
fn rank_by_count(counts: &Vec<(String, u32)>, Ghost(names): Ghost<Seq<Seq<char>>>) -> (table: Vec<(String, u32)>)
    requires
        counts_so_far(counts@, names),
    ensures
        is_frequency_table(table@, names),
{
    let mut keys: Vec<u32> = Vec::new();
    let mut i: usize = 0;
    while i < counts.len()
        invariant
            i <= counts@.len(),
            keys@.len() == i,
            forall|k: int| 0 <= k < i ==> #[trigger] keys@[k] == counts@[k].1,
        decreases counts@.len() - i,
    {
        keys.push(counts[i].1);
        i = i + 1;
    }
    let n = counts.len();
    let order = top_positions(&keys, n);
    let mut table: Vec<(String, u32)> = Vec::new();
    let mut p: usize = 0;
    while p < order.len()
        invariant
            n == counts@.len(),
            keys@.len() == n,
            forall|k: int| 0 <= k < n ==> #[trigger] keys@[k] == counts@[k].1,
            order@.len() == n,
            p <= n,
            forall|q: int| 0 <= q < n ==> #[trigger] order@[q] < n,
            table@.len() == p,
            forall|q: int| 0 <= q < p ==> #[trigger] table@[q] == counts@[order@[q] as int],
        decreases n - p,
    {
        let chosen = &counts[order[p]];
        table.push((chosen.0.clone(), chosen.1));
        p = p + 1;
    }
    proof {
        assert forall|p: int, q: int| 0 <= p < q < table@.len() implies
            (#[trigger] table@[p]).0@ != (#[trigger] table@[q]).0@ && table@[p].1 >= table@[q].1 by {
            assert(ranks_before(keys@, order@[p] as int, order@[q] as int));
            assert(order@[p] != order@[q]);
            if order@[p] < order@[q] {
                assert(counts@[order@[p] as int].0@ != counts@[order@[q] as int].0@);
            } else {
                assert(counts@[order@[q] as int].0@ != counts@[order@[p] as int].0@);
            }
        }
        assert forall|p: int| 0 <= p < table@.len() implies {
            &&& names.contains((#[trigger] table@[p]).0@)
            &&& table@[p].1 == occurrences(names, table@[p].0@)
        } by {
            assert(table@[p] == counts@[order@[p] as int]);
        }
        assert forall|k: int| 0 <= k < names.len() implies #[trigger] lists_name(table@, names[k]) by {
            assert(lists_name(counts@, names[k]));
            let w = choose|w: int| 0 <= w < counts@.len() && (#[trigger] counts@[w]).0@ == names[k];
            assert(0 <= w < counts@.len());
            assert(counts@[w].0@ == names[k]);
            assert(order@.contains(w as usize));
            let p = choose|p: int| 0 <= p < order@.len() && order@[p] == w as usize;
            assert(0 <= p < table@.len());
            assert(table@[p] == counts@[w]);
            assert(table@[p].0@ == names[k]);
        }
    }
    table
}

/// Counting one more occurrence of a name already in the table.
proof fn lemma_count_one_more(
    old_counts: Seq<(String, u32)>,
    new_counts: Seq<(String, u32)>,
    before: Seq<Seq<char>>,
    done: Seq<Seq<char>>,
    p: int,
    name: Seq<char>,
)
    requires
        counts_so_far(old_counts, before),
        done == before.push(name),
        0 <= p < old_counts.len(),
        old_counts[p].0@ == name,
        new_counts == old_counts.update(p, (old_counts[p].0, (old_counts[p].1 + 1) as u32)),
        old_counts[p].1 + 1 <= u32::MAX,
    ensures
        counts_so_far(new_counts, done),
{
    assert(done.drop_last() =~= before);
    assert forall|q: int| 0 <= q < new_counts.len() implies {
        &&& done.contains((#[trigger] new_counts[q]).0@)
        &&& new_counts[q].1 == occurrences(done, new_counts[q].0@)
    } by {
        assert(new_counts[q].0@ == old_counts[q].0@);
        let k = choose|k: int| 0 <= k < before.len() && before[k] == old_counts[q].0@;
        assert(done[k] == before[k]);
        if q != p {
            if q < p {
                assert(old_counts[q].0@ != old_counts[p].0@);
            } else {
                assert(old_counts[p].0@ != old_counts[q].0@);
            }
        }
    }
    assert forall|k: int| 0 <= k < done.len() implies #[trigger] lists_name(new_counts, done[k]) by {
        if k < before.len() {
            assert(done[k] == before[k]);
            assert(lists_name(old_counts, before[k]));
            let w = choose|w: int| 0 <= w < old_counts.len() && (#[trigger] old_counts[w]).0@ == before[k];
            assert(new_counts[w].0@ == old_counts[w].0@);
        } else {
            assert(new_counts[p].0@ == name);
        }
    }
    assert forall|a: int, b: int| 0 <= a < b < new_counts.len() implies
        (#[trigger] new_counts[a]).0@ != (#[trigger] new_counts[b]).0@ by {
        assert(old_counts[a].0@ != old_counts[b].0@);
    }
}

/// Counting the first occurrence of a name not yet in the table.
proof fn lemma_count_new_name(
    old_counts: Seq<(String, u32)>,
    new_counts: Seq<(String, u32)>,
    before: Seq<Seq<char>>,
    done: Seq<Seq<char>>,
)
    requires
        counts_so_far(old_counts, before),
        new_counts.len() == old_counts.len() + 1,
        new_counts.drop_last() == old_counts,
        done == before.push(new_counts.last().0@),
        new_counts.last().1 == 1,
        occurrences(before, new_counts.last().0@) == 0,
        forall|q: int| 0 <= q < old_counts.len() ==> (#[trigger] old_counts[q]).0@ != new_counts.last().0@,
    ensures
        counts_so_far(new_counts, done),
{
    let name = new_counts.last().0@;
    let last = old_counts.len() as int;
    assert(done.drop_last() =~= before);
    assert(new_counts[last] == new_counts.last());
    assert forall|q: int| 0 <= q < new_counts.len() implies {
        &&& done.contains((#[trigger] new_counts[q]).0@)
        &&& new_counts[q].1 == occurrences(done, new_counts[q].0@)
    } by {
        if q < last {
            assert(new_counts[q] == old_counts[q]);
            let k = choose|k: int| 0 <= k < before.len() && before[k] == old_counts[q].0@;
            assert(done[k] == before[k]);
        } else {
            assert(done[before.len() as int] == name);
        }
    }
    assert forall|k: int| 0 <= k < done.len() implies #[trigger] lists_name(new_counts, done[k]) by {
        if k < before.len() {
            assert(done[k] == before[k]);
            assert(lists_name(old_counts, before[k]));
            let w = choose|w: int| 0 <= w < old_counts.len() && (#[trigger] old_counts[w]).0@ == before[k];
            assert(new_counts[w] == old_counts[w]);
        } else {
            assert(new_counts[last].0@ == done[k]);
        }
    }
    assert forall|a: int, b: int| 0 <= a < b < new_counts.len() implies
        (#[trigger] new_counts[a]).0@ != (#[trigger] new_counts[b]).0@ by {
        if b < last {
            assert(new_counts[a] == old_counts[a] && new_counts[b] == old_counts[b]);
        } else {
            assert(new_counts[a] == old_counts[a]);
        }
    }
}

/// The names of the first `k` records are a prefix of all the names.
proof fn lemma_logged_names_is_prefix(records: Seq<Vec<String>>, k: int)
    requires
        0 <= k <= records.len(),
    ensures
        logged_names(records.take(k)).len() <= logged_names(records).len(),
        logged_names(records).take(logged_names(records.take(k)).len() as int) == logged_names(records.take(k)),
    decreases records.len() - k,
{
    if k < records.len() {
        lemma_logged_names_is_prefix(records, k + 1);
        assert(records.take(k + 1).drop_last() =~= records.take(k));
        let short = logged_names(records.take(k));
        let long = logged_names(records.take(k + 1));
        assert(long.take(short.len() as int) =~= short);
        assert(logged_names(records).take(short.len() as int)
            =~= logged_names(records).take(long.len() as int).take(short.len() as int));
    } else {
        assert(records.take(k) =~= records);
        assert(logged_names(records).take(logged_names(records).len() as int) =~= logged_names(records));
    }
}

/// A prefix of the names never holds a name more often than all of them.
proof fn lemma_prefix_occurrences(names: Seq<Seq<char>>, m: int, x: Seq<char>)
    requires
        0 <= m <= names.len(),
    ensures
        occurrences(names.take(m), x) <= occurrences(names, x),
    decreases names.len(),
{
    if m < names.len() {
        assert(names.take(m) =~= names.drop_last().take(m));
        lemma_prefix_occurrences(names.drop_last(), m, x);
    } else {
        assert(names.take(m) =~= names);
    }
}


/// Every sample's physical, swap and cache figure is at most `m`, and `m` is
/// zero or one of those figures: the largest figure, or 0 for no samples.
pub open spec fn is_max_memory(memory: Seq<MemoryStats>, m: u64) -> bool {
    &&& forall|i: int| 0 <= i < memory.len() ==> {
        &&& (#[trigger] memory[i]).physic <= m
        &&& memory[i].swap <= m
        &&& memory[i].cache <= m
    }
    &&& (m == 0 || exists|i: int| 0 <= i < memory.len() && {
        ||| (#[trigger] memory[i]).physic == m
        ||| memory[i].swap == m
        ||| memory[i].cache == m
    })
}

/// The largest memory figure (physical, swap or cache) over all samples, or
/// 0 when there are none: the data bound of the memory plot.
pub fn max_memory_reading(memory: &Vec<MemoryStats>) -> (m: u64)
    ensures
        is_max_memory(memory@, m),
        forall|i: int| 0 <= i < memory@.len() ==> (#[trigger] memory@[i]).physic <= m,
        forall|i: int| 0 <= i < memory@.len() ==> (#[trigger] memory@[i]).swap <= m,
        forall|i: int| 0 <= i < memory@.len() ==> (#[trigger] memory@[i]).cache <= m,
        m == 0 || exists|i: int| 0 <= i < memory@.len() && ((#[trigger] memory@[i]).physic == m
            || memory@[i].swap == m || memory@[i].cache == m),
{
    let mut m: u64 = 0;
    let mut i: usize = 0;
    while i < memory.len()
        invariant
            i <= memory@.len(),
            is_max_memory(memory@.take(i as int), m),
        decreases memory@.len() - i,
    {
        let sample = &memory[i];
        let ghost before = m;
        if sample.physic > m {
            m = sample.physic;
        }
        if sample.swap > m {
            m = sample.swap;
        }
        if sample.cache > m {
            m = sample.cache;
        }
        proof {
            let prefix = memory@.take(i as int);
            let next = memory@.take(i + 1);
            assert forall|j: int| 0 <= j < next.len() implies {
                &&& (#[trigger] next[j]).physic <= m
                &&& next[j].swap <= m
                &&& next[j].cache <= m
            } by {
                if j < i {
                    assert(next[j] == prefix[j]);
                }
            }
            if m != before {
                assert(next[i as int] == memory@[i as int]);
            } else if m != 0 {
                let w = choose|w: int| 0 <= w < prefix.len() && {
                    ||| (#[trigger] prefix[w]).physic == before
                    ||| prefix[w].swap == before
                    ||| prefix[w].cache == before
                };
                assert(next[w] == prefix[w]);
            }
        }
        i = i + 1;
    }
    proof {
        assert(memory@.take(i as int) =~= memory@);
    }
    m
}

/// The largest of `values`, or 0 when there are none.
pub open spec fn is_max_or_zero(values: Seq<u64>, m: u64) -> bool {
    &&& forall|i: int| 0 <= i < values.len() ==> #[trigger] values[i] <= m
    &&& (m == 0 || values.contains(m))
}

/// The largest of `values`, or 0 when there are none.
pub fn max_or_zero(values: &Vec<u64>) -> (m: u64)
    ensures
        is_max_or_zero(values@, m),
        forall|i: int| 0 <= i < values@.len() ==> #[trigger] values@[i] <= m,
        m == 0 || exists|i: int| 0 <= i < values@.len() && #[trigger] values@[i] == m,
{
    let mut m: u64 = 0;
    let mut i: usize = 0;
    while i < values.len()
        invariant
            i <= values@.len(),
            forall|j: int| 0 <= j < i ==> #[trigger] values@[j] <= m,
            m == 0 || exists|j: int| 0 <= j < i && values@[j] == m,
        decreases values@.len() - i,
    {
        if values[i] > m {
            m = values[i];
        }
        i = i + 1;
    }
    m
}

/// The largest read or write IOPS figure over all `(read, write)` samples, or
/// 0 when there are none: the data bound of the IOPS plot.
pub fn max_iops(iops: &Vec<(u64, u64)>) -> (m: u64)
    ensures
        forall|i: int| 0 <= i < iops@.len() ==> (#[trigger] iops@[i]).0 <= m && iops@[i].1 <= m,
        m == 0 || exists|i: int| 0 <= i < iops@.len() && ((#[trigger] iops@[i]).0 == m || iops@[i].1 == m),
{
    let mut m: u64 = 0;
    let mut i: usize = 0;
    while i < iops.len()
        invariant
            i <= iops@.len(),
            forall|j: int| 0 <= j < i ==> (#[trigger] iops@[j]).0 <= m && iops@[j].1 <= m,
            m == 0 || exists|j: int| 0 <= j < i && ((#[trigger] iops@[j]).0 == m || iops@[j].1 == m),
        decreases iops@.len() - i,
    {
        let (read, write) = iops[i];
        if read > m {
            m = read;
        }
        if write > m {
            m = write;
        }
        i = i + 1;
    }
    m
}

/// Upper bound of the memory plot's value axis: the largest figure plus
/// 1000. The plot takes the bound through `f64` and `i32` and adds in `i32`,
/// which is exact, and does not overflow, exactly when the figure is at most
/// `i32::MAX - 1000`.
pub fn memory_axis_top(max_reading: u64) -> (top: i32)
    requires
        max_reading <= i32::MAX - 1000,
    ensures
        top == max_reading + 1000,
{
    (max_reading as i32) + 1000
}

/// Upper bound of the IOPS plot's value axis: the largest figure cut to
/// `i32` (its low 32 bits, as the plot's cast does) plus 50, which must not
/// overflow.
pub fn iops_axis_top(max_iops: u64) -> (top: i32)
    requires
        (max_iops as i32) <= i32::MAX - 50,
    ensures
        top == (max_iops as i32) + 50,
{
    (max_iops as i32) + 50
}

/// Upper bound of the connections plot's value axis: the largest count cut to
/// `u32` (its low 32 bits, as the plot's cast does) plus 10, which must not
/// overflow.
pub fn connections_axis_top(max_active: u64) -> (top: u32)
    requires
        (max_active as u32) <= u32::MAX - 10,
    ensures
        top == (max_active as u32) + 10,
{
    (max_active as u32) + 10
}

/// Width of the process-frequency plot: the largest count plus one (one for
/// an empty table); no count may be `u32::MAX`.
pub fn process_axis_width(table: &Vec<(String, u32)>) -> (width: u32)
    requires
        forall|p: int| 0 <= p < table@.len() ==> (#[trigger] table@[p]).1 < u32::MAX,
    ensures
        forall|p: int| 0 <= p < table@.len() ==> (#[trigger] table@[p]).1 < width,
        width == 1 || exists|p: int| 0 <= p < table@.len() && (#[trigger] table@[p]).1 + 1 == width,
{
    let mut m: u32 = 0;
    let mut i: usize = 0;
    while i < table.len()
        invariant
            i <= table@.len(),
            forall|p: int| 0 <= p < table@.len() ==> (#[trigger] table@[p]).1 < u32::MAX,
            forall|p: int| 0 <= p < i ==> (#[trigger] table@[p]).1 <= m,
            m == 0 || exists|p: int| 0 <= p < i && (#[trigger] table@[p]).1 == m,
        decreases table@.len() - i,
    {
        if table[i].1 > m {
            m = table[i].1;
        }
        i = i + 1;
    }
    proof {
        if m != 0 {
            let w = choose|p: int| 0 <= p < i && (#[trigger] table@[p]).1 == m;
            assert(table@[w].1 < u32::MAX);
        }
    }
    m + 1
}

/// How many time labels a plot's horizontal axis carries for `samples`
/// samples: one per thirty samples, at least two and at most ten.
pub fn x_label_count(samples: usize) -> (labels: usize)
    ensures
        labels == if samples / 30 < 2 { 2 } else if samples / 30 > 10 { 10 } else { samples / 30 },
{
    let per_thirty = samples / 30;
    if per_thirty < 2 {
        2
    } else if per_thirty > 10 {
        10
    } else {
        per_thirty
    }
}

/// How many process labels the process plot carries: one per process, at
/// most fifty.
pub fn y_label_count(processes: usize) -> (labels: usize)
    ensures
        labels == if processes <= 50 { processes } else { 50 },
{
    if processes <= 50 {
        processes
    } else {
        50
    }
}

/// A character with the Unicode `White_Space` property, which is what
/// `char::is_whitespace` (and so `str::trim`) tests.
pub open spec fn is_white_space(c: char) -> bool {
    ||| ('\u{9}' <= c && c <= '\u{d}')
    ||| c == ' '
    ||| c == '\u{85}'
    ||| c == '\u{a0}'
    ||| c == '\u{1680}'
    ||| ('\u{2000}' <= c && c <= '\u{200a}')
    ||| c == '\u{2028}'
    ||| c == '\u{2029}'
    ||| c == '\u{202f}'
    ||| c == '\u{205f}'
    ||| c == '\u{3000}'
}

/// `s` without its leading white space.
pub open spec fn strip_leading(s: Seq<char>) -> Seq<char>
    decreases s.len(),
{
    if s.len() > 0 && is_white_space(s[0]) {
        strip_leading(s.drop_first())
    } else {
        s
    }
}

/// `s` without its trailing white space.
pub open spec fn strip_trailing(s: Seq<char>) -> Seq<char>
    decreases s.len(),
{
    if s.len() > 0 && is_white_space(s.last()) {
        strip_trailing(s.drop_last())
    } else {
        s
    }
}

/// `s` without leading and trailing white space.
pub open spec fn trim_chars(s: Seq<char>) -> Seq<char> {
    strip_trailing(strip_leading(s))
}

/// Whether `c` has the Unicode `White_Space` property.
pub fn is_white_space_char(c: char) -> (w: bool)
    ensures
        w == is_white_space(c),
{
    ('\u{9}' <= c && c <= '\u{d}') || c == ' ' || c == '\u{85}' || c == '\u{a0}' || c == '\u{1680}'
        || ('\u{2000}' <= c && c <= '\u{200a}') || c == '\u{2028}' || c == '\u{2029}' || c == '\u{202f}'
        || c == '\u{205f}' || c == '\u{3000}'
}

/// The characters of `text` without leading and trailing white space.
pub fn trim_text(text: &str) -> (trimmed: String)
    ensures
        trimmed@ == trim_chars(text@),
{
    let n = text.unicode_len();
    let mut a: usize = 0;
    proof {
        assert(text@.subrange(0, n as int) =~= text@);
    }
    while a < n && is_white_space_char(text.get_char(a))
        invariant
            n == text@.len(),
            a <= n,
            strip_leading(text@) == strip_leading(text@.subrange(a as int, n as int)),
        decreases n - a,
    {
        proof {
            assert(text@.subrange(a as int, n as int).drop_first() =~= text@.subrange(a + 1, n as int));
        }
        a = a + 1;
    }
    proof {
        if a == n {
            assert(text@.subrange(a as int, n as int) =~= Seq::<char>::empty());
        }
    }
    let mut b: usize = n;
    while b > a && is_white_space_char(text.get_char(b - 1))
        invariant
            n == text@.len(),
            a <= b <= n,
            strip_leading(text@) == text@.subrange(a as int, n as int),
            strip_trailing(text@.subrange(a as int, n as int)) == strip_trailing(text@.subrange(a as int, b as int)),
        decreases b - a,
    {
        proof {
            assert(text@.subrange(a as int, b as int).drop_last() =~= text@.subrange(a as int, b - 1));
        }
        b = b - 1;
    }
    let kept = text.substring_char(a, b);
    String::from_str(kept)
}

/// The label of a logged time on the plots' time axis: the time without its
/// last six bytes (the zone offset ` +hhmm` of an RFC 2822 time), trimmed.
/// The cut is a byte slice, so the time must have at least six bytes and a
/// character boundary six bytes before its end.
pub fn time_label(time: &str) -> (label: String)
    requires
        6 <= time.spec_bytes().len() <= usize::MAX,
        is_char_boundary(time.spec_bytes(), time.spec_bytes().len() - 6),
    ensures
        label@ == trim_chars(decode_utf8(time.spec_bytes().subrange(0, time.spec_bytes().len() - 6))),
{
    let cut = time.len() - 6;
    let (head, _zone) = time.split_at(cut);
    proof {
        encode_utf8_decode_utf8(head@);
    }
    trim_text(head)
}

/// Sum of the counts of a frequency table.
pub open spec fn table_total(table: Seq<(String, u32)>) -> int
    decreases table.len(),
{
    if table.len() == 0 {
        0
    } else {
        table_total(table.drop_last()) + table.last().1
    }
}

/// The counts of a frequency table add up to the number of logged entries:
/// every entry is counted once, under its own name.
pub proof fn frequency_counts_cover_all_entries(table: Seq<(String, u32)>, names: Seq<Seq<char>>)
    requires
        is_frequency_table(table, names),
    ensures
        table_total(table) == names.len(),
{
    let labels = Seq::new(table.len(), |p: int| table[p].0@);
    assert forall|p: int| 0 <= p < table.len() implies #[trigger] table[p].1 == occurrences(names, labels[p]) by {
    }
    assert forall|k: int| 0 <= k < names.len() implies #[trigger] labels.contains(names[k]) by {
        assert(lists_name(table, names[k]));
        let p = choose|p: int| 0 <= p < table.len() && (#[trigger] table[p]).0@ == names[k];
        assert(labels[p] == names[k]);
    }
    assert forall|p: int, q: int| 0 <= p < q < labels.len() implies #[trigger] labels[p] != #[trigger] labels[q] by {
        assert(table[p].0@ != table[q].0@);
    }
    lemma_total_is_sum_of_occurrences(table, labels, names);
    lemma_occurrences_over_labels(labels, names);
}

/// Sum of the occurrences in `names` of each of `labels`.
spec fn occurrence_sum(labels: Seq<Seq<char>>, names: Seq<Seq<char>>) -> int
    decreases labels.len(),
{
    if labels.len() == 0 {
        0
    } else {
        occurrence_sum(labels.drop_last(), names) + occurrences(names, labels.last())
    }
}

/// The table total is the sum of the occurrences of its labels.
proof fn lemma_total_is_sum_of_occurrences(table: Seq<(String, u32)>, labels: Seq<Seq<char>>, names: Seq<Seq<char>>)
    requires
        labels.len() == table.len(),
        forall|p: int| 0 <= p < table.len() ==> #[trigger] table[p].1 == occurrences(names, labels[p]),
    ensures
        table_total(table) == occurrence_sum(labels, names),
    decreases table.len(),
{
    if table.len() > 0 {
        let t = table.drop_last();
        let l = labels.drop_last();
        assert forall|p: int| 0 <= p < t.len() implies #[trigger] t[p].1 == occurrences(names, l[p]) by {
            assert(t[p] == table[p]);
            assert(l[p] == labels[p]);
        }
        lemma_total_is_sum_of_occurrences(t, l, names);
        assert(table.last() == table[table.len() - 1]);
    }
}

/// Summing the occurrences of distinct labels that cover every name counts
/// every name once.
proof fn lemma_occurrences_over_labels(labels: Seq<Seq<char>>, names: Seq<Seq<char>>)
    requires
        forall|p: int, q: int| 0 <= p < q < labels.len() ==> #[trigger] labels[p] != #[trigger] labels[q],
        forall|k: int| 0 <= k < names.len() ==> #[trigger] labels.contains(names[k]),
    ensures
        occurrence_sum(labels, names) == names.len(),
    decreases names.len(),
{
    if names.len() == 0 {
        lemma_occurrence_sum_of_nothing(labels, names);
    } else {
        let prefix = names.drop_last();
        assert forall|k: int| 0 <= k < prefix.len() implies #[trigger] labels.contains(prefix[k]) by {
            assert(prefix[k] == names[k]);
        }
        lemma_occurrences_over_labels(labels, prefix);
        assert(labels.contains(names[names.len() - 1]));
        lemma_occurrence_sum_step(labels, names);
    }
}

/// With no names, every label occurs zero times.
proof fn lemma_occurrence_sum_of_nothing(labels: Seq<Seq<char>>, names: Seq<Seq<char>>)
    requires
        names.len() == 0,
    ensures
        occurrence_sum(labels, names) == 0,
    decreases labels.len(),
{
    if labels.len() > 0 {
        lemma_occurrence_sum_of_nothing(labels.drop_last(), names);
    }
}

/// Adding one name that exactly one label matches adds one to the sum.
proof fn lemma_occurrence_sum_step(labels: Seq<Seq<char>>, names: Seq<Seq<char>>)
    requires
        names.len() > 0,
        forall|p: int, q: int| 0 <= p < q < labels.len() ==> #[trigger] labels[p] != #[trigger] labels[q],
        labels.contains(names.last()),
    ensures
        occurrence_sum(labels, names) == occurrence_sum(labels, names.drop_last()) + 1,
    decreases labels.len(),
{
    let x = names.last();
    let rest = labels.drop_last();
    assert forall|p: int, q: int| 0 <= p < q < rest.len() implies #[trigger] rest[p] != #[trigger] rest[q] by {
        assert(rest[p] == labels[p] && rest[q] == labels[q]);
    }
    if labels.last() == x {
        // no earlier label is `x`, so the earlier ones are unaffected
        assert(!rest.contains(x)) by {
            if rest.contains(x) {
                let p = choose|p: int| 0 <= p < rest.len() && rest[p] == x;
                assert(labels[p] == x && labels[labels.len() - 1] == x);
            }
        }
        lemma_occurrence_sum_unaffected(rest, names);
    } else {
        assert(rest.contains(x)) by {
            let p = choose|p: int| 0 <= p < labels.len() && labels[p] == x;
            assert(p != labels.len() - 1);
            assert(rest[p] == x);
        }
        lemma_occurrence_sum_step(rest, names);
    }
}

/// Labels that differ from the last name are unaffected by it.
proof fn lemma_occurrence_sum_unaffected(labels: Seq<Seq<char>>, names: Seq<Seq<char>>)
    requires
        names.len() > 0,
        !labels.contains(names.last()),
    ensures
        occurrence_sum(labels, names) == occurrence_sum(labels, names.drop_last()),
    decreases labels.len(),
{
    if labels.len() > 0 {
        let rest = labels.drop_last();
        assert(!rest.contains(names.last())) by {
            if rest.contains(names.last()) {
                let p = choose|p: int| 0 <= p < rest.len() && rest[p] == names.last();
                assert(labels[p] == rest[p]);
            }
        }
        assert(labels.last() != names.last()) by {
            assert(labels[labels.len() - 1] == labels.last());
        }
        lemma_occurrence_sum_unaffected(rest, names);
    }
}

/// The name that the metrics logger writes in front of `" - "` is the name
/// that the analyzer reads back, as long as the name holds no `" - "` itself
/// and does not end in `" -"` (which the separator would complete).
pub proof fn logged_name_reads_back(name: Seq<char>, rest: Seq<char>)
    requires
        forall|i: int| !#[trigger] separator_at(name, i),
        !(name.len() >= 2 && name[name.len() - 2] == ' ' && name[name.len() - 1] == '-'),
    ensures
        name_part(name + seq![' ', '-', ' '] + rest) == name,
{
    let entry = name + seq![' ', '-', ' '] + rest;
    let n = name.len() as int;
    assert(entry.take(n) =~= name);
    assert(entry[n] == ' ' && entry[n + 1] == '-' && entry[n + 2] == ' ');
    lemma_separator_after_name(entry, name);
    lemma_first_separator(entry, n);
}

/// In an entry that starts with `name` followed by `" - "`, the first
/// separator is the one right after the name.
proof fn lemma_separator_after_name(entry: Seq<char>, name: Seq<char>)
    requires
        entry.len() >= name.len() + 3,
        entry.take(name.len() as int) == name,
        entry[name.len() as int] == ' ',
        entry[name.len() + 1int] == '-',
        entry[name.len() + 2int] == ' ',
        forall|i: int| !#[trigger] separator_at(name, i),
        !(name.len() >= 2 && name[name.len() - 2] == ' ' && name[name.len() - 1] == '-'),
    ensures
        separator_at(entry, name.len() as int),
        forall|j: int| 0 <= j < name.len() ==> !separator_at(entry, j),
{
    let n = name.len() as int;
    assert forall|j: int| 0 <= j < n implies !separator_at(entry, j) by {
        assert(entry[j] == name[j]);
        if j + 3 <= n {
            assert(entry[j + 1] == name[j + 1] && entry[j + 2] == name[j + 2]);
            assert(!separator_at(name, j));
        } else if j == n - 1 {
            assert(entry[j + 1] == ' ');
        } else {
            assert(entry[j + 1] == name[j + 1]);
            assert(entry[j + 2] == ' ');
        }
    }
}

/// The memory bound is at least every sample's physical, swap and cache
/// figure, and it is determined by the samples: two bounds of the same
/// samples are equal.
pub proof fn memory_bound_covers_every_figure(memory: Seq<MemoryStats>, m: u64, m2: u64)
    requires
        is_max_memory(memory, m),
        is_max_memory(memory, m2),
    ensures
        forall|i: int| 0 <= i < memory.len() ==> {
            &&& (#[trigger] memory[i]).physic <= m
            &&& memory[i].swap <= m
            &&& memory[i].cache <= m
        },
        m == m2,
{
    assert forall|i: int| 0 <= i < memory.len() implies {
        &&& (#[trigger] memory[i]).physic <= m
        &&& memory[i].swap <= m
        &&& memory[i].cache <= m
    } by {
    }
    if m < m2 {
        let w = choose|w: int| 0 <= w < memory.len() && {
            ||| (#[trigger] memory[w]).physic == m2
            ||| memory[w].swap == m2
            ||| memory[w].cache == m2
        };
        assert(memory[w].physic <= m && memory[w].swap <= m && memory[w].cache <= m);
    }
    if m2 < m {
        let w = choose|w: int| 0 <= w < memory.len() && {
            ||| (#[trigger] memory[w]).physic == m
            ||| memory[w].swap == m
            ||| memory[w].cache == m
        };
        assert(memory[w].physic <= m2 && memory[w].swap <= m2 && memory[w].cache <= m2);
    }
}

/// Among ASCII characters, white space is exactly the space and the control
/// characters tab, line feed, vertical tab, form feed and carriage return:
/// no digit, letter or punctuation mark is white space, so trimming never
/// removes one. Of the characters from U+0080 on, the no-break space
/// U+00A0, the next line U+0085 and the ideographic space U+3000 are white
/// space, and nothing above U+3000 is.
pub proof fn white_space_characters(c: char)
    ensures
        (c as u32) < 128 ==> (is_white_space(c) <==> (c == ' ' || ((c as u32) >= 9 && (c as u32) <= 13))),
        ('0' <= c && c <= '9') ==> !is_white_space(c),
        ('a' <= c && c <= 'z') ==> !is_white_space(c),
        ('A' <= c && c <= 'Z') ==> !is_white_space(c),
        is_white_space('\u{a0}') && is_white_space('\u{85}') && is_white_space('\u{3000}'),
        (c as u32) > 0x3000 ==> !is_white_space(c),
{
}

/// Trimming keeps a contiguous run of the text and removes only white space
/// around it: the kept run starts and ends with a character that is not
/// white space (or is empty), and everything cut before and after it is
/// white space.
pub proof fn trimming_removes_only_white_space(s: Seq<char>)
    ensures
        exists|a: int, b: int| #![trigger s.subrange(a, b)]
            0 <= a <= b <= s.len() && trim_chars(s) == s.subrange(a, b)
            && (forall|i: int| 0 <= i < a ==> is_white_space(#[trigger] s[i]))
            && (forall|i: int| b <= i < s.len() ==> is_white_space(#[trigger] s[i]))
            && (a < b ==> !is_white_space(s[a]) && !is_white_space(s[b - 1])),
{
    let a = lemma_strip_leading(s);
    let t = s.subrange(a, s.len() as int);
    let b = lemma_strip_trailing(t);
    assert(trim_chars(s) == t.subrange(0, b));
    assert(t.subrange(0, b) =~= s.subrange(a, a + b));
    assert forall|i: int| a + b <= i < s.len() implies is_white_space(#[trigger] s[i]) by {
        assert(s[i] == t[i - a]);
    }
    if 0 < b {
        assert(s[a] == t[0]);
        assert(s[a + b - 1] == t[b - 1]);
    }
    assert(trim_chars(s) == s.subrange(a, a + b));
}

/// Stripping leading white space drops exactly the white-space run at the start.
proof fn lemma_strip_leading(s: Seq<char>) -> (a: int)
    ensures
        0 <= a <= s.len(),
        strip_leading(s) == s.subrange(a, s.len() as int),
        forall|i: int| 0 <= i < a ==> is_white_space(#[trigger] s[i]),
        a < s.len() ==> !is_white_space(s[a]),
    decreases s.len(),
{
    if s.len() > 0 && is_white_space(s[0]) {
        let a1 = lemma_strip_leading(s.drop_first());
        assert(s.drop_first().subrange(a1, s.drop_first().len() as int) =~= s.subrange(a1 + 1, s.len() as int));
        assert forall|i: int| 0 <= i < a1 + 1 implies is_white_space(#[trigger] s[i]) by {
            if i > 0 {
                assert(s[i] == s.drop_first()[i - 1]);
            }
        }
        if a1 + 1 < s.len() {
            assert(s[a1 + 1] == s.drop_first()[a1]);
        }
        a1 + 1
    } else {
        assert(s.subrange(0, s.len() as int) =~= s);
        0
    }
}

/// Stripping trailing white space keeps exactly the text before the
/// white-space run at the end.
proof fn lemma_strip_trailing(s: Seq<char>) -> (b: int)
    ensures
        0 <= b <= s.len(),
        strip_trailing(s) == s.subrange(0, b),
        forall|i: int| b <= i < s.len() ==> is_white_space(#[trigger] s[i]),
        0 < b ==> !is_white_space(s[b - 1]),
    decreases s.len(),
{
    if s.len() > 0 && is_white_space(s.last()) {
        let b1 = lemma_strip_trailing(s.drop_last());
        assert(s.drop_last().subrange(0, b1) =~= s.subrange(0, b1));
        assert forall|i: int| b1 <= i < s.len() implies is_white_space(#[trigger] s[i]) by {
            if i < s.len() - 1 {
                assert(s[i] == s.drop_last()[i]);
            }
        }
        if 0 < b1 {
            assert(s[b1 - 1] == s.drop_last()[b1 - 1]);
        }
        b1
    } else {
        assert(s.subrange(0, s.len() as int) =~= s);
        if s.len() > 0 {
            assert(s[s.len() - 1] == s.last());
        }
        s.len() as int
    }
}

/// A separator is exactly the three characters space, hyphen, space.
pub proof fn separator_is_space_hyphen_space(s: Seq<char>, i: int)
    ensures
        separator_at(s, i) <==> (0 <= i && i + 3 <= s.len() && s.subrange(i, i + 3) == seq![' ', '-', ' ']),
{
    if 0 <= i && i + 3 <= s.len() {
        let piece = s.subrange(i, i + 3);
        if separator_at(s, i) {
            assert(piece =~= seq![' ', '-', ' ']);
        }
        if piece == seq![' ', '-', ' '] {
            assert(piece[0] == s[i] && piece[1] == s[i + 1] && piece[2] == s[i + 2]);
        }
    }
}

/// Counting names: no names count nothing, and one more name counts one
/// more exactly for that name.
pub proof fn occurrences_count_each_name(names: Seq<Seq<char>>, y: Seq<char>, x: Seq<char>)
    ensures
        occurrences(Seq::<Seq<char>>::empty(), x) == 0,
        occurrences(names.push(y), x) == occurrences(names, x) + if x == y { 1int } else { 0int },
{
    assert(names.push(y).drop_last() =~= names);
}

} // verus!
