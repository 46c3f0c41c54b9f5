//! The process-frequency table does not depend on the order of the log:
//! reordering the logged samples, or the entries within a sample, changes at
//! most the order of names with equal counts.
use vstd::prelude::*;
use vstd::multiset::Multiset;
use vstd::relations::{sorted_by, total_ordering};
use vstd::seq_lib::{lemma_sorted_unique, lemma_fold_left_permutation, commutative_foldl, lemma_multiset_commutative};
use crate::analyzer::{name_part, logged_names, occurrences, is_frequency_table, lists_name};

verus! {

broadcast use {vstd::seq_lib::group_to_multiset_ensures, vstd::multiset::group_multiset_axioms};

/// The name parts of one record's entries, in order.
pub open spec fn record_names(record: Seq<String>) -> Seq<Seq<char>> {
    record.map_values(|e: String| name_part(e@))
}

/// For each record, the multiset of the name parts of its entries: what is
/// left of a record when the order of its entries is forgotten.
pub open spec fn record_bags(records: Seq<Vec<String>>) -> Seq<Multiset<Seq<char>>> {
    Seq::new(records.len(), |i: int| record_names(records[i]@).to_multiset())
}

/// Some row of `table` carries `name` with count `count`.
pub open spec fn lists_row(table: Seq<(String, u32)>, name: Seq<char>, count: u32) -> bool {
    exists|q: int| 0 <= q < table.len() && (#[trigger] table[q]).0@ == name && table[q].1 == count
}

/// Adds one more multiset to a running sum.
spec fn bag_adder() -> spec_fn(Multiset<Seq<char>>, Multiset<Seq<char>>) -> Multiset<Seq<char>> {
    |acc: Multiset<Seq<char>>, bag: Multiset<Seq<char>>| acc.add(bag)
}

/// The sum of a sequence of multisets.
spec fn bag_sum(bags: Seq<Multiset<Seq<char>>>) -> Multiset<Seq<char>> {
    bags.fold_left(Multiset::empty(), bag_adder())
}

/// Reordering the logged samples, or the entries within any sample, changes
/// nothing in the frequency table but the order of names with equal counts:
/// both tables have the same length and the same sequence of counts, and
/// each name is listed in both with the same count. The reordering is given
/// as what it keeps: the same per-sample multisets of names, in any order.
pub proof fn frequency_table_ignores_log_order(
    records1: Seq<Vec<String>>,
    records2: Seq<Vec<String>>,
    t1: Seq<(String, u32)>,
    t2: Seq<(String, u32)>,
)
    requires
        record_bags(records1).to_multiset() == record_bags(records2).to_multiset(),
        is_frequency_table(t1, logged_names(records1)),
        is_frequency_table(t2, logged_names(records2)),
    ensures
        t1.len() == t2.len(),
        forall|p: int| 0 <= p < t1.len() ==> #[trigger] t1[p].1 == t2[p].1,
        forall|p: int| 0 <= p < t1.len() ==> #[trigger] lists_row(t2, t1[p].0@, t1[p].1),
        forall|q: int| 0 <= q < t2.len() ==> #[trigger] lists_row(t1, t2[q].0@, t2[q].1),
{
    let n1 = logged_names(records1);
    let n2 = logged_names(records2);
    lemma_names_are_bag_sum(records1);
    lemma_names_are_bag_sum(records2);
    lemma_bag_sum_ignores_order(record_bags(records1), record_bags(records2));
    assert(n1.to_multiset() == n2.to_multiset());
    assert forall|x: Seq<char>| #[trigger] occurrences(n1, x) == occurrences(n2, x) by {
        lemma_occurrences_are_multiplicity(n1, x);
        lemma_occurrences_are_multiplicity(n2, x);
    }
    lemma_rows_match(t1, t2, n1, n2);
    lemma_rows_match(t2, t1, n2, n1);
    lemma_same_counts(t1, t2, n1, n2);
}

/// Each row of `a` is listed in `b` with the same count.
proof fn lemma_rows_match(a: Seq<(String, u32)>, b: Seq<(String, u32)>, na: Seq<Seq<char>>, nb: Seq<Seq<char>>)
    requires
        is_frequency_table(a, na),
        is_frequency_table(b, nb),
        na.to_multiset() == nb.to_multiset(),
        forall|x: Seq<char>| #[trigger] occurrences(na, x) == occurrences(nb, x),
    ensures
        forall|p: int| 0 <= p < a.len() ==> #[trigger] lists_row(b, a[p].0@, a[p].1),
{
    assert forall|p: int| 0 <= p < a.len() implies #[trigger] lists_row(b, a[p].0@, a[p].1) by {
        let x = a[p].0@;
        assert(na.contains(x));
        assert(na.to_multiset().count(x) > 0);
        assert(nb.contains(x));
        let k = choose|k: int| 0 <= k < nb.len() && nb[k] == x;
        assert(lists_name(b, nb[k]));
        let q = choose|q: int| 0 <= q < b.len() && (#[trigger] b[q]).0@ == nb[k];
        assert(b[q].1 == occurrences(nb, x));
        assert(occurrences(na, x) == occurrences(nb, x));
    }
}

/// The rows of a frequency table as `(name, count)` pairs of plain values.
spec fn row_pairs(t: Seq<(String, u32)>) -> Seq<(Seq<char>, u32)> {
    Seq::new(t.len(), |p: int| (t[p].0@, t[p].1))
}

/// The counts of a frequency table, in order.
spec fn row_counts(t: Seq<(String, u32)>) -> Seq<u32> {
    Seq::new(t.len(), |p: int| t[p].1)
}

/// Descending order on counts.
spec fn at_least() -> spec_fn(u32, u32) -> bool {
    |a: u32, b: u32| a >= b
}

/// Two frequency tables of names with the same occurrences have the same
/// sequence of counts.
proof fn lemma_same_counts(t1: Seq<(String, u32)>, t2: Seq<(String, u32)>, n1: Seq<Seq<char>>, n2: Seq<Seq<char>>)
    requires
        is_frequency_table(t1, n1),
        is_frequency_table(t2, n2),
        n1.to_multiset() == n2.to_multiset(),
        forall|x: Seq<char>| #[trigger] occurrences(n1, x) == occurrences(n2, x),
        forall|p: int| 0 <= p < t1.len() ==> #[trigger] lists_row(t2, t1[p].0@, t1[p].1),
        forall|q: int| 0 <= q < t2.len() ==> #[trigger] lists_row(t1, t2[q].0@, t2[q].1),
    ensures
        t1.len() == t2.len(),
        forall|p: int| 0 <= p < t1.len() ==> #[trigger] t1[p].1 == t2[p].1,
{
    let p1 = row_pairs(t1);
    let p2 = row_pairs(t2);
    lemma_pairs_no_duplicates(t1);
    lemma_pairs_no_duplicates(t2);
    p1.lemma_multiset_has_no_duplicates();
    p2.lemma_multiset_has_no_duplicates();
    assert forall|pr: (Seq<char>, u32)| p1.contains(pr) <==> p2.contains(pr) by {
        if p1.contains(pr) {
            let p = choose|p: int| 0 <= p < p1.len() && p1[p] == pr;
            assert(lists_row(t2, t1[p].0@, t1[p].1));
            let q = choose|q: int| 0 <= q < t2.len() && (#[trigger] t2[q]).0@ == t1[p].0@ && t2[q].1 == t1[p].1;
            assert(p2[q] == pr);
        }
        if p2.contains(pr) {
            let q = choose|q: int| 0 <= q < p2.len() && p2[q] == pr;
            assert(lists_row(t1, t2[q].0@, t2[q].1));
            let p = choose|p: int| 0 <= p < t1.len() && (#[trigger] t1[p]).0@ == t2[q].0@ && t1[p].1 == t2[q].1;
            assert(p1[p] == pr);
        }
    }
    assert(p1.to_multiset() =~= p2.to_multiset()) by {
        assert forall|pr: (Seq<char>, u32)| p1.to_multiset().count(pr) == p2.to_multiset().count(pr) by {
            if p1.contains(pr) {
                assert(p1.to_multiset().contains(pr));
                assert(p2.to_multiset().contains(pr));
            } else {
                assert(p1.to_multiset().count(pr) == 0);
                assert(p2.to_multiset().count(pr) == 0);
            }
        }
    }
    let second = |pr: (Seq<char>, u32)| pr.1;
    lemma_map_keeps_multiset(p1, p2, second);
    assert(p1.map_values(second) =~= row_counts(t1));
    assert(p2.map_values(second) =~= row_counts(t2));
    let leq = at_least();
    assert(total_ordering(leq));
    assert(sorted_by(row_counts(t1), leq)) by {
        assert forall|i: int, j: int| 0 <= i < j < row_counts(t1).len() implies #[trigger] leq(
            row_counts(t1)[i],
            row_counts(t1)[j],
        ) by {
            assert(t1[i].1 >= t1[j].1);
        }
    }
    assert(sorted_by(row_counts(t2), leq)) by {
        assert forall|i: int, j: int| 0 <= i < j < row_counts(t2).len() implies #[trigger] leq(
            row_counts(t2)[i],
            row_counts(t2)[j],
        ) by {
            assert(t2[i].1 >= t2[j].1);
        }
    }
    lemma_sorted_unique(row_counts(t1), row_counts(t2), leq);
    assert forall|p: int| 0 <= p < t1.len() implies #[trigger] t1[p].1 == t2[p].1 by {
        assert(row_counts(t1)[p] == row_counts(t2)[p]);
    }
}

/// Rows of a frequency table carry distinct names, so no pair repeats.
proof fn lemma_pairs_no_duplicates(t: Seq<(String, u32)>)
    requires
        forall|p: int, q: int| 0 <= p < q < t.len() ==> (#[trigger] t[p]).0@ != (#[trigger] t[q]).0@,
    ensures
        row_pairs(t).no_duplicates(),
{
    let ps = row_pairs(t);
    assert forall|i: int, j: int| 0 <= i < ps.len() && 0 <= j < ps.len() && i != j implies ps[i] != ps[j] by {
        if i < j {
            assert(t[i].0@ != t[j].0@);
        } else {
            assert(t[j].0@ != t[i].0@);
        }
    }
}

/// Mapping two sequences with the same elements gives sequences with the same elements.
proof fn lemma_map_keeps_multiset(s1: Seq<(Seq<char>, u32)>, s2: Seq<(Seq<char>, u32)>, f: spec_fn((Seq<char>, u32)) -> u32)
    requires
        s1.to_multiset() == s2.to_multiset(),
    ensures
        s1.map_values(f).to_multiset() == s2.map_values(f).to_multiset(),
    decreases s1.len(),
{
    if s1.len() == 0 {
        assert(s2.to_multiset().len() == 0);
        assert(s1.map_values(f) =~= Seq::<u32>::empty());
        assert(s2.map_values(f) =~= Seq::<u32>::empty());
    } else {
        let a = s1.last();
        let last = s1.len() - 1;
        assert(s1[last] == a);
        assert(s1.to_multiset().count(a) > 0);
        assert(s2.contains(a));
        let i = choose|i: int| 0 <= i < s2.len() && s2[i] == a;
        assert(s1.drop_last() =~= s1.remove(last));
        assert(s1.remove(last).to_multiset() == s1.to_multiset().remove(a));
        assert(s2.remove(i).to_multiset() == s2.to_multiset().remove(a));
        lemma_map_keeps_multiset(s1.drop_last(), s2.remove(i), f);
        let m1 = s1.map_values(f);
        let m2 = s2.map_values(f);
        assert(m1 =~= s1.drop_last().map_values(f).push(f(a)));
        assert(m2.remove(i) =~= s2.remove(i).map_values(f));
        assert(m2[i] == f(a));
        assert(m2.remove(i).to_multiset() == m2.to_multiset().remove(f(a)));
        assert(m2.to_multiset().count(f(a)) > 0) by {
            assert(m2.contains(f(a)));
        }
        assert(m1.to_multiset() =~= m2.to_multiset());
    }
}

/// The count of a name is its multiplicity in the multiset of names.
proof fn lemma_occurrences_are_multiplicity(names: Seq<Seq<char>>, x: Seq<char>)
    ensures
        occurrences(names, x) == names.to_multiset().count(x),
    decreases names.len(),
{
    if names.len() > 0 {
        lemma_occurrences_are_multiplicity(names.drop_last(), x);
        assert(names =~= names.drop_last().push(names.last()));
        assert(names.drop_last().push(names.last()).to_multiset()
            =~= names.drop_last().to_multiset().insert(names.last()));
    }
}

/// The multiset of all logged names is the sum of the per-record multisets.
proof fn lemma_names_are_bag_sum(records: Seq<Vec<String>>)
    ensures
        logged_names(records).to_multiset() == bag_sum(record_bags(records)),
    decreases records.len(),
{
    if records.len() > 0 {
        let rest = records.drop_last();
        lemma_names_are_bag_sum(rest);
        assert(record_bags(records).drop_last() =~= record_bags(rest));
        assert(record_bags(records).last() == record_names(records.last()@).to_multiset());
        assert(records.last()@.map_values(|e: String| name_part(e@)) =~= record_names(records.last()@));
        lemma_multiset_commutative(logged_names(rest), record_names(records.last()@));
        assert(logged_names(records) == logged_names(rest) + record_names(records.last()@));
    } else {
        assert(logged_names(records) =~= Seq::<Seq<char>>::empty());
    }
}

/// The sum of multisets does not depend on their order.
proof fn lemma_bag_sum_ignores_order(b1: Seq<Multiset<Seq<char>>>, b2: Seq<Multiset<Seq<char>>>)
    requires
        b1.to_multiset() == b2.to_multiset(),
    ensures
        bag_sum(b1) == bag_sum(b2),
{
    let f = bag_adder();
    assert(commutative_foldl(f)) by {
        assert forall|x: Multiset<Seq<char>>, y: Multiset<Seq<char>>, v: Multiset<Seq<char>>|
            #[trigger] f(f(v, x), y) == f(f(v, y), x) by {
            assert(v.add(x).add(y) =~= v.add(y).add(x));
        }
    }
    lemma_fold_left_permutation(b1, b2, f, Multiset::empty());
}

} // verus!
