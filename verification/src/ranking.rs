//! Stable descending ranking of items by an integer key, cut to the first
//! few: what `sort_by` on a descending comparison followed by `truncate`
//! computes.
use vstd::prelude::*;

verus! {

/// Item `i` comes before item `j` in a stable sort by descending key:
/// a larger key first, and for equal keys the earlier position first.
pub open spec fn ranks_before(keys: Seq<u32>, i: int, j: int) -> bool {
    keys[i] > keys[j] || (keys[i] == keys[j] && i < j)
}

/// The smaller of two naturals.
pub open spec fn min_nat(a: nat, b: nat) -> nat {
    if a <= b { a } else { b }
}

/// `order` holds the positions of the first `count` items of `keys` after a
/// stable sort by descending key, in that order.
pub open spec fn is_top_order(keys: Seq<u32>, count: nat, order: Seq<usize>) -> bool {
    &&& order.len() == min_nat(count, keys.len())
    &&& forall|p: int| 0 <= p < order.len() ==> #[trigger] order[p] < keys.len()
    &&& forall|p: int, q: int|
        0 <= p < q < order.len() ==> ranks_before(keys, #[trigger] order[p] as int, #[trigger] order[q] as int)
    &&& forall|p: int, j: usize|
        0 <= p < order.len() && j < keys.len() && !#[trigger] order.contains(j)
            ==> ranks_before(keys, #[trigger] order[p] as int, j as int)
}

/// The positions of the first `count` items of `keys` after a stable sort by
/// descending key (there is exactly one such sequence: see
/// `top_order_is_unique`).
pub open spec fn top_order(keys: Seq<u32>, count: nat) -> Seq<usize> {
    choose|order: Seq<usize>| is_top_order(keys, count, order)
}

/// Computes the positions of the `count` items with the largest keys, ties
/// kept in their given order, ranked as a stable descending sort ranks them.
pub fn top_positions(keys: &Vec<u32>, count: usize) -> (order: Vec<usize>)
    ensures
        is_top_order(keys@, count as nat, order@),
        order@ == top_order(keys@, count as nat),
        count >= keys@.len() ==> forall|j: usize| j < keys@.len() ==> #[trigger] order@.contains(j),
{
    let n = keys.len();
    // full stable descending order of the positions, built by insertion
    let mut order: Vec<usize> = Vec::new();
    let mut j: usize = 0;
    while j < n
        invariant
            n == keys@.len(),
            j <= n,
            order@.len() == j,
            forall|p: int| 0 <= p < order@.len() ==> #[trigger] order@[p] < j,
            forall|i: usize| i < j ==> #[trigger] order@.contains(i),
            forall|p: int, q: int|
                0 <= p < q < order@.len() ==> ranks_before(keys@, #[trigger] order@[p] as int, #[trigger] order@[q] as int),
        decreases n - j,
    {
        let key = keys[j];
        let mut pos: usize = 0;
        while pos < order.len() && keys[order[pos]] >= key
            invariant
                n == keys@.len(),
                j < n,
                key == keys@[j as int],
                pos <= order@.len(),
                forall|p: int| 0 <= p < order@.len() ==> #[trigger] order@[p] < j,
                forall|p: int| 0 <= p < pos ==> keys@[#[trigger] order@[p] as int] >= key,
            decreases order@.len() - pos,
        {
            pos = pos + 1;
        }
        let ghost old_order = order@;
        proof {
            // everything from `pos` on has a smaller key than the new item
            assert forall|q: int| pos <= q < old_order.len() implies keys@[#[trigger] old_order[q] as int] < key by {
                if pos < q {
                    assert(ranks_before(keys@, old_order[pos as int] as int, old_order[q] as int));
                }
            }
        }
        order.insert(pos, j);
        proof {
            let new_order = order@;
            assert(new_order == old_order.insert(pos as int, j));
            assert forall|p: int| 0 <= p < new_order.len() implies #[trigger] new_order[p] < j + 1 by {
                if p < pos {
                    assert(new_order[p] == old_order[p]);
                } else if p > pos {
                    assert(new_order[p] == old_order[p - 1]);
                }
            }
            assert forall|i: usize| i < j + 1 implies #[trigger] new_order.contains(i) by {
                if i == j {
                    assert(new_order[pos as int] == j);
                } else {
                    assert(old_order.contains(i));
                    let q = choose|q: int| 0 <= q < old_order.len() && old_order[q] == i;
                    if q < pos {
                        assert(new_order[q] == i);
                    } else {
                        assert(new_order[q + 1] == i);
                    }
                }
            }
            assert forall|p: int, q: int| 0 <= p < q < new_order.len() implies ranks_before(
                keys@,
                #[trigger] new_order[p] as int,
                #[trigger] new_order[q] as int,
            ) by {
                if q < pos {
                    assert(new_order[p] == old_order[p] && new_order[q] == old_order[q]);
                } else if q == pos {
                    assert(new_order[p] == old_order[p]);
                    assert(keys@[old_order[p] as int] >= key);
                } else if p < pos {
                    assert(new_order[p] == old_order[p] && new_order[q] == old_order[q - 1]);
                    assert(ranks_before(keys@, old_order[p] as int, old_order[q - 1] as int));
                } else if p == pos {
                    assert(new_order[q] == old_order[q - 1]);
                    assert(keys@[old_order[q - 1] as int] < key);
                } else {
                    assert(new_order[p] == old_order[p - 1] && new_order[q] == old_order[q - 1]);
                    assert(ranks_before(keys@, old_order[p - 1] as int, old_order[q - 1] as int));
                }
            }
        }
        j = j + 1;
    }
    let ghost full = order@;
    let take = if count < n { count } else { n };
    order.truncate(take);
    proof {
        let top = order@;
        assert(top =~= full.subrange(0, take as int));
        assert forall|p: int, i: usize|
            0 <= p < top.len() && i < keys@.len() && !#[trigger] top.contains(i)
                implies ranks_before(keys@, #[trigger] top[p] as int, i as int) by {
            assert(full.contains(i));
            let q = choose|q: int| 0 <= q < full.len() && full[q] == i;
            if q < take {
                assert(top[q] == i);
            }
            assert(full[p] == top[p]);
        }
        assert forall|p: int, q: int| 0 <= p < q < top.len() implies ranks_before(
            keys@,
            #[trigger] top[p] as int,
            #[trigger] top[q] as int,
        ) by {
            assert(top[p] == full[p] && top[q] == full[q]);
        }
        assert forall|p: int| 0 <= p < top.len() implies #[trigger] top[p] < keys@.len() by {
            assert(top[p] == full[p]);
        }
        assert(is_top_order(keys@, count as nat, top));
        if count >= n {
            assert(top =~= full);
        }
        top_order_is_unique(keys@, count as nat, top, top_order(keys@, count as nat));
    }
    order
}

/// The ranking is deterministic: for given keys and count there is only one
/// sequence of positions that a stable descending sort cut to `count` yields.
pub proof fn top_order_is_unique(keys: Seq<u32>, count: nat, a: Seq<usize>, b: Seq<usize>)
    requires
        is_top_order(keys, count, a),
        is_top_order(keys, count, b),
    ensures
        a == b,
{
    assert forall|p: int| 0 <= p < a.len() implies a[p] == b[p] by {
        lemma_top_orders_agree_at(keys, count, a, b, p);
    }
    assert(a =~= b);
}

/// Two top orders agree at every position up to `p` (strong induction on `p`).
proof fn lemma_top_orders_agree_at(keys: Seq<u32>, count: nat, a: Seq<usize>, b: Seq<usize>, p: int)
    requires
        is_top_order(keys, count, a),
        is_top_order(keys, count, b),
        0 <= p < a.len(),
    ensures
        a[p] == b[p],
    decreases p,
{
    let x = a[p] as int;
    let y = b[p] as int;
    if x != y {
        assert forall|r: int| 0 <= r < p implies a[r] == b[r] by {
            lemma_top_orders_agree_at(keys, count, a, b, r);
        }
        // where does `x` stand in `b`?
        lemma_ranks_after_in(keys, count, b, p, x, a);
        // where does `y` stand in `a`?
        lemma_ranks_after_in(keys, count, a, p, y, b);
        assert(false);
    }
}

/// If `other` and `order` agree before position `p`, and `z == other[p]` differs
/// from `order[p]`, then `order[p]` ranks before `z`.
proof fn lemma_ranks_after_in(keys: Seq<u32>, count: nat, order: Seq<usize>, p: int, z: int, other: Seq<usize>)
    requires
        is_top_order(keys, count, order),
        is_top_order(keys, count, other),
        0 <= p < order.len(),
        order.len() == other.len(),
        forall|r: int| 0 <= r < p ==> other[r] == order[r],
        z == other[p] as int,
        z != order[p] as int,
    ensures
        ranks_before(keys, order[p] as int, z),
{
    if order.contains(z as usize) {
        let q = choose|q: int| 0 <= q < order.len() && order[q] == z as usize;
        if q < p {
            // then `other` would hold `z` twice
            assert(other[q] == z as usize);
            assert(ranks_before(keys, other[q] as int, other[p] as int));
            assert(false);
        }
        assert(q != p);
        assert(ranks_before(keys, order[p] as int, order[q] as int));
    } else {
        assert(other[p] < keys.len());
    }
}

/// The first position of a top order holds a key at least as large as every
/// item's key: the head of the list is a maximum.
pub proof fn top_entry_is_maximal(keys: Seq<u32>, count: nat, order: Seq<usize>, j: int)
    requires
        is_top_order(keys, count, order),
        order.len() > 0,
        0 <= j < keys.len(),
        keys.len() <= usize::MAX,
    ensures
        keys[order[0] as int] >= keys[j],
{
    if order.contains(j as usize) {
        let q = choose|q: int| 0 <= q < order.len() && order[q] == j as usize;
        if q > 0 {
            assert(ranks_before(keys, order[0] as int, order[q] as int));
        }
    } else {
        assert(ranks_before(keys, order[0] as int, j));
    }
}

} // verus!
