//! The order in which keyed items are taken: by ascending key, and among
//! equal keys the one that was listed first.

use vstd::prelude::*;

verus! {

/// Whether the item at position `a` is taken before the one at position `b`:
/// its key is smaller, or the keys are equal and it was listed earlier.
pub open spec fn comes_before(keys: Seq<i64>, a: int, b: int) -> bool {
    keys[a] < keys[b] || (keys[a] == keys[b] && a < b)
}

/// Whether `order` lists the positions of `keys` so that each comes before
/// all that follow it.
pub open spec fn is_ascending_order(keys: Seq<i64>, order: Seq<int>) -> bool {
    &&& order.len() == keys.len()
    &&& forall|i: int| 0 <= i < order.len() ==> 0 <= #[trigger] order[i] < keys.len()
    &&& forall|i: int, j: int|
        0 <= i < j < order.len() ==> comes_before(keys, #[trigger] order[i], #[trigger] order[j])
}

/// The positions of `keys` by ascending key, equal keys in the order listed.
pub open spec fn ascending_order(keys: Seq<i64>) -> Seq<int> {
    choose|order: Seq<int>| is_ascending_order(keys, order)
}

/// Positions held in machine integers, as mathematical integers.
pub open spec fn positions(order: Seq<usize>) -> Seq<int> {
    order.map_values(|position: usize| position as int)
}

/// `items` taken in the given order.
pub open spec fn arranged<T>(items: Seq<T>, order: Seq<int>) -> Seq<T> {
    Seq::new(order.len(), |i: int| items[order[i]])
}

/// An ascending order names every position.
pub proof fn lemma_order_names_each(keys: Seq<i64>, order: Seq<int>, position: int)
    requires
        is_ascending_order(keys, order),
        0 <= position < keys.len(),
    ensures
        order.contains(position),
{
    let all = vstd::set_lib::set_int_range(0, keys.len() as int);
    vstd::set_lib::lemma_int_range(0, keys.len() as int);
    assert(order.no_duplicates()) by {
        assert forall|i: int, j: int| 0 <= i < order.len() && 0 <= j < order.len() && i != j implies order[i] != order[j] by {
            if i < j {
                assert(comes_before(keys, order[i], order[j]));
            } else {
                assert(comes_before(keys, order[j], order[i]));
            }
        }
    }
    order.unique_seq_to_set();
    assert(order.to_set().subset_of(all)) by {
        assert forall|value: int| order.to_set().contains(value) implies all.contains(value) by {
            let i = choose|i: int| 0 <= i < order.len() && order[i] == value;
            assert(0 <= order[i] < keys.len());
        }
    }
    vstd::set_lib::lemma_subset_equality(order.to_set(), all);
    assert(all.contains(position));
}

/// There is at most one ascending order.
pub proof fn lemma_ascending_order_unique(keys: Seq<i64>, one: Seq<int>, other: Seq<int>)
    requires
        is_ascending_order(keys, one),
        is_ascending_order(keys, other),
    ensures
        one == other,
{
    assert forall|i: int| 0 <= i < one.len() implies one[i] == other[i] by {
        lemma_prefixes_agree(keys, one, other, i + 1);
    }
    assert(one =~= other);
}

/// Two ascending orders agree on their first `upto` entries.
proof fn lemma_prefixes_agree(keys: Seq<i64>, one: Seq<int>, other: Seq<int>, upto: int)
    requires
        is_ascending_order(keys, one),
        is_ascending_order(keys, other),
        0 <= upto <= keys.len(),
    ensures
        forall|i: int| 0 <= i < upto ==> one[i] == other[i],
    decreases upto,
{
    if upto > 0 {
        lemma_prefixes_agree(keys, one, other, upto - 1);
        let at = upto - 1;
        if one[at] != other[at] {
            // Each of the two entries stands further back in the other order,
            // so each would come before the other.
            lemma_order_names_each(keys, other, one[at]);
            let i = choose|i: int| 0 <= i < other.len() && other[i] == one[at];
            lemma_order_names_each(keys, one, other[at]);
            let j = choose|j: int| 0 <= j < one.len() && one[j] == other[at];
            if i < at {
                assert(one[i] == other[i]);
                assert(comes_before(keys, one[i], one[at]));
            }
            if j < at {
                assert(one[j] == other[j]);
                assert(comes_before(keys, other[j], other[at]));
            }
            assert(comes_before(keys, other[at], other[i]));
            assert(comes_before(keys, one[at], one[j]));
        }
    }
}

/// Whatever is an ascending order is the ascending order.
pub proof fn lemma_ascending_order_is(keys: Seq<i64>, order: Seq<int>)
    requires
        is_ascending_order(keys, order),
    ensures
        ascending_order(keys) == order,
{
    lemma_ascending_order_unique(keys, ascending_order(keys), order);
}

/// Whether `order` lists the positions from `from` up to `to`, each once, so
/// that each comes before all that follow it.
pub open spec fn is_ascending_order_of(keys: Seq<i64>, order: Seq<int>, from: int, to: int) -> bool {
    &&& order.len() == to - from
    &&& forall|i: int| 0 <= i < order.len() ==> from <= #[trigger] order[i] < to
    &&& forall|i: int, j: int|
        0 <= i < j < order.len() ==> comes_before(keys, #[trigger] order[i], #[trigger] order[j])
}

/// Every sequence of keys has an ascending order.
pub proof fn lemma_ascending_order_exists(keys: Seq<i64>)
    ensures
        is_ascending_order(keys, ascending_order(keys)),
{
    let order = lemma_some_ascending_order(keys);
}

/// An ascending order of `keys`, built by placing the last key into an
/// ascending order of the keys before it.
proof fn lemma_some_ascending_order(keys: Seq<i64>) -> (order: Seq<int>)
    ensures
        is_ascending_order(keys, order),
    decreases keys.len(),
{
    if keys.len() == 0 {
        Seq::empty()
    } else {
        let last = keys.len() - 1;
        let shorter = keys.drop_last();
        let before = lemma_some_ascending_order(shorter);
        let slot = lemma_slot_for(shorter, before, keys[last], 0);
        let order = before.insert(slot, last);
        assert forall|i: int, j: int| 0 <= i < j < order.len() implies comes_before(
            keys,
            #[trigger] order[i],
            #[trigger] order[j],
        ) by {
            if j < slot {
                assert(comes_before(shorter, before[i], before[j]));
            } else if j == slot {
                assert(0 <= before[i] < last);
            } else if i < slot {
                assert(comes_before(shorter, before[i], before[j - 1]));
            } else if i == slot {
                assert(0 <= before[j - 1] < last);
            } else {
                assert(comes_before(shorter, before[i - 1], before[j - 1]));
            }
        }
        assert forall|i: int| 0 <= i < order.len() implies 0 <= #[trigger] order[i]
            < keys.len() by {
            if i < slot {
                assert(0 <= before[i] < last);
            } else if i > slot {
                assert(0 <= before[i - 1] < last);
            }
        }
        order
    }
}

/// Where a new key goes into an ascending order: behind every key that is
/// not larger, before every key that is.
proof fn lemma_slot_for(keys: Seq<i64>, order: Seq<int>, key: i64, from: int) -> (slot: int)
    requires
        is_ascending_order(keys, order),
        0 <= from <= order.len(),
        forall|i: int| 0 <= i < from ==> keys[#[trigger] order[i]] <= key,
    ensures
        0 <= slot <= order.len(),
        forall|i: int| 0 <= i < slot ==> keys[#[trigger] order[i]] <= key,
        forall|i: int| slot <= i < order.len() ==> keys[#[trigger] order[i]] > key,
    decreases order.len() - from,
{
    if from == order.len() {
        from
    } else if keys[order[from]] > key {
        assert forall|i: int| from <= i < order.len() implies keys[#[trigger] order[i]] > key by {
            if from < i {
                assert(comes_before(keys, order[from], order[i]));
            }
        }
        from
    } else {
        lemma_slot_for(keys, order, key, from + 1)
    }
}

/// The ascending order names every position once and nothing else.
pub proof fn lemma_ascending_order_names_each_once(keys: Seq<i64>)
    ensures
        ascending_order(keys).len() == keys.len(),
        ascending_order(keys).no_duplicates(),
        forall|position: int|
            0 <= position < keys.len() <==> #[trigger] ascending_order(keys).contains(position),
{
    lemma_ascending_order_exists(keys);
    let order = ascending_order(keys);
    assert forall|i: int, j: int|
        0 <= i < order.len() && 0 <= j < order.len() && i != j implies order[i] != order[j] by {
        if i < j {
            assert(comes_before(keys, order[i], order[j]));
        } else {
            assert(comes_before(keys, order[j], order[i]));
        }
    }
    assert forall|position: int| 0 <= position < keys.len() <==> #[trigger] order.contains(
        position,
    ) by {
        if 0 <= position < keys.len() {
            lemma_order_names_each(keys, order, position);
        }
        if order.contains(position) {
            let i = choose|i: int| 0 <= i < order.len() && order[i] == position;
            assert(0 <= order[i] < keys.len());
        }
    }
}

/// In the ascending order no key is followed by a smaller one.
pub proof fn lemma_ascending_order_ascends(keys: Seq<i64>, i: int, j: int)
    requires
        0 <= i <= j < keys.len(),
    ensures
        0 <= ascending_order(keys)[i] < keys.len(),
        0 <= ascending_order(keys)[j] < keys.len(),
        keys[ascending_order(keys)[i]] <= keys[ascending_order(keys)[j]],
{
    lemma_ascending_order_exists(keys);
    let order = ascending_order(keys);
    assert(0 <= order[i] < keys.len());
    assert(0 <= order[j] < keys.len());
    if i < j {
        assert(comes_before(keys, order[i], order[j]));
    }
}

/// Of two keys the smaller is taken first, whichever way round they are
/// listed.
pub proof fn lemma_smaller_key_first(smaller: i64, larger: i64)
    requires
        smaller < larger,
    ensures
        ascending_order(seq![smaller, larger]) == seq![0int, 1int],
        ascending_order(seq![larger, smaller]) == seq![1int, 0int],
{
    assert(is_ascending_order(seq![smaller, larger], seq![0int, 1int]));
    lemma_ascending_order_is(seq![smaller, larger], seq![0int, 1int]);
    assert(is_ascending_order(seq![larger, smaller], seq![1int, 0int]));
    lemma_ascending_order_is(seq![larger, smaller], seq![1int, 0int]);
}

/// Merges the ascending orders of two neighbouring ranges of positions into
/// the ascending order of both.
fn merge_orders(
    keys: &Vec<i64>,
    left: &Vec<usize>,
    right: &Vec<usize>,
    Ghost(from): Ghost<int>,
    Ghost(middle): Ghost<int>,
    Ghost(to): Ghost<int>,
) -> (merged: Vec<usize>)
    requires
        0 <= from <= middle <= to <= keys@.len(),
        is_ascending_order_of(keys@, positions(left@), from, middle),
        is_ascending_order_of(keys@, positions(right@), middle, to),
    ensures
        is_ascending_order_of(keys@, positions(merged@), from, to),
{
    let ghost lower = positions(left@);
    let ghost upper = positions(right@);
    let mut merged: Vec<usize> = Vec::new();
    let mut i: usize = 0;
    let mut j: usize = 0;
    while i < left.len() || j < right.len()
        invariant
            0 <= from <= middle <= to <= keys@.len(),
            lower == positions(left@),
            upper == positions(right@),
            is_ascending_order_of(keys@, lower, from, middle),
            is_ascending_order_of(keys@, upper, middle, to),
            i <= left@.len(),
            j <= right@.len(),
            merged@.len() == i + j,
            forall|k: int| 0 <= k < merged@.len() ==> from <= #[trigger] merged@[k] < to,
            forall|a: int, b: int|
                0 <= a < b < merged@.len() ==> comes_before(
                    keys@,
                    #[trigger] merged@[a] as int,
                    #[trigger] merged@[b] as int,
                ),
            forall|a: int, p: int|
                0 <= a < merged@.len() && i <= p < left@.len() ==> comes_before(
                    keys@,
                    #[trigger] merged@[a] as int,
                    #[trigger] lower[p],
                ),
            forall|a: int, q: int|
                0 <= a < merged@.len() && j <= q < right@.len() ==> comes_before(
                    keys@,
                    #[trigger] merged@[a] as int,
                    #[trigger] upper[q],
                ),
        decreases left@.len() - i + (right@.len() - j),
    {
        let ghost before = merged@;
        proof {
            if i < left@.len() {
                assert(from <= lower[i as int] < middle);
            }
            if j < right@.len() {
                assert(middle <= upper[j as int] < to);
            }
        }
        let from_left = if i == left.len() {
            false
        } else if j == right.len() {
            true
        } else {
            keys[left[i]] <= keys[right[j]]
        };
        if from_left {
            let position = left[i];
            merged.push(position);
            proof {
                assert forall|a: int, p: int|
                    0 <= a < merged@.len() && i + 1 <= p < left@.len() implies comes_before(
                    keys@,
                    #[trigger] merged@[a] as int,
                    #[trigger] lower[p],
                ) by {
                    if a == before.len() {
                        assert(comes_before(keys@, lower[i as int], lower[p]));
                    } else {
                        assert(merged@[a] == before[a]);
                    }
                }
                assert forall|a: int, q: int|
                    0 <= a < merged@.len() && j <= q < right@.len() implies comes_before(
                    keys@,
                    #[trigger] merged@[a] as int,
                    #[trigger] upper[q],
                ) by {
                    if a == before.len() {
                        assert(middle <= upper[q] < to);
                        if j < q {
                            assert(comes_before(keys@, upper[j as int], upper[q]));
                        }
                    } else {
                        assert(merged@[a] == before[a]);
                    }
                }
                assert forall|a: int, b: int| 0 <= a < b < merged@.len() implies comes_before(
                    keys@,
                    #[trigger] merged@[a] as int,
                    #[trigger] merged@[b] as int,
                ) by {
                    assert(merged@[a] == before[a]);
                    if b == before.len() {
                        assert(comes_before(keys@, before[a] as int, lower[i as int]));
                    } else {
                        assert(merged@[b] == before[b]);
                    }
                }
            }
            i = i + 1;
        } else {
            let position = right[j];
            merged.push(position);
            proof {
                assert forall|a: int, p: int|
                    0 <= a < merged@.len() && i <= p < left@.len() implies comes_before(
                    keys@,
                    #[trigger] merged@[a] as int,
                    #[trigger] lower[p],
                ) by {
                    if a == before.len() {
                        assert(from <= lower[p] < middle);
                        if i < p {
                            assert(comes_before(keys@, lower[i as int], lower[p]));
                        }
                    } else {
                        assert(merged@[a] == before[a]);
                    }
                }
                assert forall|a: int, q: int|
                    0 <= a < merged@.len() && j + 1 <= q < right@.len() implies comes_before(
                    keys@,
                    #[trigger] merged@[a] as int,
                    #[trigger] upper[q],
                ) by {
                    if a == before.len() {
                        assert(comes_before(keys@, upper[j as int], upper[q]));
                    } else {
                        assert(merged@[a] == before[a]);
                    }
                }
                assert forall|a: int, b: int| 0 <= a < b < merged@.len() implies comes_before(
                    keys@,
                    #[trigger] merged@[a] as int,
                    #[trigger] merged@[b] as int,
                ) by {
                    assert(merged@[a] == before[a]);
                    if b == before.len() {
                        assert(comes_before(keys@, before[a] as int, upper[j as int]));
                    } else {
                        assert(merged@[b] == before[b]);
                    }
                }
            }
            j = j + 1;
        }
    }
    proof {
        let all = positions(merged@);
        assert forall|a: int, b: int| 0 <= a < b < all.len() implies comes_before(
            keys@,
            #[trigger] all[a],
            #[trigger] all[b],
        ) by {
            assert(comes_before(keys@, merged@[a] as int, merged@[b] as int));
        }
        assert forall|k: int| 0 <= k < all.len() implies from <= #[trigger] all[k] < to by {
            assert(from <= merged@[k] < to);
        }
    }
    merged
}

/// Computes the ascending order of the positions from `from` up to `to`.
fn sort_range(keys: &Vec<i64>, from: usize, to: usize) -> (order: Vec<usize>)
    requires
        from <= to <= keys@.len(),
    ensures
        is_ascending_order_of(keys@, positions(order@), from as int, to as int),
    decreases to - from,
{
    let mut order: Vec<usize> = Vec::new();
    if to - from == 0 {
        return order;
    }
    if to - from == 1 {
        order.push(from);
        return order;
    }
    let middle = from + (to - from) / 2;
    let left = sort_range(keys, from, middle);
    let right = sort_range(keys, middle, to);
    merge_orders(keys, &left, &right, Ghost(from as int), Ghost(middle as int), Ghost(to as int))
}

/// Computes the ascending order of `keys`.
pub fn sort_order(keys: &Vec<i64>) -> (order: Vec<usize>)
    ensures
        is_ascending_order(keys@, positions(order@)),
        positions(order@) == ascending_order(keys@),
{
    let order = sort_range(keys, 0, keys.len());
    proof {
        lemma_ascending_order_is(keys@, positions(order@));
    }
    order
}

} // verus!
