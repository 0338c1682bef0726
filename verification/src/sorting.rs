//! Stable sorting of texts in the order of strings.

use crate::model::strings_view;
use crate::text_set::{
    compare_texts, lemma_text_less_irreflexive, lemma_text_less_total,
    lemma_text_less_transitive, text_less, TextOrder,
};
use vstd::prelude::*;

verus! {

/// The first position of `order` whose key comes behind `key`, or the length
/// of `order` where none does. `order` holds positions of `keys`.
pub open spec fn first_greater(keys: Seq<Seq<char>>, order: Seq<int>, key: Seq<char>) -> int
    decreases order.len(),
{
    if order.len() == 0 {
        0
    } else if text_less(key, keys[order[0]]) {
        0
    } else {
        1 + first_greater(keys, order.skip(1), key)
    }
}

/// The stable order of `keys`: their positions, sorted by key, positions
/// with the same key in their own order. Each key in turn goes behind the
/// keys before it that are not greater.
pub open spec fn order_of(keys: Seq<Seq<char>>) -> Seq<int>
    decreases keys.len(),
{
    if keys.len() == 0 {
        Seq::empty()
    } else {
        let last = keys.len() - 1;
        let before = order_of(keys.drop_last());
        before.insert(first_greater(keys, before, keys[last]), last)
    }
}

/// Whether `order` lists positions below `count`, none twice, by keys that
/// never decrease, and positions with the same key in their own order.
pub open spec fn is_stable_order(keys: Seq<Seq<char>>, order: Seq<int>, count: int) -> bool {
    &&& order.len() == count
    &&& forall|i: int| 0 <= i < order.len() ==> 0 <= #[trigger] order[i] < count
    &&& forall|i: int, j: int|
        0 <= i < j < order.len() ==> !text_less(
            keys[#[trigger] order[j]],
            keys[#[trigger] order[i]],
        )
    &&& forall|i: int, j: int|
        0 <= i < j < order.len() && keys[#[trigger] order[i]] == keys[#[trigger] order[j]]
            ==> order[i] < order[j]
    &&& forall|i: int, j: int|
        0 <= i < j < order.len() ==> #[trigger] order[i] != #[trigger] order[j]
    &&& forall|p: int| 0 <= p < count ==> order.contains(p)
}

/// `first_greater` is a position of `order`, the keys before it are not
/// greater than `key`, and the key at it is.
pub proof fn lemma_first_greater(keys: Seq<Seq<char>>, order: Seq<int>, key: Seq<char>)
    ensures
        0 <= first_greater(keys, order, key) <= order.len(),
        forall|i: int|
            0 <= i < first_greater(keys, order, key) ==> !text_less(key, keys[#[trigger] order[i]]),
        first_greater(keys, order, key) < order.len() ==> text_less(
            key,
            keys[order[first_greater(keys, order, key)]],
        ),
    decreases order.len(),
{
    if order.len() > 0 && !text_less(key, keys[order[0]]) {
        let rest = order.skip(1);
        lemma_first_greater(keys, rest, key);
        assert forall|i: int| 0 <= i < first_greater(keys, order, key) implies !text_less(
            key,
            keys[#[trigger] order[i]],
        ) by {
            if i > 0 {
                assert(order[i] == rest[i - 1]);
            }
        }
    }
}

/// A position with no greater key before it and a greater key at it is the
/// first with a greater key.
pub proof fn lemma_first_greater_is(keys: Seq<Seq<char>>, order: Seq<int>, key: Seq<char>, k: int)
    requires
        0 <= k <= order.len(),
        forall|i: int| 0 <= i < k ==> !text_less(key, keys[#[trigger] order[i]]),
        k < order.len() ==> text_less(key, keys[order[k]]),
    ensures
        first_greater(keys, order, key) == k,
{
    lemma_first_greater(keys, order, key);
}

/// The keys of a longer sequence at the positions of a shorter one are the
/// keys of the shorter one.
proof fn lemma_first_greater_prefix(
    keys: Seq<Seq<char>>,
    more: Seq<Seq<char>>,
    order: Seq<int>,
    key: Seq<char>,
)
    requires
        keys.len() <= more.len(),
        forall|i: int| 0 <= i < keys.len() ==> keys[i] == more[i],
        forall|i: int| 0 <= i < order.len() ==> 0 <= #[trigger] order[i] < keys.len(),
    ensures
        first_greater(keys, order, key) == first_greater(more, order, key),
    decreases order.len(),
{
    if order.len() > 0 {
        let rest = order.skip(1);
        lemma_first_greater_prefix(keys, more, rest, key);
    }
}

/// The stable order lists every position once, by keys that never
/// decrease, and positions with the same key in their own order.
pub proof fn lemma_order_of(keys: Seq<Seq<char>>)
    ensures
        is_stable_order(keys, order_of(keys), keys.len() as int),
    decreases keys.len(),
{
    if keys.len() > 0 {
        let last = keys.len() - 1;
        let head = keys.drop_last();
        let before = order_of(head);
        lemma_order_of(head);
        lemma_first_greater_prefix(head, keys, before, keys[last]);
        lemma_insert_keeps_order(keys, before, last);
    }
}

/// Putting the next position behind the positions whose keys are not
/// greater keeps a stable order.
pub proof fn lemma_insert_keeps_order(keys: Seq<Seq<char>>, before: Seq<int>, last: int)
    requires
        0 <= last < keys.len(),
        is_stable_order(keys.take(last), before, last),
    ensures
        is_stable_order(
            keys,
            before.insert(first_greater(keys, before, keys[last]), last),
            last + 1,
        ),
{
    let key = keys[last];
    let at = first_greater(keys, before, key);
    let order = before.insert(at, last);
    lemma_first_greater(keys, before, key);
    lemma_text_less_irreflexive(key);
    assert forall|i: int| at <= i < before.len() implies text_less(key, keys[before[i]]) by {
        if i > at {
            lemma_text_less_total(keys[before[at]], keys[before[i]]);
            if keys[before[at]] != keys[before[i]] {
                lemma_text_less_transitive(key, keys[before[at]], keys[before[i]]);
            }
        }
    }
    assert forall|p: int| 0 <= p < last + 1 implies order.contains(p) by {
        if p == last {
            assert(order[at] == p);
        } else {
            assert(before.contains(p));
            let i = choose|i: int| 0 <= i < before.len() && before[i] == p;
            if i < at {
                assert(order[i] == p);
            } else {
                assert(order[i + 1] == p);
            }
        }
    }
}

/// The positions of `order` as integers.
pub open spec fn positions(order: Seq<usize>) -> Seq<int> {
    order.map_values(|p: usize| p as int)
}

/// The stable order of `keys`.
pub fn stable_order(keys: &Vec<String>) -> (order: Vec<usize>)
    ensures
        positions(order@) == order_of(strings_view(keys@)),
        order@.len() == keys@.len(),
        forall|i: int| 0 <= i < order@.len() ==> #[trigger] order@[i] < keys@.len(),
{
    let ghost all = strings_view(keys@);
    let mut order: Vec<usize> = Vec::new();
    let mut next: usize = 0;
    while next < keys.len()
        invariant
            next <= keys.len(),
            all == strings_view(keys@),
            positions(order@) == order_of(all.take(next as int)),
            order@.len() == next,
        decreases keys.len() - next,
    {
        let ghost before = positions(order@);
        let ghost head = all.take(next as int);
        let ghost key = all[next as int];
        proof {
            lemma_order_of(head);
            lemma_text_less_irreflexive(key);
        }
        let mut lo: usize = 0;
        let mut hi: usize = order.len();
        while lo < hi
            invariant
                lo <= hi <= order@.len(),
                next < keys.len(),
                order@.len() == next,
                all == strings_view(keys@),
                key == all[next as int],
                head == all.take(next as int),
                before == positions(order@),
                is_stable_order(head, before, next as int),
                forall|i: int| 0 <= i < lo ==> !text_less(key, all[#[trigger] before[i]]),
                forall|i: int| hi <= i < before.len() ==> text_less(key, all[#[trigger] before[i]]),
            decreases hi - lo,
        {
            let mid: usize = lo + (hi - lo) / 2;
            let at: usize = order[mid];
            assert(before[mid as int] == at);
            match compare_texts(key_of(keys, next), key_of(keys, at)) {
                TextOrder::Before => {
                    assert forall|i: int| mid <= i < before.len() implies text_less(
                        key,
                        all[#[trigger] before[i]],
                    ) by {
                        if i > mid {
                            lemma_text_less_total(all[before[mid as int]], all[before[i]]);
                            if all[before[mid as int]] != all[before[i]] {
                                lemma_text_less_transitive(
                                    key,
                                    all[before[mid as int]],
                                    all[before[i]],
                                );
                            }
                        }
                    }
                    hi = mid;
                },
                _ => {
                    assert forall|i: int| 0 <= i < mid + 1 implies !text_less(
                        key,
                        all[#[trigger] before[i]],
                    ) by {
                        if i < mid {
                            if text_less(key, all[before[i]]) {
                                lemma_text_less_total(all[before[i]], all[before[mid as int]]);
                                if all[before[i]] != all[before[mid as int]] {
                                    lemma_text_less_transitive(
                                        key,
                                        all[before[i]],
                                        all[before[mid as int]],
                                    );
                                }
                            }
                        }
                    }
                    lo = mid + 1;
                },
            }
        }
        proof {
            lemma_first_greater_is(all, before, key, lo as int);
            lemma_first_greater_prefix(all.take(next + 1), all, before, key);
            assert(all.take(next + 1).drop_last() == head);
        }
        order.insert(lo, next);
        next += 1;
    }
    proof {
        assert(all.take(next as int) == all);
        lemma_order_of(all);
        assert forall|i: int| 0 <= i < order@.len() implies #[trigger] order@[i]
            < keys@.len() by {
            assert(positions(order@)[i] == order@[i]);
        }
    }
    order
}

/// The key at `at`.
fn key_of(keys: &Vec<String>, at: usize) -> (key: &str)
    requires
        at < keys@.len(),
    ensures
        key@ == strings_view(keys@)[at as int],
{
    keys[at].as_str()
}

} // verus!
