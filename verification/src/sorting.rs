//! Orders built from integer keys.
//!
//! The store sorts segments and catalog entries by short integer keys and keeps
//! equal keys in their given order. Both come from sorting rows that end in the
//! position they were taken from.
use vstd::prelude::*;
use vstd::set_lib::{lemma_int_range, lemma_subset_equality, set_int_range};

verus! {

/// A row to be sorted: three key columns, then the position the row stands for.
pub type SortRow = (i128, i128, i128, usize);

/// Lexicographic order on rows.
pub open spec fn row_le(a: SortRow, b: SortRow) -> bool {
    if a.0 != b.0 {
        a.0 < b.0
    } else if a.1 != b.1 {
        a.1 < b.1
    } else if a.2 != b.2 {
        a.2 < b.2
    } else {
        a.3 <= b.3
    }
}

/// `rows` ascends.
pub open spec fn rows_ascend(rows: Seq<SortRow>) -> bool {
    forall|i: int, j: int|
        #![trigger rows[i], rows[j]]
        0 <= i <= j < rows.len() ==> row_le(rows[i], rows[j])
}

/// Sorts rows with `slice::sort_unstable`.
///
/// Trusted: the rows afterwards are the rows from before in another order, and they
/// ascend in the lexicographic order that tuples of integers have.
#[verifier::external_body]
pub(crate) fn sort_rows(rows: &mut Vec<SortRow>)
    ensures
        final(rows)@.to_multiset() == old(rows)@.to_multiset(),
        rows_ascend(final(rows)@),
{
    rows.sort_unstable();
}

/// The same rows occur before and after a reordering.
pub proof fn lemma_same_rows(a: Seq<SortRow>, b: Seq<SortRow>)
    requires
        a.to_multiset() == b.to_multiset(),
    ensures
        a.len() == b.len(),
        forall|row: SortRow| a.contains(row) <==> b.contains(row),
{
    broadcast use vstd::seq_lib::group_to_multiset_ensures;

    assert(a.len() == a.to_multiset().len());
    assert(b.len() == b.to_multiset().len());
    assert forall|row: SortRow| a.contains(row) <==> b.contains(row) by {
        assert(a.contains(row) <==> a.to_multiset().count(row) > 0);
        assert(b.contains(row) <==> b.to_multiset().count(row) > 0);
    }
}

/// Position `a` comes before position `b` when sorting stably by `keys`.
pub open spec fn key_before(keys: Seq<(i128, i128, i128)>, a: int, b: int) -> bool {
    let x = keys[a];
    let y = keys[b];
    if x.0 != y.0 {
        x.0 < y.0
    } else if x.1 != y.1 {
        x.1 < y.1
    } else if x.2 != y.2 {
        x.2 < y.2
    } else {
        a < b
    }
}

/// `order` lists every position of `keys` once, in stable key order.
pub open spec fn is_order(keys: Seq<(i128, i128, i128)>, order: Seq<usize>) -> bool {
    &&& order.len() == keys.len()
    &&& forall|i: int| 0 <= i < order.len() ==> (#[trigger] order[i]) < keys.len()
    &&& forall|i: int, j: int|
        #![trigger order[i], order[j]]
        0 <= i < j < order.len() ==> key_before(keys, order[i] as int, order[j] as int)
}

/// An order holds every position.
pub proof fn lemma_order_covers(keys: Seq<(i128, i128, i128)>, order: Seq<usize>, position: int)
    requires
        is_order(keys, order),
        0 <= position < keys.len(),
    ensures
        exists|i: int| 0 <= i < order.len() && #[trigger] order[i] == position,
{
    let seen = order.map_values(|p: usize| p as int);
    assert(seen.no_duplicates()) by {
        assert forall|i: int, j: int|
            0 <= i < seen.len() && 0 <= j < seen.len() && i != j implies seen[i] != seen[j] by {
            if i < j {
                assert(key_before(keys, order[i] as int, order[j] as int));
            } else {
                assert(key_before(keys, order[j] as int, order[i] as int));
            }
        }
    }
    seen.unique_seq_to_set();
    let all = set_int_range(0, keys.len() as int);
    lemma_int_range(0, keys.len() as int);
    assert(seen.to_set().subset_of(all)) by {
        assert forall|p: int| seen.to_set().contains(p) implies all.contains(p) by {
            let i = choose|i: int| 0 <= i < seen.len() && seen[i] == p;
            assert(order[i] < keys.len());
        }
    }
    lemma_subset_equality(seen.to_set(), all);
    assert(seen.to_set().contains(position));
    let i = choose|i: int| 0 <= i < seen.len() && seen[i] == position;
    assert(order[i] == position);
}

/// There is only one stable order of the same keys.
pub proof fn lemma_order_unique(
    keys: Seq<(i128, i128, i128)>,
    left: Seq<usize>,
    right: Seq<usize>,
)
    requires
        is_order(keys, left),
        is_order(keys, right),
    ensures
        left == right,
{
    assert forall|k: int| 0 <= k < left.len() implies left[k] == right[k] by {
        lemma_order_unique_at(keys, left, right, k);
    }
    assert(left =~= right);
}

proof fn lemma_order_unique_at(
    keys: Seq<(i128, i128, i128)>,
    left: Seq<usize>,
    right: Seq<usize>,
    at: int,
)
    requires
        is_order(keys, left),
        is_order(keys, right),
        0 <= at < left.len(),
    ensures
        left[at] == right[at],
    decreases at,
{
    assert forall|i: int| 0 <= i < at implies left[i] == right[i] by {
        lemma_order_unique_at(keys, left, right, i);
    }
    lemma_order_covers(keys, right, left[at] as int);
    lemma_order_covers(keys, left, right[at] as int);
    let p = choose|p: int| 0 <= p < right.len() && right[p] == left[at] as int;
    let q = choose|q: int| 0 <= q < left.len() && left[q] == right[at] as int;
    if p < at {
        assert(left[p] == right[p]);
        assert(key_before(keys, left[p] as int, left[at] as int));
    } else if q < at {
        assert(left[q] == right[q]);
        assert(key_before(keys, right[q] as int, right[at] as int));
    } else if p > at && q > at {
        assert(key_before(keys, right[at] as int, right[p] as int));
        assert(key_before(keys, left[at] as int, left[q] as int));
    }
}

/// The positions of `keys` in stable key order.
pub fn order_by(keys: &Vec<(i128, i128, i128)>) -> (order: Vec<usize>)
    ensures
        is_order(keys@, order@),
{
    let mut rows: Vec<SortRow> = Vec::new();
    let mut index: usize = 0;
    while index < keys.len()
        invariant
            index <= keys@.len(),
            rows@.len() == index,
            forall|i: int|
                0 <= i < index ==> #[trigger] rows@[i] == (
                    keys@[i].0,
                    keys@[i].1,
                    keys@[i].2,
                    i as usize,
                ),
        decreases keys@.len() - index,
    {
        let key = keys[index];
        rows.push((key.0, key.1, key.2, index));
        index = index + 1;
    }
    let ghost unsorted = rows@;
    sort_rows(&mut rows);
    proof {
        lemma_same_rows(rows@, unsorted);
        assert(unsorted.no_duplicates());
        unsorted.lemma_multiset_has_no_duplicates();
        rows@.lemma_multiset_has_no_duplicates_conv();
        assert forall|i: int| 0 <= i < rows@.len() implies {
            let row = #[trigger] rows@[i];
            row.3 < keys@.len() && row == (
                keys@[row.3 as int].0,
                keys@[row.3 as int].1,
                keys@[row.3 as int].2,
                row.3,
            )
        } by {
            assert(rows@.contains(rows@[i]));
            assert(unsorted.contains(rows@[i]));
        }
    }
    let mut order: Vec<usize> = Vec::new();
    let mut at: usize = 0;
    while at < rows.len()
        invariant
            at <= rows@.len(),
            rows@.len() == keys@.len(),
            order@.len() == at,
            forall|i: int| 0 <= i < at ==> #[trigger] order@[i] == rows@[i].3,
        decreases rows@.len() - at,
    {
        order.push(rows[at].3);
        at = at + 1;
    }
    proof {
        assert forall|i: int, j: int|
            #![trigger order@[i], order@[j]]
            0 <= i < j < order@.len() implies key_before(
            keys@,
            order@[i] as int,
            order@[j] as int,
        ) by {
            assert(row_le(rows@[i], rows@[j]));
            assert(rows@[i] != rows@[j]);
        }
    }
    order
}

/// `items` in the given order.
pub open spec fn arranged<T>(items: Seq<T>, order: Seq<usize>) -> Seq<T> {
    Seq::new(order.len(), |i: int| items[order[i] as int])
}

/// Moves `items` into the stable order of `keys`.
pub fn arrange<T>(items: Vec<T>, keys: &Vec<(i128, i128, i128)>) -> (sorted: Vec<T>)
    requires
        items@.len() == keys@.len(),
    ensures
        exists|order: Seq<usize>| #[trigger]
            is_order(keys@, order) && sorted@ == arranged(items@, order),
{
    let order = order_by(keys);
    let ghost given = items@;
    let mut items = items;
    let mut slots: Vec<Option<T>> = Vec::new();
    while items.len() > 0
        invariant
            items@.len() + slots@.len() == given.len(),
            items@ == given.take(items@.len() as int),
            forall|i: int|
                0 <= i < slots@.len() ==> #[trigger] slots@[i] == Some(
                    given[given.len() - 1 - i],
                ),
        decreases items@.len(),
    {
        let ghost before = items@;
        let item = items.pop();
        proof {
            assert(item == Some(before.last()));
            assert(items@ =~= given.take(items@.len() as int));
        }
        slots.push(item);
    }
    let len = slots.len();
    let mut sorted: Vec<T> = Vec::new();
    let mut at: usize = 0;
    while at < order.len()
        invariant
            at <= order@.len(),
            len == given.len(),
            is_order(keys@, order@),
            keys@.len() == given.len(),
            slots@.len() == given.len(),
            sorted@.len() == at,
            forall|i: int| 0 <= i < at ==> #[trigger] sorted@[i] == given[order@[i] as int],
            forall|i: int|
                at <= i < order@.len() ==> slots@[len - 1 - #[trigger] order@[i]] == Some(
                    given[order@[i] as int],
                ),
        decreases order@.len() - at,
    {
        let from = order[at];
        let slot = len - 1 - from;
        assert(slots@[slot as int] == Some(given[from as int]));
        let item = slots[slot].take();
        proof {
            assert forall|i: int| at + 1 <= i < order@.len() implies slots@[len - 1
                - #[trigger] order@[i]] == Some(given[order@[i] as int]) by {
                assert(key_before(keys@, order@[at as int] as int, order@[i] as int));
            }
        }
        match item {
            Some(value) => {
                sorted.push(value);
            },
            None => {
                assert(false);
            },
        }
        at = at + 1;
    }
    proof {
        assert(sorted@ =~= arranged(given, order@));
    }
    sorted
}

/// The first position in `order` whose key is greater than the key at `n`, or its end.
spec fn slot_for(keys: Seq<(i128, i128, i128)>, order: Seq<usize>, n: int) -> int
    decreases order.len(),
{
    if order.len() > 0 && !key_before(keys, order.last() as int, n) {
        slot_for(keys, order.drop_last(), n)
    } else {
        order.len() as int
    }
}

proof fn lemma_slot(keys: Seq<(i128, i128, i128)>, order: Seq<usize>, n: int)
    requires
        forall|i: int| 0 <= i < order.len() ==> (#[trigger] order[i]) < n,
        n < keys.len(),
        forall|i: int, j: int|
            #![trigger order[i], order[j]]
            0 <= i < j < order.len() ==> key_before(keys, order[i] as int, order[j] as int),
    ensures
        0 <= slot_for(keys, order, n) <= order.len(),
        forall|i: int|
            0 <= i < slot_for(keys, order, n) ==> key_before(keys, #[trigger] order[i] as int, n),
        forall|i: int|
            slot_for(keys, order, n) <= i < order.len() ==> key_before(
                keys,
                n,
                #[trigger] order[i] as int,
            ),
    decreases order.len(),
{
    if order.len() > 0 {
        let last = order.len() - 1;
        assert(order[last] == order.last());
        if key_before(keys, order.last() as int, n) {
            assert forall|i: int| 0 <= i < order.len() implies key_before(
                keys,
                #[trigger] order[i] as int,
                n,
            ) by {
                if i < last {
                    assert(key_before(keys, order[i] as int, order[last] as int));
                }
            }
        } else {
            let shorter = order.drop_last();
            assert forall|i: int| 0 <= i < shorter.len() implies (#[trigger] shorter[i]) < n by {
                assert(shorter[i] == order[i]);
            }
            lemma_slot(keys, shorter, n);
            assert forall|i: int| 0 <= i < slot_for(keys, order, n) implies key_before(
                keys,
                #[trigger] order[i] as int,
                n,
            ) by {
                assert(shorter[i] == order[i]);
            }
            assert forall|i: int| slot_for(keys, order, n) <= i < order.len() implies key_before(
                keys,
                n,
                #[trigger] order[i] as int,
            ) by {
                if i < last {
                    assert(shorter[i] == order[i]);
                }
            }
        }
    }
}

/// The positions of every list of keys can be ordered.
pub proof fn lemma_order_exists(keys: Seq<(i128, i128, i128)>)
    requires
        keys.len() <= usize::MAX,
    ensures
        exists|order: Seq<usize>| is_order(keys, order),
    decreases keys.len(),
{
    if keys.len() == 0 {
        assert(is_order(keys, Seq::<usize>::empty()));
    } else {
        let shorter = keys.drop_last();
        lemma_order_exists(shorter);
        let before = choose|order: Seq<usize>| is_order(shorter, order);
        let n = keys.len() - 1;
        assert forall|i: int, j: int|
            #![trigger before[i], before[j]]
            0 <= i < j < before.len() implies key_before(
            keys,
            before[i] as int,
            before[j] as int,
        ) by {
            assert(key_before(shorter, before[i] as int, before[j] as int));
        }
        lemma_slot(keys, before, n);
        let slot = slot_for(keys, before, n);
        let after = before.insert(slot, n as usize);
        assert forall|i: int| 0 <= i < after.len() implies (#[trigger] after[i]) < keys.len() by {
            if i < slot {
                assert(after[i] == before[i]);
            } else if i > slot {
                assert(after[i] == before[i - 1]);
            }
        }
        assert forall|i: int, j: int|
            #![trigger after[i], after[j]]
            0 <= i < j < after.len() implies key_before(
            keys,
            after[i] as int,
            after[j] as int,
        ) by {
            let p = if i < slot {
                i
            } else {
                i - 1
            };
            let q = if j < slot {
                j
            } else {
                j - 1
            };
            if i != slot {
                assert(after[i] == before[p]);
            }
            if j != slot {
                assert(after[j] == before[q]);
            }
            if i != slot && j != slot {
                assert(key_before(keys, before[p] as int, before[q] as int));
            }
        }
        assert(is_order(keys, after));
    }
}

/// One key comes before another: in the first place where the two differ it has the lower number.
pub open spec fn is_lower_key(a: (i128, i128, i128), b: (i128, i128, i128)) -> bool {
    ||| a.0 < b.0
    ||| a.0 == b.0 && a.1 < b.1
    ||| a.0 == b.0 && a.1 == b.1 && a.2 < b.2
}

/// An order lists every position once, by its key; positions with equal keys stay in their order.
pub proof fn law_order_is_stable(keys: Seq<(i128, i128, i128)>, order: Seq<usize>)
    requires
        is_order(keys, order),
    ensures
        order.len() == keys.len(),
        forall|position: int|
            0 <= position < keys.len() ==> #[trigger] order.contains(position as usize),
        forall|i: int, j: int|
            #![trigger order[i], order[j]]
            0 <= i < j < order.len() ==> {
                let a = keys[order[i] as int];
                let b = keys[order[j] as int];
                is_lower_key(a, b) || a == b && order[i] < order[j]
            },
{
    assert forall|position: int| 0 <= position < keys.len() implies #[trigger] order.contains(
        position as usize,
    ) by {
        lemma_order_covers(keys, order, position);
        let i = choose|i: int| 0 <= i < order.len() && #[trigger] order[i] == position;
        assert(order[i] == position as usize);
    }
    assert forall|i: int, j: int|
        #![trigger order[i], order[j]]
        0 <= i < j < order.len() implies {
        let a = keys[order[i] as int];
        let b = keys[order[j] as int];
        is_lower_key(a, b) || a == b && order[i] < order[j]
    } by {
        assert(key_before(keys, order[i] as int, order[j] as int));
    }
}

} // verus!
