//! Stable order of items by a pair of strings.
use vstd::prelude::*;

use crate::seqs::{first_index, lemma_first_index, lemma_is_first_index};
use crate::text::{is_str_le, str_eq, str_le};

verus! {

/// What an item is ordered by, `minor` deciding between equal `major`s.
#[derive(Debug)]
pub struct SortKey {
    pub major: String,
    pub minor: String,
}

/// Value of a [`SortKey`].
pub ghost struct KeyView {
    pub major: Seq<char>,
    pub minor: Seq<char>,
}

impl View for SortKey {
    type V = KeyView;

    open spec fn view(&self) -> KeyView {
        KeyView { major: self.major@, minor: self.minor@ }
    }
}

/// Values of a sequence of [`SortKey`].
pub open spec fn keys_view(keys: Seq<SortKey>) -> Seq<KeyView> {
    keys.map_values(|key: SortKey| key@)
}

/// Whether `left` sorts at or before `right`.
pub open spec fn key_le(left: KeyView, right: KeyView) -> bool {
    if left.major == right.major {
        str_le(left.minor, right.minor)
    } else {
        str_le(left.major, right.major)
    }
}

/// Predicate of the items that sort after item `index`.
pub open spec fn sorts_after(keys: Seq<KeyView>, index: int) -> spec_fn(usize) -> bool {
    |other: usize| !key_le(keys[other as int], keys[index])
}

/// The first `count` items in order, each put behind those that sort at or before it.
pub open spec fn order_of(keys: Seq<KeyView>, count: int) -> Seq<usize>
    decreases count,
{
    if count <= 0 {
        Seq::empty()
    } else {
        let order = order_of(keys, count - 1);
        order.insert(
            first_index(order, sorts_after(keys, count - 1)) as int,
            (count - 1) as usize,
        )
    }
}

/// All items in order.
pub open spec fn sorted_order(keys: Seq<KeyView>) -> Seq<usize> {
    order_of(keys, keys.len() as int)
}

/// Whether items come in order, equal ones in the order they had.
pub open spec fn is_stably_sorted(keys: Seq<KeyView>, order: Seq<usize>) -> bool {
    forall|a: int, b: int|
        0 <= a < b < order.len() ==> {
            let (left, right) = (#[trigger] order[a], #[trigger] order[b]);
            &&& key_le(keys[left as int], keys[right as int])
            &&& keys[left as int] == keys[right as int] ==> left < right
        }
}

/// Whether each of the first `count` items comes once, and nothing else.
pub open spec fn is_permutation(order: Seq<usize>, count: int) -> bool {
    &&& order.len() == count
    &&& order.no_duplicates()
    &&& forall|a: int| 0 <= a < order.len() ==> (#[trigger] order[a]) < count
}

pub proof fn lemma_str_le_total(left: Seq<char>, right: Seq<char>)
    ensures
        str_le(left, right) || str_le(right, left),
        str_le(left, right) && str_le(right, left) ==> left == right,
        str_le(left, left),
    decreases left.len(),
{
    if left.len() > 0 {
        lemma_str_le_total(left.drop_first(), left.drop_first());
        if right.len() > 0 {
            lemma_str_le_total(left.drop_first(), right.drop_first());
            if left[0] == right[0] && left.drop_first() == right.drop_first() {
                assert(left =~= seq![left[0]] + left.drop_first());
                assert(right =~= seq![right[0]] + right.drop_first());
            }
        }
    } else {
        if right.len() == 0 {
            assert(left =~= right);
        }
    }
}

pub proof fn lemma_str_le_transitive(a: Seq<char>, b: Seq<char>, c: Seq<char>)
    requires
        str_le(a, b),
        str_le(b, c),
    ensures
        str_le(a, c),
    decreases a.len(),
{
    if a.len() > 0 && b.len() > 0 && c.len() > 0 && a[0] == b[0] && b[0] == c[0] {
        lemma_str_le_transitive(a.drop_first(), b.drop_first(), c.drop_first());
    }
}

proof fn lemma_key_le_total(left: KeyView, right: KeyView)
    ensures
        key_le(left, right) || key_le(right, left),
        key_le(left, right) && key_le(right, left) ==> left == right,
        key_le(left, left),
{
    lemma_str_le_total(left.major, right.major);
    lemma_str_le_total(left.minor, right.minor);
    lemma_str_le_total(left.minor, left.minor);
}

proof fn lemma_key_le_transitive(a: KeyView, b: KeyView, c: KeyView)
    requires
        key_le(a, b),
        key_le(b, c),
    ensures
        key_le(a, c),
{
    if a.major == b.major && b.major == c.major {
        lemma_str_le_transitive(a.minor, b.minor, c.minor);
    } else {
        lemma_str_le_total(b.major, b.major);
        lemma_str_le_transitive(a.major, b.major, c.major);
        if a.major == c.major {
            lemma_str_le_total(a.major, b.major);
        }
    }
}

/// The order is a stable sort: every item once, in order, equal ones in the order they had.
pub proof fn order_is_a_stable_sort(keys: Seq<KeyView>, count: int)
    requires
        0 <= count <= keys.len(),
        count <= usize::MAX,
    ensures
        is_permutation(order_of(keys, count), count),
        is_stably_sorted(keys, order_of(keys, count)),
        forall|item: usize| item < count ==> #[trigger] order_of(keys, count).contains(item),
    decreases count,
{
    if count > 0 {
        let index = count - 1;
        let order = order_of(keys, index);
        let after = sorts_after(keys, index);
        let slot = first_index(order, after) as int;
        let longer = order_of(keys, count);
        order_is_a_stable_sort(keys, index);
        lemma_first_index(order, after);
        assert forall|a: int| 0 <= a < longer.len() implies (#[trigger] longer[a]) < count by {
            if a < slot {
                assert(longer[a] == order[a]);
            } else if a > slot {
                assert(longer[a] == order[a - 1]);
            }
        }
        assert forall|item: usize| item < count implies #[trigger] longer.contains(item) by {
            if item == index {
                assert(longer[slot] == item);
            } else {
                assert(order.contains(item));
                let a = order.index_of(item);
                if a < slot {
                    assert(longer[a] == item);
                } else {
                    assert(longer[a + 1] == item);
                }
            }
        }
        assert(longer.no_duplicates()) by {
            assert forall|a: int, b: int|
                0 <= a < longer.len() && 0 <= b < longer.len() && a != b implies longer[a]
                != longer[b] by {
                let a0 = if a < slot { a } else { a - 1 };
                let b0 = if b < slot { b } else { b - 1 };
                if a != slot {
                    assert(longer[a] == order[a0]);
                }
                if b != slot {
                    assert(longer[b] == order[b0]);
                }
            }
        }
        assert forall|a: int, b: int| 0 <= a < b < longer.len() implies {
            let (left, right) = (#[trigger] longer[a], #[trigger] longer[b]);
            &&& key_le(keys[left as int], keys[right as int])
            &&& keys[left as int] == keys[right as int] ==> left < right
        } by {
            let a0 = if a < slot { a } else { a - 1 };
            let b0 = if b < slot { b } else { b - 1 };
            if a == slot {
                assert(longer[b] == order[b0]);
                assert(after(order[slot]));
                lemma_key_le_total(keys[order[slot] as int], keys[index]);
                if slot < b0 {
                    assert(key_le(keys[order[slot] as int], keys[order[b0] as int]));
                    lemma_key_le_transitive(
                        keys[index],
                        keys[order[slot] as int],
                        keys[order[b0] as int],
                    );
                    lemma_key_le_total(keys[order[slot] as int], keys[order[b0] as int]);
                }
            } else if b == slot {
                assert(longer[a] == order[a0]);
                assert(!after(order[a0]));
            } else {
                assert(longer[a] == order[a0] && longer[b] == order[b0]);
            }
        }
    }
}

/// Whether `left` sorts at or before `right`.
fn is_key_le(left: &SortKey, right: &SortKey) -> (res: bool)
    ensures
        res == key_le(left@, right@),
{
    if str_eq(left.major.as_str(), right.major.as_str()) {
        is_str_le(left.minor.as_str(), right.minor.as_str())
    } else {
        is_str_le(left.major.as_str(), right.major.as_str())
    }
}

/// Place of item `index` among others in order: behind those that sort at or before it.
fn find_slot(keys: &Vec<SortKey>, order: &Vec<usize>, index: usize) -> (res: usize)
    requires
        index < keys.len(),
        order@ == order_of(keys_view(keys@), index as int),
    ensures
        res == first_index(order@, sorts_after(keys_view(keys@), index as int)),
        res <= order@.len(),
{
    let ghost views = keys_view(keys@);
    let ghost after = sorts_after(views, index as int);
    proof {
        order_is_a_stable_sort(views, index as int);
    }
    let mut low: usize = 0;
    let mut high: usize = order.len();
    while low < high
        invariant
            views == keys_view(keys@),
            after == sorts_after(views, index as int),
            index < keys.len(),
            is_permutation(order@, index as int),
            is_stably_sorted(views, order@),
            low <= high <= order.len(),
            forall|a: int| 0 <= a < low ==> !after(#[trigger] order@[a]),
            forall|a: int| high <= a < order@.len() ==> after(#[trigger] order@[a]),
        decreases high - low,
    {
        let middle: usize = low + (high - low) / 2;
        let other = order[middle];
        assert(other < index);
        assert(views[other as int] == keys@[other as int]@);
        assert(views[index as int] == keys@[index as int]@);
        if is_key_le(&keys[other], &keys[index]) {
            assert forall|a: int| 0 <= a < middle + 1 implies !after(#[trigger] order@[a]) by {
                if a < middle {
                    lemma_key_le_transitive(
                        views[order@[a] as int],
                        views[other as int],
                        views[index as int],
                    );
                }
            }
            low = middle + 1;
        } else {
            assert forall|a: int| middle <= a < order@.len() implies after(
                #[trigger] order@[a],
            ) by {
                if middle < a && key_le(views[order@[a] as int], views[index as int]) {
                    lemma_key_le_transitive(
                        views[other as int],
                        views[order@[a] as int],
                        views[index as int],
                    );
                }
            }
            high = middle;
        }
    }
    proof {
        lemma_is_first_index(order@, after, low as int);
    }
    low
}

/// Indices of the items in order, equal ones in the order they have.
pub fn sort_indices(keys: &Vec<SortKey>) -> (res: Vec<usize>)
    ensures
        res@ == sorted_order(keys_view(keys@)),
        is_permutation(res@, keys@.len() as int),
        is_stably_sorted(keys_view(keys@), res@),
{
    let ghost views = keys_view(keys@);
    let mut order: Vec<usize> = Vec::new();
    let mut index: usize = 0;
    while index < keys.len()
        invariant
            views == keys_view(keys@),
            index <= keys.len(),
            order@ == order_of(views, index as int),
        decreases keys.len() - index,
    {
        let slot = find_slot(keys, &order, index);
        order.insert(slot, index);
        index = index + 1;
    }
    proof {
        order_is_a_stable_sort(views, index as int);
    }
    order
}

/// Items in order without those whose key the item before has.
pub open spec fn without_repeats(keys: Seq<KeyView>, order: Seq<usize>) -> Seq<usize>
    decreases order.len(),
{
    if order.len() <= 1 {
        order
    } else {
        let rest = without_repeats(keys, order.drop_last());
        if keys[order.last() as int] == keys[order[order.len() - 2] as int] {
            rest
        } else {
            rest.push(order.last())
        }
    }
}

/// Whether an item of the same key, that item or one before it, is kept.
pub open spec fn key_is_kept(keys: Seq<KeyView>, kept: Seq<usize>, item: usize) -> bool {
    exists|b: int|
        0 <= b < kept.len() && keys[kept[b] as int] == keys[item as int] && #[trigger] kept[b]
            <= item
}

/// Whether items have distinct keys, in ascending order.
pub open spec fn is_strictly_sorted(keys: Seq<KeyView>, order: Seq<usize>) -> bool {
    forall|a: int, b: int|
        0 <= a < b < order.len() ==> {
            let (left, right) = (#[trigger] order[a], #[trigger] order[b]);
            &&& key_le(keys[left as int], keys[right as int])
            &&& keys[left as int] != keys[right as int]
        }
}

/// Items in order are so without the last.
proof fn lemma_sorted_shorter(keys: Seq<KeyView>, order: Seq<usize>)
    requires
        is_stably_sorted(keys, order),
        order.len() > 0,
    ensures
        is_stably_sorted(keys, order.drop_last()),
{
    let shorter = order.drop_last();
    assert forall|a: int, b: int| 0 <= a < b < shorter.len() implies {
        let (left, right) = (#[trigger] shorter[a], #[trigger] shorter[b]);
        &&& key_le(keys[left as int], keys[right as int])
        &&& keys[left as int] == keys[right as int] ==> left < right
    } by {
        assert(shorter[a] == order[a] && shorter[b] == order[b]);
    }
}

/// What is kept are items, and no key of them sorts after the last.
proof fn lemma_kept_items(keys: Seq<KeyView>, order: Seq<usize>)
    requires
        is_stably_sorted(keys, order),
    ensures
        forall|a: int|
            0 <= a < without_repeats(keys, order).len() ==> order.contains(
                #[trigger] without_repeats(keys, order)[a],
            ) && key_le(
                keys[without_repeats(keys, order)[a] as int],
                keys[order.last() as int],
            ),
    decreases order.len(),
{
    let kept = without_repeats(keys, order);
    if order.len() <= 1 {
        assert forall|a: int| 0 <= a < kept.len() implies order.contains(#[trigger] kept[a])
            && key_le(keys[kept[a] as int], keys[order.last() as int]) by {
            assert(order[a] == kept[a]);
            lemma_key_le_total(keys[kept[a] as int], keys[kept[a] as int]);
        }
    } else {
        let shorter = order.drop_last();
        let rest = without_repeats(keys, shorter);
        let (last, before) = (order[order.len() - 1], order[order.len() - 2]);
        lemma_sorted_shorter(keys, order);
        lemma_kept_items(keys, shorter);
        assert(shorter.last() == before);
        assert(key_le(keys[before as int], keys[last as int]));
        assert forall|a: int| 0 <= a < kept.len() implies order.contains(#[trigger] kept[a])
            && key_le(keys[kept[a] as int], keys[last as int]) by {
            if a < rest.len() {
                assert(kept[a] == rest[a]);
                let i = shorter.index_of(rest[a]);
                assert(order[i] == rest[a]);
                lemma_key_le_transitive(
                    keys[rest[a] as int],
                    keys[before as int],
                    keys[last as int],
                );
            } else {
                assert(kept[a] == last);
                lemma_key_le_total(keys[last as int], keys[last as int]);
            }
        }
    }
}

proof fn lemma_kept_distinct(keys: Seq<KeyView>, order: Seq<usize>)
    requires
        is_stably_sorted(keys, order),
    ensures
        is_strictly_sorted(keys, without_repeats(keys, order)),
    decreases order.len(),
{
    if order.len() > 1 {
        let kept = without_repeats(keys, order);
        let shorter = order.drop_last();
        let rest = without_repeats(keys, shorter);
        let (last, before) = (order[order.len() - 1], order[order.len() - 2]);
        lemma_sorted_shorter(keys, order);
        lemma_kept_distinct(keys, shorter);
        lemma_kept_items(keys, shorter);
        if keys[last as int] != keys[before as int] {
            assert(shorter.last() == before);
            assert(key_le(keys[before as int], keys[last as int]));
            assert forall|a: int, b: int| 0 <= a < b < kept.len() implies {
                let (left, right) = (#[trigger] kept[a], #[trigger] kept[b]);
                &&& key_le(keys[left as int], keys[right as int])
                &&& keys[left as int] != keys[right as int]
            } by {
                assert(kept[a] == rest[a]);
                if b < rest.len() {
                    assert(kept[b] == rest[b]);
                } else {
                    lemma_key_le_transitive(
                        keys[rest[a] as int],
                        keys[before as int],
                        keys[last as int],
                    );
                    lemma_key_le_total(keys[before as int], keys[last as int]);
                }
            }
        }
    }
}

proof fn lemma_kept_first(keys: Seq<KeyView>, order: Seq<usize>, a: int)
    requires
        is_stably_sorted(keys, order),
        0 <= a < order.len(),
    ensures
        key_is_kept(keys, without_repeats(keys, order), order[a]),
    decreases order.len(),
{
    let kept = without_repeats(keys, order);
    if order.len() <= 1 {
        assert(kept[a] <= order[a]);
    } else {
        let shorter = order.drop_last();
        let rest = without_repeats(keys, shorter);
        let (last, before) = (order[order.len() - 1], order[order.len() - 2]);
        lemma_sorted_shorter(keys, order);
        let repeated = keys[last as int] == keys[before as int];
        if a < shorter.len() || repeated {
            let i = if a < shorter.len() {
                a
            } else {
                order.len() - 2
            };
            lemma_kept_first(keys, shorter, i);
            assert(shorter[i] == order[i]);
            let b = choose|b: int|
                0 <= b < rest.len() && keys[rest[b] as int] == keys[shorter[i] as int]
                    && #[trigger] rest[b] <= shorter[i];
            assert(kept[b] == rest[b]);
            assert(kept[b] <= order[a]);
        } else {
            assert(kept[kept.len() - 1] <= order[a]);
        }
    }
}

/// Without repeats, items in order have distinct keys in ascending order.
pub proof fn repeats_are_dropped(keys: Seq<KeyView>, order: Seq<usize>)
    requires
        is_stably_sorted(keys, order),
    ensures
        is_strictly_sorted(keys, without_repeats(keys, order)),
{
    lemma_kept_distinct(keys, order);
}

/// Dropping repeats adds no item.
pub proof fn kept_items_are_items(keys: Seq<KeyView>, order: Seq<usize>)
    requires
        is_stably_sorted(keys, order),
    ensures
        forall|a: int|
            0 <= a < without_repeats(keys, order).len() ==> order.contains(
                #[trigger] without_repeats(keys, order)[a],
            ),
{
    lemma_kept_items(keys, order);
}

/// Dropping repeats loses no key: each is held by the first item that had it.
pub proof fn no_key_is_dropped(keys: Seq<KeyView>, order: Seq<usize>)
    requires
        is_stably_sorted(keys, order),
    ensures
        forall|a: int|
            0 <= a < order.len() ==> key_is_kept(
                keys,
                without_repeats(keys, order),
                #[trigger] order[a],
            ),
{
    assert forall|a: int| 0 <= a < order.len() implies key_is_kept(
        keys,
        without_repeats(keys, order),
        #[trigger] order[a],
    ) by {
        lemma_kept_first(keys, order, a);
    }
}

/// Items in order without those whose key the item before has.
pub fn drop_repeats(keys: &Vec<SortKey>, order: &Vec<usize>) -> (res: Vec<usize>)
    requires
        forall|a: int| 0 <= a < order@.len() ==> (#[trigger] order@[a]) < keys@.len(),
    ensures
        res@ == without_repeats(keys_view(keys@), order@),
{
    let ghost views = keys_view(keys@);
    let mut kept: Vec<usize> = Vec::new();
    let mut i: usize = 0;
    while i < order.len()
        invariant
            views == keys_view(keys@),
            i <= order.len(),
            forall|a: int| 0 <= a < order@.len() ==> (#[trigger] order@[a]) < keys@.len(),
            kept@ == without_repeats(views, order@.take(i as int)),
        decreases order.len() - i,
    {
        let ghost longer = order@.take(i + 1);
        assert(longer.drop_last() =~= order@.take(i as int));
        if i == 0 {
            kept.push(order[i]);
            assert(kept@ =~= longer);
        } else {
            let key = &keys[order[i]];
            let previous = &keys[order[i - 1]];
            assert(views[order@[i as int] as int] == key@);
            assert(views[order@[i - 1] as int] == previous@);
            assert(longer[longer.len() - 2] == order@[i - 1]);
            if !(str_eq(key.major.as_str(), previous.major.as_str()) && str_eq(
                key.minor.as_str(),
                previous.minor.as_str(),
            )) {
                kept.push(order[i]);
            }
        }
        i = i + 1;
    }
    assert(order@.take(order@.len() as int) =~= order@);
    kept
}

} // verus!
