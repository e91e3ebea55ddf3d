//! Sequence vocabulary of the contracts: first matches, filtered prefixes.
use vstd::prelude::*;

verus! {

/// Index of the first element that `accepts` holds of, the length when there is none.
pub open spec fn first_index<A>(items: Seq<A>, accepts: spec_fn(A) -> bool) -> nat
    decreases items.len(),
{
    if items.len() == 0 || accepts(items[0]) {
        0
    } else {
        1 + first_index(items.drop_first(), accepts)
    }
}

/// The first element that `accepts` holds of.
pub open spec fn first_match<A>(items: Seq<A>, accepts: spec_fn(A) -> bool) -> Option<A> {
    let index = first_index(items, accepts);
    if index < items.len() {
        Some(items[index as int])
    } else {
        None
    }
}

/// The first match is accepted, nothing before it is.
pub proof fn lemma_first_index<A>(items: Seq<A>, accepts: spec_fn(A) -> bool)
    ensures
        first_index(items, accepts) <= items.len(),
        first_index(items, accepts) < items.len() ==> accepts(
            items[first_index(items, accepts) as int],
        ),
        forall|j: int|
            0 <= j < first_index(items, accepts) ==> !accepts(#[trigger] items[j]),
    decreases items.len(),
{
    if items.len() > 0 && !accepts(items[0]) {
        let rest = items.drop_first();
        lemma_first_index(rest, accepts);
        assert forall|j: int| 0 <= j < first_index(items, accepts) implies !accepts(
            #[trigger] items[j],
        ) by {
            if j > 0 {
                assert(rest[j - 1] == items[j]);
            }
        }
    }
}

/// An index with nothing accepted before it, accepted itself or the end, is the first match.
pub proof fn lemma_is_first_index<A>(items: Seq<A>, accepts: spec_fn(A) -> bool, index: int)
    requires
        0 <= index <= items.len(),
        index < items.len() ==> accepts(items[index]),
        forall|j: int| 0 <= j < index ==> !accepts(#[trigger] items[j]),
    ensures
        first_index(items, accepts) == index,
{
    lemma_first_index(items, accepts);
    let first = first_index(items, accepts) as int;
    if first < index {
        assert(!accepts(items[first]));
    } else if index < first {
        assert(!accepts(items[index]));
    }
}

/// The first index at or after `from` that `accepts` holds of, `count` when there is none before it.
pub open spec fn first_where(from: int, count: int, accepts: spec_fn(int) -> bool) -> int
    decreases count - from,
{
    if from >= count || accepts(from) {
        from
    } else {
        first_where(from + 1, count, accepts)
    }
}

/// The first index is accepted, nothing before it is.
pub proof fn lemma_first_where(from: int, count: int, accepts: spec_fn(int) -> bool)
    requires
        from <= count,
    ensures
        from <= first_where(from, count, accepts) <= count,
        first_where(from, count, accepts) < count ==> accepts(first_where(from, count, accepts)),
        forall|j: int|
            from <= j < first_where(from, count, accepts) ==> !#[trigger] accepts(j),
    decreases count - from,
{
    if from < count && !accepts(from) {
        lemma_first_where(from + 1, count, accepts);
    }
}

/// Filtering one element more keeps it when it is accepted.
pub proof fn lemma_filter_step<A>(items: Seq<A>, accepts: spec_fn(A) -> bool, index: int)
    requires
        0 <= index < items.len(),
    ensures
        items.take(index + 1).filter(accepts) == if accepts(items[index]) {
            items.take(index).filter(accepts).push(items[index])
        } else {
            items.take(index).filter(accepts)
        },
{
    reveal(Seq::filter);
    assert(items.take(index + 1).drop_last() =~= items.take(index));
}

/// Filtering keeps everything when everything is accepted.
pub proof fn lemma_filter_all<A>(items: Seq<A>, accepts: spec_fn(A) -> bool)
    requires
        forall|j: int| 0 <= j < items.len() ==> accepts(#[trigger] items[j]),
    ensures
        items.filter(accepts) == items,
    decreases items.len(),
{
    reveal(Seq::filter);
    if items.len() > 0 {
        lemma_filter_all(items.drop_last(), accepts);
        assert(accepts(items.last()));
        assert(items.drop_last().push(items.last()) =~= items);
    }
}

/// Filtering keeps nothing when nothing is accepted.
pub proof fn lemma_filter_none<A>(items: Seq<A>, accepts: spec_fn(A) -> bool)
    requires
        forall|j: int| 0 <= j < items.len() ==> !accepts(#[trigger] items[j]),
    ensures
        items.filter(accepts) == Seq::<A>::empty(),
    decreases items.len(),
{
    reveal(Seq::filter);
    if items.len() > 0 {
        lemma_filter_none(items.drop_last(), accepts);
        assert(!accepts(items.last()));
    } else {
        assert(items =~= Seq::empty());
    }
}

/// What filtering keeps is accepted, so that filtering it again changes nothing.
pub proof fn lemma_filter_accepted<A>(items: Seq<A>, accepts: spec_fn(A) -> bool)
    ensures
        forall|j: int|
            0 <= j < items.filter(accepts).len() ==> accepts(#[trigger] items.filter(accepts)[j]),
        items.filter(accepts).filter(accepts) == items.filter(accepts),
{
    assert forall|j: int| 0 <= j < items.filter(accepts).len() implies accepts(
        #[trigger] items.filter(accepts)[j],
    ) by {
        items.lemma_filter_pred(accepts, j);
    }
    lemma_filter_all(items.filter(accepts), accepts);
}

/// The indices below `count` that `accepts` holds of, ascending.
pub open spec fn selected(count: int, accepts: spec_fn(int) -> bool) -> Seq<usize>
    decreases count,
{
    if count <= 0 {
        Seq::empty()
    } else if accepts(count - 1) {
        selected(count - 1, accepts).push((count - 1) as usize)
    } else {
        selected(count - 1, accepts)
    }
}

/// What is selected lies below `count` and is accepted.
pub proof fn lemma_selected(count: int, accepts: spec_fn(int) -> bool)
    requires
        0 <= count <= usize::MAX,
    ensures
        selected(count, accepts).len() <= count,
        forall|k: int|
            0 <= k < selected(count, accepts).len() ==> (#[trigger] selected(count, accepts)[k])
                < count && accepts(selected(count, accepts)[k] as int),
        forall|j: int, k: int|
            0 <= j < k < selected(count, accepts).len() ==> (#[trigger] selected(
                count,
                accepts,
            )[j]) < (#[trigger] selected(count, accepts)[k]),
    decreases count,
{
    if count > 0 {
        lemma_selected(count - 1, accepts);
        let all = selected(count, accepts);
        let rest = selected(count - 1, accepts);
        assert forall|k: int| 0 <= k < all.len() implies (#[trigger] all[k]) < count && accepts(
            all[k] as int,
        ) by {
            if k < rest.len() {
                assert(all[k] == rest[k]);
            }
        }
        assert forall|j: int, k: int| 0 <= j < k < all.len() implies (#[trigger] all[j]) < (
        #[trigger] all[k]) by {
            assert(all[j] == rest[j]);
            if k < rest.len() {
                assert(all[k] == rest[k]);
            }
        }
    }
}

/// The parts of a sequence, each mapped to a sequence, one after the other.
pub open spec fn concat_map<A, B>(items: Seq<A>, part: spec_fn(A) -> Seq<B>) -> Seq<B>
    decreases items.len(),
{
    if items.len() == 0 {
        Seq::empty()
    } else {
        concat_map(items.drop_last(), part) + part(items.last())
    }
}

/// One element more adds its part at the end.
pub proof fn lemma_concat_map_step<A, B>(items: Seq<A>, part: spec_fn(A) -> Seq<B>, index: int)
    requires
        0 <= index < items.len(),
    ensures
        concat_map(items.take(index + 1), part) == concat_map(items.take(index), part) + part(
            items[index],
        ),
{
    assert(items.take(index + 1).drop_last() =~= items.take(index));
}

/// The parts of two sequences joined are the parts of each, joined.
pub proof fn lemma_concat_map_add<A, B>(left: Seq<A>, right: Seq<A>, part: spec_fn(A) -> Seq<B>)
    ensures
        concat_map(left + right, part) == concat_map(left, part) + concat_map(right, part),
    decreases right.len(),
{
    if right.len() == 0 {
        assert(left + right =~= left);
        assert(concat_map(left, part) + concat_map(right, part) =~= concat_map(left, part));
    } else {
        assert((left + right).drop_last() =~= left + right.drop_last());
        lemma_concat_map_add(left, right.drop_last(), part);
        assert(concat_map(left + right, part) =~= concat_map(left, part) + concat_map(right, part));
    }
}

/// Filtering the parts of a sequence joined is joining the parts filtered.
pub proof fn lemma_concat_map_filter<A, B>(
    items: Seq<A>,
    part: spec_fn(A) -> Seq<B>,
    kept: spec_fn(A) -> Seq<B>,
    accepts: spec_fn(B) -> bool,
)
    requires
        forall|k: int|
            0 <= k < items.len() ==> kept(#[trigger] items[k]) == part(items[k]).filter(accepts),
    ensures
        concat_map(items, kept) == concat_map(items, part).filter(accepts),
    decreases items.len(),
{
    if items.len() == 0 {
        lemma_filter_none(Seq::<B>::empty(), accepts);
    } else {
        let rest = items.drop_last();
        assert forall|k: int| 0 <= k < rest.len() implies kept(#[trigger] rest[k]) == part(
            rest[k],
        ).filter(accepts) by {
            assert(rest[k] == items[k]);
        }
        lemma_concat_map_filter(rest, part, kept, accepts);
        assert(kept(items[items.len() - 1]) == part(items.last()).filter(accepts));
        Seq::filter_distributes_over_add(
            concat_map(rest, part),
            part(items.last()),
            accepts,
        );
    }
}

/// Whether a part stands at an index of a sequence.
pub open spec fn stands_at<A>(all: Seq<A>, part: Seq<A>, index: int) -> bool {
    &&& 0 <= index
    &&& index + part.len() <= all.len()
    &&& all.subrange(index, index + part.len()) == part
}

/// Whether two parts stand in a sequence, the left one first and apart from the right one.
pub open spec fn stand_in_order<A>(all: Seq<A>, left: Seq<A>, right: Seq<A>) -> bool {
    exists|i: int, j: int| #[trigger]
        stands_at(all, left, i) && #[trigger] stands_at(all, right, j) && i + left.len() <= j
}

/// The part of an element stands behind the parts of those before it.
pub proof fn lemma_part_place<A, B>(items: Seq<A>, part: spec_fn(A) -> Seq<B>, index: int)
    requires
        0 <= index < items.len(),
    ensures
        stands_at(
            concat_map(items, part),
            part(items[index]),
            concat_map(items.take(index), part).len() as int,
        ),
{
    let (head, tail) = (items.take(index + 1), items.skip(index + 1));
    assert(items =~= head + tail);
    lemma_concat_map_add(head, tail, part);
    lemma_concat_map_step(items, part, index);
    let start = concat_map(items.take(index), part).len() as int;
    let all = concat_map(items, part);
    assert(all.subrange(start, start + part(items[index]).len()) =~= part(items[index]));
}

/// The parts of elements come in the order of the elements.
pub proof fn lemma_parts_in_order<A, B>(
    items: Seq<A>,
    part: spec_fn(A) -> Seq<B>,
    left: int,
    right: int,
)
    requires
        0 <= left < right < items.len(),
    ensures
        stand_in_order(concat_map(items, part), part(items[left]), part(items[right])),
{
    lemma_part_place(items, part, left);
    lemma_part_place(items, part, right);
    let between = items.take(right).skip(left + 1);
    assert(items.take(right) =~= items.take(left + 1) + between);
    lemma_concat_map_add(items.take(left + 1), between, part);
    lemma_concat_map_step(items, part, left);
}

/// Everything among the parts is in the part of some element.
pub proof fn lemma_part_origin<A, B>(items: Seq<A>, part: spec_fn(A) -> Seq<B>, k: int) -> (at: (
    int,
    int,
))
    requires
        0 <= k < concat_map(items, part).len(),
    ensures
        0 <= at.0 < items.len(),
        0 <= at.1 < part(items[at.0]).len(),
        concat_map(items, part)[k] == part(items[at.0])[at.1],
    decreases items.len(),
{
    let shorter = items.drop_last();
    let rest = concat_map(shorter, part);
    assert(concat_map(items, part) =~= rest + part(items.last()));
    if k < rest.len() {
        let at = lemma_part_origin(shorter, part, k);
        assert(shorter[at.0] == items[at.0]);
        at
    } else {
        (items.len() - 1, k - rest.len())
    }
}

/// A part that stands in a sequence lends it its elements.
pub proof fn lemma_stands_contains<A>(all: Seq<A>, part: Seq<A>, index: int, k: int)
    requires
        stands_at(all, part, index),
        0 <= k < part.len(),
    ensures
        all[index + k] == part[k],
        all.contains(part[k]),
{
    assert(all.subrange(index, index + part.len())[k] == all[index + k]);
}

/// An element that is kept stands behind what is kept of those before it.
pub proof fn lemma_filter_place<A>(items: Seq<A>, accepts: spec_fn(A) -> bool, index: int)
    requires
        0 <= index < items.len(),
        accepts(items[index]),
    ensures
        items.take(index).filter(accepts).len() < items.filter(accepts).len(),
        items.filter(accepts)[items.take(index).filter(accepts).len() as int] == items[index],
{
    let (head, tail) = (items.take(index + 1), items.skip(index + 1));
    assert(items =~= head + tail);
    Seq::filter_distributes_over_add(head, tail, accepts);
    lemma_filter_step(items, accepts, index);
}

/// Elements that are kept keep their order.
pub proof fn lemma_filter_order<A>(
    items: Seq<A>,
    accepts: spec_fn(A) -> bool,
    left: int,
    right: int,
)
    requires
        0 <= left < right < items.len(),
        accepts(items[left]),
    ensures
        items.take(left).filter(accepts).len() < items.take(right).filter(accepts).len(),
{
    let between = items.take(right).skip(left + 1);
    assert(items.take(right) =~= items.take(left + 1) + between);
    Seq::filter_distributes_over_add(items.take(left + 1), between, accepts);
    lemma_filter_step(items, accepts, left);
}

/// What is kept was there, and is accepted.
pub proof fn lemma_filter_origin<A>(items: Seq<A>, accepts: spec_fn(A) -> bool, k: int) -> (at: int)
    requires
        0 <= k < items.filter(accepts).len(),
    ensures
        0 <= at < items.len(),
        items.filter(accepts)[k] == items[at],
        accepts(items[at]),
    decreases items.len(),
{
    reveal(Seq::filter);
    let shorter = items.drop_last();
    let kept = shorter.filter(accepts);
    if k < kept.len() {
        let at = lemma_filter_origin(shorter, accepts, k);
        assert(shorter[at] == items[at]);
        at
    } else {
        items.len() - 1
    }
}

/// Parts of nothing are nothing together.
pub proof fn lemma_concat_nothing<A, B>(items: Seq<A>, part: spec_fn(A) -> Seq<B>)
    requires
        forall|k: int| 0 <= k < items.len() ==> part(#[trigger] items[k]).len() == 0,
    ensures
        concat_map(items, part) == Seq::<B>::empty(),
    decreases items.len(),
{
    if items.len() > 0 {
        let shorter = items.drop_last();
        assert forall|k: int| 0 <= k < shorter.len() implies part(
            #[trigger] shorter[k],
        ).len() == 0 by {
            assert(shorter[k] == items[k]);
        }
        lemma_concat_nothing(shorter, part);
        assert(part(items[items.len() - 1]).len() == 0);
        assert(concat_map(items, part) =~= Seq::empty());
    }
}

} // verus!
