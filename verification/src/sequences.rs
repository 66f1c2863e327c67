//! Picking items out of a sequence, and putting them in order.

use vstd::prelude::*;

verus! {

/// Filtering one more item of a sequence appends it or leaves it out.
pub(crate) proof fn lemma_filter_next<T>(items: Seq<T>, wanted: spec_fn(T) -> bool, i: int)
    requires
        0 <= i < items.len(),
    ensures
        items.take(i + 1).filter(wanted) == (if wanted(items[i]) {
            items.take(i).filter(wanted).push(items[i])
        } else {
            items.take(i).filter(wanted)
        }),
{
    reveal(Seq::filter);
    assert(items.take(i + 1).drop_last() =~= items.take(i));
}

/// Filtering nothing, and filtering everything.
pub(crate) proof fn lemma_filter_ends<T>(items: Seq<T>, wanted: spec_fn(T) -> bool)
    ensures
        items.take(0).filter(wanted) == Seq::<T>::empty(),
        items.take(items.len() as int) == items,
{
    reveal(Seq::filter);
    assert(items.take(0).filter(wanted) =~= Seq::<T>::empty());
    assert(items.take(items.len() as int) =~= items);
}

/// Items that are listed in some order. Items of which neither precedes the other are of one rank.
pub trait Ranked: Sized {
    /// Whether this item is listed before another one.
    spec fn precedes(self, other: Self) -> bool;

    /// Whether this item is listed before another one.
    fn comes_before(&self, other: &Self) -> (before: bool)
        ensures
            before == self.precedes(*other),
    ;

    /// Of two items at most one precedes the other.
    proof fn one_way(a: Self, b: Self)
        ensures
            !(a.precedes(b) && b.precedes(a)),
    ;

    /// An item between the ranks of two others parts them.
    proof fn parted(a: Self, b: Self, c: Self)
        requires
            a.precedes(c),
        ensures
            a.precedes(b) || b.precedes(c),
    ;
}

/// How many of the listed items go before a new one.
pub open spec fn place_of<T: Ranked>(item: T, listed: Seq<T>) -> nat
    decreases listed.len(),
{
    if listed.len() > 0 && listed[0].precedes(item) {
        1 + place_of(item, listed.drop_first())
    } else {
        0
    }
}

/// The items in order, those of one rank as they came.
pub open spec fn arranged<T: Ranked>(items: Seq<T>) -> Seq<T>
    decreases items.len(),
{
    if items.len() == 0 {
        items
    } else {
        let rest = arranged(items.drop_first());
        rest.insert(place_of(items[0], rest) as int, items[0])
    }
}

/// Where a new item goes among the listed ones.
fn find_place<T: Ranked>(item: &T, listed: &Vec<T>) -> (place: usize)
    ensures
        place == place_of(*item, listed@),
        place <= listed@.len(),
{
    let mut at: usize = 0;
    assert(listed@.skip(0) =~= listed@);
    while at < listed.len() && listed[at].comes_before(item)
        invariant
            at <= listed@.len(),
            place_of(*item, listed@) == at + place_of(*item, listed@.skip(at as int)),
        decreases listed@.len() - at,
    {
        proof {
            assert(listed@.skip(at as int).drop_first() =~= listed@.skip(at + 1));
        }
        at = at + 1;
    }
    at
}

/// Put items in order, those of one rank as they came.
pub fn arrange<T: Ranked>(items: Vec<T>) -> (out: Vec<T>)
    ensures
        out@ == arranged(items@),
{
    let ghost given = items@;
    let mut left: Vec<T> = items;
    let mut out: Vec<T> = Vec::new();
    assert(given.skip(given.len() as int) =~= Seq::<T>::empty());
    loop
        invariant
            left@.len() <= given.len(),
            left@ == given.take(left@.len() as int),
            out@ == arranged(given.skip(left@.len() as int)),
        ensures
            out@ == arranged(given.skip(0)),
        decreases left@.len(),
    {
        let ghost tail = given.skip(left@.len() - 1);
        match left.pop() {
            None => {
                break;
            },
            Some(item) => {
                let place: usize = find_place(&item, &out);
                proof {
                    assert(tail.drop_first() =~= given.skip(left@.len() as int + 1));
                    assert(tail[0] == item);
                    assert(left@ =~= given.take(left@.len() as int));
                }
                out.insert(place, item);
            },
        }
    }
    assert(given.skip(0) =~= given);
    out
}

proof fn lemma_place<T: Ranked>(item: T, listed: Seq<T>)
    ensures
        place_of(item, listed) <= listed.len(),
        forall|i: int| 0 <= i < place_of(item, listed) ==> (#[trigger] listed[i]).precedes(item),
        place_of(item, listed) < listed.len() ==> !listed[place_of(item, listed) as int].precedes(
            item,
        ),
    decreases listed.len(),
{
    if listed.len() > 0 && listed[0].precedes(item) {
        let rest = listed.drop_first();
        lemma_place(item, rest);
        assert forall|i: int| 0 <= i < place_of(item, listed) implies (
        #[trigger] listed[i]).precedes(item) by {
            if i > 0 {
                assert(rest[i - 1] == listed[i]);
            }
        }
    }
}

/// No item that is put in order stands behind one that it precedes.
pub proof fn law_arranged_items_are_in_order<T: Ranked>(items: Seq<T>)
    ensures
        arranged(items).len() == items.len(),
        forall|i: int, j: int|
            0 <= i < j < items.len() ==> !(#[trigger] arranged(items)[j]).precedes(
                #[trigger] arranged(items)[i],
            ),
    decreases items.len(),
{
    if items.len() > 0 {
        let rest = arranged(items.drop_first());
        let item = items[0];
        law_arranged_items_are_in_order(items.drop_first());
        lemma_place(item, rest);
        let place = place_of(item, rest) as int;
        let all = arranged(items);
        assert forall|i: int, j: int| 0 <= i < j < items.len() implies !(
        #[trigger] all[j]).precedes(#[trigger] all[i]) by {
            if j < place {
                assert(all[i] == rest[i] && all[j] == rest[j]);
            } else if i > place {
                assert(all[i] == rest[i - 1] && all[j] == rest[j - 1]);
            } else if j == place {
                assert(all[i] == rest[i] && all[j] == item);
                T::one_way(rest[i], item);
            } else if i == place {
                assert(all[i] == item && all[j] == rest[j - 1]);
                if rest[j - 1].precedes(item) {
                    T::parted(rest[j - 1], rest[place], item);
                    if j - 1 > place {
                        assert(!rest[j - 1].precedes(rest[place]));
                    } else {
                        T::one_way(rest[place], rest[place]);
                    }
                }
            } else {
                assert(all[i] == rest[i] && all[j] == rest[j - 1]);
                if i < j - 1 {
                    assert(!rest[j - 1].precedes(rest[i]));
                }
            }
        }
    }
}

/// Putting items in order neither loses one nor adds one.
pub proof fn law_arranged_items_are_the_same<T: Ranked>(items: Seq<T>)
    ensures
        arranged(items).to_multiset() == items.to_multiset(),
    decreases items.len(),
{
    if items.len() > 0 {
        let rest = arranged(items.drop_first());
        let item = items[0];
        law_arranged_items_are_the_same(items.drop_first());
        lemma_place(item, rest);
        let place = place_of(item, rest) as int;
        let all = arranged(items);
        broadcast use vstd::seq_lib::group_to_multiset_ensures;

        assert(all.remove(place) =~= rest);
        assert(items.remove(0) =~= items.drop_first());
        assert(all[place] == item);
        assert(all.contains(item));
        assert(items.contains(items[0]));
        assert(all.to_multiset().remove(item) == items.to_multiset().remove(item));
        assert(all.to_multiset() =~= all.to_multiset().remove(item).insert(item));
        assert(items.to_multiset() =~= items.to_multiset().remove(item).insert(item));
    }
}

/// Whether two items are of one rank.
pub open spec fn same_rank<T: Ranked>(a: T, b: T) -> bool {
    !a.precedes(b) && !b.precedes(a)
}

/// Items of one rank keep the order in which they came.
pub proof fn law_arranged_items_of_one_rank_stay<T: Ranked>(items: Seq<T>, rank: T)
    ensures
        arranged(items).filter(|item: T| same_rank(item, rank)) == items.filter(
            |item: T| same_rank(item, rank),
        ),
    decreases items.len(),
{
    let wanted = |item: T| same_rank(item, rank);
    if items.len() > 0 {
        let rest = arranged(items.drop_first());
        let item = items[0];
        law_arranged_items_of_one_rank_stay(items.drop_first(), rank);
        lemma_place(item, rest);
        let place = place_of(item, rest) as int;
        let (front, back) = (rest.take(place), rest.skip(place));
        assert(rest =~= front + back);
        assert(arranged(items) =~= front + seq![item] + back);
        assert(items =~= seq![item] + items.drop_first());
        Seq::filter_distributes_over_add(front, back, wanted);
        Seq::filter_distributes_over_add(front, seq![item], wanted);
        Seq::filter_distributes_over_add(front + seq![item], back, wanted);
        Seq::filter_distributes_over_add(seq![item], items.drop_first(), wanted);
        if wanted(item) {
            assert forall|i: int| 0 <= i < front.len() implies !wanted(#[trigger] front[i]) by {
                assert(rest[i].precedes(item));
                if wanted(rest[i]) {
                    T::parted(rest[i], rank, item);
                }
            }
            lemma_filter_nothing(front, wanted);
            assert(front.filter(wanted) + seq![item].filter(wanted) + back.filter(wanted)
                =~= seq![item].filter(wanted) + (front.filter(wanted) + back.filter(wanted)));
        } else {
            lemma_filter_nothing(seq![item], wanted);
            assert(front.filter(wanted) + seq![item].filter(wanted) + back.filter(wanted)
                =~= seq![item].filter(wanted) + (front.filter(wanted) + back.filter(wanted)));
        }
    }
}

/// Filtering items of which none is wanted gives none.
pub(crate) proof fn lemma_filter_nothing<T>(items: Seq<T>, wanted: spec_fn(T) -> bool)
    requires
        forall|i: int| 0 <= i < items.len() ==> !wanted(#[trigger] items[i]),
    ensures
        items.filter(wanted) == Seq::<T>::empty(),
    decreases items.len(),
{
    reveal(Seq::filter);
    if items.len() > 0 {
        lemma_filter_nothing(items.drop_last(), wanted);
    } else {
        assert(items.filter(wanted) =~= Seq::<T>::empty());
    }
}

/// An item that is not wanted can be taken out before filtering.
pub(crate) proof fn lemma_filter_without<T>(items: Seq<T>, wanted: spec_fn(T) -> bool, i: int)
    requires
        0 <= i < items.len(),
        !wanted(items[i]),
    ensures
        items.remove(i).filter(wanted) == items.filter(wanted),
{
    let (front, back) = (items.take(i), items.skip(i + 1));
    assert(items =~= front + seq![items[i]] + back);
    assert(items.remove(i) =~= front + back);
    lemma_filter_nothing(seq![items[i]], wanted);
    Seq::filter_distributes_over_add(front, back, wanted);
    Seq::filter_distributes_over_add(front, seq![items[i]], wanted);
    Seq::filter_distributes_over_add(front + seq![items[i]], back, wanted);
    assert(front.filter(wanted) + Seq::<T>::empty() + back.filter(wanted) =~= front.filter(wanted)
        + back.filter(wanted));
}

/// Two conditions that agree on all items pick the same items.
pub(crate) proof fn lemma_filter_alike<T>(
    items: Seq<T>,
    wanted: spec_fn(T) -> bool,
    other: spec_fn(T) -> bool,
)
    requires
        forall|i: int| 0 <= i < items.len() ==> wanted(#[trigger] items[i]) == other(items[i]),
    ensures
        items.filter(wanted) == items.filter(other),
    decreases items.len(),
{
    reveal(Seq::filter);
    if items.len() > 0 {
        let shorter = items.drop_last();
        assert forall|i: int| 0 <= i < shorter.len() implies wanted(#[trigger] shorter[i]) == other(
            shorter[i],
        ) by {
            assert(shorter[i] == items[i]);
        }
        lemma_filter_alike(shorter, wanted, other);
        assert(wanted(items[items.len() - 1]) == other(items[items.len() - 1]));
    } else {
        assert(items.filter(wanted) =~= items.filter(other));
    }
}

} // verus!
