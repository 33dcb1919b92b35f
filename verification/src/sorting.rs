//! A merge sort over values that have an order of their own.

use vstd::prelude::*;

use crate::text::Order;

verus! {

/// Values with a total order, in which distinct values may compare as equal.
pub trait Sortable: Sized {
    /// How this value compares with another.
    spec fn place(&self, other: &Self) -> Order;

    /// Comparing the other way round gives the opposite outcome.
    proof fn place_is_antisymmetric(left: &Self, right: &Self)
        ensures
            right.place(left) == left.place(right).opposite(),
    ;

    /// The order is transitive.
    proof fn place_is_transitive(first: &Self, second: &Self, third: &Self)
        requires
            first.place(second) != Order::Greater,
            second.place(third) != Order::Greater,
        ensures
            first.place(third) != Order::Greater,
    ;

    /// Compares this value with another.
    fn compare(&self, other: &Self) -> (order: Order)
        ensures
            order == self.place(other),
    ;
}

/// No value comes before one that it is greater than.
pub open spec fn sorted<T: Sortable>(items: Seq<T>) -> bool {
    forall|i: int, j: int|
        #![trigger items[i], items[j]]
        0 <= i < j < items.len() ==> items[i].place(&items[j]) != Order::Greater
}

/// The values that compare as equal to a given one, in their order.
pub open spec fn alike<T: Sortable>(items: Seq<T>, value: T) -> Seq<T>
    decreases items.len(),
{
    if items.len() == 0 {
        Seq::empty()
    } else if items.last().place(&value) == Order::Equal {
        alike(items.drop_last(), value).push(items.last())
    } else {
        alike(items.drop_last(), value)
    }
}

proof fn alike_of_join<T: Sortable>(left: Seq<T>, right: Seq<T>, value: T)
    ensures
        alike(left + right, value) == alike(left, value) + alike(right, value),
    decreases right.len(),
{
    if right.len() == 0 {
        assert(left + right =~= left);
        assert(alike(left, value) + alike(right, value) =~= alike(left, value));
    } else {
        let rest = right.drop_last();
        assert((left + right).drop_last() =~= left + rest);
        assert((left + right).last() == right.last());
        alike_of_join(left, rest, value);
        if right.last().place(&value) == Order::Equal {
            assert((alike(left, value) + alike(rest, value)).push(right.last()) =~= alike(
                left,
                value,
            ) + alike(rest, value).push(right.last()));
        }
    }
}

/// Values that are all smaller than one that compares as equal to `value` are not alike it.
proof fn smaller_are_not_alike<T: Sortable>(items: Seq<T>, greater: T, value: T)
    requires
        greater.place(&value) == Order::Equal,
        forall|i: int| 0 <= i < items.len() ==> greater.place(&#[trigger] items[i])
            == Order::Greater,
    ensures
        alike(items, value) == Seq::<T>::empty(),
    decreases items.len(),
{
    if items.len() > 0 {
        let rest = items.drop_last();
        let last = items[items.len() - 1];
        assert(greater.place(&last) == Order::Greater);
        assert forall|i: int| 0 <= i < rest.len() implies greater.place(&#[trigger] rest[i])
            == Order::Greater by {
            assert(rest[i] == items[i]);
        }
        smaller_are_not_alike(rest, greater, value);
        if last.place(&value) == Order::Equal {
            T::place_is_antisymmetric(&last, &value);
            T::place_is_transitive(&greater, &value, &last);
        }
    }
}

/// What is alike a value in two lists and in what was taken from them, latest first.
spec fn spread<T: Sortable>(left: Seq<T>, right: Seq<T>, taken: Seq<T>, value: T) -> Seq<T> {
    alike(left, value) + alike(right, value) + alike(taken.reverse(), value)
}

/// Taking the last value of the right list leaves the order of alike values.
proof fn taking_right_keeps_alike<T: Sortable>(
    left: Seq<T>,
    right: Seq<T>,
    taken: Seq<T>,
    value: T,
)
    requires
        right.len() > 0,
    ensures
        spread(left, right.drop_last(), taken.push(right.last()), value) == spread(
            left,
            right,
            taken,
            value,
        ),
{
    let item = right.last();
    let one = seq![item];
    assert(right =~= right.drop_last() + one);
    alike_of_join(right.drop_last(), one, value);
    assert(taken.push(item).reverse() =~= one + taken.reverse());
    alike_of_join(one, taken.reverse(), value);
    assert(alike(left, value) + alike(right.drop_last(), value) + (alike(one, value) + alike(
        taken.reverse(),
        value,
    )) =~= alike(left, value) + (alike(right.drop_last(), value) + alike(one, value)) + alike(
        taken.reverse(),
        value,
    ));
}

/// Taking the last value of the left list, greater than all on the right, leaves the order of
/// alike values.
proof fn taking_left_keeps_alike<T: Sortable>(
    left: Seq<T>,
    right: Seq<T>,
    taken: Seq<T>,
    value: T,
)
    requires
        left.len() > 0,
        forall|i: int| 0 <= i < right.len() ==> left.last().place(&#[trigger] right[i])
            == Order::Greater,
    ensures
        spread(left.drop_last(), right, taken.push(left.last()), value) == spread(
            left,
            right,
            taken,
            value,
        ),
{
    let item = left.last();
    let one = seq![item];
    let rest = left.drop_last();
    assert(left =~= rest + one);
    alike_of_join(rest, one, value);
    assert(taken.push(item).reverse() =~= one + taken.reverse());
    alike_of_join(one, taken.reverse(), value);
    let tail = alike(taken.reverse(), value);
    if item.place(&value) == Order::Equal {
        smaller_are_not_alike(right, item, value);
        assert(alike(rest, value) + alike(right, value) + (alike(one, value) + tail) =~= (alike(
            rest,
            value,
        ) + alike(one, value)) + alike(right, value) + tail);
    } else {
        assert(one.drop_last() =~= Seq::<T>::empty());
        assert(alike(one, value) =~= Seq::<T>::empty());
        assert(alike(rest, value) + alike(right, value) + (alike(one, value) + tail) =~= (alike(
            rest,
            value,
        ) + alike(one, value)) + alike(right, value) + tail);
    }
}

/// No value of `lower` is greater than one of `upper`.
spec fn below<T: Sortable>(lower: Seq<T>, upper: Seq<T>) -> bool {
    forall|i: int, j: int|
        #![trigger lower[i], upper[j]]
        0 <= i < lower.len() && 0 <= j < upper.len() ==> lower[i].place(&upper[j])
            != Order::Greater
}

proof fn below_extends<T: Sortable>(lower: Seq<T>, upper: Seq<T>, value: T)
    requires
        below(lower, upper),
        forall|i: int| 0 <= i < lower.len() ==> (#[trigger] lower[i]).place(&value) != Order::Greater,
    ensures
        below(lower, upper.push(value)),
{
}

/// Moves the last value of one sorted list to the end of `taken`, which holds what is no smaller
/// in descending order.
fn take_last<T: Sortable>(from: &mut Vec<T>, other: &Vec<T>, taken: &mut Vec<T>)
    requires
        old(from)@.len() > 0,
        sorted(old(from)@),
        sorted(other@),
        sorted(old(taken)@.reverse()),
        below(old(from)@, old(taken)@),
        below(other@, old(taken)@),
        other@.len() > 0 ==> other@.last().place(&old(from)@.last()) != Order::Greater,
    ensures
        final(from)@ == old(from)@.drop_last(),
        final(taken)@ == old(taken)@.push(old(from)@.last()),
        sorted(final(from)@),
        sorted(final(taken)@.reverse()),
        below(final(from)@, final(taken)@),
        below(other@, final(taken)@),
{
    let ghost value = from@.last();
    let ghost before = from@;
    if let Some(last) = from.pop() {
        taken.push(last);
    }
    proof {
        assert forall|i: int| 0 <= i < other@.len() implies (#[trigger] other@[i]).place(&value)
            != Order::Greater by {
            if i < other@.len() - 1 {
                T::place_is_transitive(&other@[i], &other@.last(), &value);
            }
        }
        assert forall|i: int| 0 <= i < from@.len() implies (#[trigger] from@[i]).place(&value)
            != Order::Greater by {
            assert(before[i].place(&before[before.len() - 1]) != Order::Greater);
        }
        assert(below(from@, old(taken)@)) by {
            assert forall|i: int, j: int|
                #![trigger from@[i], old(taken)@[j]]
                0 <= i < from@.len() && 0 <= j < old(taken)@.len() implies from@[i].place(
                &old(taken)@[j],
            ) != Order::Greater by {
                assert(before[i].place(&old(taken)@[j]) != Order::Greater);
            }
        }
        below_extends(from@, old(taken)@, value);
        below_extends(other@, old(taken)@, value);
        let reversed = taken@.reverse();
        assert forall|i: int, j: int|
            #![trigger reversed[i], reversed[j]]
            0 <= i < j < reversed.len() implies reversed[i].place(&reversed[j])
            != Order::Greater by {
            let earlier = old(taken)@.reverse();
            if i == 0 {
                assert(before[before.len() - 1].place(&old(taken)@[reversed.len() - 1 - j])
                    != Order::Greater);
            } else {
                assert(earlier[i - 1].place(&earlier[j - 1]) != Order::Greater);
            }
        }
    }
}

/// Merges two sorted lists.
fn merge<T: Sortable>(left: Vec<T>, right: Vec<T>) -> (result: Vec<T>)
    requires
        sorted(left@),
        sorted(right@),
    ensures
        sorted(result@),
        result@.to_multiset() == left@.to_multiset().add(right@.to_multiset()),
        forall|value: T| #[trigger]
            alike(result@, value) == alike(left@, value) + alike(right@, value),
{
    let mut left = left;
    let mut right = right;
    let ghost left_start = left@;
    let ghost right_start = right@;
    let ghost whole = left@.to_multiset().add(right@.to_multiset());
    let mut taken: Vec<T> = Vec::new();
    broadcast use vstd::seq_lib::group_to_multiset_ensures;

    assert(taken@.reverse() =~= Seq::<T>::empty());
    assert(left@.to_multiset().add(right@.to_multiset()).add(taken@.to_multiset()) =~= whole);
    assert forall|value: T| #[trigger]
        spread(left@, right@, taken@, value) == alike(left_start, value) + alike(
            right_start,
            value,
        ) by {
        assert(alike(taken@.reverse(), value) =~= Seq::<T>::empty());
    }
    while left.len() > 0 || right.len() > 0
        invariant
            sorted(left@),
            sorted(right@),
            sorted(taken@.reverse()),
            below(left@, taken@),
            below(right@, taken@),
            left@.to_multiset().add(right@.to_multiset()).add(taken@.to_multiset()) == whole,
            forall|value: T| #[trigger]
                spread(left@, right@, taken@, value) == alike(left_start, value) + alike(
                    right_start,
                    value,
                ),
        decreases left.len() + right.len(),
    {
        let from_left = if left.len() == 0 {
            false
        } else if right.len() == 0 {
            true
        } else {
            proof {
                T::place_is_antisymmetric(&left@.last(), &right@.last());
            }
            match left[left.len() - 1].compare(&right[right.len() - 1]) {
                Order::Greater => true,
                _ => false,
            }
        };
        let ghost left_before = left@;
        let ghost right_before = right@;
        let ghost taken_before = taken@;
        if from_left {
            take_last(&mut left, &right, &mut taken);
            assert(left_before =~= left@.push(left_before.last()));
            proof {
                if right@.len() > 0 {
                    last_is_greatest(right@, left_before.last());
                }
                assert forall|value: T| #[trigger]
                    spread(left@, right@, taken@, value) == alike(left_start, value) + alike(
                        right_start,
                        value,
                    ) by {
                    taking_left_keeps_alike(left_before, right_before, taken_before, value);
                }
            }
        } else {
            take_last(&mut right, &left, &mut taken);
            assert(right_before =~= right@.push(right_before.last()));
            proof {
                assert forall|value: T| #[trigger]
                    spread(left@, right@, taken@, value) == alike(left_start, value) + alike(
                        right_start,
                        value,
                    ) by {
                    taking_right_keeps_alike(left_before, right_before, taken_before, value);
                }
            }
        }
        broadcast use vstd::seq_lib::group_to_multiset_ensures;

        assert(left@.to_multiset().add(right@.to_multiset()).add(taken@.to_multiset())
            =~= left_before.to_multiset().add(right_before.to_multiset()).add(
            taken_before.to_multiset(),
        ));
    }
    assert(taken@.to_multiset() =~= whole);
    assert forall|value: T| #[trigger]
        alike(taken@.reverse(), value) == alike(left_start, value) + alike(right_start, value) by {
        assert(spread(left@, right@, taken@, value) =~= alike(taken@.reverse(), value));
    }
    reverse(taken)
}

/// What is greater than the last value of a sorted list is greater than all of them.
proof fn last_is_greatest<T: Sortable>(items: Seq<T>, greater: T)
    requires
        sorted(items),
        items.len() > 0,
        greater.place(&items.last()) == Order::Greater,
    ensures
        forall|i: int| 0 <= i < items.len() ==> greater.place(&#[trigger] items[i])
            == Order::Greater,
{
    let last = items.last();
    assert forall|i: int| 0 <= i < items.len() implies greater.place(&#[trigger] items[i])
        == Order::Greater by {
        if i < items.len() - 1 {
            assert(items[i].place(&items[items.len() - 1]) != Order::Greater);
            if greater.place(&items[i]) != Order::Greater {
                T::place_is_transitive(&greater, &items[i], &last);
            }
        }
    }
}

/// Reverses a list.
fn reverse<T>(items: Vec<T>) -> (result: Vec<T>)
    ensures
        result@ == items@.reverse(),
        result@.to_multiset() == items@.to_multiset(),
{
    let ghost whole = items@;
    let mut items = items;
    let mut result: Vec<T> = Vec::new();
    broadcast use vstd::seq_lib::group_to_multiset_ensures;

    assert(items@.to_multiset().add(result@.to_multiset()) =~= whole.to_multiset());
    while items.len() > 0
        invariant
            result@ + items@.reverse() =~= whole.reverse(),
            items@.to_multiset().add(result@.to_multiset()) == whole.to_multiset(),
        decreases items.len(),
    {
        let ghost before = items@;
        let ghost result_before = result@;
        if let Some(last) = items.pop() {
            result.push(last);
        }
        assert(before =~= items@.push(before.last()));
        broadcast use vstd::seq_lib::group_to_multiset_ensures;

        assert(items@.to_multiset().add(result@.to_multiset()) =~= before.to_multiset().add(
            result_before.to_multiset(),
        ));
    }
    assert(result@.to_multiset() =~= whole.to_multiset());
    result
}

/// Sorts a list; values that compare as equal keep their order.
pub fn sort<T: Sortable>(items: Vec<T>) -> (result: Vec<T>)
    ensures
        sorted(result@),
        result@.to_multiset() == items@.to_multiset(),
        forall|value: T| #[trigger] alike(result@, value) == alike(items@, value),
    decreases items@.len(),
{
    if items.len() < 2 {
        return items;
    }
    let ghost whole = items@;
    let mut left = items;
    let middle: usize = left.len() / 2;
    let right = left.split_off(middle);
    proof {
        assert(whole =~= left@ + right@);
        vstd::seq_lib::lemma_multiset_commutative(left@, right@);
        assert forall|value: T| #[trigger]
            alike(whole, value) == alike(left@, value) + alike(right@, value) by {
            alike_of_join(left@, right@, value);
        }
    }
    merge(sort(left), sort(right))
}

/// Two lists with the same values have the same values after mapping each of them.
pub proof fn same_values_map<T, U>(left: Seq<T>, right: Seq<T>, map: spec_fn(T) -> U)
    requires
        left.to_multiset() == right.to_multiset(),
    ensures
        left.map_values(map).to_multiset() == right.map_values(map).to_multiset(),
    decreases left.len(),
{
    broadcast use vstd::seq_lib::group_to_multiset_ensures;

    assert(left.len() == left.to_multiset().len());
    assert(right.len() == right.to_multiset().len());
    if left.len() == 0 {
        assert(left =~= right);
    } else {
        let value = left.last();
        let rest = left.drop_last();
        assert(left =~= rest.push(value));
        assert(left.contains(value));
        assert(left.to_multiset().count(value) > 0);
        assert(right.contains(value));
        let at = choose|at: int| 0 <= at < right.len() && right[at] == value;
        let other = right.remove(at);
        assert(rest.to_multiset() =~= left.to_multiset().remove(value));
        assert(other.to_multiset() =~= right.to_multiset().remove(value));
        same_values_map(rest, other, map);
        assert(left.map_values(map) =~= rest.map_values(map).push(map(value)));
        assert(right.map_values(map) =~= other.map_values(map).insert(at, map(value)));
    }
}

} // verus!
