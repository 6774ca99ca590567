//! Stable sorting, and what it keeps of the sequence it is given.

use std::collections::VecDeque;
use vstd::prelude::*;

verus! {

/// `rel` compares any two values and is transitive: values may tie.
pub open spec fn total_preorder<T>(rel: spec_fn(T, T) -> bool) -> bool {
    &&& forall|a: T, b: T| #[trigger] rel(a, b) || rel(b, a)
    &&& forall|a: T, b: T, c: T| #[trigger] rel(a, b) && #[trigger] rel(b, c) ==> rel(a, c)
}

/// Later items never come before earlier ones in `rel`.
pub open spec fn ordered_by<T>(s: Seq<T>, rel: spec_fn(T, T) -> bool) -> bool {
    forall|i: int, j: int| 0 <= i < j < s.len() ==> rel(#[trigger] s[i], #[trigger] s[j])
}

/// The items that tie with `x`.
pub open spec fn ties_with<T>(x: T, rel: spec_fn(T, T) -> bool) -> spec_fn(T) -> bool {
    |y: T| rel(x, y) && rel(y, x)
}

/// `output` holds the items of `input`, in order, and items that tie stand in the order they
/// had in `input`. At most one sequence does.
pub open spec fn stable_sort_of<T>(
    input: Seq<T>,
    output: Seq<T>,
    rel: spec_fn(T, T) -> bool,
) -> bool {
    &&& ordered_by(output, rel)
    &&& output.to_multiset() == input.to_multiset()
    &&& forall|x: T| #[trigger]
        output.filter(ties_with(x, rel)) == input.filter(ties_with(x, rel))
}

/// Two sequences with the same items have equally many that satisfy `pred`.
pub proof fn lemma_same_items_same_count<T>(a: Seq<T>, b: Seq<T>, pred: spec_fn(T) -> bool)
    requires
        a.to_multiset() == b.to_multiset(),
    ensures
        a.filter(pred).len() == b.filter(pred).len(),
    decreases a.len(),
{
    broadcast use vstd::seq_lib::group_to_multiset_ensures;
    a.to_multiset_ensures();
    b.to_multiset_ensures();
    assert(a.len() == b.len());
    if a.len() == 0 {
        assert(a =~= b);
    } else {
        let x = a.last();
        assert(a.contains(x));
        assert(b.to_multiset().contains(x));
        assert(b.contains(x));
        let j = choose|j: int| 0 <= j < b.len() && b[j] == x;
        let rest = b.remove(j);
        assert(a.drop_last() =~= a.remove(a.len() - 1));
        lemma_same_items_same_count(a.drop_last(), rest, pred);
        assert(rest =~= b.take(j) + b.skip(j + 1));
        assert(b =~= b.take(j) + (seq![x] + b.skip(j + 1)));
        Seq::filter_distributes_over_add(b.take(j), b.skip(j + 1), pred);
        Seq::filter_distributes_over_add(b.take(j), seq![x] + b.skip(j + 1), pred);
        Seq::filter_distributes_over_add(seq![x], b.skip(j + 1), pred);
        lemma_filter_one(x, pred);
        assert(a =~= a.drop_last() + seq![x]);
        Seq::filter_distributes_over_add(a.drop_last(), seq![x], pred);
    }
}

/// Two sequences with the same items still have the same items when each is replaced alike.
pub proof fn lemma_same_items_mapped<A, B>(a: Seq<A>, b: Seq<A>, f: spec_fn(A) -> B)
    requires
        a.to_multiset() == b.to_multiset(),
    ensures
        a.map_values(f).to_multiset() == b.map_values(f).to_multiset(),
    decreases a.len(),
{
    broadcast use vstd::seq_lib::group_to_multiset_ensures;
    a.to_multiset_ensures();
    b.to_multiset_ensures();
    assert(a.len() == b.len());
    if a.len() == 0 {
        assert(a =~= b);
    } else {
        let x = a.last();
        let n = a.len() - 1;
        assert(a.contains(x));
        assert(b.to_multiset().contains(x));
        assert(b.contains(x));
        let j = choose|j: int| 0 <= j < b.len() && b[j] == x;
        assert(a.drop_last() =~= a.remove(n));
        lemma_same_items_mapped(a.drop_last(), b.remove(j), f);
        assert(a.map_values(f) =~= a.drop_last().map_values(f).insert(n, f(x)));
        assert(b.map_values(f) =~= b.remove(j).map_values(f).insert(j, f(x)));
        vstd::seq_lib::to_multiset_insert(a.drop_last().map_values(f), n, f(x));
        vstd::seq_lib::to_multiset_insert(b.remove(j).map_values(f), j, f(x));
    }
}

/// Filtering one item keeps it or drops it.
pub proof fn lemma_filter_one<T>(x: T, pred: spec_fn(T) -> bool)
    ensures
        seq![x].filter(pred) == if pred(x) {
            seq![x]
        } else {
            Seq::<T>::empty()
        },
{
    reveal(Seq::filter);
    let s = seq![x];
    assert(s.drop_last() =~= Seq::<T>::empty());
    assert(s.last() == x);
    assert(Seq::<T>::empty().filter(pred) =~= Seq::<T>::empty());
    if pred(x) {
        assert(Seq::<T>::empty().push(x) =~= seq![x]);
    }
}

/// What `pred` picks of a sequence with `x` in front.
pub proof fn lemma_filter_prepend<T>(s: Seq<T>, x: T, pred: spec_fn(T) -> bool)
    ensures
        (seq![x] + s).filter(pred) == if pred(x) {
            seq![x] + s.filter(pred)
        } else {
            s.filter(pred)
        },
{
    Seq::filter_distributes_over_add(seq![x], s, pred);
    lemma_filter_one(x, pred);
    assert(Seq::<T>::empty() + s.filter(pred) =~= s.filter(pred));
}

/// Filtering leaves nothing of a sequence in which nothing satisfies `pred`.
pub proof fn lemma_filter_none<T>(s: Seq<T>, pred: spec_fn(T) -> bool)
    requires
        forall|i: int| 0 <= i < s.len() ==> !pred(#[trigger] s[i]),
    ensures
        s.filter(pred) == Seq::<T>::empty(),
    decreases s.len(),
{
    reveal(Seq::filter);
    if s.len() > 0 {
        lemma_filter_none(s.drop_last(), pred);
    }
}

/// Filtering keeps a sequence in which everything satisfies `pred`.
pub proof fn lemma_filter_all<T>(s: Seq<T>, pred: spec_fn(T) -> bool)
    requires
        forall|i: int| 0 <= i < s.len() ==> pred(#[trigger] s[i]),
    ensures
        s.filter(pred) == s,
    decreases s.len(),
{
    reveal(Seq::filter);
    if s.len() > 0 {
        lemma_filter_all(s.drop_last(), pred);
        assert(s =~= s.drop_last().push(s.last()));
    } else {
        assert(s.filter(pred) =~= s);
    }
}

/// A sequence that is in order is its own stable sort, and its only one.
pub proof fn ordered_input_is_unchanged<T>(
    input: Seq<T>,
    output: Seq<T>,
    rel: spec_fn(T, T) -> bool,
)
    requires
        total_preorder(rel),
        ordered_by(input, rel),
        stable_sort_of(input, output, rel),
    ensures
        output == input,
    decreases input.len(),
{
    broadcast use vstd::seq_lib::group_to_multiset_ensures;
    input.to_multiset_ensures();
    output.to_multiset_ensures();
    assert(input.len() == output.len());
    if input.len() > 0 {
        let x = output.last();
        let y = input.last();
        let n = input.len() - 1;
        assert(rel(x, x) && rel(y, y));
        assert(output.contains(x));
        assert(input.to_multiset().contains(x));
        assert(rel(x, y)) by {
            let i = choose|i: int| 0 <= i < input.len() && input[i] == x;
            if i < n {
                assert(rel(input[i], input[n]));
            }
        }
        assert(input.contains(y));
        assert(output.to_multiset().contains(y));
        assert(rel(y, x)) by {
            let i = choose|i: int| 0 <= i < output.len() && output[i] == y;
            if i < n {
                assert(rel(output[i], output[n]));
            }
        }
        let class = ties_with(y, rel);
        assert(class(x) && class(y));
        assert(input =~= input.drop_last().push(y));
        assert(output =~= output.drop_last().push(x));
        input.drop_last().lemma_filter_push(y, class);
        output.drop_last().lemma_filter_push(x, class);
        assert(input.filter(class) == output.filter(class));
        assert(input.filter(class).last() == y);
        assert(output.filter(class).last() == x);
        assert(ordered_by(input.drop_last(), rel));
        assert(ordered_by(output.drop_last(), rel));
        assert(input.drop_last() =~= input.remove(n));
        assert(output.drop_last() =~= output.remove(n));
        assert(output.drop_last().to_multiset() =~= input.drop_last().to_multiset());
        assert forall|z: T| #[trigger]
            output.drop_last().filter(ties_with(z, rel)) == input.drop_last().filter(
            ties_with(z, rel),
        ) by {
            let pred = ties_with(z, rel);
            input.drop_last().lemma_filter_push(x, pred);
            output.drop_last().lemma_filter_push(x, pred);
            assert(input.filter(pred) == output.filter(pred));
            if pred(x) {
                assert(input.filter(pred).drop_last() =~= input.drop_last().filter(pred));
                assert(output.filter(pred).drop_last() =~= output.drop_last().filter(pred));
            }
        }
        ordered_input_is_unchanged(input.drop_last(), output.drop_last(), rel);
    } else {
        assert(output =~= input);
    }
}

/// A sequence has only one stable sort.
pub proof fn stable_sort_is_unique<T>(
    input: Seq<T>,
    one: Seq<T>,
    other: Seq<T>,
    rel: spec_fn(T, T) -> bool,
)
    requires
        total_preorder(rel),
        stable_sort_of(input, one, rel),
        stable_sort_of(input, other, rel),
    ensures
        one == other,
{
    assert forall|x: T| #[trigger]
        other.filter(ties_with(x, rel)) == one.filter(ties_with(x, rel)) by {
        assert(one.filter(ties_with(x, rel)) == input.filter(ties_with(x, rel)));
    }
    ordered_input_is_unchanged(one, other, rel);
}

/// Sorting moves items only, so that no later item comes before an earlier one, and of those that
/// tie none past another.
pub proof fn sorting_moves_items_only<T>(
    input: Seq<T>,
    output: Seq<T>,
    rel: spec_fn(T, T) -> bool,
    x: T,
)
    requires
        stable_sort_of(input, output, rel),
    ensures
        output.len() == input.len(),
        output.to_multiset() == input.to_multiset(),
        forall|i: int, j: int|
            0 <= i < j < output.len() ==> rel(#[trigger] output[i], #[trigger] output[j]),
        output.filter(|y: T| rel(x, y) && rel(y, x)) == input.filter(
            |y: T| rel(x, y) && rel(y, x),
        ),
{
    input.to_multiset_ensures();
    output.to_multiset_ensures();
    assert(ties_with(x, rel) =~= (|y: T| rel(x, y) && rel(y, x)));
    assert(output.filter(ties_with(x, rel)) == input.filter(ties_with(x, rel)));
}

/// What is sorted in two parts, and merged, is sorted.
proof fn lemma_sorted_parts<T>(
    left: Seq<T>,
    right: Seq<T>,
    left_out: Seq<T>,
    right_out: Seq<T>,
    output: Seq<T>,
    rel: spec_fn(T, T) -> bool,
)
    requires
        stable_sort_of(left, left_out, rel),
        stable_sort_of(right, right_out, rel),
        stable_sort_of(left_out + right_out, output, rel),
    ensures
        stable_sort_of(left + right, output, rel),
{
    vstd::seq_lib::lemma_multiset_commutative(left, right);
    vstd::seq_lib::lemma_multiset_commutative(left_out, right_out);
    assert forall|x: T| #[trigger]
        output.filter(ties_with(x, rel)) == (left + right).filter(ties_with(x, rel)) by {
        let pred = ties_with(x, rel);
        Seq::filter_distributes_over_add(left, right, pred);
        Seq::filter_distributes_over_add(left_out, right_out, pred);
        assert(left_out.filter(pred) == left.filter(pred));
        assert(right_out.filter(pred) == right.filter(pred));
        assert(output.filter(pred) == (left_out + right_out).filter(pred));
    }
}

/// How far a merge has got: `merged` is in order and nothing that is left comes before any of
/// it, and of every class of ties, those merged, those left on the left and those left on the
/// right stand in the order of the input.
spec fn merging<T>(
    input: Seq<T>,
    merged: Seq<T>,
    left: Seq<T>,
    right: Seq<T>,
    rel: spec_fn(T, T) -> bool,
) -> bool {
    &&& ordered_by(merged, rel)
    &&& ordered_by(left, rel)
    &&& ordered_by(right, rel)
    &&& forall|i: int, j: int|
        0 <= i < merged.len() && 0 <= j < left.len() ==> rel(
            #[trigger] merged[i],
            #[trigger] left[j],
        )
    &&& forall|i: int, j: int|
        0 <= i < merged.len() && 0 <= j < right.len() ==> rel(
            #[trigger] merged[i],
            #[trigger] right[j],
        )
    &&& (merged + left + right).to_multiset() == input.to_multiset()
    &&& forall|x: T| #[trigger]
        input.filter(ties_with(x, rel)) == (merged + left + right).filter(ties_with(x, rel))
}

/// Taking the first item from the left keeps a merge going, if it does not come after the first
/// one on the right.
proof fn lemma_take_left<T>(
    input: Seq<T>,
    merged: Seq<T>,
    left: Seq<T>,
    right: Seq<T>,
    rel: spec_fn(T, T) -> bool,
)
    requires
        total_preorder(rel),
        merging(input, merged, left, right, rel),
        left.len() > 0,
        right.len() > 0 ==> rel(left[0], right[0]),
    ensures
        merging(input, merged.push(left[0]), left.skip(1), right, rel),
{
    let next = merged.push(left[0]);
    let rest = left.skip(1);
    assert(next + rest + right =~= merged + left + right);
    assert forall|i: int, j: int| 0 <= i < next.len() && 0 <= j < rest.len() implies rel(
        #[trigger] next[i],
        #[trigger] rest[j],
    ) by {
        assert(rest[j] == left[j + 1]);
        if i < merged.len() {
            assert(rel(merged[i], left[j + 1]));
        } else {
            assert(rel(left[0], left[j + 1]));
        }
    }
    assert forall|i: int, j: int| 0 <= i < next.len() && 0 <= j < right.len() implies rel(
        #[trigger] next[i],
        #[trigger] right[j],
    ) by {
        if i < merged.len() {
            assert(rel(merged[i], right[j]));
        } else if j > 0 {
            assert(rel(right[0], right[j]));
        }
    }
}

/// Taking the first item from the right keeps a merge going, if it comes before all that is left
/// on the left.
proof fn lemma_take_right<T>(
    input: Seq<T>,
    merged: Seq<T>,
    left: Seq<T>,
    right: Seq<T>,
    rel: spec_fn(T, T) -> bool,
)
    requires
        total_preorder(rel),
        merging(input, merged, left, right, rel),
        right.len() > 0,
        left.len() > 0 ==> !rel(left[0], right[0]),
    ensures
        merging(input, merged.push(right[0]), left, right.skip(1), rel),
{
    broadcast use vstd::seq_lib::group_to_multiset_ensures;
    let x = right[0];
    let next = merged.push(x);
    let rest = right.skip(1);
    assert forall|j: int| 0 <= j < left.len() implies !rel(#[trigger] left[j], x) by {
        if j > 0 {
            assert(rel(left[0], left[j]));
        }
    }
    assert forall|i: int, j: int| 0 <= i < next.len() && 0 <= j < rest.len() implies rel(
        #[trigger] next[i],
        #[trigger] rest[j],
    ) by {
        assert(rest[j] == right[j + 1]);
        if i < merged.len() {
            assert(rel(merged[i], right[j + 1]));
        } else {
            assert(rel(right[0], right[j + 1]));
        }
    }
    assert forall|i: int, j: int| 0 <= i < next.len() && 0 <= j < left.len() implies rel(
        #[trigger] next[i],
        #[trigger] left[j],
    ) by {
        if i < merged.len() {
            assert(rel(merged[i], left[j]));
        }
    }
    let before = merged + left + right;
    let after = next + left + rest;
    let bare = merged + left + rest;
    assert(before =~= bare.insert((merged.len() + left.len()) as int, x));
    assert(after =~= bare.insert(merged.len() as int, x));
    vstd::seq_lib::to_multiset_insert(bare, (merged.len() + left.len()) as int, x);
    vstd::seq_lib::to_multiset_insert(bare, merged.len() as int, x);
    assert forall|y: T| #[trigger]
        input.filter(ties_with(y, rel)) == after.filter(ties_with(y, rel)) by {
        let pred = ties_with(y, rel);
        assert(before =~= merged + (left + (seq![x] + rest)));
        assert(after =~= merged + (seq![x] + (left + rest)));
        Seq::filter_distributes_over_add(merged, left + (seq![x] + rest), pred);
        Seq::filter_distributes_over_add(merged, seq![x] + (left + rest), pred);
        Seq::filter_distributes_over_add(left, seq![x] + rest, pred);
        Seq::filter_distributes_over_add(left, rest, pred);
        lemma_filter_prepend(rest, x, pred);
        lemma_filter_prepend(left + rest, x, pred);
        if pred(x) {
            assert forall|j: int| 0 <= j < left.len() implies !pred(#[trigger] left[j]) by {
                if pred(left[j]) {
                    assert(rel(left[j], y) && rel(y, x));
                }
            }
            lemma_filter_none(left, pred);
        }
        assert(input.filter(pred) == before.filter(pred));
        assert(before.filter(pred) =~= after.filter(pred));
    }
}

/// `x` was compared with some item by `le`.
pub open spec fn was_compared<T, F: Fn(&T, &T) -> bool>(le: F, x: T) -> bool {
    exists|a: &T, b: &T, r: bool| #[trigger] call_ensures(le, (a, b), r) && (*a == x || *b == x)
}

/// Merges two sorted runs; of items that tie, those of `left` come first.
fn merge<T, F: Fn(&T, &T) -> bool>(
    left: VecDeque<T>,
    right: VecDeque<T>,
    le: F,
    Ghost(rel): Ghost<spec_fn(T, T) -> bool>,
) -> (merged: VecDeque<T>)
    requires
        total_preorder(rel),
        ordered_by(left@, rel),
        ordered_by(right@, rel),
        forall|a: &T, b: &T| #[trigger] call_requires(le, (a, b)),
        forall|a: &T, b: &T, r: bool| #[trigger] call_ensures(le, (a, b), r) ==> r == rel(*a, *b),
    ensures
        stable_sort_of(left@ + right@, merged@, rel),
        left@.len() > 0 && right@.len() > 0 ==> was_compared(le, left@[0]) && was_compared(
            le,
            right@[0],
        ),
{
    let ghost left_run = left@;
    let ghost right_run = right@;
    let ghost input = left@ + right@;
    let mut left: VecDeque<T> = left;
    let mut right: VecDeque<T> = right;
    let mut merged: VecDeque<T> = VecDeque::new();
    assert(merged@ + left@ + right@ =~= input);
    while left.len() > 0 || right.len() > 0
        invariant
            total_preorder(rel),
            forall|a: &T, b: &T| #[trigger] call_requires(le, (a, b)),
            forall|a: &T, b: &T, r: bool| #[trigger]
                call_ensures(le, (a, b), r) ==> r == rel(*a, *b),
            merging(input, merged@, left@, right@, rel),
            merged@.len() == 0 ==> left@ == left_run && right@ == right_run,
            merged@.len() > 0 && left_run.len() > 0 && right_run.len() > 0 ==> was_compared(
                le,
                left_run[0],
            ) && was_compared(le, right_run[0]),
        decreases left@.len() + right@.len(),
    {
        let ghost one = left@;
        let ghost other = right@;
        let ghost before = merged@;
        let from_left = right.len() == 0 || (left.len() > 0 && le(&left[0], &right[0]));
        if from_left {
            if let Some(item) = left.pop_front() {
                merged.push_back(item);
            }
            proof {
                lemma_take_left(input, before, one, other, rel);
                assert(left@ =~= one.skip(1));
                assert(merged@ =~= before.push(one[0]));
            }
        } else {
            if let Some(item) = right.pop_front() {
                merged.push_back(item);
            }
            proof {
                lemma_take_right(input, before, one, other, rel);
                assert(right@ =~= other.skip(1));
                assert(merged@ =~= before.push(other[0]));
            }
        }
    }
    assert(merged@ + left@ + right@ =~= merged@);
    merged
}

/// Sorts a run by `le`; items that tie keep their order.
fn sort_run<T, F: Fn(&T, &T) -> bool + Copy>(
    items: VecDeque<T>,
    le: F,
    Ghost(rel): Ghost<spec_fn(T, T) -> bool>,
) -> (sorted: VecDeque<T>)
    requires
        total_preorder(rel),
        forall|a: &T, b: &T| #[trigger] call_requires(le, (a, b)),
        forall|a: &T, b: &T, r: bool| #[trigger] call_ensures(le, (a, b), r) ==> r == rel(*a, *b),
    ensures
        stable_sort_of(items@, sorted@, rel),
        items@.len() < 2 ==> sorted@ == items@,
        items@.len() >= 2 ==> forall|i: int|
            0 <= i < items@.len() ==> was_compared(le, #[trigger] items@[i]),
    decreases items@.len(),
{
    let n: usize = items.len();
    if n < 2 {
        return items;
    }
    let mut left: VecDeque<T> = items;
    let right = left.split_off(n / 2);
    let ghost one = left@;
    let ghost other = right@;
    assert(one + other =~= items@);
    let left_out = sort_run(left, le, Ghost(rel));
    let right_out = sort_run(right, le, Ghost(rel));
    let sorted = merge(left_out, right_out, le, Ghost(rel));
    proof {
        lemma_sorted_parts(one, other, left_out@, right_out@, sorted@, rel);
        left_out@.to_multiset_ensures();
        right_out@.to_multiset_ensures();
        one.to_multiset_ensures();
        other.to_multiset_ensures();
        assert forall|i: int| 0 <= i < items@.len() implies was_compared(
            le,
            #[trigger] items@[i],
        ) by {
            if i < one.len() {
                assert(items@[i] == one[i]);
            } else {
                assert(items@[i] == other[i - one.len()]);
            }
        }
    }
    sorted
}

/// Sorts `items` by `le`; items that tie keep their order.
pub(crate) fn stable_sort<T, F: Fn(&T, &T) -> bool + Copy>(
    items: Vec<T>,
    le: F,
    Ghost(rel): Ghost<spec_fn(T, T) -> bool>,
) -> (sorted: Vec<T>)
    requires
        total_preorder(rel),
        forall|a: &T, b: &T| #[trigger] call_requires(le, (a, b)),
        forall|a: &T, b: &T, r: bool| #[trigger] call_ensures(le, (a, b), r) ==> r == rel(*a, *b),
    ensures
        stable_sort_of(items@, sorted@, rel),
        items@.len() >= 2 ==> forall|i: int|
            0 <= i < items@.len() ==> was_compared(le, #[trigger] items@[i]),
{
    let mut rest: Vec<T> = items;
    let mut run: VecDeque<T> = VecDeque::new();
    assert(rest@ + run@ =~= items@);
    while rest.len() > 0
        invariant
            rest@ + run@ == items@,
        decreases rest@.len(),
    {
        let ghost before = rest@ + run@;
        if let Some(item) = rest.pop() {
            run.push_front(item);
        }
        assert(rest@ + run@ =~= before);
    }
    assert(run@ =~= items@);
    let mut queue = sort_run(run, le, Ghost(rel));
    let ghost all = queue@;
    let mut sorted: Vec<T> = Vec::new();
    assert(sorted@ + queue@ =~= all);
    while queue.len() > 0
        invariant
            sorted@ + queue@ == all,
        decreases queue@.len(),
    {
        let ghost before = sorted@ + queue@;
        if let Some(item) = queue.pop_front() {
            sorted.push(item);
        }
        assert(sorted@ + queue@ =~= before);
    }
    assert(sorted@ =~= all);
    sorted
}

} // verus!
