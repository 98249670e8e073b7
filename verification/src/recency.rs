//! Recency orders: sequences of page numbers, least recently used first,
//! and what filtering does to them.

use vstd::prelude::*;

verus! {

/// The test that every page number but `id` passes.
pub open spec fn other_than(id: usize) -> spec_fn(usize) -> bool {
    |x: usize| x != id
}

/// The test that the page numbers outside `gone` pass.
pub open spec fn none_of(gone: Seq<usize>) -> spec_fn(usize) -> bool {
    |x: usize| !gone.contains(x)
}

/// `order` with `id` taken out; the others keep their places among themselves.
pub open spec fn without(order: Seq<usize>, id: usize) -> Seq<usize> {
    order.filter(other_than(id))
}

/// `order` with every member of `gone` taken out.
pub open spec fn without_all(order: Seq<usize>, gone: Seq<usize>) -> Seq<usize> {
    order.filter(none_of(gone))
}

/// `order` after `id` was used: `id` is now the most recent.
pub open spec fn promote(order: Seq<usize>, id: usize) -> Seq<usize> {
    without(order, id).push(id)
}

/// A filter that every element passes changes nothing.
pub proof fn lemma_filter_keeps_all<A>(s: Seq<A>, keep: spec_fn(A) -> bool)
    requires
        forall|i: int| 0 <= i < s.len() ==> keep(#[trigger] s[i]),
    ensures
        s.filter(keep) == s,
    decreases s.len(),
{
    reveal(Seq::filter);
    if s.len() > 0 {
        lemma_filter_keeps_all(s.drop_last(), keep);
        assert(s.drop_last().push(s.last()) =~= s);
    }
}

/// A filter that no element passes leaves nothing.
pub proof fn lemma_filter_drops_all<A>(s: Seq<A>, keep: spec_fn(A) -> bool)
    requires
        forall|i: int| 0 <= i < s.len() ==> !keep(#[trigger] s[i]),
    ensures
        s.filter(keep) == Seq::<A>::empty(),
    decreases s.len(),
{
    reveal(Seq::filter);
    if s.len() > 0 {
        lemma_filter_drops_all(s.drop_last(), keep);
    } else {
        assert(s =~= Seq::<A>::empty());
    }
}

/// Two filters that agree on every element of a sequence select the same.
pub proof fn lemma_filter_agree<A>(s: Seq<A>, p: spec_fn(A) -> bool, q: spec_fn(A) -> bool)
    requires
        forall|i: int| 0 <= i < s.len() ==> p(#[trigger] s[i]) == q(s[i]),
    ensures
        s.filter(p) == s.filter(q),
    decreases s.len(),
{
    reveal(Seq::filter);
    if s.len() > 0 {
        lemma_filter_agree(s.drop_last(), p, q);
    }
}

/// What a filter selects: the elements of the sequence that pass it.
pub proof fn lemma_filter_member<A>(s: Seq<A>, keep: spec_fn(A) -> bool, x: A)
    ensures
        s.filter(keep).contains(x) <==> s.contains(x) && keep(x),
    decreases s.len(),
{
    reveal(Seq::filter);
    if s.len() > 0 {
        let front = s.drop_last();
        lemma_filter_member(front, keep, x);
        if s.filter(keep).contains(x) {
            let j = choose|j: int| 0 <= j < s.filter(keep).len() && s.filter(keep)[j] == x;
            if keep(s.last()) && j == front.filter(keep).len() {
                assert(s[s.len() - 1] == x);
            } else {
                assert(front.filter(keep)[j] == x);
                let k = choose|k: int| 0 <= k < front.len() && front[k] == x;
                assert(s[k] == x);
            }
        }
        if s.contains(x) && keep(x) {
            let k = choose|k: int| 0 <= k < s.len() && s[k] == x;
            if k == s.len() - 1 {
                assert(s.filter(keep)[s.filter(keep).len() - 1] == x);
            } else {
                assert(front[k] == x);
                let j = choose|j: int| 0 <= j < front.filter(keep).len() && front.filter(keep)[j] == x;
                assert(s.filter(keep)[j] == x);
            }
        }
    }
}

/// Filtering brings in no duplicates.
pub proof fn lemma_filter_no_duplicates<A>(s: Seq<A>, keep: spec_fn(A) -> bool)
    requires
        s.no_duplicates(),
    ensures
        s.filter(keep).no_duplicates(),
    decreases s.len(),
{
    reveal(Seq::filter);
    if s.len() > 0 {
        let front = s.drop_last();
        lemma_filter_no_duplicates(front, keep);
        lemma_filter_member(front, keep, s.last());
        if front.contains(s.last()) {
            let k = choose|k: int| 0 <= k < front.len() && front[k] == s.last();
            assert(s[k] == s[s.len() - 1]);
        }
    }
}

/// Filtering twice is filtering once by both tests.
pub proof fn lemma_filter_twice<A>(
    s: Seq<A>,
    p: spec_fn(A) -> bool,
    q: spec_fn(A) -> bool,
    both: spec_fn(A) -> bool,
)
    requires
        forall|x: A| #[trigger] both(x) == (p(x) && q(x)),
    ensures
        s.filter(p).filter(q) == s.filter(both),
    decreases s.len(),
{
    reveal(Seq::filter);
    if s.len() > 0 {
        let front = s.drop_last();
        lemma_filter_twice(front, p, q, both);
        if p(s.last()) {
            Seq::lemma_filter_push(front.filter(p), s.last(), q);
        }
    }
}

/// Taking out one more page number, after some or together with them, gives
/// the same.
pub proof fn lemma_without_one_more(order: Seq<usize>, gone: Seq<usize>, id: usize)
    ensures
        without(without_all(order, gone), id) == without_all(order, gone.push(id)),
{
    assert forall|x: usize| #[trigger]
        none_of(gone.push(id))(x) == (none_of(gone)(x) && other_than(id)(x)) by {
        if gone.push(id).contains(x) {
            let j = choose|j: int| 0 <= j < gone.push(id).len() && gone.push(id)[j] == x;
            if j < gone.len() {
                assert(gone[j] == x);
            }
        }
        if gone.contains(x) {
            let j = choose|j: int| 0 <= j < gone.len() && gone[j] == x;
            assert(gone.push(id)[j] == x);
        }
        if x == id {
            assert(gone.push(id)[gone.len() as int] == x);
        }
    }
    lemma_filter_twice(order, none_of(gone), other_than(id), none_of(gone.push(id)));
}

/// Taking out page numbers that are all there, each named once, shortens
/// the order by their number.
pub proof fn lemma_without_all_len(order: Seq<usize>, gone: Seq<usize>)
    requires
        order.no_duplicates(),
        gone.no_duplicates(),
        forall|i: int| 0 <= i < gone.len() ==> order.contains(#[trigger] gone[i]),
    ensures
        without_all(order, gone).len() == order.len() - gone.len(),
    decreases gone.len(),
{
    if gone.len() == 0 {
        lemma_filter_keeps_all(order, none_of(gone));
    } else {
        let before = gone.drop_last();
        let id = gone.last();
        let rest = without_all(order, before);
        assert forall|i: int| 0 <= i < before.len() implies order.contains(
            #[trigger] before[i],
        ) by {
            assert(before[i] == gone[i]);
        }
        lemma_without_all_len(order, before);
        lemma_filter_no_duplicates(order, none_of(before));
        lemma_filter_member(order, none_of(before), id);
        if before.contains(id) {
            let j = choose|j: int| 0 <= j < before.len() && before[j] == id;
            assert(gone[j] == gone[gone.len() - 1]);
        }
        let at = choose|at: int| 0 <= at < rest.len() && rest[at] == id;
        lemma_remove_is_without(rest, at);
        lemma_without_one_more(order, before, id);
        assert(before.push(id) =~= gone);
    }
}

/// Taking out a page number that is not there changes nothing.
pub proof fn lemma_without_absent(order: Seq<usize>, id: usize)
    requires
        !order.contains(id),
    ensures
        without(order, id) == order,
{
    lemma_filter_keeps_all(order, other_than(id));
}

/// Taking one element out of a sequence without duplicates, by its place
/// or by its value, gives the same.
pub proof fn lemma_remove_is_without(order: Seq<usize>, i: int)
    requires
        order.no_duplicates(),
        0 <= i < order.len(),
    ensures
        order.remove(i) == without(order, order[i]),
{
    let id = order[i];
    let keep = other_than(id);
    let head = order.take(i);
    let tail = order.skip(i + 1);
    assert(order =~= head + seq![id] + tail);
    Seq::filter_distributes_over_add(head + seq![id], tail, keep);
    Seq::filter_distributes_over_add(head, seq![id], keep);
    lemma_filter_keeps_all(head, keep);
    lemma_filter_keeps_all(tail, keep);
    lemma_filter_drops_all(seq![id], keep);
    assert(order.remove(i) =~= head + tail);
    assert(head + Seq::<usize>::empty() + tail =~= head + tail);
}

} // verus!
