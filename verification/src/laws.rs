use vstd::multiset::{lemma_multiset_empty_len, Multiset};
use crate::order::le;
use vstd::prelude::*;

verus! {

/// What a successful `pop` does to the contents: `e` is one of the pairs,
/// none has a lower priority, and `after` is `before` without it.
pub open spec fn is_pop<T, P: Ord>(before: Multiset<(T, P)>, e: (T, P), after: Multiset<(T, P)>) -> bool {
    &&& before.count(e) > 0
    &&& forall|x: (T, P)| #[trigger] before.count(x) > 0 ==> le(e.1, x.1)
    &&& after == before.remove(e)
}

/// `popped` is what repeated successful pops hand out, in order, until
/// nothing is left of `contents`.
pub open spec fn drains<T, P: Ord>(contents: Multiset<(T, P)>, popped: Seq<(T, P)>) -> bool
    decreases popped.len(),
{
    if popped.len() == 0 {
        contents.len() == 0
    } else {
        is_pop(contents, popped[0], contents.remove(popped[0])) && drains(
            contents.remove(popped[0]),
            popped.drop_first(),
        )
    }
}

/// The contents after the pairs of `pushed` have been pushed, in order,
/// onto `contents`.
pub open spec fn filled<T, P: Ord>(contents: Multiset<(T, P)>, pushed: Seq<(T, P)>) -> Multiset<
    (T, P),
>
    decreases pushed.len(),
{
    if pushed.len() == 0 {
        contents
    } else {
        filled(contents.insert(pushed[0]), pushed.drop_first())
    }
}

/// Of two pops in a row, the second does not return a lower priority than
/// the first.
pub proof fn lemma_pops_ascend<T, P: Ord>(
    a: Multiset<(T, P)>,
    e1: (T, P),
    b: Multiset<(T, P)>,
    e2: (T, P),
    c: Multiset<(T, P)>,
)
    requires
        is_pop(a, e1, b),
        is_pop(b, e2, c),
    ensures
        le(e1.1, e2.1),
{
    assert(a.count(e2) > 0);
}

/// A pop takes exactly one pair out.
pub proof fn lemma_pop_len<T, P: Ord>(a: Multiset<(T, P)>, e: (T, P), b: Multiset<(T, P)>)
    requires
        is_pop(a, e, b),
    ensures
        b.len() == a.len() - 1,
{
}

/// Whatever a later pop returns was in the contents before.
proof fn lemma_drains_member<T, P: Ord>(contents: Multiset<(T, P)>, popped: Seq<(T, P)>, j: int)
    requires
        drains(contents, popped),
        0 <= j < popped.len(),
    ensures
        contents.count(popped[j]) > 0,
    decreases popped.len(),
{
    if j > 0 {
        lemma_drains_member(contents.remove(popped[0]), popped.drop_first(), j - 1);
        assert(popped.drop_first()[j - 1] == popped[j]);
    }
}

/// Repeated pops return priorities that never go down.
pub proof fn lemma_drains_ascending<T, P: Ord>(contents: Multiset<(T, P)>, popped: Seq<(T, P)>)
    requires
        drains(contents, popped),
    ensures
        forall|i: int, j: int| 0 <= i < j < popped.len() ==> le(popped[i].1, popped[j].1),
    decreases popped.len(),
{
    if popped.len() > 0 {
        let rest = popped.drop_first();
        lemma_drains_ascending(contents.remove(popped[0]), rest);
        assert forall|i: int, j: int| 0 <= i < j < popped.len() implies le(
            popped[i].1,
            popped[j].1,
        ) by {
            if i == 0 {
                lemma_drains_member(contents, popped, j);
            } else {
                assert(rest[i - 1] == popped[i]);
                assert(rest[j - 1] == popped[j]);
            }
        }
    }
}

/// As many pops succeed as the contents count pairs.
pub proof fn lemma_drains_len<T, P: Ord>(contents: Multiset<(T, P)>, popped: Seq<(T, P)>)
    requires
        drains(contents, popped),
    ensures
        popped.len() == contents.len(),
    decreases popped.len(),
{
    if popped.len() > 0 {
        lemma_drains_len(contents.remove(popped[0]), popped.drop_first());
    }
}

/// Repeated pops return exactly the contents, each pair as often as it
/// was held.
pub proof fn lemma_drains_all<T, P: Ord>(contents: Multiset<(T, P)>, popped: Seq<(T, P)>)
    requires
        drains(contents, popped),
    ensures
        popped.to_multiset() =~= contents,
    decreases popped.len(),
{
    broadcast use vstd::seq_lib::group_to_multiset_ensures;

    if popped.len() == 0 {
        lemma_multiset_empty_len(contents);
    } else {
        let rest = popped.drop_first();
        lemma_drains_all(contents.remove(popped[0]), rest);
        assert(popped =~= seq![popped[0]] + rest);
        lemma_front(popped);
    }
}

/// The pairs of a list are its first pair and those of the rest.
proof fn lemma_front<T, P: Ord>(s: Seq<(T, P)>)
    requires
        s.len() > 0,
    ensures
        s.to_multiset() =~= s.drop_first().to_multiset().insert(s[0]),
{
    broadcast use vstd::seq_lib::group_to_multiset_ensures;

    assert(s.remove(0) =~= s.drop_first());
    assert(s.to_multiset().count(s[0]) > 0) by {
        assert(s.contains(s[0]));
    }
}

/// Pushing a list of pairs adds exactly its pairs.
pub proof fn lemma_filled<T, P: Ord>(contents: Multiset<(T, P)>, pushed: Seq<(T, P)>)
    ensures
        filled(contents, pushed) =~= contents.add(pushed.to_multiset()),
    decreases pushed.len(),
{
    broadcast use vstd::seq_lib::group_to_multiset_ensures;

    if pushed.len() == 0 {
        assert(pushed.to_multiset().len() == 0);
        lemma_multiset_empty_len(pushed.to_multiset());
    } else {
        lemma_filled(contents.insert(pushed[0]), pushed.drop_first());
        lemma_front(pushed);
    }
}

/// Round trip: what is pushed onto an empty queue and then popped until
/// nothing is left comes back, pair for pair, in ascending priority.
pub proof fn lemma_round_trip<T, P: Ord>(pushed: Seq<(T, P)>, popped: Seq<(T, P)>)
    requires
        drains(filled(Multiset::empty(), pushed), popped),
    ensures
        popped.to_multiset() =~= pushed.to_multiset(),
        popped.len() == pushed.len(),
        forall|i: int, j: int| 0 <= i < j < popped.len() ==> le(popped[i].1, popped[j].1),
{
    broadcast use vstd::seq_lib::group_to_multiset_ensures;

    let m = filled(Multiset::empty(), pushed);
    lemma_filled(Multiset::empty(), pushed);
    lemma_drains_all(m, popped);
    lemma_drains_ascending(m, popped);
    lemma_drains_len(m, popped);
    assert(m =~= pushed.to_multiset());
}

} // verus!
