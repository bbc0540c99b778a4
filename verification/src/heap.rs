use crate::error::Error;
use crate::forest::{
    bag, chain_ok, entries, first_ok, free_ok, lemma_bag_at, lemma_bag_member, lemma_fresh,
    keeps_roots, lemma_keeps_roots, lemma_same_links, links_ok, live, nd, node_ok, paths_ok,
    paths_with, roots_ok, same_links, same_node, with_node, Forest,
};
use crate::laws::is_pop;
use crate::order::{le, lower, lt, ordered};
use crate::node::{eq_is_specified, same_value, NCore, NPrpt, NodeView};
use crate::search::{holds, lemma_search_roots, search};
use crate::surgery::{
    detached, lemma_detach, lemma_link, lemma_lower, lemma_parent_apart,
    lemma_push_fresh, lemma_release, lemma_without, linked, paths_cut, paths_under, rootlike,
    without,
};
use vstd::multiset::{lemma_multiset_empty_len, Multiset};
use vstd::prelude::*;

verus! {

/// The arena of a queue as plain values.
pub open spec fn forest_of<T: PartialEq, P: Ord>(nodes: Seq<Option<NCore<T, P>>>) -> Forest<T, P> {
    Seq::new(
        nodes.len(),
        |i: int|
            match nodes[i] {
                Some(n) => Some(n.model()),
                None => None,
            },
    )
}

/// The whole part of the logarithm of `n` to base 4; 0 for `n` below 4.
pub open spec fn log4(n: nat) -> nat
    decreases n,
{
    if n < 4 {
        0
    } else {
        1 + log4(n / 4)
    }
}

/// Whether the rank bound of a queue of `n` nodes can be computed: the
/// cube of `n` has to fit the counter.
pub open spec fn rank_bound_fits(n: nat) -> bool {
    n * n * n <= usize::MAX
}

/// A bound on the rank of any node in a queue of `n` nodes, loose on
/// purpose: one more than the logarithm to base 4 of the cube of `n`.
pub open spec fn rank_bound(n: nat) -> nat {
    if n == 0 {
        0
    } else {
        log4(n * n * n) + 1
    }
}

/// The arena with the mark of the node at `h` set to `marked`.
pub open spec fn with_mark<T, P: Ord>(f: Forest<T, P>, h: usize, marked: bool) -> Forest<T, P> {
    f.update(h as int, Some(NodeView { marked, ..nd(f, h) }))
}

/// The arena after a cascading cut at `node`, which has `depth` nodes on
/// its chain of ancestors, itself included. A node with a parent is
/// detached and unmarked; its parent, if unmarked, is marked, and
/// otherwise is cut in turn.
pub open spec fn after_cut<T, P: Ord>(f: Forest<T, P>, node: usize, depth: nat) -> Forest<T, P>
    decreases depth,
{
    if depth == 0 {
        f
    } else {
        match nd(f, node).parent {
            None => f,
            Some(parent) => {
                let g = with_mark(detached(f, node), node, false);
                if nd(f, parent).marked {
                    after_cut(g, parent, (depth - 1) as nat)
                } else {
                    with_mark(g, parent, true)
                }
            },
        }
    }
}

/// No two of the listed nodes have the same number of children.
pub open spec fn distinct_ranks<T, P: Ord>(f: Forest<T, P>, roots: Seq<usize>) -> bool {
    forall|i: int, j: int|
        0 <= i < roots.len() && 0 <= j < roots.len() && i != j ==> nd(
            f,
            #[trigger] roots[i],
        ).children.len() != nd(f, #[trigger] roots[j]).children.len()
}

/// Each bucket that is filled holds a root with as many children as the
/// bucket's index says.
pub open spec fn buckets_ok<T, P: Ord>(f: Forest<T, P>, ranks: Seq<Option<usize>>) -> bool {
    forall|r: int|
        0 <= r < ranks.len() ==> (#[trigger] ranks[r] matches Some(h) ==> rootlike(f, h) && nd(
            f,
            h,
        ).children.len() == r)
}

/// `h` sits in the bucket of its rank.
pub open spec fn in_bucket<T, P: Ord>(f: Forest<T, P>, ranks: Seq<Option<usize>>, h: usize) -> bool {
    nd(f, h).children.len() < ranks.len() && ranks[nd(f, h).children.len() as int] == Some(h)
}

/// `h` is among the roots still to be placed, those from index `i` on.
pub open spec fn waiting(pending: Seq<usize>, i: int, h: usize) -> bool {
    exists|k: int| i <= k < pending.len() && pending[k] == h
}

/// `h` is among the roots that have been placed, those before index `i`.
pub open spec fn placed(pending: Seq<usize>, i: int, h: usize) -> bool {
    exists|k: int| 0 <= k < i && pending[k] == h
}

/// Every bucket that is filled holds a root that has been placed.
pub open spec fn buckets_placed(ranks: Seq<Option<usize>>, pending: Seq<usize>, i: int) -> bool {
    forall|r: int|
        0 <= r < ranks.len() ==> (#[trigger] ranks[r] matches Some(h) ==> placed(pending, i, h))
}

/// Fibonacci queue for values that need no more than `==`, with
/// priorities of any totally ordered type; a lower priority leaves first.
///
/// The nodes live in an arena and know each other by their handles, the
/// indices of their slots. A slot that `pop` has emptied is used again by a
/// later `push`.
pub struct BareQueue<T, P> {
    /// the arena: slot `h` holds the node with handle `h`
    nodes: Vec<Option<NCore<T, P>>>,
    /// the empty slots of the arena
    free: Vec<usize>,
    /// list of roots
    roots: Vec<usize>,
    /// handle of the node with the lowest priority, if such exists
    first: Option<usize>,
    /// number of nodes in the queue
    node_count: usize,
    /// for each node, its ancestors from the root of its tree down to itself
    paths: Ghost<spec_fn(usize) -> Seq<usize>>,
}

impl<T: PartialEq, P: Ord> View for BareQueue<T, P> {
    type V = Multiset<(T, P)>;

    /// The (value, priority) pairs in the queue.
    closed spec fn view(&self) -> Multiset<(T, P)> {
        bag(entries(self.forest()))
    }
}

impl<T: PartialEq, P: Ord> Default for BareQueue<T, P> {
    fn default() -> (q: Self)
        ensures
            ordered::<P>() ==> q.wf(),
            q@ == Multiset::<(T, P)>::empty(),
    {
        Self::new()
    }
}

impl<T: PartialEq, P: Ord> BareQueue<T, P> {
    /// The arena as plain values.
    pub closed spec fn forest(&self) -> Forest<T, P> {
        forest_of(self.nodes@)
    }

    /// The links form a forest in heap order, and the counter counts its
    /// nodes.
    pub closed spec fn structure_ok(&self) -> bool {
        &&& links_ok(self.forest())
        &&& paths_ok(self.forest(), self.paths@)
        &&& free_ok(self.forest(), self.free@)
        &&& self.node_count == self@.len()
    }

    /// The queue is in order: a forest in heap order, whose roots are listed
    /// and whose least root is known.
    pub closed spec fn wf(&self) -> bool {
        &&& self.structure_ok()
        &&& roots_ok(self.forest(), self.roots@)
        &&& first_ok(self.forest(), self.roots@, self.first)
    }

    /// No two roots have the same number of children: the state in which a
    /// consolidation leaves the forest.
    pub closed spec fn settled(&self) -> bool {
        distinct_ranks(self.forest(), self.roots@)
    }

    /// The number that the node counter holds.
    pub closed spec fn counted(&self) -> nat {
        self.node_count as nat
    }

    /// The node counter counts the pairs of the queue.
    pub proof fn lemma_counted(&self)
        requires
            self.wf(),
        ensures
            self.counted() == self@.len(),
    {
    }

    /* # helper functions */
    /* ## node count functions */
    fn increment_node_count(&mut self) -> (r: Result<(), Error>)
        ensures
            match r {
                Ok(()) => old(self).node_count < usize::MAX && *final(self) == (BareQueue {
                    node_count: (old(self).node_count + 1) as usize,
                    ..*old(self)
                }),
                Err(e) => e == Error::ReachedCapacity && old(self).node_count == usize::MAX
                    && *final(self) == *old(self),
            },
    {
        if self.node_count == usize::MAX {
            return Err(Error::ReachedCapacity);
        }
        self.node_count = self.node_count + 1;
        Ok(())
    }

    fn decrement_node_count(&mut self) -> (r: Result<(), Error>)
        ensures
            match r {
                Ok(()) => old(self).node_count > 0 && *final(self) == (BareQueue {
                    node_count: (old(self).node_count - 1) as usize,
                    ..*old(self)
                }),
                Err(e) => e == Error::Empty && old(self).node_count == 0 && *final(self) == *old(self),
            },
    {
        if self.node_count == 0 {
            return Err(Error::Empty);
        }
        self.node_count = self.node_count - 1;
        Ok(())
    }

    /// The rank bound of a queue of `node_count` nodes.
    ///
    /// # Errors
    /// `Numerical` where the cube of `node_count` does not fit the counter.
    pub fn max_node_rank(node_count: usize) -> (r: Result<usize, Error>)
        ensures
            match r {
                Ok(k) => rank_bound_fits(node_count as nat) && k == rank_bound(node_count as nat),
                Err(e) => e == Error::Numerical && !rank_bound_fits(node_count as nat),
            },
    {
        if node_count == 0 {
            return Ok(0);
        }
        let square: usize = match node_count.checked_mul(node_count) {
            Some(square) => square,
            None => {
                assert(node_count * node_count * node_count >= node_count * node_count)
                    by (nonlinear_arith)
                    requires
                        node_count >= 1,
                ;
                return Err(Error::Numerical);
            },
        };
        let cube: usize = match square.checked_mul(node_count) {
            Some(cube) => cube,
            None => {
                return Err(Error::Numerical);
            },
        };
        assert(cube >= 1) by (nonlinear_arith)
            requires
                cube == node_count * node_count * node_count,
                node_count >= 1,
        ;
        let mut rest: usize = cube;
        let mut rank: usize = 0;
        while rest >= 4
            invariant
                rest >= 1,
                rank + log4(rest as nat) == log4(cube as nat),
                rank <= cube - rest,
            decreases rest,
        {
            rest = rest / 4;
            rank = rank + 1;
        }
        Ok(rank + 1)
    }

    /* ## first element functions */
    /// The first of the roots of least priority, if there is a root.
    fn find_first(&self) -> (r: Option<usize>)
        requires
            ordered::<P>(),
            roots_ok(self.forest(), self.roots@),
        ensures
            first_ok(self.forest(), self.roots@, r),
            r matches Some(m) ==> exists|at: int|
                0 <= at < self.roots@.len() && self.roots@[at] == m && forall|j: int|
                    0 <= j < at ==> lt(
                        nd(self.forest(), m).priority,
                        nd(self.forest(), #[trigger] self.roots@[j]).priority,
                    ),
    {
        if self.roots.len() == 0 {
            return None;
        }
        let mut best: usize = self.roots[0];
        let mut least: &P = self.priority_at(best);
        let ghost mut at: int = 0;
        let mut k: usize = 1;
        while k < self.roots.len()
            invariant
                1 <= k <= self.roots.len(),
                ordered::<P>(),
                roots_ok(self.forest(), self.roots@),
                rootlike(self.forest(), best),
                *least == nd(self.forest(), best).priority,
                0 <= at < k,
                self.roots@[at] == best,
                forall|j: int|
                    0 <= j < k ==> le(
                        *least,
                        nd(self.forest(), #[trigger] self.roots@[j]).priority,
                    ),
                forall|j: int|
                    0 <= j < at ==> lt(
                        *least,
                        nd(self.forest(), #[trigger] self.roots@[j]).priority,
                    ),
            decreases self.roots.len() - k,
        {
            let h: usize = self.roots[k];
            let p: &P = self.priority_at(h);
            if lower(p, least) {
                best = h;
                least = p;
                proof {
                    at = k as int;
                }
            }
            k += 1;
        }
        Some(best)
    }

    /// The node at `h`.
    fn node(&self, h: usize) -> (n: &NCore<T, P>)
        requires
            live(self.forest(), h),
        ensures
            n.model() == nd(self.forest(), h),
    {
        self.nodes[h].as_ref().unwrap()
    }

    /// The priority of the node at `h`.
    fn priority_at(&self, h: usize) -> (p: &P)
        requires
            live(self.forest(), h),
        ensures
            *p == nd(self.forest(), h).priority,
    {
        self.node(h).priority()
    }

    /// The parent of the node at `h`.
    fn parent_at(&self, h: usize) -> (p: Option<usize>)
        requires
            live(self.forest(), h),
        ensures
            p == nd(self.forest(), h).parent,
    {
        self.node(h).get_parent()
    }

    /// The number of children of the node at `h`.
    fn rank_at(&self, h: usize) -> (r: usize)
        requires
            live(self.forest(), h),
        ensures
            r == nd(self.forest(), h).children.len(),
    {
        self.node(h).rank()
    }

    /// The first child of the node at `h`, if it has any.
    fn first_child_at(&self, h: usize) -> (c: Option<usize>)
        requires
            live(self.forest(), h),
        ensures
            c == (if nd(self.forest(), h).children.len() > 0 {
                Some(nd(self.forest(), h).children[0])
            } else {
                None
            }),
    {
        self.node(h).first_child()
    }

    /// Whether the node at `h` is marked.
    fn marked_at(&self, h: usize) -> (r: bool)
        requires
            live(self.forest(), h),
        ensures
            r == nd(self.forest(), h).marked,
    {
        self.node(h).is_marked()
    }

    /// Marks or unmarks the node at `h`.
    fn set_mark(&mut self, h: usize, marked: bool)
        requires
            old(self).wf(),
            live(old(self).forest(), h),
        ensures
            final(self).wf(),
            final(self).forest() == with_mark(old(self).forest(), h, marked),
            same_links(old(self).forest(), final(self).forest()),
            keeps_roots(old(self).forest(), final(self).forest()),
            entries(final(self).forest()) == entries(old(self).forest()),
            final(self).paths@ == old(self).paths@,
            final(self).roots == old(self).roots,
            final(self).first == old(self).first,
            final(self)@ == old(self)@,
    {
        let ghost f = self.forest();
        let n = self.nodes[h].as_mut().unwrap();
        if marked {
            n.mark();
        } else {
            n.unmark();
        }
        proof {
            let g = self.forest();
            assert(g =~= f.update(h as int, Some(NodeView { marked, ..nd(f, h) })));
            assert forall|x: usize| #[trigger] same_node(f, g, x) by {}
            lemma_same_links(f, g, self.paths@, self.roots@, self.first, self.free@);
        }
    }

    /// Takes the node at `c` from its parent and adds it to the list of
    /// roots.
    fn detach(&mut self, c: usize)
        requires
            old(self).wf(),
            live(old(self).forest(), c),
            nd(old(self).forest(), c).parent is Some,
        ensures
            final(self).wf(),
            final(self).forest() == detached(old(self).forest(), c),
            keeps_roots(old(self).forest(), final(self).forest()),
            entries(final(self).forest()) == entries(old(self).forest()),
            final(self).paths@ == paths_cut(old(self).paths@, c),
            final(self).roots@ == old(self).roots@.push(c),
            final(self).first == old(self).first,
            final(self)@ == old(self)@,
    {
        let ghost f = self.forest();
        let p: usize = self.parent_at(c).unwrap();
        proof {
            lemma_parent_apart(f, self.paths@, c);
            lemma_detach(f, self.paths@, self.roots@, self.first, self.free@, c);
        }
        let removed = self.nodes[p].as_mut().unwrap().remove_child(c);
        assert(removed is Ok);
        self.nodes[c].as_mut().unwrap().remove_parent();
        self.insert_root(c);
        self.paths = Ghost(paths_cut(old(self).paths@, c));
        proof {
            assert(self.forest() =~= detached(f, c));
        }
    }

    /* ## root functions */
    fn insert_root(&mut self, node: usize)
        ensures
            *final(self) == (BareQueue { roots: final(self).roots, ..*old(self) }),
            final(self).roots@ == old(self).roots@.push(node),
    {
        self.roots.push(node);
    }

    /// Takes `node` out of the list of roots; the last root moves into its
    /// place.
    ///
    /// # Errors
    /// `InvalidIndex` where `node` is not a root; nothing is changed then.
    fn remove_root(&mut self, node: usize) -> (r: Result<(), Error>)
        ensures
            match r {
                Ok(()) => {
                    let at = old(self).roots@.index_of_first(node);
                    &&& at is Some
                    &&& 0 <= at->0 < old(self).roots@.len()
                    &&& final(self).roots@ == without(old(self).roots@, at->0)
                    &&& *final(self) == (BareQueue { roots: final(self).roots, ..*old(self) })
                },
                Err(e) => e == Error::InvalidIndex && !old(self).roots@.contains(node)
                    && *final(self) == *old(self),
            },
    {
        let mut i: usize = 0;
        while i < self.roots.len()
            invariant
                i <= self.roots.len(),
                *self == *old(self),
                forall|k: int| 0 <= k < i ==> self.roots@[k] != node,
            decreases self.roots.len() - i,
        {
            if self.roots[i] == node {
                proof {
                    self.roots@.index_of_first_ensures(node);
                }
                self.roots.swap_remove(i);
                return Ok(());
            }
            i += 1;
        }
        Err(Error::InvalidIndex)
    }

    /// Links two roots: the one of lesser or equal priority (on a tie, `a`)
    /// becomes the parent of the other. Returns the parent and the child.
    fn link(&mut self, a: usize, b: usize) -> (r: (usize, usize))
        requires
            old(self).structure_ok(),
            rootlike(old(self).forest(), a),
            rootlike(old(self).forest(), b),
            a != b,
        ensures
            final(self).structure_ok(),
            r == (if le(nd(old(self).forest(), a).priority, nd(old(self).forest(), b).priority) {
                (a, b)
            } else {
                (b, a)
            }),
            final(self).forest() == linked(old(self).forest(), r.0, r.1),
            final(self)@ == old(self)@,
            final(self).roots == old(self).roots,
            final(self).first == old(self).first,
            final(self).node_count == old(self).node_count,
    {
        let ghost f = self.forest();
        let mut other: NCore<T, P> = self.nodes[b].take().unwrap();
        let a_leads: bool = self.nodes[a].as_mut().unwrap().link(a, &mut other, b);
        self.nodes[b] = Some(other);
        let r: (usize, usize) = if a_leads {
            (a, b)
        } else {
            (b, a)
        };
        proof {
            lemma_link(f, self.paths@, self.free@, r.0, r.1);
            assert(self.forest() =~= linked(f, r.0, r.1));
        }
        self.paths = Ghost(paths_under(old(self).paths@, r.0, r.1));
        r
    }

    /// Merges trees of equal rank until no two roots have the same rank.
    /// Where no two roots have the same rank to begin with, nothing is
    /// merged: the nodes and the set of roots stay as they are, so a second
    /// run right after a first changes nothing.
    ///
    /// The buckets, one for each rank, number as many as the rank bound
    /// says; should a tree outgrow them, more are added.
    ///
    /// # Errors
    /// `Numerical` where the rank bound cannot be computed; nothing is
    /// changed then.
    fn consolidate(&mut self) -> (r: Result<(), Error>)
        requires
            old(self).structure_ok(),
            roots_ok(old(self).forest(), old(self).roots@),
        ensures
            match r {
                Ok(()) => {
                    &&& rank_bound_fits(old(self)@.len())
                    &&& final(self).structure_ok()
                    &&& roots_ok(final(self).forest(), final(self).roots@)
                    &&& distinct_ranks(final(self).forest(), final(self).roots@)
                    &&& final(self)@ == old(self)@
                    &&& final(self).first == old(self).first
                    &&& distinct_ranks(old(self).forest(), old(self).roots@) ==> {
                        &&& final(self).forest() == old(self).forest()
                        &&& final(self).roots@.to_set() == old(self).roots@.to_set()
                    }
                },
                Err(e) => e == Error::Numerical && !rank_bound_fits(old(self)@.len())
                    && *final(self) == *old(self),
            },
    {
        let max_rank: usize = match Self::max_node_rank(self.node_count) {
            Ok(max_rank) => max_rank,
            Err(e) => {
                return Err(e);
            },
        };
        let mut ranks: Vec<Option<usize>> = Vec::new();
        while ranks.len() < max_rank
            invariant
                forall|r: int| 0 <= r < ranks.len() ==> ranks@[r] is None,
            decreases max_rank - ranks.len(),
        {
            ranks.push(None);
        }
        let ghost f0 = self.forest();
        let ghost settled = distinct_ranks(f0, self.roots@);
        let mut pending: Vec<usize> = Vec::new();
        core::mem::swap(&mut self.roots, &mut pending);
        proof {
            assert forall|h: usize| #[trigger] rootlike(self.forest(), h) implies waiting(
                pending@,
                0,
                h,
            ) by {
                assert(pending@.contains(h));
            }
        }
        let mut i: usize = 0;
        while i < pending.len()
            invariant
                i <= pending.len(),
                self.structure_ok(),
                self@ == old(self)@,
                self.first == old(self).first,
                self.roots@.len() == 0,
                pending@ == old(self).roots@,
                settled == distinct_ranks(f0, old(self).roots@),
                settled ==> self.forest() == f0 && buckets_placed(ranks@, pending@, i as int),
                pending@.no_duplicates(),
                forall|k: int| i <= k < pending.len() ==> rootlike(self.forest(), #[trigger] pending@[k]),
                buckets_ok(self.forest(), ranks@),
                forall|r: int, k: int|
                    0 <= r < ranks.len() && i <= k < pending.len() ==> #[trigger] ranks@[r] != Some(
                        #[trigger] pending@[k],
                    ),
                forall|h: usize| #[trigger]
                    rootlike(self.forest(), h) ==> in_bucket(self.forest(), ranks@, h) || waiting(
                        pending@,
                        i as int,
                        h,
                    ),
            decreases pending.len() - i,
        {
            let mut cur: usize = pending[i];
            let mut rank: usize = self.rank_at(cur);
            proof {
                assert forall|h: usize| #[trigger] rootlike(self.forest(), h) implies h == cur
                    || in_bucket(self.forest(), ranks@, h) || waiting(pending@, i + 1, h) by {
                    if !in_bucket(self.forest(), ranks@, h) {
                        let k = choose|k: int| i <= k < pending.len() && pending@[k] == h;
                        if k != i {
                            assert(i + 1 <= k < pending.len() && pending@[k] == h);
                        }
                    }
                }
            }
            while rank < ranks.len() && ranks[rank].is_some()
                invariant
                    i < pending.len(),
                    self.structure_ok(),
                    self@ == old(self)@,
                    self.first == old(self).first,
                    self.roots@.len() == 0,
                    pending@ == old(self).roots@,
                    settled == distinct_ranks(f0, old(self).roots@),
                    settled ==> self.forest() == f0 && cur == pending@[i as int] && buckets_placed(
                        ranks@,
                        pending@,
                        i as int,
                    ),
                    pending@.no_duplicates(),
                    rootlike(self.forest(), cur),
                    rank == nd(self.forest(), cur).children.len(),
                    forall|r: int| 0 <= r < ranks.len() ==> #[trigger] ranks@[r] != Some(cur),
                    forall|k: int|
                        i + 1 <= k < pending.len() ==> rootlike(
                            self.forest(),
                            #[trigger] pending@[k],
                        ) && pending@[k] != cur,
                    buckets_ok(self.forest(), ranks@),
                    forall|r: int, k: int|
                        0 <= r < ranks.len() && i + 1 <= k < pending.len() ==> #[trigger] ranks@[r]
                            != Some(#[trigger] pending@[k]),
                    forall|h: usize| #[trigger]
                        rootlike(self.forest(), h) ==> h == cur || in_bucket(
                            self.forest(),
                            ranks@,
                            h,
                        ) || waiting(pending@, i + 1, h),
                decreases ranks.len() - rank,
            {
                let ghost f = self.forest();
                let ghost ranks0 = ranks@;
                let occupant: usize = ranks[rank].unwrap();
                ranks[rank] = None;
                assert(rootlike(f, occupant) && nd(f, occupant).children.len() == rank) by {
                    assert(ranks0[rank as int] == Some(occupant));
                }
                assert(!settled) by {
                    if settled {
                        assert(ranks0[rank as int] == Some(occupant));
                        let k = choose|k: int| 0 <= k < i && pending@[k] == occupant;
                        assert(nd(f0, pending@[k]).children.len() != nd(
                            f0,
                            pending@[i as int],
                        ).children.len());
                    }
                }
                let (parent, child) = self.link(cur, occupant);
                let ghost g = self.forest();
                proof {
                    assert(node_ok(f, cur)) by {
                        assert(links_ok(f));
                    }
                    assert forall|r: int| 0 <= r < ranks.len() implies (#[trigger] ranks@[r] matches Some(
                        h,
                    ) ==> rootlike(g, h) && nd(g, h).children.len() == r && h != parent) by {
                        if let Some(h) = ranks@[r] {
                            assert(ranks0[r] == Some(h));
                            assert(h != cur);
                            if h == occupant {
                                assert(ranks0[rank as int] == Some(h));
                                assert(r == rank);
                            }
                        }
                    }
                    assert forall|k: int| i + 1 <= k < pending.len() implies rootlike(
                        g,
                        #[trigger] pending@[k],
                    ) && pending@[k] != parent by {
                        assert(ranks0[rank as int] != Some(pending@[k]));
                        assert(rootlike(f, pending@[k]));
                    }
                    assert forall|h: usize| #[trigger] rootlike(g, h) implies h == parent
                        || in_bucket(g, ranks@, h) || waiting(pending@, i + 1, h) by {
                        if h != parent {
                            assert(h != child);
                            assert(rootlike(f, h));
                            if in_bucket(f, ranks0, h) {
                                assert(nd(f, h).children.len() != rank);
                            }
                        }
                    }
                }
                cur = parent;
                rank = self.rank_at(cur);
            }
            let ghost f = self.forest();
            let ghost ranks0 = ranks@;
            while ranks.len() <= rank
                invariant
                    ranks.len() >= ranks0.len(),
                    forall|r: int| 0 <= r < ranks0.len() ==> ranks@[r] == ranks0[r],
                    forall|r: int| ranks0.len() <= r < ranks.len() ==> ranks@[r] is None,
                decreases rank + 1 - ranks.len(),
            {
                ranks.push(None);
            }
            let ghost ranks1 = ranks@;
            ranks[rank] = Some(cur);
            proof {
                assert(ranks1[rank as int] is None);
                assert forall|r: int| 0 <= r < ranks.len() implies (#[trigger] ranks@[r] matches Some(
                    h,
                ) ==> rootlike(f, h) && nd(f, h).children.len() == r) by {
                    if r != rank {
                        if r < ranks0.len() {
                            assert(ranks@[r] == ranks0[r]);
                        } else {
                            assert(ranks1[r] is None);
                        }
                    }
                }
                assert forall|r: int, k: int|
                    0 <= r < ranks.len() && i + 1 <= k < pending.len() implies #[trigger] ranks@[r]
                    != Some(#[trigger] pending@[k]) by {
                    if r != rank {
                        if r < ranks0.len() {
                            assert(ranks@[r] == ranks0[r]);
                        } else {
                            assert(ranks1[r] is None);
                        }
                    }
                }
                if settled {
                    assert forall|r: int| 0 <= r < ranks.len() implies (#[trigger] ranks@[r] matches Some(
                        h,
                    ) ==> placed(pending@, i + 1, h)) by {
                        if let Some(h) = ranks@[r] {
                            if r != rank {
                                assert(ranks1[r] == Some(h));
                                assert(ranks0[r] == Some(h));
                                let k = choose|k: int| 0 <= k < i && pending@[k] == h;
                                assert(0 <= k < i + 1 && pending@[k] == h);
                            } else {
                                assert(0 <= i < i + 1 && pending@[i as int] == h);
                            }
                        }
                    }
                }
                assert forall|h: usize| #[trigger] rootlike(f, h) implies in_bucket(f, ranks@, h)
                    || waiting(pending@, i + 1, h) by {
                    if h != cur && in_bucket(f, ranks0, h) {
                        let r = nd(f, h).children.len() as int;
                        assert(ranks0[r] == Some(h));
                        assert(ranks1[r] == ranks0[r]);
                        assert(r != rank);
                    }
                }
            }
            i += 1;
        }
        let ghost f = self.forest();
        let mut r: usize = 0;
        while r < ranks.len()
            invariant
                r <= ranks.len(),
                self.forest() == f,
                self.structure_ok(),
                self@ == old(self)@,
                self.first == old(self).first,
                buckets_ok(f, ranks@),
                self.roots@.no_duplicates(),
                forall|k: int|
                    0 <= k < self.roots@.len() ==> rootlike(f, #[trigger] self.roots@[k]) && nd(
                        f,
                        self.roots@[k],
                    ).children.len() < r,
                forall|b: int|
                    0 <= b < r ==> (#[trigger] ranks@[b] matches Some(h) ==> self.roots@.contains(h)),
            decreases ranks.len() - r,
        {
            let ghost roots0 = self.roots@;
            if let Some(h) = ranks[r] {
                proof {
                    if roots0.contains(h) {
                        let k = choose|k: int| 0 <= k < roots0.len() && roots0[k] == h;
                        assert(nd(f, roots0[k]).children.len() < r);
                    }
                    lemma_push_fresh(roots0, h);
                }
                self.insert_root(h);
            }
            proof {
                assert forall|b: int| 0 <= b < r + 1 implies (#[trigger] ranks@[b] matches Some(h)
                    ==> self.roots@.contains(h)) by {
                    if let Some(h) = ranks@[b] {
                        if b < r {
                            assert(roots0.contains(h));
                            let k = choose|k: int| 0 <= k < roots0.len() && roots0[k] == h;
                            assert(self.roots@[k] == h);
                        }
                    }
                }
            }
            r += 1;
        }
        proof {
            assert forall|h: usize| live(f, h) && nd(f, h).parent is None implies #[trigger]
                self.roots@.contains(h) by {
                assert(rootlike(f, h));
                assert(!waiting(pending@, pending.len() as int, h));
                assert(in_bucket(f, ranks@, h));
                assert(ranks@[nd(f, h).children.len() as int] == Some(h));
            }
            if settled {
                let before = old(self).roots@;
                let after = self.roots@;
                assert forall|h: usize| after.contains(h) <==> before.contains(h) by {
                    if after.contains(h) {
                        let k = choose|k: int| 0 <= k < after.len() && after[k] == h;
                        assert(rootlike(f, after[k]));
                    }
                    if before.contains(h) {
                        let k = choose|k: int| 0 <= k < before.len() && before[k] == h;
                        assert(rootlike(f0, before[k]));
                    }
                }
                assert(after.to_set() =~= before.to_set());
            }
        }
        Ok(())
    }

    /* ## structural functions */
    /// separate node from its parent and add it to the list of roots
    /// possibly recursively to satisfy structural bounds of the queue
    fn cut_node(&mut self, node: usize)
        requires
            old(self).wf(),
            live(old(self).forest(), node),
        ensures
            final(self).wf(),
            final(self)@ == old(self)@,
            final(self).first == old(self).first,
            entries(final(self).forest()) == entries(old(self).forest()),
            keeps_roots(old(self).forest(), final(self).forest()),
            rootlike(final(self).forest(), node),
            final(self).forest() == after_cut(
                old(self).forest(),
                node,
                old(self).paths@(node).len(),
            ),
        decreases old(self).paths@(node).len(),
    {
        let ghost f = self.forest();
        proof {
            assert(chain_ok(f, self.paths@, node));
        }
        if let Some(parent) = self.parent_at(node) {
            proof {
                lemma_parent_apart(f, self.paths@, node);
                lemma_detach(f, self.paths@, self.roots@, self.first, self.free@, node);
                assert(chain_ok(f, self.paths@, parent));
            }
            self.detach(node);
            let ghost f1 = self.forest();
            self.set_mark(node, false);
            let ghost f2 = self.forest();
            proof {
                lemma_keeps_roots(f, f1, f2);
                assert(live(f1, node) && live(f1, parent));
            }
            if self.marked_at(parent) {
                self.cut_node(parent);
            } else {
                self.set_mark(parent, true);
            }
            proof {
                lemma_keeps_roots(f, f2, self.forest());
                assert(live(f2, node));
            }
        }
    }

    /// The handle of the first node holding `t` that a breadth-first walk
    /// from the roots meets.
    fn get_node(&self, t: &T) -> (r: Option<usize>)
        requires
            self.wf(),
        ensures
            eq_is_specified::<T>() ==> r == search(
                self.forest(),
                self.roots@,
                *t,
                self.forest().len(),
            ),
            r matches Some(h) ==> live(self.forest(), h),
    {
        // bfs on nodes
        let ghost f = self.forest();
        let mut q: Vec<usize> = Vec::new();
        let mut k: usize = 0;
        while k < self.roots.len()
            invariant
                k <= self.roots.len(),
                q@ == self.roots@.subrange(0, k as int),
            decreases self.roots.len() - k,
        {
            q.push(self.roots[k]);
            assert(q@ =~= self.roots@.subrange(0, k + 1));
            k += 1;
        }
        assert(q@ =~= self.roots@);
        assert(q@.subrange(0, q.len() as int) =~= q@);
        // the walk takes no more nodes than the arena has slots
        let mut fuel: usize = self.nodes.len();
        let mut head: usize = 0;
        while head < q.len() && fuel > 0
            invariant
                self.wf(),
                f == self.forest(),
                head <= q.len(),
                forall|k: int| head <= k < q.len() ==> live(f, #[trigger] q@[k]),
                eq_is_specified::<T>() ==> search(f, self.roots@, *t, f.len()) == search(
                    f,
                    q@.subrange(head as int, q.len() as int),
                    *t,
                    fuel as nat,
                ),
            decreases fuel,
        {
            let node: usize = q[head];
            let ghost rest = q@.subrange(head as int, q.len() as int);
            let ghost q0 = q@;
            assert(rest[0] == node);
            assert(live(f, q@[head as int]));
            let n = self.node(node);
            if n.has_value(t) {
                return Some(node);
            }
            let children = n.get_children();
            let mut c: usize = 0;
            while c < children.len()
                invariant
                    c <= children.len(),
                    q@ == q0 + children@.subrange(0, c as int),
                decreases children.len() - c,
            {
                q.push(children[c]);
                assert(q@ =~= q0 + children@.subrange(0, c + 1));
                c += 1;
            }
            proof {
                assert(children@.subrange(0, children.len() as int) =~= children@);
                assert(q@.subrange(head + 1, q.len() as int) =~= rest.drop_first()
                    + children@);
                assert(node_ok(f, node));
                assert forall|k: int| head + 1 <= k < q.len() implies live(
                    f,
                    #[trigger] q@[k],
                ) by {
                    if k >= q0.len() {
                        assert(q@[k] == children@[k - q0.len()]);
                        assert(children@.contains(q@[k]));
                    } else {
                        assert(q@[k] == q0[k]);
                    }
                }
            }
            head += 1;
            fuel -= 1;
        }
        None
    }

    /// The pair of the node that a search for `value` finds: of the nodes
    /// that hold an equal value, the first that a breadth-first walk from
    /// the roots meets.
    pub closed spec fn located(&self, value: T) -> Option<(T, P)> {
        match search(self.forest(), self.roots@, value, self.forest().len()) {
            Some(h) => Some((nd(self.forest(), h).value, nd(self.forest(), h).priority)),
            None => None,
        }
    }

    /// The search finds a pair of the queue with an equal value wherever
    /// there is one.
    pub proof fn lemma_located(&self, value: T)
        requires
            self.wf(),
        ensures
            match self.located(value) {
                Some(e) => self@.count(e) > 0 && same_value(e.0, value),
                None => forall|e: (T, P)| #[trigger] self@.count(e) > 0 ==> !same_value(e.0, value),
            },
    {
        let f = self.forest();
        lemma_search_roots(f, self.paths@, self.roots@, value);
        match search(f, self.roots@, value, f.len()) {
            Some(h) => {
                lemma_bag_at(entries(f), h as int);
            },
            None => {
                assert forall|e: (T, P)| #[trigger] self@.count(e) > 0 implies !same_value(
                    e.0,
                    value,
                ) by {
                    lemma_bag_member(entries(f), e);
                    let i = choose|i: int| 0 <= i < entries(f).len() && entries(f)[i] == Some(e);
                    assert(live(f, i as usize));
                    assert(nd(f, i as usize).value == e.0);
                    assert(!holds(f, i as usize, value));
                }
            },
        }
    }

    /// Some root is no higher in priority than any given node.
    proof fn lemma_root_below(&self, h: usize) -> (r: usize)
        requires
            self.structure_ok(),
            roots_ok(self.forest(), self.roots@),
            live(self.forest(), h),
        ensures
            self.roots@.contains(r),
            rootlike(self.forest(), r),
            le(nd(self.forest(), r).priority, nd(self.forest(), h).priority),
    {
        let f = self.forest();
        assert(chain_ok(f, self.paths@, h));
        let r = self.paths@(h)[0];
        assert(live(f, r));
        r
    }

    /// The cached least root is no higher in priority than any pair of the
    /// queue.
    proof fn lemma_least(&self)
        requires
            self.wf(),
            self.first is Some,
        ensures
            forall|x: (T, P)|
                self@.count(x) > 0 ==> le(nd(self.forest(), self.first->0).priority, x.1),
    {
        let f = self.forest();
        let m = self.first->0;
        assert forall|x: (T, P)| self@.count(x) > 0 implies le(nd(f, m).priority, x.1) by {
            lemma_bag_member(entries(f), x);
            let i = choose|i: int| 0 <= i < entries(f).len() && entries(f)[i] == Some(x);
            let h = i as usize;
            assert(live(f, h));
            let r = self.lemma_root_below(h);
            let k = choose|k: int| 0 <= k < self.roots@.len() && self.roots@[k] == r;
            assert(le(nd(f, m).priority, nd(f, self.roots@[k]).priority));
        }
    }

    /// A queue without roots holds nothing.
    proof fn lemma_no_root(&self)
        requires
            self.structure_ok(),
            roots_ok(self.forest(), self.roots@),
            self.roots@.len() == 0,
        ensures
            self@.len() == 0,
    {
        let f = self.forest();
        if self@.len() > 0 {
            lemma_multiset_empty_len(self@);
            let x = choose|x: (T, P)| 0 < self@.count(x);
            lemma_bag_member(entries(f), x);
            let i = choose|i: int| 0 <= i < entries(f).len() && entries(f)[i] == Some(x);
            assert(live(f, i as usize));
            let r = self.lemma_root_below(i as usize);
        }
    }

    /* # heap functionality */
    /// construct empty queue
    #[must_use]
    pub fn new() -> (q: Self)
        ensures
            ordered::<P>() ==> q.wf(),
            q@ == Multiset::<(T, P)>::empty(),
    {
        let q = Self {
            roots: Vec::new(),
            free: Vec::new(),
            nodes: Vec::new(),
            first: None,
            node_count: 0,
            paths: Ghost(|h: usize| Seq::empty()),
        };
        assert(entries(q.forest()) =~= Seq::empty());
        q
    }

    /// returns true if the queue is empty
    #[must_use]
    pub fn is_empty(&self) -> (r: bool)
        requires
            self.wf(),
        ensures
            r == (self@.len() == 0),
    {
        self.node_count == 0
    }

    /// push a value onto the queue with given priority
    ///
    /// # Errors
    /// `ReachedCapacity` where the queue holds as many nodes as the counter
    /// can count; the queue is then left as it was.
    pub fn push(&mut self, t: T, priority: P) -> (r: Result<(), Error>)
        requires
            old(self).wf(),
        ensures
            final(self).wf(),
            match r {
                Ok(()) => old(self)@.len() < usize::MAX && final(self)@ == old(self)@.insert(
                    (t, priority),
                ),
                Err(e) => e == Error::ReachedCapacity && old(self)@.len() == usize::MAX
                    && *final(self) == *old(self),
            },
    {
        // the cached least root stays only where it is strictly lower
        let keep: bool = match self.first {
            Some(m) => lower(self.priority_at(m), &priority),
            None => false,
        };
        match self.increment_node_count() {
            Err(e) => {
                return Err(e);
            },
            Ok(()) => {},
        }
        let ghost f = self.forest();
        let next = NCore::new_node(t, priority);
        let ghost n = next.model();
        let h: usize = match self.free.pop() {
            Some(h) => {
                self.nodes[h] = Some(next);
                h
            },
            None => {
                let h: usize = self.nodes.len();
                proof {
                    if h == usize::MAX {
                        assert forall|x: usize| x < f.len() implies live(f, x) by {
                            if !live(f, x) {
                                assert(old(self).free@.contains(x));
                            }
                        }
                        lemma_full(f);
                    }
                }
                self.nodes.push(Some(next));
                h
            },
        };
        proof {
            assert(self.forest() =~= with_node(f, h, n));
            lemma_fresh(f, old(self).paths@, old(self).roots@, old(self).free@, h, n);
            assert(self.free@ =~= if h < f.len() {
                old(self).free@.drop_last()
            } else {
                old(self).free@
            });
        }
        self.paths = Ghost(paths_with(old(self).paths@, h));
        self.insert_root(h);
        if !keep {
            self.first = Some(h);
        }
        Ok(())
    }

    /// return the element with the lowest priority
    ///
    /// The children of the node that leaves become roots, and the forest is
    /// consolidated: afterwards no two roots have the same rank.
    ///
    /// Among pairs of the same lowest priority, which one leaves is not
    /// said.
    ///
    /// # Errors
    /// `Empty` where the queue holds nothing; `Numerical` where the rank
    /// bound of what would stay cannot be computed. Either way the queue is
    /// left as it was.
    pub fn pop(&mut self) -> (r: Result<(T, P), Error>)
        requires
            old(self).wf(),
        ensures
            final(self).wf(),
            match r {
                Ok(e) => {
                    &&& is_pop(old(self)@, e, final(self)@)
                    &&& rank_bound_fits((old(self)@.len() - 1) as nat)
                    &&& final(self).settled()
                },
                Err(e) => {
                    &&& *final(self) == *old(self)
                    &&& e == (if old(self)@.len() == 0 {
                        Error::Empty
                    } else {
                        Error::Numerical
                    })
                    &&& old(self)@.len() > 0 ==> !rank_bound_fits((old(self)@.len() - 1) as nat)
                },
            },
    {
        let first: usize = match self.first {
            Some(first) => first,
            None => {
                proof {
                    self.lemma_no_root();
                }
                return Err(Error::Empty);
            },
        };
        let ghost f0 = self.forest();
        proof {
            self.lemma_least();
            lemma_bag_at(entries(f0), first as int);
        }
        match Self::max_node_rank(self.node_count - 1) {
            Ok(_) => {},
            Err(e) => {
                return Err(e);
            },
        }
        while self.rank_at(first) > 0
            invariant
                self.wf(),
                self.first == Some(first),
                self@ == old(self)@,
                self.node_count == old(self).node_count,
                rootlike(self.forest(), first),
                nd(self.forest(), first).value == nd(f0, first).value,
                nd(self.forest(), first).priority == nd(f0, first).priority,
            decreases nd(self.forest(), first).children.len(),
        {
            let ghost f = self.forest();
            let child: usize = self.first_child_at(first).unwrap();
            proof {
                let ch = nd(f, first).children;
                assert(ch.contains(child)) by {
                    assert(ch[0] == child);
                }
                assert(node_ok(f, first));
                lemma_parent_apart(f, self.paths@, child);
                ch.index_of_first_ensures(child);
                lemma_without(ch, ch.index_of_first(child)->0);
            }
            self.detach(child);
        }
        let ghost f1 = self.forest();
        proof {
            lemma_release(f1, self.paths@, self.roots@, self.free@, first);
        }
        match self.decrement_node_count() {
            Ok(()) => {},
            Err(e) => {
                return Err(e);
            },
        }
        match self.remove_root(first) {
            Ok(()) => {},
            Err(e) => {
                return Err(e);
            },
        }
        let node: NCore<T, P> = self.nodes[first].take().unwrap();
        self.free.push(first);
        proof {
            assert(self.forest() =~= f1.update(first as int, None));
        }
        match self.consolidate() {
            Ok(()) => {},
            Err(e) => {
                return Err(e);
            },
        }
        self.first = self.find_first();
        NPrpt::pair(node)
    }

    /// decreases the priority of the item with given value
    ///
    /// Where several nodes hold an equal value, the one that
    /// [`Self::located`] names is meant.
    ///
    /// # Errors
    /// `InvalidIndex` where no node holds the value;
    /// `CannotIncreasePriority` where the new priority is not strictly lower
    /// than the current one. Either way the queue is left as it was.
    pub fn decrease_priority(&mut self, value: &T, new_priority: P) -> (r: Result<(), Error>)
        requires
            old(self).wf(),
        ensures
            final(self).wf(),
            final(self)@.len() == old(self)@.len(),
            r matches Err(e) ==> *final(self) == *old(self) && (e == Error::InvalidIndex || e
                == Error::CannotIncreasePriority),
            eq_is_specified::<T>() ==> match old(self).located(*value) {
                None => r == Err::<(), Error>(Error::InvalidIndex) && *final(self) == *old(self),
                Some(e) => if lt(new_priority, e.1) {
                    r == Ok::<(), Error>(()) && final(self)@ == old(self)@.remove(e).insert(
                        (e.0, new_priority),
                    )
                } else {
                    r == Err::<(), Error>(Error::CannotIncreasePriority) && *final(self) == *old(self)
                },
            },
    {
        let node: usize = match self.get_node(value) {
            Some(node) => node,
            None => {
                return Err(Error::InvalidIndex);
            },
        };
        let ghost f0 = self.forest();
        proof {
            lemma_bag_at(entries(f0), node as int);
        }
        if !self.node(node).has_higher_priority(&new_priority) {
            return Err(Error::CannotIncreasePriority);
        }
        assert(node_ok(f0, node));
        let violates: bool = match self.parent_at(node) {
            Some(parent) => lower(&new_priority, self.priority_at(parent)),
            None => false,
        };
        if violates {
            self.cut_node(node);
        }
        let ghost f = self.forest();
        assert(live(f, node) && entries(f)[node as int] == entries(f0)[node as int]);
        let lower: bool = match self.first {
            Some(first) => lower(&new_priority, self.priority_at(first)),
            None => false,
        };
        proof {
            lemma_lower(f, self.paths@, self.roots@, self.first, self.free@, node, new_priority);
        }
        self.nodes[node].as_mut().unwrap().set_priority(new_priority);
        if lower {
            self.first = Some(node);
        }
        proof {
            assert(self.forest() =~= f.update(
                node as int,
                Some(NodeView { priority: new_priority, ..nd(f, node) }),
            ));
        }
        Ok(())
    }
}

/// An arena without an empty slot holds as many pairs as it has slots.
proof fn lemma_full<T, P: Ord>(f: Forest<T, P>)
    requires
        forall|h: usize| h < f.len() ==> live(f, h),
        f.len() <= usize::MAX,
    ensures
        bag(entries(f)).len() == f.len(),
    decreases f.len(),
{
    if f.len() > 0 {
        assert(entries(f).drop_last() =~= entries(f.drop_last()));
        assert forall|h: usize| h < f.drop_last().len() implies live(f.drop_last(), h) by {
            assert(live(f, h));
        }
        lemma_full(f.drop_last());
        assert(live(f, (f.len() - 1) as usize));
    }
}

} // verus!
