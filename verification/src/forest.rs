use crate::node::NodeView;
use crate::order::{le, ordered};
use vstd::multiset::Multiset;
use vstd::prelude::*;

verus! {

/// The arena as plain values: slot `h` holds the node with handle `h`, or
/// nothing.
pub type Forest<T, P> = Seq<Option<NodeView<T, P>>>;

/// Handle `h` names a node of the arena.
pub open spec fn live<T, P: Ord>(f: Forest<T, P>, h: usize) -> bool {
    h < f.len() && f[h as int] is Some
}

/// The node that handle `h` names.
pub open spec fn nd<T, P: Ord>(f: Forest<T, P>, h: usize) -> NodeView<T, P> {
    f[h as int]->0
}

/// The links of node `h` agree with those of its parent and of its
/// children, and with the heap order: its priority is never below its
/// parent's.
pub open spec fn node_ok<T, P: Ord>(f: Forest<T, P>, h: usize) -> bool {
    &&& nd(f, h).parent matches Some(p) ==> live(f, p) && nd(f, p).children.contains(h) && le(nd(f, p).priority, nd(f, h).priority)
    &&& forall|c: usize| #[trigger]
        nd(f, h).children.contains(c) ==> live(f, c) && nd(f, c).parent == Some(h)
    &&& nd(f, h).children.no_duplicates()
}

/// Every node's links are in order, and every handle fits the machine.
pub open spec fn links_ok<T, P: Ord>(f: Forest<T, P>) -> bool {
    &&& ordered::<P>()
    &&& f.len() <= usize::MAX
    &&& forall|h: usize| live(f, h) ==> #[trigger] node_ok(f, h)
}

/// `p` is the chain of ancestors of `h`, from the root of its tree down to
/// `h` itself.
pub open spec fn path_ok<T, P: Ord>(f: Forest<T, P>, h: usize, p: Seq<usize>) -> bool {
    &&& p.len() >= 1
    &&& p.last() == h
    &&& forall|j: int|
        0 <= j < p.len() ==> live(f, #[trigger] p[j]) && le(nd(f, p[j]).priority, nd(f, h).priority)
    &&& nd(f, p[0]).parent is None
    &&& forall|j: int| 1 <= j < p.len() ==> nd(f, #[trigger] p[j]).parent == Some(p[j - 1])
    &&& p.no_duplicates()
}

/// Node `h` has its chain of ancestors, and where it has a parent, the
/// chain is the parent's chain with `h` at the end.
pub open spec fn chain_ok<T, P: Ord>(f: Forest<T, P>, paths: spec_fn(usize) -> Seq<usize>, h: usize) -> bool {
    &&& path_ok(f, h, paths(h))
    &&& nd(f, h).parent matches Some(p) ==> paths(h) == paths(p).push(h)
}

/// Every node has its chain of ancestors. This is what makes the links a
/// forest: no node is its own ancestor.
pub open spec fn paths_ok<T, P: Ord>(f: Forest<T, P>, paths: spec_fn(usize) -> Seq<usize>) -> bool {
    forall|h: usize| live(f, h) ==> #[trigger] chain_ok(f, paths, h)
}

/// `roots` lists, each once, exactly the nodes without a parent.
pub open spec fn roots_ok<T, P: Ord>(f: Forest<T, P>, roots: Seq<usize>) -> bool {
    &&& roots.no_duplicates()
    &&& forall|k: int|
        0 <= k < roots.len() ==> live(f, #[trigger] roots[k]) && nd(f, roots[k]).parent is None
    &&& forall|h: usize| live(f, h) && nd(f, h).parent is None ==> #[trigger] roots.contains(h)
}

/// `first` is a root of least priority among the roots, and is absent only
/// where there is no root.
pub open spec fn first_ok<T, P: Ord>(f: Forest<T, P>, roots: Seq<usize>, first: Option<usize>) -> bool {
    match first {
        Some(m) => live(f, m) && nd(f, m).parent is None && forall|k: int|
            0 <= k < roots.len() ==> le(nd(f, m).priority, nd(f, #[trigger] roots[k]).priority),
        None => roots.len() == 0,
    }
}

/// `free` lists, each once, exactly the empty slots.
pub open spec fn free_ok<T, P: Ord>(f: Forest<T, P>, free: Seq<usize>) -> bool {
    &&& free.no_duplicates()
    &&& forall|k: int| 0 <= k < free.len() ==> #[trigger] free[k] < f.len() && !live(f, free[k])
    &&& forall|h: usize| h < f.len() && !live(f, h) ==> #[trigger] free.contains(h)
}

/// The (value, priority) pair of each slot.
pub open spec fn entries<T, P: Ord>(f: Forest<T, P>) -> Seq<Option<(T, P)>> {
    Seq::new(
        f.len(),
        |i: int|
            match f[i] {
                Some(n) => Some((n.value, n.priority)),
                None => None,
            },
    )
}

/// `m` with the pair of a slot added, if the slot holds one.
pub open spec fn put<T, P: Ord>(m: Multiset<(T, P)>, slot: Option<(T, P)>) -> Multiset<(T, P)> {
    match slot {
        Some(e) => m.insert(e),
        None => m,
    }
}

/// `m` with the pair of a slot taken out once, if the slot holds one.
pub open spec fn take<T, P: Ord>(m: Multiset<(T, P)>, slot: Option<(T, P)>) -> Multiset<(T, P)> {
    match slot {
        Some(e) => m.remove(e),
        None => m,
    }
}

/// The multiset of the pairs that a sequence of slots holds.
pub open spec fn bag<T, P: Ord>(slots: Seq<Option<(T, P)>>) -> Multiset<(T, P)>
    decreases slots.len(),
{
    if slots.len() == 0 {
        Multiset::empty()
    } else {
        put(bag(slots.drop_last()), slots.last())
    }
}

/// Appending a slot adds its pair.
pub proof fn lemma_bag_push<T, P: Ord>(s: Seq<Option<(T, P)>>, x: Option<(T, P)>)
    ensures
        bag(s.push(x)) == put(bag(s), x),
{
    assert(s.push(x).drop_last() =~= s);
}

/// The pair of a filled slot is in the bag.
pub proof fn lemma_bag_at<T, P: Ord>(s: Seq<Option<(T, P)>>, i: int)
    requires
        0 <= i < s.len(),
        s[i] is Some,
    ensures
        bag(s).count(s[i]->0) > 0,
    decreases s.len(),
{
    if i < s.len() - 1 {
        lemma_bag_at(s.drop_last(), i);
    }
}

/// Whatever is in the bag sits in some slot.
pub proof fn lemma_bag_member<T, P: Ord>(s: Seq<Option<(T, P)>>, e: (T, P))
    requires
        bag(s).count(e) > 0,
    ensures
        exists|i: int| 0 <= i < s.len() && s[i] == Some(e),
    decreases s.len(),
{
    if s.len() > 0 {
        if s.last() == Some(e) {
            assert(s[s.len() - 1] == Some(e));
        } else {
            lemma_bag_member(s.drop_last(), e);
            let i = choose|i: int| 0 <= i < s.drop_last().len() && s.drop_last()[i] == Some(e);
            assert(s[i] == Some(e));
        }
    }
}

/// Overwriting a slot takes its old pair out of the bag and puts the new
/// one in.
pub proof fn lemma_bag_update<T, P: Ord>(s: Seq<Option<(T, P)>>, i: int, x: Option<(T, P)>)
    requires
        0 <= i < s.len(),
    ensures
        bag(s.update(i, x)) =~= put(take(bag(s), s[i]), x),
    decreases s.len(),
{
    let t = s.update(i, x);
    if i == s.len() - 1 {
        assert(t.drop_last() =~= s.drop_last());
    } else {
        assert(t.drop_last() =~= s.drop_last().update(i, x));
        lemma_bag_update(s.drop_last(), i, x);
        if s[i] is Some {
            lemma_bag_at(s.drop_last(), i);
        }
    }
}

/// Every node of `f` is a node of `g`, and is without a parent there if it
/// is so in `f`.
pub open spec fn keeps_roots<T, P: Ord>(f: Forest<T, P>, g: Forest<T, P>) -> bool {
    forall|x: usize| #[trigger]
        live(f, x) ==> live(g, x) && (nd(f, x).parent is None ==> nd(g, x).parent is None)
}

/// What two steps keep, both together keep.
pub proof fn lemma_keeps_roots<T, P: Ord>(f: Forest<T, P>, g: Forest<T, P>, h: Forest<T, P>)
    requires
        keeps_roots(f, g),
        keeps_roots(g, h),
    ensures
        keeps_roots(f, h),
{
    assert forall|x: usize| #[trigger] live(f, x) implies live(h, x) && (nd(f, x).parent is None
        ==> nd(h, x).parent is None) by {
        assert(live(g, x));
    }
}

/// Slot `h` is empty in both arenas, or holds nodes that differ in
/// their marks at most.
pub open spec fn same_node<T, P: Ord>(f: Forest<T, P>, g: Forest<T, P>, h: usize) -> bool {
    &&& live(g, h) <==> live(f, h)
    &&& live(g, h) ==> nd(g, h).parent == nd(f, h).parent && nd(g, h).children == nd(
        f,
        h,
    ).children && nd(g, h).priority == nd(f, h).priority && nd(g, h).value == nd(f, h).value
}

/// Two arenas that differ in marks at most.
pub open spec fn same_links<T, P: Ord>(f: Forest<T, P>, g: Forest<T, P>) -> bool {
    &&& f.len() == g.len()
    &&& forall|h: usize| #[trigger] same_node(f, g, h)
}

/// Marks play no part in the shape of the forest.
pub proof fn lemma_same_links<T, P: Ord>(
    f: Forest<T, P>,
    g: Forest<T, P>,
    paths: spec_fn(usize) -> Seq<usize>,
    roots: Seq<usize>,
    first: Option<usize>,
    free: Seq<usize>,
)
    requires
        same_links(f, g),
        f.len() <= usize::MAX,
    ensures
        links_ok(f) ==> links_ok(g),
        paths_ok(f, paths) ==> paths_ok(g, paths),
        roots_ok(f, roots) ==> roots_ok(g, roots),
        roots_ok(f, roots) && first_ok(f, roots, first) ==> first_ok(g, roots, first),
        free_ok(f, free) ==> free_ok(g, free),
        entries(g) =~= entries(f),
        keeps_roots(f, g),
{
    assert forall|i: int| 0 <= i < f.len() implies entries(g)[i] == entries(f)[i] by {
        assert(same_node(f, g, i as usize));
    }
    assert forall|x: usize| #[trigger] live(f, x) implies live(g, x) && (nd(f, x).parent is None
        ==> nd(g, x).parent is None) by {
        assert(same_node(f, g, x));
    }
    if links_ok(f) {
        assert forall|h: usize| live(g, h) implies #[trigger] node_ok(g, h) by {
            assert(same_node(f, g, h));
            assert(node_ok(f, h));
            if let Some(p) = nd(g, h).parent {
                assert(same_node(f, g, p));
            }
            assert forall|c: usize| #[trigger] nd(g, h).children.contains(c) implies live(g, c)
                && nd(g, c).parent == Some(h) by {
                assert(same_node(f, g, c));
            }
        }
    }
    if paths_ok(f, paths) {
        assert forall|h: usize| live(g, h) implies #[trigger] chain_ok(g, paths, h) by {
            assert(same_node(f, g, h));
            assert(chain_ok(f, paths, h));
            let p = paths(h);
            assert forall|j: int| 0 <= j < p.len() implies live(g, #[trigger] p[j]) && le(nd(g, p[j]).priority, nd(g, h).priority) && (j >= 1 ==> nd(g, p[j]).parent == Some(
                p[j - 1],
            )) by {
                assert(same_node(f, g, p[j]));
            }
            assert(same_node(f, g, p[0]));
        }
    }
    if roots_ok(f, roots) {
        assert forall|k: int| 0 <= k < roots.len() implies live(g, #[trigger] roots[k]) && nd(
            g,
            roots[k],
        ).parent is None by {
            assert(same_node(f, g, roots[k]));
        }
        assert forall|h: usize| live(g, h) && nd(g, h).parent is None implies #[trigger]
            roots.contains(h) by {
            assert(same_node(f, g, h));
        }
    }
    if roots_ok(f, roots) && first_ok(f, roots, first) {
        if let Some(m) = first {
            assert(same_node(f, g, m));
            assert forall|k: int| 0 <= k < roots.len() implies le(nd(g, m).priority, nd(g, #[trigger] roots[k]).priority) by {
                assert(same_node(f, g, roots[k]));
            }
        }
    }
    if free_ok(f, free) {
        assert forall|k: int| 0 <= k < free.len() implies #[trigger] free[k] < g.len() && !live(
            g,
            free[k],
        ) by {
            assert(same_node(f, g, free[k]));
        }
        assert forall|h: usize| h < g.len() && !live(g, h) implies #[trigger] free.contains(
            h,
        ) by {
            assert(same_node(f, g, h));
        }
    }
}

/// The chains after a node without links has been put at handle `h`.
pub open spec fn paths_with(paths: spec_fn(usize) -> Seq<usize>, h: usize) -> spec_fn(
    usize,
) -> Seq<usize> {
    |x: usize|
        if x == h {
            seq![h]
        } else {
            paths(x)
        }
}

/// The arena after node `n` has been put at the unused handle `h`: into an
/// empty slot, or at the end.
pub open spec fn with_node<T, P: Ord>(f: Forest<T, P>, h: usize, n: NodeView<T, P>) -> Forest<T, P> {
    if h < f.len() {
        f.update(h as int, Some(n))
    } else {
        f.push(Some(n))
    }
}

/// A node without links, put at an unused handle, is one more root.
pub proof fn lemma_fresh<T, P: Ord>(
    f: Forest<T, P>,
    paths: spec_fn(usize) -> Seq<usize>,
    roots: Seq<usize>,
    free: Seq<usize>,
    h: usize,
    n: NodeView<T, P>,
)
    requires
        links_ok(f),
        paths_ok(f, paths),
        roots_ok(f, roots),
        free_ok(f, free),
        !live(f, h),
        h <= f.len(),
        h < usize::MAX,
        h < f.len() ==> free.len() > 0 && free.last() == h,
        n.parent is None,
        n.children.len() == 0,
    ensures
        links_ok(with_node(f, h, n)),
        paths_ok(with_node(f, h, n), paths_with(paths, h)),
        roots_ok(with_node(f, h, n), roots.push(h)),
        free_ok(
            with_node(f, h, n),
            if h < f.len() {
                free.drop_last()
            } else {
                free
            },
        ),
        bag(entries(with_node(f, h, n))) == bag(entries(f)).insert((n.value, n.priority)),
        forall|x: usize| live(f, x) ==> live(with_node(f, h, n), x) && #[trigger] nd(
            with_node(f, h, n),
            x,
        ) == nd(f, x),
        live(with_node(f, h, n), h),
        nd(with_node(f, h, n), h) == n,
{
    let g = with_node(f, h, n);
    let paths2 = paths_with(paths, h);
    let e = Some((n.value, n.priority));
    if h < f.len() {
        assert(entries(g) =~= entries(f).update(h as int, e));
        lemma_bag_update(entries(f), h as int, e);
    } else {
        assert(entries(g) =~= entries(f).push(e));
        lemma_bag_push(entries(f), e);
    }
    assert forall|x: usize| live(g, x) implies #[trigger] node_ok(g, x) by {
        if x != h {
            assert(node_ok(f, x));
        }
    }
    assert forall|x: usize| live(g, x) implies #[trigger] chain_ok(g, paths2, x) by {
        if x != h {
            assert(node_ok(f, x));
            assert(chain_ok(f, paths, x));
            let p = paths(x);
            assert forall|j: int| 0 <= j < p.len() implies live(g, #[trigger] p[j]) && nd(
                g,
                p[j],
            ) == nd(f, p[j]) by {}
        }
    }
    let free2 = if h < f.len() {
        free.drop_last()
    } else {
        free
    };
    assert forall|y: usize| y < g.len() && !live(g, y) implies #[trigger] free2.contains(y) by {
        assert(free.contains(y));
        let k = choose|k: int| 0 <= k < free.len() && free[k] == y;
        assert(free2[k] == y);
    }
    assert forall|y: usize| live(g, y) && nd(g, y).parent is None implies #[trigger] roots.push(
        h,
    ).contains(y) by {
        if y == h {
            assert(roots.push(h)[roots.len() as int] == h);
        } else {
            assert(roots.contains(y));
            let k = choose|k: int| 0 <= k < roots.len() && roots[k] == y;
            assert(roots.push(h)[k] == y);
        }
    }
}

} // verus!
