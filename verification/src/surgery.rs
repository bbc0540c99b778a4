use crate::forest::{
    bag, chain_ok, entries, first_ok, free_ok, keeps_roots, lemma_bag_at, lemma_bag_update,
    links_ok, live, nd, node_ok, paths_ok, roots_ok, Forest,
};
use crate::node::NodeView;
use crate::order::{le, lt};
use vstd::prelude::*;

verus! {

/// `h` names a node without a parent.
pub open spec fn rootlike<T, P: Ord>(f: Forest<T, P>, h: usize) -> bool {
    live(f, h) && nd(f, h).parent is None
}

/// `s` with the item at `at` taken out and the last item moved into its
/// place.
pub open spec fn without(s: Seq<usize>, at: int) -> Seq<usize> {
    s.update(at, s.last()).drop_last()
}

/// Taking an item out of a list without repeats leaves the other items,
/// each once.
pub proof fn lemma_without(s: Seq<usize>, at: int)
    requires
        s.no_duplicates(),
        0 <= at < s.len(),
    ensures
        without(s, at).no_duplicates(),
        without(s, at).len() == s.len() - 1,
        forall|x: usize| #[trigger] without(s, at).contains(x) <==> (s.contains(x) && x != s[at]),
{
    let r = without(s, at);
    assert forall|x: usize| #[trigger] r.contains(x) implies s.contains(x) && x != s[at] by {
        let k = choose|k: int| 0 <= k < r.len() && r[k] == x;
        if k == at {
            assert(s[s.len() - 1] == x);
        } else {
            assert(s[k] == x);
        }
    }
    assert forall|x: usize| s.contains(x) && x != s[at] implies #[trigger] r.contains(x) by {
        let k = choose|k: int| 0 <= k < s.len() && s[k] == x;
        if k == s.len() - 1 {
            assert(r[at] == x);
        } else {
            assert(r[k] == x);
        }
    }
}

/// Appending an item that a list without repeats does not hold keeps it
/// without repeats.
pub proof fn lemma_push_fresh(s: Seq<usize>, x: usize)
    requires
        s.no_duplicates(),
        !s.contains(x),
    ensures
        s.push(x).no_duplicates(),
        forall|y: usize| #[trigger] s.push(x).contains(y) <==> (s.contains(y) || y == x),
{
    let r = s.push(x);
    assert forall|y: usize| #[trigger] r.contains(y) implies s.contains(y) || y == x by {
        let k = choose|k: int| 0 <= k < r.len() && r[k] == y;
        if k < s.len() {
            assert(s[k] == y);
        }
    }
    assert forall|y: usize| s.contains(y) || y == x implies #[trigger] r.contains(y) by {
        if y == x {
            assert(r[s.len() as int] == y);
        } else {
            let k = choose|k: int| 0 <= k < s.len() && s[k] == y;
            assert(r[k] == y);
        }
    }
    assert forall|i: int, j: int| 0 <= i < r.len() && 0 <= j < r.len() && i != j implies r[i]
        != r[j] by {
        if i == s.len() {
            assert(s.contains(r[j]));
        }
        if j == s.len() {
            assert(s.contains(r[i]));
        }
    }
}

/// A node without a parent is its own chain.
pub proof fn lemma_root_chain<T, P: Ord>(f: Forest<T, P>, paths: spec_fn(usize) -> Seq<usize>, h: usize)
    requires
        paths_ok(f, paths),
        live(f, h),
        nd(f, h).parent is None,
    ensures
        paths(h) =~= seq![h],
{
    assert(chain_ok(f, paths, h));
    let p = paths(h);
    if p.len() >= 2 {
        assert(nd(f, p[p.len() - 1]).parent == Some(p[p.len() - 2]));
    }
}

/// A node with a parent is neither its parent nor its parent's parent, and
/// is not on its parent's chain.
pub proof fn lemma_parent_apart<T, P: Ord>(f: Forest<T, P>, paths: spec_fn(usize) -> Seq<usize>, c: usize)
    requires
        links_ok(f),
        paths_ok(f, paths),
        live(f, c),
        nd(f, c).parent is Some,
    ensures
        ({
            let p = nd(f, c).parent->0;
            &&& live(f, p)
            &&& p != c
            &&& nd(f, p).parent != Some(c)
            &&& nd(f, p).parent != Some(p)
            &&& !paths(p).contains(c)
            &&& paths(c) == paths(p).push(c)
            &&& nd(f, p).children.contains(c)
        }),
{
    let p = nd(f, c).parent->0;
    assert(node_ok(f, c));
    assert(chain_ok(f, paths, c));
    assert(chain_ok(f, paths, p));
    let pc = paths(c);
    let pp = paths(p);
    if pp.contains(c) {
        let k = choose|k: int| 0 <= k < pp.len() && pp[k] == c;
        assert(pc[k] == c);
        assert(pc[pc.len() - 1] == c);
    }
    if nd(f, p).parent == Some(c) {
        assert(pp == pc.push(p));
    }
}

/// The arena after node `c` has been taken from its parent's children and
/// has lost its parent.
pub open spec fn detached<T, P: Ord>(f: Forest<T, P>, c: usize) -> Forest<T, P> {
    let p = nd(f, c).parent->0;
    let ch = nd(f, p).children;
    f.update(
        p as int,
        Some(NodeView { children: without(ch, ch.index_of_first(c)->0), ..nd(f, p) }),
    ).update(c as int, Some(NodeView { parent: None, ..nd(f, c) }))
}

/// The chains after `c` has become a root: a chain through `c` now starts
/// there.
pub open spec fn paths_cut(paths: spec_fn(usize) -> Seq<usize>, c: usize) -> spec_fn(
    usize,
) -> Seq<usize> {
    |x: usize|
        {
            let p = paths(x);
            if p.contains(c) {
                p.skip(p.index_of(c))
            } else {
                p
            }
        }
}

/// A detached node leaves the links in order.
proof fn lemma_detach_links<T, P: Ord>(f: Forest<T, P>, paths: spec_fn(usize) -> Seq<usize>, c: usize)
    requires
        links_ok(f),
        paths_ok(f, paths),
        live(f, c),
        nd(f, c).parent is Some,
    ensures
        links_ok(detached(f, c)),
        keeps_roots(f, detached(f, c)),
        rootlike(detached(f, c), c),
        detached(f, c).len() == f.len(),
        nd(detached(f, c), nd(f, c).parent->0).children.len() == nd(
            f,
            nd(f, c).parent->0,
        ).children.len() - 1,
        entries(detached(f, c)) =~= entries(f),
{
    let g = detached(f, c);
    let paths2 = paths_cut(paths, c);
    let p = nd(f, c).parent->0;
    let ch = nd(f, p).children;
    lemma_parent_apart(f, paths, c);
    assert(node_ok(f, c));
    assert(node_ok(f, p));
    ch.index_of_first_ensures(c);
    let at = ch.index_of_first(c)->0;
    lemma_without(ch, at);
    let ch2 = without(ch, at);
    assert(nd(g, p).children == ch2);
    assert(nd(g, c).children == nd(f, c).children);
    assert forall|x: usize| live(g, x) implies #[trigger] node_ok(g, x) by {
        assert(live(f, x));
        assert(node_ok(f, x));
        if x == p {
            assert forall|cc: usize| #[trigger] nd(g, x).children.contains(cc) implies live(g, cc)
                && nd(g, cc).parent == Some(x) by {
                assert(ch.contains(cc));
            }
        } else {
            assert(nd(g, x).children == nd(f, x).children);
            if x != c {
                if nd(f, x).parent == Some(p) {
                    assert(ch2.contains(x));
                }
            }
        }
    }
}

/// A detached node starts the chains that went through it.
proof fn lemma_detach_paths<T, P: Ord>(f: Forest<T, P>, paths: spec_fn(usize) -> Seq<usize>, c: usize)
    requires
        links_ok(f),
        paths_ok(f, paths),
        live(f, c),
        nd(f, c).parent is Some,
    ensures
        paths_ok(detached(f, c), paths_cut(paths, c)),
        paths_cut(paths, c)(nd(f, c).parent->0) == paths(nd(f, c).parent->0),
        paths(nd(f, c).parent->0).len() < paths(c).len(),
{
    let g = detached(f, c);
    let paths2 = paths_cut(paths, c);
    let p = nd(f, c).parent->0;
    let ch = nd(f, p).children;
    lemma_parent_apart(f, paths, c);
    assert(node_ok(f, c));
    assert(node_ok(f, p));
    ch.index_of_first_ensures(c);
    let at = ch.index_of_first(c)->0;
    lemma_without(ch, at);
    let ch2 = without(ch, at);
    assert(nd(g, p).children == ch2);
    assert(nd(g, c).children == nd(f, c).children);
    assert forall|x: usize| live(g, x) implies #[trigger] chain_ok(g, paths2, x) by {
        assert(live(f, x));
        assert(chain_ok(f, paths, x));
        assert(node_ok(f, x));
        let px = paths(x);
        if px.contains(c) {
            let k = px.index_of(c);
            let q = px.skip(k);
            assert(paths2(x) == q);
            assert forall|j: int| 0 <= j < q.len() implies live(g, #[trigger] q[j]) && le(nd(g, q[j]).priority, nd(g, x).priority) && (j >= 1 ==> nd(g, q[j]).parent == Some(
                q[j - 1],
            )) by {
                assert(q[j] == px[k + j]);
                assert(live(f, px[k + j]));
                if j >= 1 {
                    assert(px[k + j] != px[k]);
                    assert(q[j - 1] == px[k + j - 1]);
                }
            }
            assert(q[0] == c);
            if x != c {
                let pa = nd(f, x).parent->0;
                let pq = paths(pa);
                assert(px == pq.push(x));
                assert(pq[k] == c);
                let k2 = pq.index_of(c);
                assert(px[k2] == c);
                assert(k2 == k);
                assert(paths2(pa) == pq.skip(k));
                assert(q =~= pq.skip(k).push(x));
            }
        } else {
            assert forall|j: int| 0 <= j < px.len() implies live(g, #[trigger] px[j]) && le(nd(g, px[j]).priority, nd(g, x).priority) && nd(g, px[j]).parent == nd(f, px[j]).parent by {
                assert(live(f, px[j]));
                assert(px[j] != c);
            }
            assert(px[px.len() - 1] == x);
            if nd(f, x).parent is Some {
                let pa = nd(f, x).parent->0;
                let pq = paths(pa);
                if pq.contains(c) {
                    let k2 = choose|k2: int| 0 <= k2 < pq.len() && pq[k2] == c;
                    assert(px[k2] == c);
                }
            }
        }
    }
    assert(!paths(p).contains(c));
}

/// A detached node is one more root, of no lower priority than the least.
proof fn lemma_detach_roots<T, P: Ord>(
    f: Forest<T, P>,
    paths: spec_fn(usize) -> Seq<usize>,
    roots: Seq<usize>,
    first: Option<usize>,
    free: Seq<usize>,
    c: usize,
)
    requires
        links_ok(f),
        paths_ok(f, paths),
        roots_ok(f, roots),
        first_ok(f, roots, first),
        free_ok(f, free),
        live(f, c),
        nd(f, c).parent is Some,
    ensures
        roots_ok(detached(f, c), roots.push(c)),
        first_ok(detached(f, c), roots.push(c), first),
        free_ok(detached(f, c), free),
{
    let g = detached(f, c);
    let paths2 = paths_cut(paths, c);
    let p = nd(f, c).parent->0;
    let ch = nd(f, p).children;
    lemma_parent_apart(f, paths, c);
    assert(node_ok(f, c));
    assert(node_ok(f, p));
    ch.index_of_first_ensures(c);
    let at = ch.index_of_first(c)->0;
    lemma_without(ch, at);
    let ch2 = without(ch, at);
    assert(nd(g, p).children == ch2);
    assert(nd(g, c).children == nd(f, c).children);
    assert(!roots.contains(c)) by {
        if roots.contains(c) {
            let k = choose|k: int| 0 <= k < roots.len() && roots[k] == c;
            assert(live(f, roots[k]));
        }
    }
    lemma_push_fresh(roots, c);
    let roots2 = roots.push(c);
    assert forall|k: int| 0 <= k < roots2.len() implies live(g, #[trigger] roots2[k]) && nd(
        g,
        roots2[k],
    ).parent is None by {
        if k < roots.len() {
            assert(live(f, roots[k]));
        }
    }
    assert(chain_ok(f, paths, c));
    let r = paths(c)[0];
    assert(live(f, r));
    assert(roots.contains(r));
    if let Some(m) = first {
        let kr = choose|k: int| 0 <= k < roots.len() && roots[k] == r;
        assert(le(nd(f, m).priority, nd(f, roots[kr]).priority));
        assert forall|k: int| 0 <= k < roots2.len() implies le(nd(g, m).priority, nd(g, #[trigger] roots2[k]).priority) by {
            if k < roots.len() {
                assert(live(f, roots[k]));
                assert(le(nd(f, m).priority, nd(f, roots[k]).priority));
            }
        }
    }
    assert forall|h: usize| h < g.len() && !live(g, h) implies #[trigger] free.contains(h) by {
        assert(!live(f, h));
    }
    assert forall|k: int| 0 <= k < free.len() implies #[trigger] free[k] < g.len() && !live(
        g,
        free[k],
    ) by {
        assert(!live(f, free[k]));
    }
}

/// Detaching a node from its parent makes it one more root and keeps the
/// forest in order.
pub proof fn lemma_detach<T, P: Ord>(
    f: Forest<T, P>,
    paths: spec_fn(usize) -> Seq<usize>,
    roots: Seq<usize>,
    first: Option<usize>,
    free: Seq<usize>,
    c: usize,
)
    requires
        links_ok(f),
        paths_ok(f, paths),
        roots_ok(f, roots),
        first_ok(f, roots, first),
        free_ok(f, free),
        live(f, c),
        nd(f, c).parent is Some,
    ensures
        links_ok(detached(f, c)),
        paths_ok(detached(f, c), paths_cut(paths, c)),
        roots_ok(detached(f, c), roots.push(c)),
        first_ok(detached(f, c), roots.push(c), first),
        free_ok(detached(f, c), free),
        entries(detached(f, c)) =~= entries(f),
        keeps_roots(f, detached(f, c)),
        rootlike(detached(f, c), c),
        detached(f, c).len() == f.len(),
        nd(detached(f, c), nd(f, c).parent->0).children.len() == nd(
            f,
            nd(f, c).parent->0,
        ).children.len() - 1,
        paths_cut(paths, c)(nd(f, c).parent->0) == paths(nd(f, c).parent->0),
        paths(nd(f, c).parent->0).len() < paths(c).len(),
{
    lemma_detach_links(f, paths, c);
    lemma_detach_paths(f, paths, c);
    lemma_detach_roots(f, paths, roots, first, free, c);
}

/// The arena after the parentless node `b` has become the last child of
/// the parentless node `a`, which loses its mark.
pub open spec fn linked<T, P: Ord>(f: Forest<T, P>, a: usize, b: usize) -> Forest<T, P> {
    f.update(
        a as int,
        Some(NodeView { children: nd(f, a).children.push(b), marked: false, ..nd(f, a) }),
    ).update(b as int, Some(NodeView { parent: Some(a), ..nd(f, b) }))
}

/// The chains after the tree of `b` has been put under `a`.
pub open spec fn paths_under(paths: spec_fn(usize) -> Seq<usize>, a: usize, b: usize) -> spec_fn(
    usize,
) -> Seq<usize> {
    |x: usize|
        {
            let p = paths(x);
            if p[0] == b {
                seq![a] + p
            } else {
                p
            }
        }
}

/// Linking two trees under the root of lesser or equal priority keeps the
/// forest in order.
pub proof fn lemma_link<T, P: Ord>(
    f: Forest<T, P>,
    paths: spec_fn(usize) -> Seq<usize>,
    free: Seq<usize>,
    a: usize,
    b: usize,
)
    requires
        links_ok(f),
        paths_ok(f, paths),
        free_ok(f, free),
        live(f, a),
        live(f, b),
        a != b,
        nd(f, a).parent is None,
        nd(f, b).parent is None,
        le(nd(f, a).priority, nd(f, b).priority),
    ensures
        links_ok(linked(f, a, b)),
        paths_ok(linked(f, a, b), paths_under(paths, a, b)),
        free_ok(linked(f, a, b), free),
        entries(linked(f, a, b)) =~= entries(f),
{
    let g = linked(f, a, b);
    let paths2 = paths_under(paths, a, b);
    let ch = nd(f, a).children;
    assert(node_ok(f, a));
    assert(node_ok(f, b));
    lemma_root_chain(f, paths, a);
    lemma_root_chain(f, paths, b);
    assert(!ch.contains(b));
    lemma_push_fresh(ch, b);
    assert(nd(g, a).children == ch.push(b));
    assert forall|x: usize| live(g, x) implies #[trigger] node_ok(g, x) by {
        assert(live(f, x));
        assert(node_ok(f, x));
        if x == a {
            assert forall|cc: usize| #[trigger] nd(g, x).children.contains(cc) implies live(g, cc)
                && nd(g, cc).parent == Some(x) by {
                if cc != b {
                    assert(ch.contains(cc));
                }
            }
        } else {
            assert(nd(g, x).children == nd(f, x).children);
            if x != b {
                if nd(f, x).parent == Some(a) {
                    assert(ch.push(b).contains(x));
                }
            }
        }
    }
    assert forall|x: usize| live(g, x) implies #[trigger] chain_ok(g, paths2, x) by {
        assert(live(f, x));
        assert(chain_ok(f, paths, x));
        assert(node_ok(f, x));
        let px = paths(x);
        assert(live(f, px[0]));
        if px[0] == b {
            let q = seq![a] + px;
            assert(paths2(x) == q);
            assert forall|j: int| 0 <= j < q.len() implies live(g, #[trigger] q[j]) && le(nd(g, q[j]).priority, nd(g, x).priority) && (j >= 1 ==> nd(g, q[j]).parent == Some(
                q[j - 1],
            )) by {
                if j >= 1 {
                    assert(q[j] == px[j - 1]);
                    assert(live(f, px[j - 1]));
                    if j >= 2 {
                        assert(q[j - 1] == px[j - 2]);
                        assert(nd(f, px[j - 1]).parent == Some(px[j - 2]));
                    }
                }
            }
            assert forall|i: int, j: int| 0 <= i < q.len() && 0 <= j < q.len() && i != j implies q[i]
                != q[j] by {
                if i >= 1 && j >= 1 {
                    assert(px[i - 1] != px[j - 1]);
                } else if i >= 1 {
                    assert(q[i] == px[i - 1]);
                    if i >= 2 {
                        assert(nd(f, px[i - 1]).parent == Some(px[i - 2]));
                    }
                } else {
                    assert(q[j] == px[j - 1]);
                    if j >= 2 {
                        assert(nd(f, px[j - 1]).parent == Some(px[j - 2]));
                    }
                }
            }
            if x != b {
                let pa = nd(f, x).parent->0;
                let pq = paths(pa);
                assert(chain_ok(f, paths, pa));
                assert(px == pq.push(x));
                assert(pq[0] == b);
                assert(q =~= (seq![a] + pq).push(x));
            } else {
                assert(q =~= seq![a].push(b));
            }
        } else {
            assert forall|j: int| 0 <= j < px.len() implies live(g, #[trigger] px[j]) && le(nd(g, px[j]).priority, nd(g, x).priority) && nd(g, px[j]).parent == nd(f, px[j]).parent by {
                assert(live(f, px[j]));
                if j >= 1 {
                    assert(nd(f, px[j]).parent == Some(px[j - 1]));
                }
            }
            assert(px[px.len() - 1] == x);
            if nd(f, x).parent is Some {
                let pa = nd(f, x).parent->0;
                assert(chain_ok(f, paths, pa));
                assert(px == paths(pa).push(x));
                assert(paths(pa)[0] == px[0]);
            }
        }
    }
    assert forall|h: usize| h < g.len() && !live(g, h) implies #[trigger] free.contains(h) by {
        assert(!live(f, h));
    }
    assert forall|k: int| 0 <= k < free.len() implies #[trigger] free[k] < g.len() && !live(
        g,
        free[k],
    ) by {
        assert(!live(f, free[k]));
    }
}

/// Taking out a root without children keeps the forest in order and takes
/// its pair out of the contents.
pub proof fn lemma_release<T, P: Ord>(
    f: Forest<T, P>,
    paths: spec_fn(usize) -> Seq<usize>,
    roots: Seq<usize>,
    free: Seq<usize>,
    m: usize,
)
    requires
        links_ok(f),
        paths_ok(f, paths),
        roots_ok(f, roots),
        free_ok(f, free),
        live(f, m),
        nd(f, m).parent is None,
        nd(f, m).children.len() == 0,
    ensures
        roots.index_of_first(m) is Some,
        0 <= roots.index_of_first(m)->0 < roots.len(),
        links_ok(f.update(m as int, None)),
        paths_ok(f.update(m as int, None), paths),
        roots_ok(f.update(m as int, None), without(roots, roots.index_of_first(m)->0)),
        free_ok(f.update(m as int, None), free.push(m)),
        bag(entries(f)).count((nd(f, m).value, nd(f, m).priority)) > 0,
        bag(entries(f.update(m as int, None))) =~= bag(entries(f)).remove(
            (nd(f, m).value, nd(f, m).priority),
        ),
{
    let g = f.update(m as int, None);
    assert(roots.contains(m));
    roots.index_of_first_ensures(m);
    let at = roots.index_of_first(m)->0;
    lemma_without(roots, at);
    let roots2 = without(roots, at);
    assert(entries(g) =~= entries(f).update(m as int, None));
    lemma_bag_update(entries(f), m as int, None);
    lemma_bag_at(entries(f), m as int);
    assert(node_ok(f, m));
    assert forall|x: usize| live(g, x) implies #[trigger] node_ok(g, x) by {
        assert(live(f, x));
        assert(node_ok(f, x));
    }
    assert forall|x: usize| live(g, x) implies #[trigger] chain_ok(g, paths, x) by {
        assert(live(f, x));
        assert(chain_ok(f, paths, x));
        assert(node_ok(f, x));
        let px = paths(x);
        assert forall|j: int| 0 <= j < px.len() implies #[trigger] px[j] != m by {
            if px[j] == m {
                if j < px.len() - 1 {
                    assert(live(f, px[j + 1]));
                    assert(node_ok(f, px[j + 1]));
                    assert(nd(f, px[j + 1]).parent == Some(px[j]));
                }
            }
        }
        assert forall|j: int| 0 <= j < px.len() implies live(g, #[trigger] px[j]) by {
            assert(live(f, px[j]));
            assert(px[j] != m);
        }
    }
    assert forall|k: int| 0 <= k < roots2.len() implies live(g, #[trigger] roots2[k]) && nd(
        g,
        roots2[k],
    ).parent is None by {
        assert(roots2.contains(roots2[k]));
        let y = roots2[k];
        assert(roots.contains(y));
        let k0 = choose|k0: int| 0 <= k0 < roots.len() && roots[k0] == y;
        assert(live(f, roots[k0]));
    }
    assert forall|h: usize| live(g, h) && nd(g, h).parent is None implies #[trigger]
        roots2.contains(h) by {
        assert(live(f, h));
        assert(roots.contains(h));
    }
    assert(!free.contains(m)) by {
        if free.contains(m) {
            let k = choose|k: int| 0 <= k < free.len() && free[k] == m;
            assert(!live(f, free[k]));
        }
    }
    lemma_push_fresh(free, m);
    let free2 = free.push(m);
    assert forall|k: int| 0 <= k < free2.len() implies #[trigger] free2[k] < g.len() && !live(
        g,
        free2[k],
    ) by {
        if k < free.len() {
            assert(!live(f, free[k]));
        }
    }
    assert forall|h: usize| h < g.len() && !live(g, h) implies #[trigger] free2.contains(h) by {
        if h != m {
            assert(!live(f, h));
            assert(free.contains(h));
        }
    }
}

/// Which node is least after the priority of `h` has gone down to `new`.
pub open spec fn first_after<T, P: Ord>(f: Forest<T, P>, first: Option<usize>, h: usize, new: P) -> Option<
    usize,
> {
    match first {
        Some(m) => if lt(new, nd(f, m).priority) {
            Some(h)
        } else {
            first
        },
        None => first,
    }
}

/// Lowering the priority of a node to no less than its parent's keeps the
/// forest in order and replaces its pair in the contents.
pub proof fn lemma_lower<T, P: Ord>(
    f: Forest<T, P>,
    paths: spec_fn(usize) -> Seq<usize>,
    roots: Seq<usize>,
    first: Option<usize>,
    free: Seq<usize>,
    h: usize,
    new: P,
)
    requires
        links_ok(f),
        paths_ok(f, paths),
        roots_ok(f, roots),
        first_ok(f, roots, first),
        free_ok(f, free),
        live(f, h),
        le(new, nd(f, h).priority),
        nd(f, h).parent matches Some(p) ==> le(nd(f, p).priority, new),
    ensures
        ({
            let g = f.update(h as int, Some(NodeView { priority: new, ..nd(f, h) }));
            &&& links_ok(g)
            &&& paths_ok(g, paths)
            &&& roots_ok(g, roots)
            &&& first_ok(g, roots, first_after(f, first, h, new))
            &&& free_ok(g, free)
            &&& bag(entries(f)).count((nd(f, h).value, nd(f, h).priority)) > 0
            &&& bag(entries(g)) =~= bag(entries(f)).remove(
                (nd(f, h).value, nd(f, h).priority),
            ).insert((nd(f, h).value, new))
        }),
{
    let g = f.update(h as int, Some(NodeView { priority: new, ..nd(f, h) }));
    let e = Some((nd(f, h).value, new));
    assert(entries(g) =~= entries(f).update(h as int, e));
    lemma_bag_update(entries(f), h as int, e);
    lemma_bag_at(entries(f), h as int);
    assert(node_ok(f, h));
    assert(chain_ok(f, paths, h));
    assert forall|x: usize| live(g, x) implies #[trigger] node_ok(g, x) by {
        assert(live(f, x));
        assert(node_ok(f, x));
        assert(nd(g, x).children == nd(f, x).children);
        assert forall|cc: usize| #[trigger] nd(g, x).children.contains(cc) implies live(g, cc)
            && nd(g, cc).parent == Some(x) by {
            assert(nd(f, x).children.contains(cc));
        }
    }
    assert forall|x: usize| live(g, x) implies #[trigger] chain_ok(g, paths, x) by {
        assert(live(f, x));
        assert(chain_ok(f, paths, x));
        let px = paths(x);
        assert forall|j: int| 0 <= j < px.len() implies live(g, #[trigger] px[j]) && le(nd(g, px[j]).priority, nd(g, x).priority) && nd(g, px[j]).parent == nd(f, px[j]).parent by {
            assert(live(f, px[j]));
            if x == h && j < px.len() - 1 {
                let pa = nd(f, h).parent->0;
                if nd(f, h).parent is None {
                    lemma_root_chain(f, paths, h);
                }
                assert(chain_ok(f, paths, pa));
                assert(px == paths(pa).push(h));
                assert(px[j] == paths(pa)[j]);
            }
        }
    }
    assert forall|k: int| 0 <= k < roots.len() implies live(g, #[trigger] roots[k]) && nd(
        g,
        roots[k],
    ).parent is None by {
        assert(live(f, roots[k]));
    }
    assert forall|y: usize| live(g, y) && nd(g, y).parent is None implies #[trigger]
        roots.contains(y) by {
        assert(live(f, y));
    }
    if let Some(m) = first {
        let r = paths(h)[0];
        assert(live(f, r));
        assert(roots.contains(r));
        let kr = choose|k: int| 0 <= k < roots.len() && roots[k] == r;
        assert(le(nd(f, m).priority, nd(f, roots[kr]).priority));
        if nd(f, h).parent is Some {
            let pa = nd(f, h).parent->0;
            assert(chain_ok(f, paths, pa));
            assert(paths(h) == paths(pa).push(h));
            assert(paths(pa)[0] == r);
        } else {
            lemma_root_chain(f, paths, h);
        }
        let m2 = first_after(f, first, h, new)->0;
        assert forall|k: int| 0 <= k < roots.len() implies le(nd(g, m2).priority, nd(g, #[trigger] roots[k]).priority) by {
            assert(live(f, roots[k]));
            assert(le(nd(f, m).priority, nd(f, roots[k]).priority));
        }
    }
    assert forall|y: usize| y < g.len() && !live(g, y) implies #[trigger] free.contains(y) by {
        assert(!live(f, y));
    }
    assert forall|k: int| 0 <= k < free.len() implies #[trigger] free[k] < g.len() && !live(
        g,
        free[k],
    ) by {
        assert(!live(f, free[k]));
    }
}

} // verus!
