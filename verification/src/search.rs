use crate::forest::{chain_ok, links_ok, live, nd, node_ok, paths_ok, roots_ok, Forest};
use crate::node::same_value;
use vstd::prelude::*;

verus! {

/// The node at `h` holds a value equal to `v`.
pub open spec fn holds<T: PartialEq, P: Ord>(f: Forest<T, P>, h: usize, v: T) -> bool {
    live(f, h) && same_value(nd(f, h).value, v)
}

/// The first node holding a value equal to `v` that a breadth-first walk
/// meets: the walk takes the nodes of `work` from the front, puts the
/// children of each at the back, and takes no more than `fuel` nodes.
pub open spec fn search<T: PartialEq, P: Ord>(f: Forest<T, P>, work: Seq<usize>, v: T, fuel: nat) -> Option<
    usize,
>
    decreases fuel,
{
    if work.len() == 0 || fuel == 0 {
        None
    } else if holds(f, work[0], v) {
        Some(work[0])
    } else {
        search(f, work.drop_first() + nd(f, work[0]).children, v, (fuel - 1) as nat)
    }
}

/// Node `x` has been seen, or it or one of its ancestors waits in `work`.
pub open spec fn covered(
    paths: spec_fn(usize) -> Seq<usize>,
    seen: Seq<usize>,
    work: Seq<usize>,
    x: usize,
) -> bool {
    seen.contains(x) || exists|j: int| 0 <= j < paths(x).len() && work.contains(#[trigger] paths(x)[j])
}

/// The state of a walk: no node is met twice, a node waits only once its
/// parent has been seen, and every node has been seen or is still to come.
pub open spec fn walk_ok<T, P: Ord>(
    f: Forest<T, P>,
    paths: spec_fn(usize) -> Seq<usize>,
    seen: Seq<usize>,
    work: Seq<usize>,
) -> bool {
    &&& (seen + work).no_duplicates()
    &&& forall|k: int|
        0 <= k < (seen + work).len() ==> live(f, #[trigger] (seen + work)[k]) && (nd(
            f,
            (seen + work)[k],
        ).parent matches Some(p) ==> seen.contains(p))
    &&& forall|x: usize| live(f, x) ==> #[trigger] covered(paths, seen, work, x)
}

/// A list of different numbers below `n` has no more than `n` items.
pub proof fn lemma_pigeon(s: Seq<usize>, n: nat)
    requires
        s.no_duplicates(),
        forall|i: int| 0 <= i < s.len() ==> s[i] < n,
        n <= usize::MAX + 1,
    ensures
        s.len() <= n,
    decreases n,
{
    if n == 0 {
        if s.len() > 0 {
            assert(s[0] < n);
        }
    } else {
        let top = (n - 1) as usize;
        if s.contains(top) {
            let k = choose|k: int| 0 <= k < s.len() && s[k] == top;
            let t = s.remove(k);
            assert forall|i: int| 0 <= i < t.len() implies t[i] < n - 1 by {
                if i < k {
                    assert(t[i] == s[i]);
                } else {
                    assert(t[i] == s[i + 1]);
                }
            }
            lemma_pigeon(t, (n - 1) as nat);
        } else {
            assert forall|i: int| 0 <= i < s.len() implies s[i] < n - 1 by {
                assert(s.contains(s[i]));
            }
            lemma_pigeon(s, (n - 1) as nat);
        }
    }
}

/// One step of the walk keeps it in order.
proof fn lemma_walk_step<T, P: Ord>(
    f: Forest<T, P>,
    paths: spec_fn(usize) -> Seq<usize>,
    seen: Seq<usize>,
    work: Seq<usize>,
)
    requires
        links_ok(f),
        paths_ok(f, paths),
        walk_ok(f, paths, seen, work),
        work.len() > 0,
    ensures
        live(f, work[0]),
        walk_ok(f, paths, seen.push(work[0]), work.drop_first() + nd(f, work[0]).children),
{
    let h = work[0];
    let u = seen + work;
    assert(u[seen.len() as int] == h);
    assert(live(f, u[seen.len() as int]));
    assert(node_ok(f, h));
    let ch = nd(f, h).children;
    let seen2 = seen.push(h);
    let work2 = work.drop_first() + ch;
    let u2 = seen2 + work2;
    assert(u2 =~= u + ch);
    assert(!seen.contains(h)) by {
        if seen.contains(h) {
            let i = choose|i: int| 0 <= i < seen.len() && seen[i] == h;
            assert(u[i] == h);
        }
    }
    assert forall|k: int| 0 <= k < u2.len() implies live(f, #[trigger] u2[k]) && (nd(
        f,
        u2[k],
    ).parent matches Some(p) ==> seen2.contains(p)) by {
        if k < u.len() {
            assert(u2[k] == u[k]);
            assert(live(f, u[k]));
            if let Some(p) = nd(f, u[k]).parent {
                assert(seen.contains(p));
                let i = choose|i: int| 0 <= i < seen.len() && seen[i] == p;
                assert(seen2[i] == p);
            }
        } else {
            assert(u2[k] == ch[k - u.len()]);
            assert(ch.contains(u2[k]));
            assert(seen2[seen.len() as int] == h);
        }
    }
    assert forall|i: int, j: int| 0 <= i < u2.len() && 0 <= j < u2.len() && i != j implies u2[i]
        != u2[j] by {
        if i < u.len() && j < u.len() {
            assert(u2[i] == u[i] && u2[j] == u[j]);
        } else if i >= u.len() && j >= u.len() {
            assert(u2[i] == ch[i - u.len()] && u2[j] == ch[j - u.len()]);
        } else {
            let (a, b) = if i < u.len() {
                (i, j)
            } else {
                (j, i)
            };
            assert(u2[a] == u[a]);
            assert(u2[b] == ch[b - u.len()]);
            assert(ch.contains(u2[b]));
            if u[a] == u2[b] {
                assert(nd(f, u[a]).parent == Some(h));
                assert(seen.contains(h));
            }
        }
    }
    assert forall|x: usize| live(f, x) implies #[trigger] covered(paths, seen2, work2, x) by {
        assert(covered(paths, seen, work, x));
        if seen.contains(x) {
            let i = choose|i: int| 0 <= i < seen.len() && seen[i] == x;
            assert(seen2[i] == x);
        } else {
            let px = paths(x);
            let j = choose|j: int| 0 <= j < px.len() && work.contains(#[trigger] px[j]);
            let i = choose|i: int| 0 <= i < work.len() && work[i] == px[j];
            assert(chain_ok(f, paths, x));
            if i >= 1 {
                assert(work2[i - 1] == px[j]);
                assert(work2.contains(px[j]));
            } else if j == px.len() - 1 {
                assert(seen2[seen.len() as int] == x);
            } else {
                let y = px[j + 1];
                assert(live(f, y));
                assert(nd(f, y).parent == Some(px[j]));
                assert(node_ok(f, y));
                assert(ch.contains(y));
                let c = choose|c: int| 0 <= c < ch.len() && ch[c] == y;
                assert(work2[work.len() - 1 + c] == y);
                assert(work2.contains(px[j + 1]));
            }
        }
    }
}

/// A walk with fuel enough for the nodes not yet seen finds a node that
/// holds the value wherever there is one.
pub proof fn lemma_search<T: PartialEq, P: Ord>(
    f: Forest<T, P>,
    paths: spec_fn(usize) -> Seq<usize>,
    seen: Seq<usize>,
    work: Seq<usize>,
    v: T,
    fuel: nat,
)
    requires
        links_ok(f),
        paths_ok(f, paths),
        walk_ok(f, paths, seen, work),
        forall|k: int| 0 <= k < seen.len() ==> !holds(f, #[trigger] seen[k], v),
        fuel + seen.len() >= f.len(),
    ensures
        match search(f, work, v, fuel) {
            Some(h) => holds(f, h, v),
            None => forall|x: usize| !#[trigger] holds(f, x, v),
        },
    decreases fuel,
{
    if work.len() == 0 {
        assert forall|x: usize| !#[trigger] holds(f, x, v) by {
            if live(f, x) {
                assert(covered(paths, seen, work, x));
                let k = choose|k: int| 0 <= k < seen.len() && seen[k] == x;
                assert(!holds(f, seen[k], v));
            }
        }
    } else if fuel == 0 {
        let u = seen + work;
        assert forall|i: int| 0 <= i < u.len() implies u[i] < f.len() by {
            assert(live(f, u[i]));
        }
        lemma_pigeon(u, f.len());
    } else {
        let h = work[0];
        lemma_walk_step(f, paths, seen, work);
        if !holds(f, h, v) {
            let seen2 = seen.push(h);
            let work2 = work.drop_first() + nd(f, h).children;
            assert forall|k: int| 0 <= k < seen2.len() implies !holds(f, #[trigger] seen2[k], v) by {
                if k < seen.len() {
                    assert(seen2[k] == seen[k]);
                }
            }
            lemma_search(f, paths, seen2, work2, v, (fuel - 1) as nat);
        }
    }
}

/// A walk from the roots, with as much fuel as the arena has slots, finds
/// a node that holds the value wherever there is one.
pub proof fn lemma_search_roots<T: PartialEq, P: Ord>(
    f: Forest<T, P>,
    paths: spec_fn(usize) -> Seq<usize>,
    roots: Seq<usize>,
    v: T,
)
    requires
        links_ok(f),
        paths_ok(f, paths),
        roots_ok(f, roots),
    ensures
        match search(f, roots, v, f.len()) {
            Some(h) => holds(f, h, v),
            None => forall|x: usize| !#[trigger] holds(f, x, v),
        },
{
    let seen = Seq::<usize>::empty();
    assert(seen + roots =~= roots);
    assert forall|x: usize| live(f, x) implies #[trigger] covered(paths, seen, roots, x) by {
        assert(chain_ok(f, paths, x));
        let r = paths(x)[0];
        assert(live(f, r));
        assert(roots.contains(r));
    }
    lemma_search(f, paths, seen, roots, v, f.len());
}

} // verus!
