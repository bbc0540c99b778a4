use crate::error::Error;
use crate::order::{le, lower, lt, no_higher, ordered};
use core::cmp::Ordering;
use vstd::prelude::*;
use vstd::std_specs::cmp::{PartialEqSpec, PartialOrdSpec, PartialOrdSpecImpl};

verus! {

/// What a node is, as plain values: its payload, its links to other nodes
/// (by handle) and its mark.
pub struct NodeView<T, P> {
    pub value: T,
    pub priority: P,
    pub parent: Option<usize>,
    pub children: Seq<usize>,
    pub marked: bool,
}

/// Whether `==` on `T` is known to compute [`same_value`].
pub open spec fn eq_is_specified<T: PartialEq>() -> bool {
    T::obeys_eq_spec()
}

/// What `==` on `T` means for two values.
pub open spec fn same_value<T: PartialEq>(a: T, b: T) -> bool {
    a.eq_spec(&b)
}

/// The operations of a heap node. Links to other nodes are handles into the
/// arena of the queue that owns the node.
pub trait NPrpt<T: PartialEq, P: Ord>: Sized {
    /// The node as plain values.
    spec fn model(&self) -> NodeView<T, P>;

    /// A fresh node: no parent, no children, unmarked.
    fn new_node(t: T, priority: P) -> (node: Self)
        ensures
            node.model() == (NodeView {
                value: t,
                priority,
                parent: None,
                children: Seq::empty(),
                marked: false,
            }),
    ;

    /// Gives up the payload. Fails while the node is still linked to a
    /// parent or to children.
    fn pair(self) -> (r: Result<(T, P), Error>)
        ensures
            r == (if self.model().parent is None && self.model().children.len() == 0 {
                Ok::<(T, P), Error>((self.model().value, self.model().priority))
            } else {
                Err::<(T, P), Error>(Error::ImpossibleRelease)
            }),
    ;

    /* # values */
    fn has_higher_priority(&self, priority: &P) -> (r: bool)
        ensures
            ordered::<P>() ==> r == lt(*priority, self.model().priority),
    ;

    fn set_priority(&mut self, priority: P)
        ensures
            final(self).model() == (NodeView { priority, ..old(self).model() }),
    ;

    fn has_value(&self, t: &T) -> (r: bool)
        ensures
            eq_is_specified::<T>() ==> r == same_value(self.model().value, *t),
    ;

    /* # mark */
    fn mark(&mut self)
        ensures
            final(self).model() == (NodeView { marked: true, ..old(self).model() }),
    ;

    fn unmark(&mut self)
        ensures
            final(self).model() == (NodeView { marked: false, ..old(self).model() }),
    ;

    fn is_marked(&self) -> (r: bool)
        ensures
            r == self.model().marked,
    ;

    /* # parents */
    fn get_parent(&self) -> (r: Option<usize>)
        ensures
            r == self.model().parent,
    ;

    fn set_parent(&mut self, parent: usize)
        ensures
            final(self).model() == (NodeView { parent: Some(parent), ..old(self).model() }),
    ;

    fn remove_parent(&mut self)
        ensures
            final(self).model() == (NodeView { parent: None, ..old(self).model() }),
    ;

    /* # children */
    fn rank(&self) -> (r: usize)
        ensures
            r == self.model().children.len(),
    ;

    fn insert_child(&mut self, child: usize)
        ensures
            final(self).model() == (NodeView {
                children: old(self).model().children.push(child),
                ..old(self).model()
            }),
    ;

    /// Takes the first occurrence of `child` out of the child list; the last
    /// child moves into its place. Fails, changing nothing, where `child` is
    /// not among the children.
    fn remove_child(&mut self, child: usize) -> (r: Result<(), Error>)
        ensures
            match r {
                Ok(()) => {
                    let old_children = old(self).model().children;
                    let at = old_children.index_of_first(child);
                    &&& at is Some
                    &&& 0 <= at->0 < old_children.len()
                    &&& final(self).model() == (NodeView {
                        children: old_children.update(at->0, old_children.last()).drop_last(),
                        ..old(self).model()
                    })
                },
                Err(e) => {
                    &&& e == Error::InvalidIndex
                    &&& !old(self).model().children.contains(child)
                    &&& final(self).model() == old(self).model()
                },
            },
    ;

    fn get_children(&self) -> (r: Vec<usize>)
        ensures
            r@ == self.model().children,
    ;

    /// Empties the child list and hands it out.
    fn drain_children(&mut self) -> (r: Vec<usize>)
        ensures
            r@ == old(self).model().children,
            final(self).model() == (NodeView { children: Seq::empty(), ..old(self).model() }),
    ;

    /* # ops */
    /// Links two nodes, known to the arena as `me` and `them`: the one of
    /// lesser or equal priority becomes the parent (on a tie, `self`), gains
    /// the other as its last child and loses its mark. Returns whether
    /// `self` is the parent.
    fn link(&mut self, me: usize, other: &mut Self, them: usize) -> (r: bool)
        ensures
            ordered::<P>() ==> r == le(old(self).model().priority, old(other).model().priority),
            r ==> final(self).model() == (NodeView {
                children: old(self).model().children.push(them),
                marked: false,
                ..old(self).model()
            }) && final(other).model() == (NodeView { parent: Some(me), ..old(other).model() }),
            !r ==> final(other).model() == (NodeView {
                children: old(other).model().children.push(me),
                marked: false,
                ..old(other).model()
            }) && final(self).model() == (NodeView { parent: Some(them), ..old(self).model() }),
    ;
}

/// One cell of the forest: a value with its priority, the handle of its
/// parent, the handles of its children, and the mark of the cascading cut.
#[derive(PartialEq, Eq)]
pub struct NCore<T, P> {
    /// held value
    t: T,
    /// priority of the held value
    priority: P,
    /// parent node in the tree structure
    parent: Option<usize>,
    /// children in the tree structure
    children: Vec<usize>,
    /// flag for whether this node has lost any children already
    marked: bool,
}

impl<T: PartialEq, P: Ord> NCore<T, P> {
    /// create empty node
    pub fn new(t: T, priority: P) -> (node: Self)
        ensures
            node.model() == (NodeView {
                value: t,
                priority,
                parent: None,
                children: Seq::empty(),
                marked: false,
            }),
    {
        Self { t, priority, parent: None, children: Vec::new(), marked: false }
    }

    /// The priority of the held value.
    pub fn priority(&self) -> (p: &P)
        ensures
            *p == self.model().priority,
    {
        &self.priority
    }

    /// The first of the children, if there is any.
    pub fn first_child(&self) -> (c: Option<usize>)
        ensures
            c == (if self.model().children.len() > 0 {
                Some(self.model().children[0])
            } else {
                None
            }),
    {
        if self.children.len() > 0 {
            Some(self.children[0])
        } else {
            None
        }
    }

    /// destructure the node into parts relevant to the outside
    pub fn pair(self) -> (r: (T, P))
        ensures
            r == (self.model().value, self.model().priority),
    {
        (self.t, self.priority)
    }
}

impl<T: PartialEq, P: Ord> PartialOrd for NCore<T, P> {
    /// Nodes compare by priority only.
    fn partial_cmp(&self, other: &Self) -> (r: Option<Ordering>) {
        self.priority.partial_cmp(&other.priority)
    }
}

impl<T: PartialEq, P: Ord> PartialOrdSpecImpl for NCore<T, P> {
    open spec fn obeys_partial_cmp_spec() -> bool {
        P::obeys_partial_cmp_spec()
    }

    open spec fn partial_cmp_spec(&self, other: &Self) -> Option<Ordering> {
        self.model().priority.partial_cmp_spec(&other.model().priority)
    }
}

impl<T: PartialEq, P: Ord> NPrpt<T, P> for NCore<T, P> {
    closed spec fn model(&self) -> NodeView<T, P> {
        NodeView {
            value: self.t,
            priority: self.priority,
            parent: self.parent,
            children: self.children@,
            marked: self.marked,
        }
    }

    fn new_node(t: T, priority: P) -> (node: Self) {
        NCore::new(t, priority)
    }

    fn pair(self) -> (r: Result<(T, P), Error>) {
        if self.parent.is_none() && self.children.len() == 0 {
            Ok(NCore::pair(self))
        } else {
            Err(Error::ImpossibleRelease)
        }
    }

    fn has_higher_priority(&self, priority: &P) -> (r: bool) {
        lower(priority, &self.priority)
    }

    fn set_priority(&mut self, priority: P) {
        self.priority = priority;
    }

    fn has_value(&self, t: &T) -> (r: bool) {
        self.t == *t
    }

    fn mark(&mut self) {
        self.marked = true;
    }

    fn unmark(&mut self) {
        self.marked = false;
    }

    fn is_marked(&self) -> (r: bool) {
        self.marked
    }

    fn get_parent(&self) -> (r: Option<usize>) {
        self.parent
    }

    fn set_parent(&mut self, parent: usize) {
        self.parent = Some(parent);
    }

    fn remove_parent(&mut self) {
        self.parent = None;
    }

    fn rank(&self) -> (r: usize) {
        self.children.len()
    }

    fn insert_child(&mut self, child: usize) {
        self.children.push(child);
    }

    fn remove_child(&mut self, child: usize) -> (r: Result<(), Error>) {
        let mut i: usize = 0;
        while i < self.children.len()
            invariant
                i <= self.children.len(),
                *self == *old(self),
                forall|k: int| 0 <= k < i ==> self.children@[k] != child,
            decreases self.children.len() - i,
        {
            if self.children[i] == child {
                proof {
                    self.children@.index_of_first_ensures(child);
                }
                self.children.swap_remove(i);
                return Ok(());
            }
            i += 1;
        }
        proof {
            self.children@.index_of_first_ensures(child);
        }
        Err(Error::InvalidIndex)
    }

    fn get_children(&self) -> (r: Vec<usize>) {
        self.children.clone()
    }

    fn drain_children(&mut self) -> (r: Vec<usize>) {
        let mut out: Vec<usize> = Vec::new();
        core::mem::swap(&mut self.children, &mut out);
        out
    }

    fn link(&mut self, me: usize, other: &mut Self, them: usize) -> (r: bool) {
        if no_higher(&self.priority, &other.priority) {
            other.set_parent(me);
            self.insert_child(them);
            self.unmark();
            true
        } else {
            self.set_parent(them);
            other.insert_child(me);
            other.unmark();
            false
        }
    }
}

} // verus!
