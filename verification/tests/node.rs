use fbheap::error::Error;
use fbheap::node::{NCore, NPrpt};

#[test]
fn fresh_node_has_no_links_and_no_mark() {
    let node = NCore::new("a", 3);
    assert_eq!(node.get_parent(), None);
    assert_eq!(node.rank(), 0);
    assert_eq!(node.get_children(), Vec::<usize>::new());
    assert!(!node.is_marked());
    assert_eq!(*node.priority(), 3);
    assert_eq!(node.first_child(), None);
    assert_eq!(NCore::pair(node), ("a", 3));
}

#[test]
fn new_node_is_a_fresh_node() {
    let node: NCore<&str, u64> = NPrpt::new_node("a", 3);
    assert_eq!(node.get_parent(), None);
    assert_eq!(node.rank(), 0);
    assert!(!node.is_marked());
    assert_eq!(NPrpt::pair(node), Ok(("a", 3)));
}

#[test]
fn payload_of_a_linked_node_is_not_released() {
    let mut child = NCore::new("a", 3);
    child.set_parent(4);
    assert_eq!(NPrpt::pair(child), Err(Error::ImpossibleRelease));
    let mut parent = NCore::new("b", 1);
    parent.insert_child(9);
    assert_eq!(NPrpt::pair(parent), Err(Error::ImpossibleRelease));
}

#[test]
fn payload_is_released_once_the_links_are_gone() {
    let mut node = NCore::new("a", 3);
    node.set_parent(4);
    node.insert_child(9);
    node.remove_parent();
    assert_eq!(node.drain_children(), vec![9]);
    assert_eq!(NPrpt::pair(node), Ok(("a", 3)));
}

#[test]
fn priority_comparison_is_strict() {
    let mut node = NCore::new("a", 3);
    assert!(node.has_higher_priority(&2));
    assert!(!node.has_higher_priority(&3));
    assert!(!node.has_higher_priority(&4));
    node.set_priority(1);
    assert_eq!(*node.priority(), 1);
    assert!(!node.has_higher_priority(&2));
}

#[test]
fn value_test_is_equality() {
    let node = NCore::new("a", 3);
    assert!(node.has_value(&"a"));
    assert!(!node.has_value(&"b"));
}

#[test]
fn mark_and_unmark() {
    let mut node = NCore::new(1u8, 3);
    node.mark();
    assert!(node.is_marked());
    node.mark();
    assert!(node.is_marked());
    node.unmark();
    assert!(!node.is_marked());
}

#[test]
fn parent_can_be_set_and_cleared() {
    let mut node = NCore::new(1u8, 3);
    node.set_parent(7);
    assert_eq!(node.get_parent(), Some(7));
    node.set_parent(8);
    assert_eq!(node.get_parent(), Some(8));
    node.remove_parent();
    assert_eq!(node.get_parent(), None);
}

#[test]
fn children_are_kept_in_order_of_insertion() {
    let mut node = NCore::new(1u8, 3);
    node.insert_child(5);
    node.insert_child(6);
    node.insert_child(7);
    assert_eq!(node.rank(), 3);
    assert_eq!(node.get_children(), vec![5, 6, 7]);
    assert_eq!(node.first_child(), Some(5));
}

#[test]
fn removing_a_child_moves_the_last_into_its_place() {
    let mut node = NCore::new(1u8, 3);
    for c in [5usize, 6, 7, 8] {
        node.insert_child(c);
    }
    assert_eq!(node.remove_child(5), Ok(()));
    assert_eq!(node.get_children(), vec![8, 6, 7]);
    assert_eq!(node.remove_child(7), Ok(()));
    assert_eq!(node.get_children(), vec![8, 6]);
    assert_eq!(node.rank(), 2);
}

#[test]
fn removing_an_absent_child_fails_and_changes_nothing() {
    let mut node = NCore::new(1u8, 3);
    assert_eq!(node.remove_child(5), Err(Error::InvalidIndex));
    node.insert_child(6);
    assert_eq!(node.remove_child(5), Err(Error::InvalidIndex));
    assert_eq!(node.get_children(), vec![6]);
}

#[test]
fn draining_children_empties_the_list() {
    let mut node = NCore::new(1u8, 3);
    node.insert_child(5);
    node.insert_child(6);
    assert_eq!(node.drain_children(), vec![5, 6]);
    assert_eq!(node.rank(), 0);
    assert_eq!(node.drain_children(), Vec::<usize>::new());
}

#[test]
fn link_makes_the_lesser_priority_the_parent() {
    let mut a = NCore::new("a", 5);
    let mut b = NCore::new("b", 2);
    a.mark();
    b.mark();
    assert!(!a.link(10, &mut b, 20));
    assert_eq!(a.get_parent(), Some(20));
    assert_eq!(b.get_children(), vec![10]);
    assert_eq!(b.get_parent(), None);
    assert_eq!(a.rank(), 0);
    assert!(!b.is_marked());
    assert!(a.is_marked());
}

#[test]
fn link_is_the_same_from_either_side() {
    let mut a = NCore::new("a", 5);
    let mut b = NCore::new("b", 2);
    assert!(b.link(20, &mut a, 10));
    assert_eq!(a.get_parent(), Some(20));
    assert_eq!(b.get_children(), vec![10]);
}

#[test]
fn link_on_a_tie_makes_the_receiver_the_parent() {
    let mut a = NCore::new("a", 4);
    let mut b = NCore::new("b", 4);
    assert!(a.link(10, &mut b, 20));
    assert_eq!(b.get_parent(), Some(10));
    assert_eq!(a.get_children(), vec![20]);
    assert_eq!(a.get_parent(), None);
}

#[test]
fn nodes_compare_by_priority_only() {
    let a = NCore::new("a", 1);
    let b = NCore::new("b", 2);
    let c = NCore::new("c", 2);
    assert!(a < b);
    assert!(b > a);
    assert!(!(b < c));
    assert!(b <= c);
    assert!(b >= c);
    assert_eq!(b.partial_cmp(&c), Some(std::cmp::Ordering::Equal));
    assert_eq!(a.partial_cmp(&b), Some(std::cmp::Ordering::Less));
    assert_eq!(b.partial_cmp(&a), Some(std::cmp::Ordering::Greater));
}

#[test]
fn nodes_are_equal_where_all_their_parts_are() {
    let mut a = NCore::new("a", 1);
    let mut b = NCore::new("a", 1);
    assert!(a == b);
    a.mark();
    assert!(a != b);
    b.mark();
    a.insert_child(3);
    assert!(a != b);
    b.insert_child(3);
    assert!(a == b);
    assert!(NCore::new("a", 1) != NCore::new("b", 1));
}
