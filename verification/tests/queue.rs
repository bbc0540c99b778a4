use fbheap::error::Error;
use fbheap::heap::BareQueue;

fn drain(queue: &mut BareQueue<u32, u64>) -> Vec<(u32, u64)> {
    let mut out = Vec::new();
    while !queue.is_empty() {
        out.push(queue.pop().unwrap());
    }
    out
}

#[test]
fn new_queue_is_empty() {
    let queue: BareQueue<&str, u64> = BareQueue::new();
    assert!(queue.is_empty());
}

#[test]
fn default_queue_is_empty() {
    let mut queue: BareQueue<u32, u64> = BareQueue::default();
    assert!(queue.is_empty());
    assert_eq!(queue.pop(), Err(Error::Empty));
}

#[test]
fn push_makes_queue_non_empty() {
    let mut queue = BareQueue::new();
    assert_eq!(queue.push("a", 3), Ok(()));
    assert!(!queue.is_empty());
}

#[test]
fn pop_on_empty_queue_fails_with_empty() {
    let mut queue: BareQueue<&str, u64> = BareQueue::new();
    assert_eq!(queue.pop(), Err(Error::Empty));
    assert_eq!(queue.pop(), Err(Error::Empty));
    assert!(queue.is_empty());
}

#[test]
fn push_pop_decrease_scenario() {
    let mut queue = BareQueue::new();
    assert_eq!(queue.push("a", 3), Ok(()));
    assert_eq!(queue.push("b", 1), Ok(()));
    assert_eq!(queue.push("c", 4), Ok(()));
    assert_eq!(queue.pop(), Ok(("b", 1)));
    assert_eq!(queue.decrease_priority(&"c", 2), Ok(()));
    assert_eq!(queue.pop(), Ok(("c", 2)));
    assert_eq!(queue.pop(), Ok(("a", 3)));
    assert!(queue.is_empty());
    assert_eq!(queue.pop(), Err(Error::Empty));
}

#[test]
fn sentences_scenario() {
    let mut queue = BareQueue::new();
    queue.push("i was first", 3).unwrap();
    queue.push("i am important", 1).unwrap();
    queue.push("i was not important at first", 4).unwrap();
    assert_eq!(queue.pop(), Ok(("i am important", 1)));
    queue.decrease_priority(&"i was not important at first", 2).unwrap();
    assert_eq!(queue.pop(), Ok(("i was not important at first", 2)));
    assert_eq!(queue.pop(), Ok(("i was first", 3)));
    assert!(queue.is_empty());
    assert_eq!(queue.pop(), Err(Error::Empty));
}

#[test]
fn descending_pushes_pop_ascending() {
    let mut queue = BareQueue::new();
    for p in [5u64, 4, 3, 2, 1] {
        queue.push(p as u32, p).unwrap();
    }
    let popped: Vec<u64> = drain(&mut queue).into_iter().map(|e| e.1).collect();
    assert_eq!(popped, vec![1, 2, 3, 4, 5]);
}

#[test]
fn decrease_to_equal_priority_is_refused() {
    let mut queue = BareQueue::new();
    queue.push("a", 3).unwrap();
    assert_eq!(queue.decrease_priority(&"a", 3), Err(Error::CannotIncreasePriority));
    assert_eq!(queue.pop(), Ok(("a", 3)));
}

#[test]
fn decrease_to_higher_priority_is_refused_and_changes_nothing() {
    let mut queue = BareQueue::new();
    queue.push(1u32, 10).unwrap();
    queue.push(2u32, 20).unwrap();
    queue.push(3u32, 30).unwrap();
    assert_eq!(queue.decrease_priority(&2, 25), Err(Error::CannotIncreasePriority));
    assert_eq!(drain(&mut queue), vec![(1, 10), (2, 20), (3, 30)]);
}

#[test]
fn decrease_of_absent_value_is_refused_and_changes_nothing() {
    let mut queue = BareQueue::new();
    assert_eq!(queue.decrease_priority(&7u32, 0), Err(Error::InvalidIndex));
    queue.push(1u32, 10).unwrap();
    queue.push(2u32, 20).unwrap();
    assert_eq!(queue.decrease_priority(&7, 0), Err(Error::InvalidIndex));
    assert_eq!(drain(&mut queue), vec![(1, 10), (2, 20)]);
}

#[test]
fn decrease_of_a_popped_value_is_refused() {
    let mut queue = BareQueue::new();
    queue.push(1u32, 10).unwrap();
    queue.push(2u32, 20).unwrap();
    assert_eq!(queue.pop(), Ok((1, 10)));
    assert_eq!(queue.decrease_priority(&1, 5), Err(Error::InvalidIndex));
    assert_eq!(queue.pop(), Ok((2, 20)));
}

#[test]
fn decrease_of_a_root_below_the_least_makes_it_first() {
    let mut queue = BareQueue::new();
    queue.push(1u32, 10).unwrap();
    queue.push(2u32, 20).unwrap();
    assert_eq!(queue.decrease_priority(&2, 5), Ok(()));
    assert_eq!(queue.pop(), Ok((2, 5)));
    assert_eq!(queue.pop(), Ok((1, 10)));
}

#[test]
fn decrease_inside_a_tree_without_a_cut() {
    let mut queue = BareQueue::new();
    for v in 0u32..9 {
        queue.push(v, 10 * (v as u64 + 1)).unwrap();
    }
    assert_eq!(queue.pop(), Ok((0, 10)));
    // 8 nodes are left, consolidated into trees
    assert_eq!(queue.decrease_priority(&8, 85), Ok(()));
    assert_eq!(
        drain(&mut queue),
        vec![(1, 20), (2, 30), (3, 40), (4, 50), (5, 60), (6, 70), (7, 80), (8, 85)]
    );
}

#[test]
fn decrease_inside_a_tree_with_cuts() {
    let mut queue = BareQueue::new();
    for v in 0u32..17 {
        queue.push(v, 100 + v as u64).unwrap();
    }
    assert_eq!(queue.pop(), Ok((0, 100)));
    // every other node, from the far end, goes below all that is left
    let mut expected: Vec<(u32, u64)> = Vec::new();
    let mut next: u64 = 50;
    for v in (1u32..17).rev() {
        if v % 2 == 0 {
            assert_eq!(queue.decrease_priority(&v, next), Ok(()));
            expected.push((v, next));
            next -= 1;
        } else {
            expected.push((v, 100 + v as u64));
        }
    }
    expected.sort_by_key(|e| e.1);
    assert_eq!(drain(&mut queue), expected);
}

#[test]
fn cascading_cuts_keep_the_order() {
    let mut queue = BareQueue::new();
    for v in 0u32..65 {
        queue.push(v, 1000 + v as u64).unwrap();
    }
    assert_eq!(queue.pop(), Ok((0, 1000)));
    let mut model: Vec<(u32, u64)> = (1u32..65).map(|v| (v, 1000 + v as u64)).collect();
    let mut next: u64 = 900;
    for round in 0..3 {
        for v in (1u32..65).rev() {
            if (v + round) % 3 == 0 {
                assert_eq!(queue.decrease_priority(&v, next), Ok(()));
                for e in model.iter_mut() {
                    if e.0 == v {
                        e.1 = next;
                    }
                }
                next -= 1;
            }
        }
        let least = *model.iter().min_by_key(|e| e.1).unwrap();
        assert_eq!(queue.pop(), Ok(least));
        model.retain(|e| *e != least);
    }
    model.sort_by_key(|e| e.1);
    assert_eq!(drain(&mut queue), model);
}

#[test]
fn equal_priorities_all_come_out() {
    let mut queue = BareQueue::new();
    for v in 0u32..10 {
        queue.push(v, 7).unwrap();
    }
    let mut popped = drain(&mut queue);
    popped.sort();
    let expected: Vec<(u32, u64)> = (0u32..10).map(|v| (v, 7)).collect();
    assert_eq!(popped, expected);
}

#[test]
fn of_equal_values_the_first_root_is_found() {
    let mut queue = BareQueue::new();
    queue.push("a", 1).unwrap();
    queue.push("a", 5).unwrap();
    // both are roots: the search meets the pair that was pushed first
    assert_eq!(queue.decrease_priority(&"a", 3), Err(Error::CannotIncreasePriority));
    assert_eq!(queue.decrease_priority(&"a", 0), Ok(()));
    assert_eq!(queue.pop(), Ok(("a", 0)));
    assert_eq!(queue.pop(), Ok(("a", 5)));
}

#[test]
fn search_walks_the_forest_breadth_first() {
    let mut queue = BareQueue::new();
    queue.push("min", 0).unwrap();
    queue.push("dup", 7).unwrap();
    queue.push("r", 1).unwrap();
    queue.push("dup", 3).unwrap();
    assert_eq!(queue.pop(), Ok(("min", 0)));
    // ("dup", 7) is now a child of ("dup", 3): the walk meets the parent first
    assert_eq!(queue.decrease_priority(&"dup", 5), Err(Error::CannotIncreasePriority));
    assert_eq!(queue.decrease_priority(&"dup", 2), Ok(()));
    assert_eq!(queue.pop(), Ok(("r", 1)));
    assert_eq!(queue.pop(), Ok(("dup", 2)));
    assert_eq!(queue.pop(), Ok(("dup", 7)));
    assert_eq!(queue.pop(), Err(Error::Empty));
}

#[test]
fn round_trip_returns_what_was_pushed_in_order() {
    let mut queue = BareQueue::new();
    let mut pushed: Vec<(u32, u64)> = Vec::new();
    let mut state: u64 = 12345;
    for v in 0u32..500 {
        state = state.wrapping_mul(6364136223846793005).wrapping_add(1442695040888963407);
        let priority = (state >> 33) % 1000;
        queue.push(v, priority).unwrap();
        pushed.push((v, priority));
    }
    let popped = drain(&mut queue);
    assert_eq!(popped.len(), 500);
    for w in popped.windows(2) {
        assert!(w[0].1 <= w[1].1);
    }
    let mut a = popped.clone();
    a.sort();
    pushed.sort();
    assert_eq!(a, pushed);
}

#[test]
fn mixed_operations_agree_with_a_sorted_list() {
    let mut queue = BareQueue::new();
    let mut model: Vec<(u32, u64)> = Vec::new();
    let mut state: u64 = 777;
    let mut next_value: u32 = 0;
    for _ in 0..4000 {
        state = state.wrapping_mul(6364136223846793005).wrapping_add(1442695040888963407);
        let choice = (state >> 60) % 4;
        let amount = (state >> 20) % 100_000;
        if choice <= 1 {
            queue.push(next_value, 1_000_000 + amount).unwrap();
            model.push((next_value, 1_000_000 + amount));
            next_value += 1;
        } else if choice == 2 {
            if model.is_empty() {
                assert_eq!(queue.pop(), Err(Error::Empty));
            } else {
                let got = queue.pop().unwrap();
                let least = model.iter().map(|e| e.1).min().unwrap();
                assert_eq!(got.1, least);
                let at = model.iter().position(|e| *e == got).unwrap();
                model.swap_remove(at);
            }
        } else if !model.is_empty() {
            let at = (amount as usize) % model.len();
            let (value, priority) = model[at];
            let lower = priority - 1 - (amount % 7);
            assert_eq!(queue.decrease_priority(&value, lower), Ok(()));
            model[at].1 = lower;
        }
        assert_eq!(queue.is_empty(), model.is_empty());
    }
    let mut rest = drain(&mut queue);
    for w in rest.windows(2) {
        assert!(w[0].1 <= w[1].1);
    }
    rest.sort();
    model.sort();
    assert_eq!(rest, model);
}

#[test]
fn emptied_slots_are_used_again() {
    let mut queue = BareQueue::new();
    for round in 0u64..50 {
        for v in 0u32..8 {
            queue.push(v, round * 10 + v as u64).unwrap();
        }
        for v in 0u32..8 {
            assert_eq!(queue.pop(), Ok((v, round * 10 + v as u64)));
        }
        assert!(queue.is_empty());
    }
}

#[test]
fn pop_fails_where_the_rank_bound_cannot_be_computed() {
    // the cube of 2_642_245 is the last that fits 64 bits
    if usize::BITS != 64 {
        return;
    }
    let mut queue = BareQueue::new();
    for v in 0u32..2_642_247 {
        queue.push(v, v as u64).unwrap();
    }
    assert_eq!(queue.pop(), Err(Error::Numerical));
    assert!(!queue.is_empty());
    // nothing was taken: a lower priority for the first value still works
    assert_eq!(queue.decrease_priority(&1, 0), Ok(()));
    assert_eq!(queue.pop(), Err(Error::Numerical));
}

#[test]
fn pop_works_at_the_largest_size_with_a_rank_bound() {
    if usize::BITS != 64 {
        return;
    }
    let mut queue = BareQueue::new();
    for v in 0u32..2_642_246 {
        queue.push(v, (v as u64) + 1).unwrap();
    }
    assert_eq!(queue.pop(), Ok((0, 1)));
    assert_eq!(queue.pop(), Ok((1, 2)));
}

#[test]
fn priorities_may_be_of_any_ordered_type() {
    let mut queue = BareQueue::new();
    queue.push(1u8, "pear").unwrap();
    queue.push(2u8, "apple").unwrap();
    queue.push(3u8, "quince").unwrap();
    queue.push(4u8, "fig").unwrap();
    assert_eq!(queue.pop(), Ok((2, "apple")));
    assert_eq!(queue.decrease_priority(&3, "banana"), Ok(()));
    assert_eq!(queue.decrease_priority(&1, "plum"), Err(Error::CannotIncreasePriority));
    assert_eq!(queue.pop(), Ok((3, "banana")));
    assert_eq!(queue.pop(), Ok((4, "fig")));
    assert_eq!(queue.pop(), Ok((1, "pear")));
    assert_eq!(queue.pop(), Err(Error::Empty));
}

#[test]
fn priorities_may_be_negative() {
    let mut queue = BareQueue::new();
    for p in [3i64, -7, 0, -1, 12] {
        queue.push(p, p).unwrap();
    }
    let mut popped = Vec::new();
    while !queue.is_empty() {
        popped.push(queue.pop().unwrap().1);
    }
    assert_eq!(popped, vec![-7, -1, 0, 3, 12]);
}

#[test]
fn rank_bound_is_one_more_than_the_log_of_the_cube() {
    let bound = |n: usize| BareQueue::<u8, u8>::max_node_rank(n);
    assert_eq!(bound(0), Ok(0));
    assert_eq!(bound(1), Ok(1));
    assert_eq!(bound(2), Ok(2));
    assert_eq!(bound(3), Ok(3));
    assert_eq!(bound(4), Ok(4));
    assert_eq!(bound(5), Ok(4));
    assert_eq!(bound(10), Ok(5));
    assert_eq!(bound(100), Ok(10));
    assert_eq!(bound(100_000), Ok(25));
}

#[test]
fn rank_bound_fails_where_the_cube_does_not_fit() {
    if usize::BITS != 64 {
        return;
    }
    let bound = |n: usize| BareQueue::<u8, u8>::max_node_rank(n);
    assert_eq!(bound(2_642_245), Ok(32));
    assert_eq!(bound(2_642_246), Err(Error::Numerical));
    assert_eq!(bound(usize::MAX), Err(Error::Numerical));
}

#[test]
fn error_messages() {
    assert_eq!(Error::Empty.message(), "cannot perform operation on empty queue");
    assert_eq!(Error::InvalidIndex.message(), "requested value not found in queue");
    assert_eq!(Error::ReachedCapacity.message(), "cannot account for additional nodes");
    assert_eq!(Error::Numerical.message(), "failed numerical operation");
    assert_eq!(
        Error::CannotIncreasePriority.message(),
        "cannot change priority to a higher value"
    );
    assert_eq!(
        Error::ImpossibleRelease.message(),
        "cannot release node due to outstanding reference"
    );
}
