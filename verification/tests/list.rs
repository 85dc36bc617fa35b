use lockfree_hashmap::list::LinkedList;
use lockfree_hashmap::node::{compare_and_swap_next, exchange_value, Link, Node, HEAD, TAIL};

#[test]
fn node_new_is_unmarked_and_points_at_tail() {
    let node = Node::new(7, 9);
    assert_eq!(node.key, 7);
    assert_eq!(node.value, 9);
    assert_eq!(node.next, Link { slot: TAIL, marked: false });
    assert_eq!(HEAD, 0);
    assert_eq!(TAIL, 1);
}

#[test]
fn mark_helpers_change_only_the_mark() {
    let link = Link { slot: 5, marked: false };
    assert!(!LinkedList::is_marked_reference(link));
    let marked = LinkedList::get_marked_reference(link);
    assert_eq!(marked, Link { slot: 5, marked: true });
    assert!(LinkedList::is_marked_reference(marked));
    assert_eq!(LinkedList::get_unmarked_reference(marked), link);
    assert_eq!(LinkedList::get_unmarked_reference(link), link);
}

#[test]
fn compare_and_swap_succeeds_only_on_expected_link() {
    let mut nodes = vec![Node::new(1, 10), Node::new(2, 20)];
    let stale = Link { slot: 4, marked: false };
    let current = Link { slot: TAIL, marked: false };
    let wanted = Link { slot: 0, marked: true };
    assert!(!compare_and_swap_next(&mut nodes, 1, stale, wanted));
    assert_eq!(nodes[1].next, current);
    assert!(compare_and_swap_next(&mut nodes, 1, current, wanted));
    assert_eq!(nodes[1].next, wanted);
    assert_eq!(nodes[1].key, 2);
    assert_eq!(nodes[1].value, 20);
    assert_eq!(nodes[0].next, current);
}

#[test]
fn exchange_value_returns_previous() {
    let mut nodes = vec![Node::new(1, 10)];
    assert_eq!(exchange_value(&mut nodes, 0, 11), 10);
    assert_eq!(nodes[0].value, 11);
    assert_eq!(nodes[0].key, 1);
}

#[test]
fn empty_list_holds_nothing() {
    let mut list = LinkedList::new();
    assert_eq!(list.get(0), None);
    assert_eq!(list.delete(0), None);
    assert_eq!(list.entries(), Vec::<(usize, usize)>::new());
    assert_eq!(list.pending(), 0);
}

#[test]
fn list_insert_returns_previous_value() {
    let mut list = LinkedList::new();
    assert_eq!(list.insert(5, 5), None);
    assert_eq!(list.insert(5, 8), Some(5));
    assert_eq!(list.get(5), Some(8));
    assert_eq!(list.entries(), vec![(5, 8)]);
}

#[test]
fn list_entries_ascend_by_key() {
    let mut list = LinkedList::new();
    list.insert(3, 2);
    list.insert(3, 4);
    list.insert(5, 8);
    list.insert(4, 6);
    list.insert(1, 8);
    list.insert(6, 6);
    assert_eq!(list.entries(), vec![(1, 8), (3, 4), (4, 6), (5, 8), (6, 6)]);
}

#[test]
fn list_delete_unlinks_and_retires() {
    let mut list = LinkedList::new();
    list.insert(1, 10);
    list.insert(2, 20);
    list.insert(3, 30);
    assert_eq!(list.delete(2), Some(20));
    assert_eq!(list.pending(), 1);
    assert_eq!(list.get(2), None);
    assert_eq!(list.delete(2), None);
    assert_eq!(list.pending(), 1);
    assert_eq!(list.entries(), vec![(1, 10), (3, 30)]);
    assert_eq!(list.delete(usize::MAX), None);
}

#[test]
fn marked_nodes_are_skipped_and_unlinked_later() {
    let mut list = LinkedList::new();
    list.insert(1, 10);
    list.insert(2, 20);
    list.insert(3, 30);
    list.insert(4, 40);
    assert_eq!(list.mark_deleted(3), Some(30));
    assert_eq!(list.mark_deleted(2), Some(20));
    assert_eq!(list.pending(), 0);
    assert_eq!(list.get(2), None);
    assert_eq!(list.get(3), None);
    assert_eq!(list.get(4), Some(40));
    assert_eq!(list.entries(), vec![(1, 10), (4, 40)]);
    // The walk to the place of key 4 passes both marked nodes and unlinks them.
    assert_eq!(list.insert(4, 41), Some(40));
    assert_eq!(list.pending(), 2);
    assert_eq!(list.entries(), vec![(1, 10), (4, 41)]);
    assert_eq!(list.mark_deleted(2), None);
    assert_eq!(list.pending(), 2);
}

#[test]
fn insert_after_logical_delete_links_a_new_node() {
    let mut list = LinkedList::new();
    list.insert(7, 1);
    assert_eq!(list.mark_deleted(7), Some(1));
    assert_eq!(list.insert(7, 2), None);
    assert_eq!(list.pending(), 1);
    assert_eq!(list.get(7), Some(2));
    assert_eq!(list.entries(), vec![(7, 2)]);
}

#[test]
fn list_reclaim_releases_pending_slots() {
    let mut list = LinkedList::new();
    list.insert(1, 1);
    list.insert(2, 2);
    list.delete(1);
    list.delete(2);
    assert_eq!(list.pending(), 2);
    // Nothing is released before it was condemned.
    assert_eq!(list.reclaim(), 0);
    assert_eq!(list.pending(), 2);
    assert_eq!(list.condemn(), 2);
    assert_eq!((list.pending(), list.condemned(), list.available()), (0, 2, 0));
    assert_eq!(list.reclaim(), 2);
    assert_eq!((list.pending(), list.condemned(), list.available()), (0, 0, 2));
    assert_eq!(list.condemn(), 0);
    assert_eq!(list.reclaim(), 0);
    assert_eq!(list.insert(1, 3), None);
    assert_eq!(list.get(1), Some(3));
}

#[test]
fn list_handles_extreme_keys() {
    let mut list = LinkedList::new();
    assert_eq!(list.insert(usize::MAX, 1), None);
    assert_eq!(list.insert(0, 2), None);
    assert_eq!(list.entries(), vec![(0, 2), (usize::MAX, 1)]);
    assert_eq!(list.delete(0), Some(2));
    assert_eq!(list.get(usize::MAX), Some(1));
}

#[test]
fn released_slots_are_taken_by_new_nodes() {
    let mut list = LinkedList::new();
    assert_eq!(list.slots(), 2);
    list.insert(1, 1);
    list.insert(2, 2);
    list.insert(3, 3);
    assert_eq!(list.slots(), 5);
    assert_eq!(list.chained(), 3);
    list.delete(2);
    assert_eq!((list.chained(), list.pending(), list.available(), list.slots()), (2, 1, 0, 5));
    // A retired slot is not taken before it is released.
    list.insert(4, 4);
    assert_eq!((list.chained(), list.pending(), list.available(), list.slots()), (3, 1, 0, 6));
    assert_eq!(list.condemn(), 1);
    // A slot that is unlinked after the condemnation waits for the next one.
    assert_eq!(list.delete(4), Some(4));
    assert_eq!((list.chained(), list.pending(), list.condemned(), list.slots()), (2, 1, 1, 6));
    assert_eq!(list.insert(4, 4), None);
    assert_eq!((list.chained(), list.pending(), list.condemned(), list.slots()), (3, 1, 1, 7));
    assert_eq!(list.reclaim(), 1);
    assert_eq!((list.chained(), list.pending(), list.available(), list.slots()), (3, 1, 1, 7));
    assert_eq!(list.insert(2, 22), None);
    assert_eq!((list.chained(), list.pending(), list.available(), list.slots()), (4, 1, 0, 7));
    assert_eq!(list.insert(2, 23), Some(22));
    assert_eq!(list.slots(), 7);
    assert_eq!(list.entries(), vec![(1, 1), (2, 23), (3, 3), (4, 4)]);
}

#[test]
fn marked_nodes_stay_chained_until_a_walk_passes() {
    let mut list = LinkedList::new();
    for k in 1..=6usize {
        list.insert(k, 10 * k);
    }
    assert_eq!(list.mark_deleted(5), Some(50));
    assert_eq!(list.mark_deleted(2), Some(20));
    assert_eq!((list.chained(), list.pending()), (6, 0));
    // The place of key 3 lies between the live keys 1 and 3: only the marked
    // node of key 2 stands there.
    assert_eq!(list.get(3), Some(30));
    assert_eq!((list.chained(), list.pending()), (6, 0));
    assert_eq!(list.insert(3, 31), Some(30));
    assert_eq!((list.chained(), list.pending()), (5, 1));
    assert_eq!(list.delete(6), Some(60));
    assert_eq!((list.chained(), list.pending()), (3, 3));
    assert_eq!(list.entries(), vec![(1, 10), (3, 31), (4, 40)]);
}

#[test]
fn many_keys_in_one_list() {
    let mut list = LinkedList::new();
    for k in (0..200usize).rev() {
        assert_eq!(list.insert(k * 7 % 200, k), None);
    }
    for k in 0..200usize {
        if k % 2 == 0 {
            assert!(list.delete(k).is_some());
        }
    }
    assert_eq!(list.condemn(), 100);
    assert_eq!(list.reclaim(), 100);
    for k in 0..200usize {
        assert_eq!(list.get(k).is_some(), k % 2 == 1);
    }
    for k in 0..100usize {
        assert_eq!(list.insert(2 * k, k), None);
    }
    assert_eq!(list.slots(), 202);
    assert_eq!(list.available(), 0);
    let entries = list.entries();
    assert_eq!(entries.len(), 200);
    assert!(entries.windows(2).all(|w| w[0].0 < w[1].0));
}

#[test]
fn find_gives_the_slot_of_the_live_node() {
    let mut list = LinkedList::new();
    assert_eq!(list.find(3), None);
    list.insert(3, 30);
    list.insert(1, 10);
    assert_eq!(list.find(3), Some(2));
    assert_eq!(list.find(1), Some(3));
    list.mark_deleted(3);
    assert_eq!(list.find(3), None);
    assert_eq!(list.find(1), Some(3));
}

#[test]
fn of_two_deleters_that_found_a_node_one_removes_it() {
    let mut list = LinkedList::new();
    list.insert(5, 50);
    list.insert(6, 60);
    let seen_by_first = list.find(5).unwrap();
    let seen_by_second = list.find(5).unwrap();
    assert_eq!(list.try_mark(seen_by_first, 5), Some(50));
    assert_eq!(list.try_mark(seen_by_second, 5), None);
    assert_eq!(list.get(5), None);
    assert_eq!(list.get(6), Some(60));
    assert_eq!((list.chained(), list.pending()), (2, 0));
}

#[test]
fn try_mark_refuses_what_is_not_the_live_node_of_the_key() {
    let mut list = LinkedList::new();
    list.insert(5, 50);
    let slot = list.find(5).unwrap();
    assert_eq!(list.try_mark(0, 5), None);
    assert_eq!(list.try_mark(1, 5), None);
    assert_eq!(list.try_mark(slot + 1, 5), None);
    assert_eq!(list.try_mark(usize::MAX, 5), None);
    assert_eq!(list.try_mark(slot, 6), None);
    assert_eq!(list.get(5), Some(50));
    // The slot is released and taken by a node of another key.
    assert_eq!(list.delete(5), Some(50));
    list.condemn();
    list.reclaim();
    list.insert(7, 70);
    assert_eq!(list.find(7), Some(slot));
    assert_eq!(list.try_mark(slot, 5), None);
    assert_eq!(list.try_mark(slot, 7), Some(70));
}

#[test]
fn locate_gives_the_neighbours_of_a_key() {
    let mut list = LinkedList::new();
    assert_eq!(list.locate(4), (0, 1));
    list.insert(2, 20);
    list.insert(6, 60);
    list.insert(4, 40);
    let (two, six, four) = (2, 3, 4);
    assert_eq!(list.locate(1), (0, two));
    assert_eq!(list.locate(2), (0, two));
    assert_eq!(list.locate(3), (two, four));
    assert_eq!(list.locate(4), (two, four));
    assert_eq!(list.locate(5), (four, six));
    assert_eq!(list.locate(7), (six, 1));
    list.mark_deleted(4);
    assert_eq!(list.locate(3), (two, six));
    assert_eq!(list.locate(4), (two, six));
    assert_eq!(list.locate(5), (two, six));
    assert_eq!(list.chained(), 3);
}

#[test]
fn a_link_fails_where_the_place_has_changed() {
    let mut list = LinkedList::new();
    list.insert(2, 20);
    list.insert(8, 80);
    let first = list.locate(5);
    let second = list.locate(6);
    assert_eq!(first, second);
    assert!(list.try_link(first.0, first.1, 5, 50));
    // The link that the second client saw is gone.
    assert!(!list.try_link(second.0, second.1, 6, 60));
    assert_eq!(list.get(6), None);
    let second = list.locate(6);
    assert!(list.try_link(second.0, second.1, 6, 60));
    assert_eq!(list.entries(), vec![(2, 20), (5, 50), (6, 60), (8, 80)]);
}

#[test]
fn try_link_checks_links_marks_and_keys() {
    let mut list = LinkedList::new();
    list.insert(2, 20);
    list.insert(8, 80);
    let (two, eight) = (2, 3);
    assert!(!list.try_link(two, eight, 2, 0));
    assert!(!list.try_link(two, eight, 8, 0));
    assert!(!list.try_link(two, eight, 9, 0));
    assert!(!list.try_link(two, eight, 1, 0));
    assert!(!list.try_link(0, eight, 1, 0));
    assert!(!list.try_link(two, 1, 9, 0));
    assert!(!list.try_link(1, 0, 9, 0));
    assert!(!list.try_link(7, eight, 5, 0));
    assert!(!list.try_link(usize::MAX, 1, 5, 0));
    assert!(!list.try_link(eight, 1, 8, 0));
    list.mark_deleted(2);
    assert!(!list.try_link(two, eight, 5, 0));
    assert_eq!(list.entries(), vec![(8, 80)]);
    assert!(list.try_link(eight, 1, usize::MAX, 9));
    assert!(list.try_link(0, two, 0, 7));
    assert_eq!(list.entries(), vec![(0, 7), (8, 80), (usize::MAX, 9)]);
    assert_eq!(list.chained(), 4);
}

#[test]
fn try_unlink_takes_out_marked_runs_only() {
    let mut list = LinkedList::new();
    for k in 1..=5usize {
        list.insert(k, k);
    }
    let slot = |k: usize| k + 1;
    // Nothing is marked yet.
    assert!(!list.try_unlink(slot(1), slot(3)));
    assert!(!list.try_unlink(slot(1), slot(2)));
    list.try_mark(slot(2), 2);
    list.try_mark(slot(3), 3);
    // An unmarked node stands between the two, or the left one is no
    // unmarked chained node.
    assert!(!list.try_unlink(slot(1), slot(5)));
    assert!(!list.try_unlink(slot(1), 1));
    assert!(!list.try_unlink(slot(2), slot(4)));
    assert!(!list.try_unlink(1, slot(4)));
    assert!(!list.try_unlink(99, slot(4)));
    assert_eq!((list.chained(), list.pending()), (5, 0));
    // The swap does not look at the mark of the right neighbour.
    assert!(list.try_unlink(slot(1), slot(3)));
    assert_eq!((list.chained(), list.pending()), (4, 1));
    assert!(list.try_unlink(slot(1), slot(4)));
    assert_eq!((list.chained(), list.pending()), (3, 2));
    assert!(!list.try_unlink(slot(1), slot(4)));
    assert_eq!(list.entries(), vec![(1, 1), (4, 4), (5, 5)]);
    list.try_mark(slot(1), 1);
    list.try_mark(slot(5), 5);
    assert!(list.try_unlink(0, slot(4)));
    assert!(list.try_unlink(slot(4), 1));
    assert_eq!((list.chained(), list.pending()), (1, 4));
    assert_eq!(list.entries(), vec![(4, 4)]);
}

#[test]
fn steps_of_two_clients_interleave() {
    let mut list = LinkedList::new();
    list.insert(10, 1);
    list.insert(20, 2);
    list.insert(30, 3);
    // One client is about to delete 20, another about to insert 25.
    let target = list.find(20).unwrap();
    let place = list.locate(25);
    assert_eq!(place.0, target);
    assert_eq!(list.try_mark(target, 20), Some(2));
    // The left neighbour of 25 carries a mark now: the link fails.
    assert!(!list.try_link(place.0, place.1, 25, 5));
    let place = list.locate(25);
    assert_eq!(place, (list.find(10).unwrap(), list.find(30).unwrap()));
    // The marked node stands in the way until it is unlinked.
    assert!(!list.try_link(place.0, place.1, 25, 5));
    assert!(list.try_unlink(place.0, place.1));
    assert!(list.try_link(place.0, place.1, 25, 5));
    assert_eq!(list.entries(), vec![(10, 1), (25, 5), (30, 3)]);
    assert_eq!((list.chained(), list.pending()), (3, 1));
}
