use lockfree_hashmap::list::LinkedList;
use lockfree_hashmap::map::Hashmap;

#[test]
#[allow(non_snake_case)]
fn HashMap_basics() {
    let mut new_hashmap = Hashmap::new();

    new_hashmap.insert(1, 1);
    new_hashmap.insert(2, 5);
    new_hashmap.insert(12, 5);
    new_hashmap.insert(13, 7);
    new_hashmap.insert(0, 0);

    assert_eq!(new_hashmap.size(), 5);

    new_hashmap.insert(20, 3);
    new_hashmap.insert(3, 2);
    new_hashmap.insert(4, 1);
    new_hashmap.insert(5, 5);

    new_hashmap.insert(20, 5);
    new_hashmap.insert(3, 8);
    assert_eq!(new_hashmap.size(), 9);

    assert_eq!(new_hashmap.get(20).unwrap(), 5);
    assert_eq!(new_hashmap.get(12).unwrap(), 5);
    assert_eq!(new_hashmap.get(1).unwrap(), 1);
    assert_eq!(new_hashmap.get(0).unwrap(), 0);
    assert!(new_hashmap.get(3).unwrap() != 2);

    assert_eq!(new_hashmap.bucket_count(), 4);

    assert_eq!(new_hashmap.get(20).unwrap(), 5);
    assert_eq!(new_hashmap.get(12).unwrap(), 5);
    assert_eq!(new_hashmap.get(1).unwrap(), 1);
    assert_eq!(new_hashmap.get(0).unwrap(), 0);
    assert!(new_hashmap.get(3).unwrap() != 2);
}

#[test]
fn hashmap_handle_cloning() {
    let mut map = Hashmap::new();
    let handle = map.create_handle();
    println!("{:?}", handle.epoch(&map));
    handle.insert(&mut map, 1, 3);
    assert_eq!(handle.get(&mut map, 1).unwrap(), 3);

    let new_handle = handle.clone(&mut map);
    assert_eq!(new_handle.get(&mut map, 1).unwrap(), 3);
    new_handle.insert(&mut map, 2, 5);

    assert_eq!(handle.get(&mut map, 2).unwrap(), 5);
}

#[test]
fn hashmap_delete() {
    let mut map = Hashmap::new();
    let handle = map.create_handle();
    handle.insert(&mut map, 1, 3);
    handle.insert(&mut map, 2, 5);
    handle.insert(&mut map, 3, 8);
    handle.insert(&mut map, 4, 3);
    handle.insert(&mut map, 5, 4);
    handle.insert(&mut map, 6, 5);
    handle.insert(&mut map, 7, 3);
    handle.insert(&mut map, 8, 3);
    handle.insert(&mut map, 9, 3);
    handle.insert(&mut map, 10, 3);
    handle.insert(&mut map, 11, 3);
    handle.insert(&mut map, 12, 3);
    handle.insert(&mut map, 13, 3);
    handle.insert(&mut map, 14, 3);
    handle.insert(&mut map, 15, 3);
    handle.insert(&mut map, 16, 3);
    assert_eq!(handle.get(&mut map, 1).unwrap(), 3);
    assert_eq!(handle.delete(&mut map, 1).unwrap(), 3);
    assert_eq!(handle.get(&mut map, 1), None);
    assert_eq!(handle.delete(&mut map, 2).unwrap(), 5);
    assert_eq!(handle.delete(&mut map, 16).unwrap(), 3);
    assert_eq!(handle.get(&mut map, 16), None);
}

#[test]
fn linkedlist_basics() {
    let mut new_linked_list = LinkedList::new();

    println!("{:?}", new_linked_list.entries());
    new_linked_list.insert(3, 2);
    new_linked_list.insert(3, 4);
    new_linked_list.insert(5, 8);
    new_linked_list.insert(4, 6);
    new_linked_list.insert(1, 8);
    new_linked_list.insert(6, 6);

    assert_eq!(new_linked_list.get(3).unwrap(), 4);
    assert_eq!(new_linked_list.get(5).unwrap(), 8);
    assert_eq!(new_linked_list.get(2), None);
}

#[test]
fn hashmap_basics() {
    let mut map = Hashmap::new();
    let new_hashmap = map.create_handle();
    new_hashmap.insert(&mut map, 1, 1);
    new_hashmap.insert(&mut map, 2, 5);
    new_hashmap.insert(&mut map, 12, 5);
    new_hashmap.insert(&mut map, 13, 7);
    new_hashmap.insert(&mut map, 0, 0);

    new_hashmap.insert(&mut map, 20, 3);
    new_hashmap.insert(&mut map, 3, 2);
    new_hashmap.insert(&mut map, 4, 1);

    assert_eq!(new_hashmap.insert(&mut map, 20, 5).unwrap(), 3);
    assert_eq!(new_hashmap.insert(&mut map, 3, 8).unwrap(), 2);
    assert_eq!(new_hashmap.insert(&mut map, 5, 5), None);

    assert_eq!(map.size(), 9);

    new_hashmap.insert(&mut map, 3, 8);

    assert_eq!(new_hashmap.get(&mut map, 20).unwrap(), 5);
    assert_eq!(new_hashmap.get(&mut map, 12).unwrap(), 5);
    assert_eq!(new_hashmap.get(&mut map, 1).unwrap(), 1);
    assert_eq!(new_hashmap.get(&mut map, 0).unwrap(), 0);
    assert!(new_hashmap.get(&mut map, 3).unwrap() != 2);

    assert_eq!(new_hashmap.get(&mut map, 20).unwrap(), 5);
    assert_eq!(new_hashmap.get(&mut map, 12).unwrap(), 5);
    assert_eq!(new_hashmap.get(&mut map, 1).unwrap(), 1);
    assert_eq!(new_hashmap.get(&mut map, 0).unwrap(), 0);
    assert!(new_hashmap.get(&mut map, 3).unwrap() != 2);
}
