use polytile::linked_list::CircularDoublyLinkedList;

#[test]
fn test_linked_list() {
    let mut dll = CircularDoublyLinkedList::new();
    dll.insert_head('a');
    dll.insert_tail('b');
    dll.insert_at('c', 1);
    dll.insert_at('d', 2);

    let mut current_node = dll.head;

    let mut results: Vec<char> = Vec::new();
    for _ in 0..dll.size + 1 {
        let i = current_node.unwrap();
        results.push(dll.nodes[i].contents);
        current_node = dll.nodes[i].next;
    }

    assert_eq!(vec!['a', 'c', 'd', 'b', 'a'], results);

    let mut results: Vec<char> = Vec::new();
    for i in dll.in_order() {
        results.push(dll.nodes[i].contents);
    }
    assert_eq!(vec!['a', 'c', 'd', 'b'], results);
}

#[test]
fn test_linked_list_backward_links() {
    let mut dll = CircularDoublyLinkedList::new();
    dll.insert_head(10u32);
    dll.insert_tail(20u32);
    dll.insert_at(30u32, 1);

    // Ring order is 10, 30, 20; walking backwards from the head wraps to the
    // tail end of the ring.
    let order = dll.in_order();
    let contents: Vec<u32> = order.iter().map(|&i| dll.nodes[i].contents).collect();
    assert_eq!(vec![10, 30, 20], contents);
    let head = dll.head.unwrap();
    let back = dll.nodes[head].prev.unwrap();
    assert_eq!(20, dll.nodes[back].contents);
}

#[test]
fn test_find_first_match() {
    let mut dll = CircularDoublyLinkedList::new();
    dll.insert_head('x');
    dll.insert_tail('y');
    dll.insert_at('y', 1);

    let hit = dll.find('y').expect("y is listed");
    // Ring order is x, y, y: the first y in ring order is at position 1.
    let order = dll.in_order();
    assert_eq!(order[1], hit);
    assert_eq!('y', dll.nodes[hit].contents);
    assert!(dll.find('z').is_none());
}

#[test]
fn test_insert_position_wraps_around_ring() {
    let mut dll = CircularDoublyLinkedList::new();
    dll.insert_head('a');
    dll.insert_tail('b');
    // A position past the end walks around the ring: max(5, 2) - 1 = 4 steps
    // stop at position 4 % 2 = 0, splicing before the head, which reads as an
    // append.
    dll.insert_at('c', 5);
    let contents: Vec<char> = dll.in_order().iter().map(|&i| dll.nodes[i].contents).collect();
    assert_eq!(vec!['a', 'b', 'c'], contents);
}
