use rrtt::list::{Node, NodeArena};

fn three() -> (NodeArena, usize, usize, usize, usize) {
    let mut arena = NodeArena::new();
    let head = Node::init(&mut arena);
    let a = Node::init(&mut arena);
    let b = Node::init(&mut arena);
    let c = Node::init(&mut arena);
    (arena, head, a, b, c)
}

#[test]
fn new_node_is_its_own_sentinel() {
    let mut arena = NodeArena::new();
    assert_eq!(0, arena.len());
    let head = Node::init(&mut arena);
    assert_eq!(0, head);
    assert_eq!(1, arena.len());
    assert_eq!(Node { next: head, prev: head }, arena.node(head));
    assert_eq!(Node::new_empty(head), arena.node(head));
    assert!(arena.is_detached(head));
    assert!(arena.forward(head).is_empty());
    assert!(arena.backward(head).is_empty());
    let second = Node::init(&mut arena);
    assert_eq!(1, second);
    assert_eq!(Node { next: 1, prev: 1 }, arena.node(second));
    assert!(arena.is_detached(head));
}

#[test]
fn insert_places_the_node_right_behind_the_head() {
    let (mut arena, head, a, b, c) = three();
    Node::insert(&mut arena, head, a);
    assert_eq!(vec![a], arena.forward(head));
    assert_eq!(Node { next: a, prev: a }, arena.node(head));
    assert_eq!(Node { next: head, prev: head }, arena.node(a));
    Node::insert(&mut arena, head, b);
    assert_eq!(vec![b, a], arena.forward(head));
    Node::insert(&mut arena, head, c);
    assert_eq!(vec![c, b, a], arena.forward(head));
    assert_eq!(vec![a, b, c], arena.backward(head));
    assert_eq!(c, arena.next(head));
    assert_eq!(a, arena.prev(head));
    assert_eq!(Node { next: a, prev: c }, arena.node(b));
    assert!(!arena.is_detached(head));
    assert!(!arena.is_detached(b));
}

#[test]
fn insert_behind_a_member_puts_the_node_in_the_middle() {
    let (mut arena, head, a, b, c) = three();
    Node::insert(&mut arena, head, a);
    Node::insert(&mut arena, head, b);
    Node::insert(&mut arena, b, c);
    assert_eq!(vec![b, c, a], arena.forward(head));
    assert_eq!(vec![a, head, b], arena.forward(c));
    assert_eq!(vec![head, b, c], arena.forward(a));
}

#[test]
fn remove_joins_the_neighbours_and_leaves_the_node_alone() {
    let (mut arena, head, a, b, c) = three();
    Node::insert(&mut arena, head, a);
    Node::insert(&mut arena, head, b);
    Node::insert(&mut arena, head, c);
    Node::remove(&mut arena, b);
    assert_eq!(vec![c, a], arena.forward(head));
    assert_eq!(vec![a, c], arena.backward(head));
    assert_eq!(Node { next: b, prev: b }, arena.node(b));
    assert!(arena.is_detached(b));
    Node::remove(&mut arena, c);
    assert_eq!(vec![a], arena.forward(head));
    Node::remove(&mut arena, a);
    assert!(arena.forward(head).is_empty());
    assert!(arena.is_detached(head));
    assert_eq!(Node { next: head, prev: head }, arena.node(head));
}

#[test]
fn removing_a_node_that_is_alone_changes_nothing() {
    let (mut arena, head, a, b, _) = three();
    Node::insert(&mut arena, head, a);
    Node::remove(&mut arena, b);
    Node::remove(&mut arena, b);
    assert_eq!(vec![a], arena.forward(head));
    assert!(arena.is_detached(b));
}

#[test]
fn removed_node_can_be_inserted_again() {
    let (mut arena, head, a, b, _) = three();
    Node::insert(&mut arena, head, a);
    Node::insert(&mut arena, head, b);
    Node::remove(&mut arena, a);
    Node::insert(&mut arena, head, a);
    assert_eq!(vec![a, b], arena.forward(head));
}

#[test]
fn lists_of_different_heads_do_not_touch() {
    let mut arena = NodeArena::new();
    let h1 = Node::init(&mut arena);
    let h2 = Node::init(&mut arena);
    let a = Node::init(&mut arena);
    let b = Node::init(&mut arena);
    let c = Node::init(&mut arena);
    Node::insert(&mut arena, h1, a);
    Node::insert(&mut arena, h2, b);
    Node::insert(&mut arena, h1, c);
    assert_eq!(vec![c, a], arena.forward(h1));
    assert_eq!(vec![b], arena.forward(h2));
    Node::remove(&mut arena, a);
    assert_eq!(vec![c], arena.forward(h1));
    assert_eq!(vec![b], arena.forward(h2));
}

#[test]
fn cursor_walks_forward_and_stops_at_the_head() {
    let (mut arena, head, a, b, c) = three();
    Node::insert(&mut arena, head, a);
    Node::insert(&mut arena, head, b);
    Node::insert(&mut arena, head, c);
    let mut it = Node::into_iter(&arena, head);
    assert_eq!(Some(c), it.next(&arena));
    assert_eq!(Some(b), it.next(&arena));
    assert_eq!(Some(a), it.next(&arena));
    assert_eq!(None, it.next(&arena));
    // Back on the head, the walk starts over.
    assert_eq!(Some(c), it.next(&arena));
}

#[test]
fn cursor_walks_backward_and_stops_at_the_head() {
    let (mut arena, head, a, b, c) = three();
    Node::insert(&mut arena, head, a);
    Node::insert(&mut arena, head, b);
    Node::insert(&mut arena, head, c);
    let mut it = Node::into_iter(&arena, head);
    assert_eq!(Some(a), it.next_back(&arena));
    assert_eq!(Some(b), it.next_back(&arena));
    assert_eq!(Some(c), it.next_back(&arena));
    assert_eq!(None, it.next_back(&arena));
    assert_eq!(Some(a), it.next_back(&arena));
    // A step forward from the last member leads to the head.
    assert_eq!(None, it.next(&arena));
}

#[test]
fn cursor_on_an_empty_list_finds_nothing() {
    let mut arena = NodeArena::new();
    let head = Node::init(&mut arena);
    let mut it = Node::into_iter(&arena, head);
    assert_eq!(None, it.next(&arena));
    assert_eq!(None, it.next_back(&arena));
}

#[test]
fn long_list_keeps_its_order() {
    let mut arena = NodeArena::new();
    let head = Node::init(&mut arena);
    let mut expected = Vec::new();
    for _ in 0..100 {
        let n = Node::init(&mut arena);
        Node::insert(&mut arena, head, n);
        expected.insert(0, n);
    }
    assert_eq!(expected, arena.forward(head));
    for k in (0..100).step_by(3) {
        let n = expected[k];
        Node::remove(&mut arena, n);
    }
    let kept: Vec<usize> =
        expected.iter().enumerate().filter(|(k, _)| k % 3 != 0).map(|(_, n)| *n).collect();
    assert_eq!(kept, arena.forward(head));
    let mut reversed = kept.clone();
    reversed.reverse();
    assert_eq!(reversed, arena.backward(head));
}
