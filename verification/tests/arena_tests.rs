use arena_trees::arena::{Arena, ArenaError, HasId, IsMemoryArena};

#[test]
fn arena_issues_increasing_identities() {
    let mut arena = Arena::<usize>::new();
    assert_eq!(arena.remaining_ids(), usize::MAX);
    assert_eq!(arena.get_new_id(), 0);
    assert_eq!(arena.get_new_id(), 1);
    assert_eq!(arena.get_new_id(), 2);
    assert_eq!(arena.remaining_ids(), usize::MAX - 3);
}

#[test]
fn arena_stores_a_node_under_its_identity() {
    let mut arena = Arena::<usize>::new();
    assert_eq!(7usize.get_id(), 7);
    assert_eq!(arena.get_node(&7), None);
    assert_eq!(arena.add_node(7), Ok(()));
    assert_eq!(arena.get_node(&7), Some(&7));
    assert_eq!(arena.get_node(&8), None);
}

#[test]
fn arena_refuses_a_taken_identity() {
    let mut arena = Arena::<usize>::new();
    assert_eq!(arena.add_node(7), Ok(()));
    assert_eq!(arena.add_node(7), Err(ArenaError::DuplicateIdentity));
    assert_eq!(arena.get_node(&7), Some(&7));
}

#[test]
fn arena_deletes_only_what_it_holds() {
    let mut arena = Arena::<usize>::new();
    assert_eq!(arena.delete_node(&3), Err(ArenaError::NotFound));
    assert_eq!(arena.add_node(3), Ok(()));
    assert_eq!(arena.delete_node(&3), Ok(()));
    assert_eq!(arena.get_node(&3), None);
    assert_eq!(arena.delete_node(&3), Err(ArenaError::NotFound));
    assert_eq!(arena.add_node(3), Ok(()));
}

#[test]
fn arena_hands_a_taken_node_back() {
    let mut arena = Arena::<usize>::new();
    assert_eq!(arena.take_node(&4), None);
    assert_eq!(arena.add_node(4), Ok(()));
    assert_eq!(arena.take_node(&4), Some(4));
    assert_eq!(arena.get_node(&4), None);
}

#[test]
fn arena_never_reissues_a_deleted_identity() {
    let mut arena = Arena::<usize>::new();
    let first = arena.get_new_id();
    assert_eq!(arena.add_node(first), Ok(()));
    assert_eq!(arena.delete_node(&first), Ok(()));
    let second = arena.get_new_id();
    assert!(second > first);
}
