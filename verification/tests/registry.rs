use tetris::registry::{Registry, RegistryError};

fn sorted(mut list: Vec<usize>) -> Vec<usize> {
    list.sort();
    list
}

fn registry_with(issued: usize) -> Registry {
    let mut registry = Registry::new();
    for expected in 0..issued {
        assert_eq!(registry.issue(), expected);
    }
    registry
}

#[test]
fn identifiers_are_issued_in_turn() {
    let mut registry = Registry::new();
    assert_eq!(registry.issued(), 0);
    assert_eq!(registry.issue(), 0);
    assert_eq!(registry.issue(), 1);
    assert_eq!(registry.issue(), 2);
    assert_eq!(registry.issued(), 3);
    assert!(!registry.has_record(1));
    assert!(!registry.was_detached(1));
    assert_eq!(registry.group_of(1), Vec::<usize>::new());
    assert_eq!(registry.group_of(17), Vec::<usize>::new());
}

#[test]
fn a_registered_group_links_each_member_to_every_other() {
    let mut registry = registry_with(6);
    assert_eq!(registry.register_group(&vec![1, 3, 4, 5]), Ok(()));
    assert_eq!(sorted(registry.group_of(1)), vec![3, 4, 5]);
    assert_eq!(sorted(registry.group_of(3)), vec![1, 4, 5]);
    assert_eq!(sorted(registry.group_of(4)), vec![1, 3, 5]);
    assert_eq!(sorted(registry.group_of(5)), vec![1, 3, 4]);
    assert_eq!(registry.group_of(0), Vec::<usize>::new());
    assert!(registry.has_record(4));
    assert!(!registry.has_record(0));
    assert_eq!(registry.register_group(&vec![0, 2]), Ok(()));
    assert_eq!(registry.group_of(0), vec![2]);
    assert_eq!(sorted(registry.group_of(1)), vec![3, 4, 5]);
}

#[test]
fn a_group_of_one_has_a_record_and_no_sibling() {
    let mut registry = registry_with(2);
    assert_eq!(registry.register_group(&vec![1]), Ok(()));
    assert!(registry.has_record(1));
    assert_eq!(registry.group_of(1), Vec::<usize>::new());
    assert_eq!(registry.register_group(&vec![]), Ok(()));
    assert!(!registry.has_record(0));
}

#[test]
fn an_identifier_that_was_not_issued_is_refused() {
    let mut registry = registry_with(3);
    assert_eq!(registry.check_group(&vec![0, 3]), Err(RegistryError::UnknownId));
    assert_eq!(registry.register_group(&vec![0, 3]), Err(RegistryError::UnknownId));
    assert!(!registry.has_record(0));
    assert_eq!(registry.register_group(&vec![3, 3]), Err(RegistryError::UnknownId));
}

#[test]
fn an_identifier_with_a_record_is_refused() {
    let mut registry = registry_with(4);
    registry.register_group(&vec![0, 1]).unwrap();
    assert_eq!(registry.register_group(&vec![2, 1]), Err(RegistryError::IdTaken));
    assert!(!registry.has_record(2));
    assert_eq!(registry.group_of(1), vec![0]);
    assert_eq!(registry.register_group(&vec![1, 1]), Err(RegistryError::IdTaken));
}

#[test]
fn an_identifier_listed_twice_is_refused() {
    let mut registry = registry_with(4);
    assert_eq!(registry.register_group(&vec![0, 2, 0]), Err(RegistryError::DuplicateId));
    assert!(!registry.has_record(0));
    assert!(!registry.has_record(2));
    assert_eq!(registry.register_group(&vec![0, 2]), Ok(()));
}

#[test]
fn detach_takes_a_cell_out_of_every_sibling_list() {
    let mut registry = registry_with(8);
    registry.register_group(&vec![0, 1, 2, 3]).unwrap();
    registry.register_group(&vec![4, 5, 6, 7]).unwrap();
    registry.detach(2);
    assert!(!registry.has_record(2));
    assert!(registry.was_detached(2));
    assert_eq!(registry.group_of(2), Vec::<usize>::new());
    assert_eq!(sorted(registry.group_of(0)), vec![1, 3]);
    assert_eq!(sorted(registry.group_of(1)), vec![0, 3]);
    assert_eq!(sorted(registry.group_of(3)), vec![0, 1]);
    assert_eq!(sorted(registry.group_of(4)), vec![5, 6, 7]);
}

#[test]
fn the_sibling_relation_stays_symmetric_under_detach() {
    let mut registry = registry_with(9);
    registry.register_group(&vec![0, 1, 2, 3]).unwrap();
    registry.register_group(&vec![4, 5, 6]).unwrap();
    registry.register_group(&vec![7, 8]).unwrap();
    for id in [1, 5, 8, 0, 6, 3] {
        registry.detach(id);
        for a in 0..9 {
            for b in 0..9 {
                let a_lists_b = registry.group_of(a).contains(&b);
                let b_lists_a = registry.group_of(b).contains(&a);
                assert_eq!(a_lists_b, b_lists_a);
            }
            assert!(!registry.group_of(a).contains(&id));
            assert!(!registry.group_of(a).contains(&a));
        }
    }
}

#[test]
fn a_group_may_shrink_to_nothing() {
    let mut registry = registry_with(2);
    registry.register_group(&vec![0, 1]).unwrap();
    registry.detach(0);
    assert!(registry.has_record(1));
    assert_eq!(registry.group_of(1), Vec::<usize>::new());
    registry.detach(1);
    assert!(!registry.has_record(1));
    assert_eq!(registry.group_of(1), Vec::<usize>::new());
    registry.detach(1);
    assert!(registry.was_detached(1));
    registry.detach(40);
    assert!(!registry.was_detached(40));
}

#[test]
fn a_detached_identifier_is_not_used_again() {
    let mut registry = registry_with(3);
    registry.register_group(&vec![0, 1]).unwrap();
    registry.detach(0);
    assert_eq!(registry.register_group(&vec![0, 2]), Err(RegistryError::IdTaken));
    assert!(!registry.has_record(0));
    assert!(!registry.has_record(2));
    assert_eq!(registry.issue(), 3);
}
