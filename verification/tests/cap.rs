use oxygen::cap::{CapError, CapSpace, Handle, Object, Rights};

#[test]
fn handle_round_trips_and_null_is_rejected() {
    let h = Handle::new(7, 42);
    assert_eq!(h.index(), 7);
    assert_eq!(h.generation(), 42);
    assert_eq!(Handle::from_raw(h.raw()), h);

    let space: CapSpace<4> = CapSpace::new();
    assert_eq!(space.get(Handle::NULL()), Err(CapError::BadHandle));
}

#[test]
fn get_returns_what_was_inserted() {
    let mut space: CapSpace<4> = CapSpace::new();
    let h = space.insert(Object::Console, Rights::READ()).unwrap();

    assert_eq!(space.get(h), Ok((Object::Console, Rights::READ())));
    assert_eq!(space.object(h), Ok(Object::Console));
    assert_eq!(space.rights(h), Ok(Rights::READ()));
}

#[test]
fn delegation_narrows_rights_and_never_widens() {
    let mut space: CapSpace<4> = CapSpace::new();
    let parent_rights = Rights::READ().union(Rights::GRANT());
    let parent = space.insert(Object::Console, parent_rights).unwrap();

    let child = space.delegate(parent, Rights::ALL()).unwrap();
    let child_rights = space.rights(child).unwrap();

    assert_eq!(child_rights, parent_rights, "child exceeded its parent's rights");
    assert!(!child_rights.contains(Rights::WRITE()));
    assert!(!child_rights.contains(Rights::REVOKE()));
}

#[test]
fn delegation_without_grant_is_refused() {
    let mut space: CapSpace<4> = CapSpace::new();
    let parent = space.insert(Object::Console, Rights::READ()).unwrap();

    assert_eq!(space.delegate(parent, Rights::READ()), Err(CapError::InsufficientRights));
}

#[test]
fn revoking_a_parent_invalidates_the_child_but_not_itself() {
    let mut space: CapSpace<8> = CapSpace::new();
    let parent = space.insert(Object::Console, Rights::ALL()).unwrap();
    let child = space.delegate(parent, Rights::ALL()).unwrap();

    let freed = space.revoke(parent).unwrap();

    assert_eq!(freed, 1);
    assert_eq!(space.get(child), Err(CapError::StaleHandle));
    assert!(space.get(parent).is_ok());
}

#[test]
fn revocation_is_transitive_across_generations() {
    let mut space: CapSpace<8> = CapSpace::new();
    let root = space.insert(Object::Console, Rights::ALL()).unwrap();
    let child = space.delegate(root, Rights::ALL()).unwrap();
    let grandchild = space.delegate(child, Rights::ALL()).unwrap();

    let freed = space.revoke(root).unwrap();

    assert_eq!(freed, 2, "child and grandchild should both be freed");
    assert_eq!(space.get(child), Err(CapError::StaleHandle));
    assert_eq!(space.get(grandchild), Err(CapError::StaleHandle));
    assert!(space.get(root).is_ok());
}

#[test]
fn revoke_without_revoke_right_is_refused_and_frees_nothing() {
    let mut space: CapSpace<8> = CapSpace::new();
    let root = space.insert(Object::Console, Rights::GRANT()).unwrap();
    let child = space.delegate(root, Rights::GRANT()).unwrap();

    assert_eq!(space.revoke(root), Err(CapError::InsufficientRights));
    assert!(space.get(child).is_ok());
    assert_eq!(space.count(), 2);
}

#[test]
fn a_reused_slot_gets_a_fresh_generation() {
    let mut space: CapSpace<2> = CapSpace::new();
    let first = space.insert(Object::Console, Rights::ALL()).unwrap();
    space.delete(first).unwrap();
    let second = space.insert(Object::Console, Rights::ALL()).unwrap();

    assert_eq!(first.index(), second.index(), "the freed slot should be reused");
    assert_ne!(first.raw(), second.raw());
    assert_eq!(space.get(first), Err(CapError::StaleHandle));
    assert!(space.get(second).is_ok());
}

#[test]
fn delete_removes_the_slot_and_its_subtree() {
    let mut space: CapSpace<8> = CapSpace::new();
    let root = space.insert(Object::Console, Rights::ALL()).unwrap();
    let child = space.delegate(root, Rights::ALL()).unwrap();
    let grandchild = space.delegate(child, Rights::ALL()).unwrap();
    assert_eq!(space.count(), 3);

    let freed = space.delete(root).unwrap();

    assert_eq!(freed, 3);
    assert_eq!(space.count(), 0);
    assert_eq!(space.get(root), Err(CapError::StaleHandle));
    assert_eq!(space.get(child), Err(CapError::StaleHandle));
    assert_eq!(space.get(grandchild), Err(CapError::StaleHandle));
}

#[test]
fn insert_past_capacity_is_refused() {
    let mut space: CapSpace<1> = CapSpace::new();
    assert!(space.insert(Object::Console, Rights::READ()).is_ok());
    assert_eq!(space.insert(Object::Console, Rights::READ()), Err(CapError::OutOfSlots));
}

#[test]
fn unlinking_a_middle_sibling_preserves_the_rest_of_the_list() {
    let mut space: CapSpace<8> = CapSpace::new();
    let parent = space.insert(Object::Console, Rights::ALL()).unwrap();
    let a = space.delegate(parent, Rights::ALL()).unwrap();
    let b = space.delegate(parent, Rights::ALL()).unwrap();
    let c = space.delegate(parent, Rights::ALL()).unwrap();

    let freed = space.delete(b).unwrap();
    assert_eq!(freed, 1);
    assert!(space.get(a).is_ok());
    assert!(space.get(c).is_ok());
    assert_eq!(space.count(), 3, "parent, a and c remain");

    let freed = space.revoke(parent).unwrap();
    assert_eq!(freed, 2);
    assert_eq!(space.get(a), Err(CapError::StaleHandle));
    assert_eq!(space.get(c), Err(CapError::StaleHandle));
}

#[test]
fn an_out_of_range_handle_is_bad_and_a_never_used_generation_is_stale() {
    let mut space: CapSpace<4> = CapSpace::new();
    let h = space.insert(Object::Console, Rights::READ()).unwrap();
    assert_eq!(space.get(Handle::new(4, 0)), Err(CapError::BadHandle));
    assert_eq!(space.get(Handle::new(h.index(), 5)), Err(CapError::StaleHandle));
    assert_eq!(space.get(Handle::new(2, 0)), Err(CapError::BadHandle));
}

#[test]
fn insert_derived_needs_an_occupied_parent() {
    let mut space: CapSpace<4> = CapSpace::new();
    assert_eq!(space.insert_derived(Object::Console, Rights::READ(), 0), Err(CapError::BadHandle));
    assert_eq!(space.insert_derived(Object::Console, Rights::READ(), 9), Err(CapError::BadHandle));
    let root = space.insert(Object::Registry, Rights::ALL()).unwrap();
    let child = space.insert_derived(Object::Console, Rights::WRITE(), root.index()).unwrap();
    assert_eq!(space.get(child), Ok((Object::Console, Rights::WRITE())));
    assert_eq!(space.revoke(root), Ok(1));
}

#[test]
fn delegate_through_a_stale_handle_is_refused() {
    let mut space: CapSpace<4> = CapSpace::new();
    let root = space.insert(Object::Console, Rights::ALL()).unwrap();
    let child = space.delegate(root, Rights::ALL()).unwrap();
    space.revoke(root).unwrap();
    assert_eq!(space.delegate(child, Rights::READ()), Err(CapError::StaleHandle));
    assert_eq!(space.count(), 1);
}

#[test]
fn deleting_a_child_leaves_its_parent_revocable() {
    let mut space: CapSpace<8> = CapSpace::new();
    let root = space.insert(Object::Console, Rights::ALL()).unwrap();
    let a = space.delegate(root, Rights::ALL()).unwrap();
    let b = space.delegate(a, Rights::ALL()).unwrap();
    let c = space.delegate(root, Rights::ALL()).unwrap();
    assert_eq!(space.delete(a), Ok(2));
    assert_eq!(space.get(b), Err(CapError::StaleHandle));
    assert!(space.get(c).is_ok());
    assert_eq!(space.revoke(root), Ok(1));
    assert_eq!(space.count(), 1);
}

#[test]
fn rights_set_operations() {
    let rw = Rights::READ().union(Rights::WRITE());
    assert_eq!(rw.bits(), 3);
    assert!(rw.contains(Rights::READ()));
    assert!(!rw.contains(Rights::GRANT()));
    assert_eq!(rw.intersection(Rights::WRITE()), Rights::WRITE());
    assert!(Rights::NONE().is_empty());
    assert_eq!(Rights::from_bits(15), Rights::ALL());
    assert!(!Rights::ALL().is_empty());
}

#[test]
fn object_kinds_are_tagged() {
    assert_eq!(Object::Null.kind(), 0);
    assert_eq!(Object::Console.kind(), 1);
    assert_eq!(Object::Task(3).kind(), 2);
    assert_eq!(Object::Memory { base: 0, len: 1 }.kind(), 3);
    assert_eq!(Object::Endpoint(1).kind(), 4);
    assert_eq!(Object::Registry.kind(), 5);
    assert_eq!(Object::Journal.kind(), 6);
    assert!(Object::Null.is_null());
    assert!(!Object::Console.is_null());
}
