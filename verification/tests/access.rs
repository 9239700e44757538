use bevy_prototype_scheduler::{AccessMode, AccessSet};

fn set_of(entries: &[(u64, AccessMode)]) -> AccessSet {
    let mut set = AccessSet::new();
    for (resource, mode) in entries {
        set.insert(*resource, *mode);
    }
    set
}

#[test]
fn empty_sets_are_compatible() {
    let a = AccessSet::new();
    let b = AccessSet::new();
    assert!(a.is_compatible(&b));
    assert_eq!(a.len(), 0);
}

#[test]
fn readers_of_one_resource_are_compatible() {
    let a = set_of(&[(1, AccessMode::Read)]);
    let b = set_of(&[(1, AccessMode::Read)]);
    assert!(a.is_compatible(&b));
    assert!(b.is_compatible(&a));
}

#[test]
fn writer_conflicts_with_reader() {
    let writer = set_of(&[(1, AccessMode::Write)]);
    let reader = set_of(&[(1, AccessMode::Read)]);
    assert!(!writer.is_compatible(&reader));
    assert!(!reader.is_compatible(&writer));
}

#[test]
fn writer_conflicts_with_writer() {
    let a = set_of(&[(7, AccessMode::Write)]);
    let b = set_of(&[(7, AccessMode::Write)]);
    assert!(!a.is_compatible(&b));
}

#[test]
fn writers_of_different_resources_are_compatible() {
    let a = set_of(&[(1, AccessMode::Write), (2, AccessMode::Read)]);
    let b = set_of(&[(3, AccessMode::Write), (2, AccessMode::Read)]);
    assert!(a.is_compatible(&b));
    assert!(b.is_compatible(&a));
}

#[test]
fn conflict_is_found_from_the_smaller_and_the_larger_side() {
    let small = set_of(&[(9, AccessMode::Write)]);
    let large = set_of(&[
        (1, AccessMode::Read),
        (2, AccessMode::Read),
        (3, AccessMode::Read),
        (9, AccessMode::Read),
    ]);
    assert!(!small.is_compatible(&large));
    assert!(!large.is_compatible(&small));
}

#[test]
fn compatibility_is_symmetric_on_samples() {
    let sets = vec![
        set_of(&[]),
        set_of(&[(1, AccessMode::Read)]),
        set_of(&[(1, AccessMode::Write)]),
        set_of(&[(1, AccessMode::Read), (2, AccessMode::Write)]),
        set_of(&[(2, AccessMode::Read), (3, AccessMode::Write)]),
    ];
    for a in &sets {
        for b in &sets {
            assert_eq!(a.is_compatible(b), b.is_compatible(a));
        }
    }
}

#[test]
fn later_declaration_replaces_earlier_one() {
    let mut set = AccessSet::new();
    set.insert(4, AccessMode::Write);
    set.insert(4, AccessMode::Read);
    assert_eq!(set.len(), 1);
    assert_eq!(set.mode_of(4), Some(AccessMode::Read));
    let reader = set_of(&[(4, AccessMode::Read)]);
    assert!(set.is_compatible(&reader));

    set.insert(4, AccessMode::Write);
    assert_eq!(set.len(), 1);
    assert_eq!(set.mode_of(4), Some(AccessMode::Write));
    assert!(!set.is_compatible(&reader));
}

#[test]
fn mode_of_undeclared_resource_is_none() {
    let set = set_of(&[(1, AccessMode::Read), (2, AccessMode::Write)]);
    assert_eq!(set.len(), 2);
    assert_eq!(set.mode_of(1), Some(AccessMode::Read));
    assert_eq!(set.mode_of(2), Some(AccessMode::Write));
    assert_eq!(set.mode_of(3), None);
}
