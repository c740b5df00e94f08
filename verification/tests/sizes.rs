use byte_trie::child::{Child, MAX_CHILD_SIZE};
use byte_trie::keys::ByteKey;
use byte_trie::nodes::{next_size, smallest_upgrade, NO_CHILD};

#[test]
fn next_size_cannot_infinitely_loop() {
    let mut size = NO_CHILD;
    while size < MAX_CHILD_SIZE {
        let next = next_size(size);
        assert_ne!(size, next);
        size = next;
    }
}

#[test]
fn next_size_walks_the_progression() {
    let expected = [1usize, 2, 4, 8, 16, 32, 64, 128, 256];
    let mut size = NO_CHILD;
    for want in expected {
        size = next_size(size);
        assert_eq!(size, want);
    }
    assert_eq!(next_size(256), 256);
    assert_eq!(next_size(3), 256);
    assert_eq!(next_size(1000), 256);
}

#[test]
fn smallest_upgrade_exact_values() {
    assert_eq!(smallest_upgrade(0, 2, 3), 2);
    assert_eq!(smallest_upgrade(0, 0, 1), 2);
    assert_eq!(smallest_upgrade(0, 0, 2), 4);
    assert_eq!(smallest_upgrade(0, 0x10, 0x20), 32);
    assert_eq!(smallest_upgrade(0, 0, 128), 256);
    assert_eq!(smallest_upgrade(2, 0, 1), 4);
    assert_eq!(smallest_upgrade(4, 2, 3), 8);
    assert_eq!(smallest_upgrade(64, 1, 2), 128);
    assert_eq!(smallest_upgrade(128, 1, 2), 256);
}

#[test]
fn smallest_upgrade_exhausted_progression() {
    assert_eq!(smallest_upgrade(256, 1, 2), 256);
    assert_eq!(smallest_upgrade(0, 5, 5), 256);
    assert_eq!(smallest_upgrade(3, 1, 2), 256);
    assert_eq!(smallest_upgrade(1000, 1, 2), 256);
}

#[test]
fn smallest_upgrade_is_minimal_for_all_symbols() {
    let starts = [0usize, 1, 2, 4, 8, 16, 32, 64, 128];
    let sizes = [1usize, 2, 4, 8, 16, 32, 64, 128, 256];
    for start in starts {
        for lhs in 0..=255u8 {
            for rhs in 0..=255u8 {
                if lhs == rhs {
                    continue;
                }
                let found = smallest_upgrade(start, lhs, rhs);
                assert!(sizes.contains(&found));
                assert!(found > start);
                assert_ne!(lhs as usize % found, rhs as usize % found);
                for size in sizes {
                    if size > start && size < found {
                        assert_eq!(lhs as usize % size, rhs as usize % size);
                    }
                }
            }
        }
    }
}

#[test]
fn child_new_has_the_size_asked_for() {
    for size in [1usize, 2, 4, 8, 16, 32, 64, 128, 256] {
        let child: Child<ByteKey, u32> = Child::new(size);
        assert_eq!(child.size(), size);
        assert_eq!(child.get().len(), size);
        assert!(child.is_empty());
        assert!(child.get().iter().all(|slot| slot.is_none()));
    }
}

#[test]
fn child_new_falls_back_to_one_slot() {
    for size in [0usize, 3, 5, 100, 255, 257, 512, 100_000] {
        let child: Child<ByteKey, u32> = Child::new(size);
        assert_eq!(child.size(), 1);
        assert!(child.is_empty());
    }
}
