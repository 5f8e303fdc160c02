use parachain_consensus::block::BlockHash;
use parachain_consensus::levels::{removal_order, KnownBlock, LevelMonitor};

fn hash(byte: u8) -> BlockHash {
    BlockHash { bytes: [byte; 32] }
}

fn known(byte: u8, number: u32, parent: u8) -> KnownBlock {
    KnownBlock { hash: hash(byte), number, parent: hash(parent) }
}

fn hashes(monitor: &LevelMonitor) -> Vec<u8> {
    monitor.blocks.iter().map(|entry| entry.hash.bytes[0]).collect()
}

fn bytes(removed: Vec<BlockHash>) -> Vec<u8> {
    removed.iter().map(|hash| hash.bytes[0]).collect()
}

#[test]
fn restart_without_blocks() {
    let monitor = LevelMonitor::restore(3, &Vec::new());
    assert_eq!(monitor.import_counter, 0);
    assert!(monitor.blocks.is_empty());
    assert_eq!(monitor.freshness(&hash(1)), None);
}

#[test]
fn restart_takes_numbers_for_freshness() {
    let blocks = vec![known(2, 7, 1), known(1, 6, 0), known(2, 7, 1), known(3, 4, 9)];
    let monitor = LevelMonitor::restore(3, &blocks);
    assert_eq!(hashes(&monitor), vec![2, 1, 3]);
    assert_eq!(monitor.import_counter, 8);
    assert_eq!(monitor.freshness(&hash(2)), Some(7));
    assert_eq!(monitor.freshness(&hash(1)), Some(6));
    assert_eq!(monitor.freshness(&hash(3)), Some(4));
    assert_eq!(monitor.level_size(7), 1);
    assert_eq!(monitor.level_size(5), 0);
}

#[test]
fn imports_grow_fresher() {
    let mut monitor = LevelMonitor::restore(3, &vec![known(0, 0, 9)]);
    monitor.block_imported(1, hash(1), hash(0));
    monitor.block_imported(1, hash(2), hash(0));
    assert_eq!(monitor.freshness(&hash(1)), Some(1));
    assert_eq!(monitor.freshness(&hash(2)), Some(2));
    // A block that comes again only gets fresher.
    monitor.block_imported(1, hash(1), hash(0));
    assert_eq!(monitor.freshness(&hash(1)), Some(3));
    assert_eq!(monitor.import_counter, 4);
    assert_eq!(hashes(&monitor), vec![0, 1, 2]);
    assert_eq!(monitor.level_size(1), 2);
}

#[test]
fn stalest_branch_goes_first() {
    let mut monitor = LevelMonitor::restore(3, &vec![known(0, 0, 9)]);
    for byte in 1..4 {
        assert!(monitor.import(1, hash(byte), hash(0), hash(0)).is_empty());
    }
    // The first block is built on, which makes its branch the freshest.
    assert!(monitor.import(2, hash(11), hash(1), hash(0)).is_empty());
    assert_eq!(bytes(monitor.import(1, hash(4), hash(0), hash(0))), vec![2]);
    assert_eq!(bytes(monitor.import(1, hash(5), hash(0), hash(0))), vec![3]);
    assert_eq!(bytes(monitor.import(1, hash(6), hash(0), hash(0))), vec![1, 11]);
    assert_eq!(hashes(&monitor), vec![0, 4, 5, 6]);
    assert_eq!(monitor.level_size(1), 3);
}

#[test]
fn best_branch_is_kept() {
    let mut monitor = LevelMonitor::restore(2, &vec![known(0, 0, 9)]);
    monitor.import(1, hash(1), hash(0), hash(0));
    monitor.import(2, hash(11), hash(1), hash(0));
    monitor.import(1, hash(2), hash(0), hash(11));
    // The best block is built on the stalest one.
    assert_eq!(bytes(monitor.import(1, hash(3), hash(0), hash(11))), vec![2]);
    assert_eq!(hashes(&monitor), vec![0, 1, 11, 3]);
}

#[test]
fn lone_best_block_is_kept_below_the_limit() {
    let mut monitor = LevelMonitor::restore(1, &vec![known(0, 0, 9)]);
    monitor.import(1, hash(1), hash(0), hash(0));
    assert!(monitor.import(1, hash(2), hash(0), hash(1)).is_empty());
    assert_eq!(monitor.level_size(1), 2);
    assert_eq!(bytes(monitor.import(1, hash(3), hash(0), hash(1))), vec![2]);
    assert_eq!(hashes(&monitor), vec![0, 1, 3]);
}

#[test]
fn overfull_level_shrinks_at_once() {
    let blocks = vec![
        known(0, 0, 9),
        known(1, 1, 0),
        known(2, 1, 0),
        known(3, 1, 0),
        known(4, 1, 0),
        known(31, 2, 3),
    ];
    let mut monitor = LevelMonitor::restore(2, &blocks);
    assert_eq!(bytes(monitor.enforce_limit(1, hash(2))), vec![1, 4, 3, 31]);
    assert_eq!(hashes(&monitor), vec![0, 2]);
    assert_eq!(monitor.import_counter, 3);
}

#[test]
fn children_are_taken_out_before_their_parents() {
    let blocks = vec![
        known(0, 0, 9),
        known(1, 1, 0),
        known(2, 1, 0),
        known(11, 2, 1),
        known(111, 3, 11),
        known(12, 2, 1),
    ];
    let mut monitor = LevelMonitor::restore(1, &blocks);
    let before = monitor.blocks.clone();
    let gone = monitor.enforce_limit(1, hash(2));
    assert_eq!(bytes(gone.clone()), vec![1, 11, 111, 12]);
    assert_eq!(bytes(removal_order(&before, &gone)), vec![111, 11, 12, 1]);
    // A hash that is not known is passed over, and one that comes twice counts once.
    assert_eq!(bytes(removal_order(&before, &vec![hash(1), hash(77), hash(1)])), vec![1]);
    assert!(removal_order(&before, &Vec::new()).is_empty());
}

#[test]
fn full_level_loses_no_more_than_needed() {
    let blocks = (0..6).map(|byte| known(byte, 1, 99)).collect();
    let mut monitor = LevelMonitor::restore(4, &blocks);
    assert_eq!(bytes(monitor.enforce_limit(1, hash(0))), vec![1, 2, 3]);
    assert_eq!(monitor.level_size(1), 3);
}

#[test]
fn highest_limit_removes_nothing() {
    let mut monitor = LevelMonitor::restore(usize::MAX, &vec![known(0, 0, 9)]);
    for byte in 1..100 {
        assert!(monitor.import(1, hash(byte), hash(0), hash(0)).is_empty());
    }
    assert_eq!(monitor.level_size(1), 99);
}

#[test]
fn a_parent_has_the_number_below() {
    // A block that names a parent of another level than the one below is not built on it.
    let blocks = vec![known(1, 1, 0), known(2, 3, 1), known(3, 1, 0)];
    let mut monitor = LevelMonitor::restore(1, &blocks);
    assert_eq!(bytes(monitor.enforce_limit(1, hash(9))), vec![1, 3]);
    assert_eq!(hashes(&monitor), vec![2]);
}

#[test]
fn no_level_ever_exceeds_the_limit() {
    let mut monitor = LevelMonitor::restore(2, &vec![known(0, 0, 99)]);
    let mut best = hash(0);
    for round in 0..6u8 {
        for number in 1..4u32 {
            let byte = 10 * (round + 1) + number as u8;
            // Every block is built on the one before it in its round.
            let parent = if number == 1 { 0 } else { byte - 1 };
            monitor.import(number, hash(byte), hash(parent), best);
            if round == 2 {
                best = hash(byte);
            }
            for level in 0..5 {
                assert!(monitor.level_size(level) <= 2);
            }
        }
    }
    // The best block's branch and the last one are left.
    assert_eq!(hashes(&monitor), vec![0, 31, 32, 33, 61, 62, 63]);
}
