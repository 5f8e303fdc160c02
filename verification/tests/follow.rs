use parachain_consensus::block::{BlockHash, Header};
use parachain_consensus::follow::{
    announced_head, head_of, Action, BlockStatus, ChainInfo, Event, Follower, Head, RecoveryKind, RecoveryRequest,
};

fn hash(byte: u8) -> BlockHash {
    BlockHash { bytes: [byte; 32] }
}

fn head(byte: u8, number: u32) -> Head {
    Head { hash: hash(byte), number }
}

fn chain() -> ChainInfo {
    ChainInfo { best_hash: hash(1), best_number: 10, finalized_hash: hash(2) }
}

#[test]
fn head_has_the_hash_and_the_number_of_its_header() {
    let header = Header {
        parent_hash: hash(1),
        number: 42,
        state_root: hash(2),
        extrinsics_root: hash(3),
        digest: Vec::new(),
    };
    assert_eq!(head_of(&header), Head { hash: header.hash(), number: 42 });
}

#[test]
fn announced_bytes_name_a_head() {
    let header = Header {
        parent_hash: hash(1),
        number: 42,
        state_root: hash(2),
        extrinsics_root: hash(3),
        digest: Vec::new(),
    };
    assert_eq!(announced_head(&header.encode()), Some(head_of(&header)));
    assert_eq!(announced_head(&vec![1, 2, 3]), None);
}

#[test]
fn known_head_is_set_unless_older() {
    let known = BlockStatus::InChainWithState;
    let mut follower = Follower::new(true);
    assert_eq!(follower.new_best(head(5, 11), known, &chain()), Action::SetBest(head(5, 11)));
    // A block of the same number may take the place of the best one.
    assert_eq!(follower.new_best(head(5, 10), known, &chain()), Action::SetBest(head(5, 10)));
    assert_eq!(follower.new_best(head(5, 9), known, &chain()), Action::Wait);
    assert_eq!(follower.new_best(head(1, 10), known, &chain()), Action::Wait);
    assert_eq!(follower, Follower::new(true));
}

#[test]
fn head_that_is_neither_known_nor_unknown_is_passed_over() {
    let mut follower = Follower::new(true);
    for status in [BlockStatus::Queued, BlockStatus::InChainPruned, BlockStatus::KnownBad] {
        assert_eq!(follower.new_best(head(5, 11), status, &chain()), Action::Wait);
        assert_eq!(follower.unset_best, None);
    }
}

#[test]
fn unknown_head_is_kept_until_its_block_is_imported() {
    let mut follower = Follower::new(false);
    assert_eq!(follower.new_best(head(5, 11), BlockStatus::Unknown, &chain()), Action::Wait);
    assert_eq!(follower.unset_best, Some(head(5, 11)));
    assert_eq!(follower.imported(hash(6), &chain()), Action::Wait);
    assert_eq!(follower.finalized(hash(5), BlockStatus::Unknown, &chain()), Action::Wait);
    assert_eq!(follower.unset_best, Some(head(5, 11)));
    assert_eq!(follower.imported(hash(5), &chain()), Action::SetBest(head(5, 11)));
    assert_eq!(follower.unset_best, None);
    assert_eq!(follower.imported(hash(5), &chain()), Action::Wait);
}

#[test]
fn kept_head_is_not_set_once_the_best_block_is_newer() {
    let mut follower = Follower::new(false);
    follower.new_best(head(5, 11), BlockStatus::Unknown, &chain());
    let newer = ChainInfo { best_hash: hash(8), best_number: 12, ..chain() };
    assert_eq!(follower.imported(hash(5), &newer), Action::Wait);
    assert_eq!(follower.unset_best, None);
}

#[test]
fn newer_announcement_takes_the_place_of_a_kept_head() {
    let mut follower = Follower::new(false);
    follower.new_best(head(5, 11), BlockStatus::Unknown, &chain());
    follower.new_best(head(6, 12), BlockStatus::Unknown, &chain());
    assert_eq!(follower.imported(hash(5), &chain()), Action::Wait);
    assert_eq!(follower.unset_best, Some(head(6, 12)));
    follower.new_best(head(7, 11), BlockStatus::InChainWithState, &chain());
    assert_eq!(follower.unset_best, None);
}

#[test]
fn recovery_is_asked_for_in_full() {
    let mut follower = Follower::new(true);
    assert_eq!(
        follower.new_best(head(5, 11), BlockStatus::Unknown, &chain()),
        Action::Recover(RecoveryRequest { hash: hash(5), kind: RecoveryKind::Full })
    );
}

#[test]
fn head_is_finalized_once() {
    let follower = Follower::new(false);
    let known = BlockStatus::InChainWithState;
    assert_eq!(follower.finalized(hash(5), known, &chain()), Action::Finalize(hash(5)));
    assert_eq!(
        follower.finalized(hash(5), BlockStatus::InChainPruned, &chain()),
        Action::Finalize(hash(5))
    );
    assert_eq!(follower.finalized(hash(2), known, &chain()), Action::Wait);
    for status in [BlockStatus::Queued, BlockStatus::KnownBad, BlockStatus::Unknown] {
        assert_eq!(follower.finalized(hash(5), status, &chain()), Action::Wait);
    }
}

#[test]
fn events_lead_to_the_same_actions() {
    let mut follower = Follower::new(false);
    let unknown = Event::NewBest(head(5, 11), BlockStatus::Unknown);
    assert_eq!(follower.handle(unknown, &chain()), Action::Wait);
    let known = Event::Finalized(hash(5), BlockStatus::InChainWithState);
    assert_eq!(follower.handle(known, &chain()), Action::Finalize(hash(5)));
    assert_eq!(
        follower.handle(Event::Imported(hash(5)), &chain()),
        Action::SetBest(head(5, 11))
    );
}

#[test]
fn best_number_does_not_fall_over_a_run() {
    let mut follower = Follower::new(false);
    let mut chain = chain();
    let events = [
        Event::NewBest(head(5, 9), BlockStatus::InChainWithState),
        Event::NewBest(head(6, 12), BlockStatus::Unknown),
        Event::NewBest(head(7, 11), BlockStatus::InChainWithState),
        Event::Imported(hash(6)),
        Event::NewBest(head(8, 3), BlockStatus::Unknown),
        Event::Imported(hash(8)),
    ];
    let mut numbers = Vec::new();
    for event in events {
        if let Action::SetBest(head) = follower.handle(event, &chain) {
            chain.best_hash = head.hash;
            chain.best_number = head.number;
        }
        numbers.push(chain.best_number);
    }
    assert_eq!(numbers, vec![10, 10, 11, 11, 11, 11]);
}

#[test]
fn kept_head_outlasts_announcements_that_do_not_displace_it() {
    let mut follower = Follower::new(true);
    let kept = head(5, 11);
    follower.new_best(kept, BlockStatus::Unknown, &chain());
    // The same head again, the best block, and blocks that are passed over.
    assert_eq!(
        follower.new_best(kept, BlockStatus::Unknown, &chain()),
        Action::Recover(RecoveryRequest { hash: hash(5), kind: RecoveryKind::Full })
    );
    let best = head(1, 10);
    for status in [BlockStatus::InChainWithState, BlockStatus::Unknown] {
        assert_eq!(follower.new_best(best, status, &chain()), Action::Wait);
    }
    for status in [BlockStatus::Queued, BlockStatus::InChainPruned, BlockStatus::KnownBad] {
        assert_eq!(follower.new_best(head(6, 12), status, &chain()), Action::Wait);
    }
    assert_eq!(follower.unset_best, Some(kept));
    assert_eq!(follower.imported(hash(5), &chain()), Action::SetBest(kept));
}
