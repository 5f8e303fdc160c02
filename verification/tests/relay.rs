use futures::executor::block_on;
use futures::StreamExt;

use parachain_consensus::block::{BlockHash, DigestItem, Header};
use parachain_consensus::relay::{HeadStream, ParaId, RelaychainInner};

fn head(number: u32) -> Header {
    Header {
        parent_hash: BlockHash { bytes: [1; 32] },
        number,
        state_root: BlockHash { bytes: [2; 32] },
        extrinsics_root: BlockHash { bytes: [3; 32] },
        digest: vec![DigestItem::Other(vec![number as u8])],
    }
}

#[test]
fn each_sender_belongs_to_its_own_receiver() {
    let relay_chain = RelaychainInner::new();
    let best = relay_chain.new_best_heads.as_ref().unwrap();
    let finalized = relay_chain.finalized_heads.as_ref().unwrap();
    assert!(relay_chain.new_best_heads_sender.is_connected_to(best));
    assert!(relay_chain.finalized_heads_sender.is_connected_to(finalized));
    assert!(!relay_chain.new_best_heads_sender.is_connected_to(finalized));
    assert!(!relay_chain.finalized_heads_sender.is_connected_to(best));
}

#[test]
fn streams_are_handed_out_once() {
    let mut relay_chain = RelaychainInner::new();
    let best = relay_chain.new_best_heads(ParaId { id: 100 });
    assert!(relay_chain.new_best_heads.is_none());
    assert!(relay_chain.finalized_heads.is_some());
    assert!(relay_chain.new_best_heads_sender.is_connected_to(&best.receiver));

    let finalized = relay_chain.finalized_heads(ParaId { id: 7 });
    assert!(relay_chain.finalized_heads.is_none());
    assert!(relay_chain.finalized_heads_sender.is_connected_to(&finalized.receiver));
}

#[test]
fn heads_come_out_encoded_and_in_order() {
    let mut relay_chain = RelaychainInner::new();
    let mut best = relay_chain.new_best_heads(ParaId { id: 100 });
    let mut finalized = relay_chain.finalized_heads(ParaId { id: 100 });
    for number in 1..4 {
        relay_chain.new_best_heads_sender.unbounded_send(head(number)).unwrap();
    }
    relay_chain.finalized_heads_sender.unbounded_send(head(9)).unwrap();
    drop(relay_chain);

    for number in 1..4 {
        let received = block_on(best.receiver.next());
        let item = HeadStream::item(&received).unwrap();
        assert_eq!(item, head(number).encode());
        assert_eq!(Header::decode(&item), Some((head(number), 0)));
    }
    assert_eq!(HeadStream::item(&block_on(best.receiver.next())), None);
    let received = block_on(finalized.receiver.next());
    assert_eq!(HeadStream::item(&received), Some(head(9).encode()));
}

#[test]
fn order_of_the_streams_does_not_matter() {
    let mut relay_chain = RelaychainInner::new();
    let mut finalized = relay_chain.finalized_heads(ParaId { id: 100 });
    assert!(relay_chain.finalized_heads.is_none());
    assert!(relay_chain.new_best_heads.is_some());
    let mut best = relay_chain.new_best_heads(ParaId { id: 100 });
    assert!(relay_chain.new_best_heads.is_none());

    relay_chain.new_best_heads_sender.unbounded_send(head(1)).unwrap();
    relay_chain.finalized_heads_sender.unbounded_send(head(2)).unwrap();
    drop(relay_chain);
    assert_eq!(block_on(best.receiver.next()), Some(head(1)));
    assert_eq!(block_on(best.receiver.next()), None);
    assert_eq!(block_on(finalized.receiver.next()), Some(head(2)));
    assert_eq!(block_on(finalized.receiver.next()), None);
}
