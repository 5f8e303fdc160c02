use futures::executor::block_on;
use futures::StreamExt;
use parity_scale_codec::Decode;
use sp_runtime::traits::BlakeTwo256;

use parachain_consensus::block::{Block, BlockHash, Header};
use parachain_consensus::follow::{
    head_of, Action, BlockStatus, ChainInfo, Follower, Head, RecoveryKind,
};
use parachain_consensus::import::{
    build_and_import_block, build_and_import_block_ext, BlockId, BlockImportParams, BlockOrigin,
    BlockTask, BuilderInit, ForkChoiceStrategy,
};
use parachain_consensus::levels::{KnownBlock, LevelMonitor};
use parachain_consensus::relay::{HeadStream, ParaId, RelaychainInner};

type WireHeader = sp_runtime::generic::Header<u32, BlakeTwo256>;

/// A client whose chain lives in memory.
struct Client {
    info: ChainInfo,
    /// The header of every block, in the order of import, with the block's hash.
    blocks: Vec<(BlockHash, Header)>,
}

impl Client {
    fn new() -> Client {
        let genesis = Header {
            parent_hash: BlockHash { bytes: [0; 32] },
            number: 0,
            state_root: BlockHash { bytes: [1; 32] },
            extrinsics_root: BlockHash { bytes: [2; 32] },
            digest: Vec::new(),
        };
        let hash = genesis.hash();
        Client {
            info: ChainInfo { best_hash: hash, best_number: 0, finalized_hash: hash },
            blocks: vec![(hash, genesis)],
        }
    }

    fn header(&self, hash: &BlockHash) -> Option<&Header> {
        self.blocks.iter().find(|(h, _)| h.same(hash)).map(|(_, header)| header)
    }

    fn status(&self, hash: &BlockHash) -> BlockStatus {
        match self.header(hash) {
            Some(_) => BlockStatus::InChainWithState,
            None => BlockStatus::Unknown,
        }
    }

    fn build(&self, init: BuilderInit) -> Block {
        let (parent_hash, timestamp) = match init {
            BuilderInit::AtBest => (self.info.best_hash, 0),
            BuilderInit::At(BlockId::Hash(hash)) => (hash, 0),
            BuilderInit::AtWithTimestamp(BlockId::Hash(hash), timestamp) => (hash, timestamp),
            _ => panic!("blocks are named by their hashes here"),
        };
        let parent = self.header(&parent_hash).expect("the parent is known");
        let mut root = [3; 32];
        root[..8].copy_from_slice(&timestamp.to_le_bytes());
        let mut inherent = vec![0xff];
        inherent.extend_from_slice(&timestamp.to_le_bytes());
        Block {
            header: Header {
                parent_hash,
                number: parent.number + 1,
                state_root: BlockHash { bytes: root },
                extrinsics_root: BlockHash { bytes: [4; 32] },
                digest: Vec::new(),
            },
            extrinsics: vec![inherent],
        }
    }

    fn import(&mut self, params: BlockImportParams) -> BlockHash {
        assert!(params.body.is_some());
        let mut header = params.header;
        header.digest.extend(params.post_digests);
        let hash = header.hash();
        let number = header.number;
        self.blocks.push((hash, header));
        if params.fork_choice == Some(ForkChoiceStrategy::Custom(true)) {
            self.info.best_hash = hash;
            self.info.best_number = number;
        }
        hash
    }

    fn perform(&mut self, action: Action) {
        match action {
            Action::SetBest(head) => {
                self.info.best_hash = head.hash;
                self.info.best_number = head.number;
            }
            Action::Finalize(hash) => self.info.finalized_hash = hash,
            Action::Wait | Action::Recover(_) => {}
        }
    }

    fn run(&mut self, task: BlockTask) -> Block {
        let built = self.build(task.init);
        let (block, params) = task.finish(built);
        let hash = self.import(params);
        assert_eq!(hash, block.header.hash());
        block
    }

    fn leaves(&self) -> Vec<BlockHash> {
        let mut leaves: Vec<&(BlockHash, Header)> = self
            .blocks
            .iter()
            .filter(|(hash, _)| !self.blocks.iter().any(|(_, h)| h.parent_hash.same(hash)))
            .collect();
        leaves.sort_by_key(|(_, header)| std::cmp::Reverse(header.number));
        leaves.into_iter().map(|(hash, _)| *hash).collect()
    }
}

/// The next head on a stream, as its receiver sees it.
fn next_head(stream: &mut HeadStream) -> Head {
    let received = block_on(stream.receiver.next());
    let bytes = HeadStream::item(&received).expect("the stream has not ended");
    let header = WireHeader::decode(&mut &bytes[..]).expect("a head is an encoded header");
    Head { hash: BlockHash { bytes: header.hash().into() }, number: header.number }
}

fn follow_best(client: &mut Client, follower: &mut Follower, stream: &mut HeadStream) -> Action {
    let head = next_head(stream);
    let action = follower.new_best(head, client.status(&head.hash), &client.info);
    client.perform(action);
    action
}

fn follow_finalized(client: &mut Client, follower: &Follower, stream: &mut HeadStream) {
    let head = next_head(stream);
    let action = follower.finalized(head.hash, client.status(&head.hash), &client.info);
    client.perform(action);
}

#[test]
fn follow_new_best_works() {
    let mut client = Client::new();
    let block = client.run(build_and_import_block(false));
    assert_ne!(block.header.hash(), client.info.best_hash);

    let mut relay_chain = RelaychainInner::new();
    let new_best_heads_sender = relay_chain.new_best_heads_sender.clone();
    let mut heads = relay_chain.new_best_heads(ParaId { id: 100 });
    let mut follower = Follower::new(false);

    new_best_heads_sender.unbounded_send(block.header().clone()).unwrap();
    follow_best(&mut client, &mut follower, &mut heads);
    assert_eq!(block.header.hash(), client.info.best_hash);
}

#[test]
fn follow_new_best_with_dummy_recovery_works() {
    let mut client = Client::new();
    let mut relay_chain = RelaychainInner::new();
    let new_best_heads_sender = relay_chain.new_best_heads_sender.clone();
    let mut heads = relay_chain.new_best_heads(ParaId { id: 100 });
    let mut follower = Follower::new(true);

    let task = build_and_import_block(true);
    let (block, params) = task.finish(client.build(task.init));
    assert_eq!(client.status(&block.header.hash()), BlockStatus::Unknown);

    new_best_heads_sender.unbounded_send(block.header().clone()).unwrap();
    match follow_best(&mut client, &mut follower, &mut heads) {
        Action::Recover(req) => {
            assert_eq!(req.hash, block.header.hash());
            assert_eq!(req.kind, RecoveryKind::Full);
            let hash = client.import(params);
            let action = follower.imported(hash, &client.info);
            client.perform(action);
        }
        _ => panic!("recovery should be asked for"),
    }
    assert_eq!(block.header.hash(), client.info.best_hash);
    assert_eq!(client.status(&block.header.hash()), BlockStatus::InChainWithState);
}

#[test]
fn follow_finalized_works() {
    let mut client = Client::new();
    let block = client.run(build_and_import_block(false));
    let mut relay_chain = RelaychainInner::new();
    let finalized_sender = relay_chain.finalized_heads_sender.clone();
    let mut heads = relay_chain.finalized_heads(ParaId { id: 100 });
    let follower = Follower::new(false);

    finalized_sender.unbounded_send(block.header().clone()).unwrap();
    follow_finalized(&mut client, &follower, &mut heads);
    assert_eq!(block.header.hash(), client.info.finalized_hash);
}

#[test]
fn follow_finalized_does_not_stop_on_unknown_block() {
    let mut client = Client::new();
    let block = client.run(build_and_import_block(false));
    let unknown_block = client.build(BuilderInit::At(BlockId::Hash(block.header.hash())));

    let mut relay_chain = RelaychainInner::new();
    let finalized_sender = relay_chain.finalized_heads_sender.clone();
    let mut heads = relay_chain.finalized_heads(ParaId { id: 100 });
    let follower = Follower::new(false);
    let genesis = client.info.finalized_hash;

    for _ in 0..3usize {
        finalized_sender.unbounded_send(unknown_block.header().clone()).unwrap();
        follow_finalized(&mut client, &follower, &mut heads);
        assert_eq!(genesis, client.info.finalized_hash);
    }

    finalized_sender.unbounded_send(block.header().clone()).unwrap();
    follow_finalized(&mut client, &follower, &mut heads);
    assert_eq!(block.header.hash(), client.info.finalized_hash);
}

// It can happen that a relay chain block is seen while the parachain block that would be the best
// one has not been imported. That block becomes the best one in the moment it is imported.
#[test]
fn follow_new_best_sets_best_after_it_is_imported() {
    let mut client = Client::new();
    let block = client.run(build_and_import_block(false));
    let unknown_block = client.build(BuilderInit::At(BlockId::Hash(block.header.hash())));

    let mut relay_chain = RelaychainInner::new();
    let new_best_heads_sender = relay_chain.new_best_heads_sender.clone();
    let mut heads = relay_chain.new_best_heads(ParaId { id: 100 });
    let mut follower = Follower::new(false);

    new_best_heads_sender.unbounded_send(block.header().clone()).unwrap();
    follow_best(&mut client, &mut follower, &mut heads);
    assert_eq!(block.header.hash(), client.info.best_hash);

    // Announce the unknown block.
    new_best_heads_sender.unbounded_send(unknown_block.header().clone()).unwrap();
    follow_best(&mut client, &mut follower, &mut heads);
    assert_eq!(block.header.hash(), client.info.best_hash);

    let (header, body) = unknown_block.clone().deconstruct();
    let mut block_import_params = BlockImportParams::new(BlockOrigin::Own, header);
    block_import_params.fork_choice = Some(ForkChoiceStrategy::Custom(false));
    block_import_params.body = Some(body);

    // Now import the unknown block to make it known.
    let hash = client.import(block_import_params);
    assert_eq!(hash, unknown_block.header.hash());
    let action = follower.imported(hash, &client.info);
    client.perform(action);
    assert_eq!(unknown_block.header.hash(), client.info.best_hash);
}

/// The best block is never set to one with a lower number: a block may be imported as the best one
/// during a major sync before the relay chain announces an older one.
#[test]
fn do_not_set_best_block_to_older_block() {
    const NUM_BLOCKS: usize = 4;

    let mut client = Client::new();
    let blocks = (0..NUM_BLOCKS)
        .into_iter()
        .map(|_| client.run(build_and_import_block(true)))
        .collect::<Vec<_>>();
    assert_eq!(NUM_BLOCKS as u32, client.info.best_number);

    let mut relay_chain = RelaychainInner::new();
    let new_best_heads_sender = relay_chain.new_best_heads_sender.clone();
    let mut heads = relay_chain.new_best_heads(ParaId { id: 100 });
    let mut follower = Follower::new(false);

    new_best_heads_sender.unbounded_send(blocks[NUM_BLOCKS - 2].header().clone()).unwrap();
    let action = follow_best(&mut client, &mut follower, &mut heads);
    assert_eq!(action, Action::Wait);
    assert_eq!(blocks[NUM_BLOCKS - 1].header.hash(), client.info.best_hash);

    // Build and import a new best block.
    let block = client.run(build_and_import_block(true));
    assert_eq!(block.header.hash(), client.info.best_hash);
    assert_eq!(NUM_BLOCKS as u32 + 1, client.info.best_number);
}

/// Builds a block and imports it under the eyes of a monitor.
fn build_and_import_monitored(
    client: &mut Client,
    monitor: &mut LevelMonitor,
    origin: BlockOrigin,
    import_as_best: bool,
    at: Option<BlockHash>,
    timestamp: Option<u64>,
) -> Block {
    let at = at.map(|hash| BlockId::Hash(hash));
    let task = build_and_import_block_ext(origin, import_as_best, at, timestamp);
    let (block, params) = task.finish(client.build(task.init));
    let head = head_of(&block.header);
    let removed =
        monitor.import(head.number, head.hash, block.header.parent_hash, client.info.best_hash);
    client.blocks.retain(|(hash, _)| !removed.iter().any(|r| r.same(hash)));
    assert_eq!(client.import(params), head.hash);
    block
}

/// A monitor of the blocks that a client has.
fn monitor_of(client: &Client, level_limit: usize) -> LevelMonitor {
    let known = client
        .blocks
        .iter()
        .map(|(hash, header)| KnownBlock {
            hash: *hash,
            number: header.number,
            parent: header.parent_hash,
        })
        .collect();
    LevelMonitor::restore(level_limit, &known)
}

#[test]
fn prune_blocks_on_level_overflow() {
    // The time stamp makes for blocks with different hashes.
    const LEVEL_LIMIT: usize = 3;
    const TIMESTAMP_MULTIPLIER: u64 = 60000;

    let mut client = Client::new();
    let mut monitor = monitor_of(&client, LEVEL_LIMIT);

    let block0 = build_and_import_monitored(
        &mut client,
        &mut monitor,
        BlockOrigin::NetworkInitialSync,
        true,
        None,
        None,
    );
    let id0 = block0.header.hash();

    let blocks1 = (0..LEVEL_LIMIT)
        .into_iter()
        .map(|i| {
            build_and_import_monitored(
                &mut client,
                &mut monitor,
                if i == 1 { BlockOrigin::NetworkInitialSync } else { BlockOrigin::Own },
                i == 1,
                Some(id0),
                Some(i as u64 * TIMESTAMP_MULTIPLIER),
            )
        })
        .collect::<Vec<_>>();
    let id10 = blocks1[0].header.hash();

    let blocks2 = (0..2)
        .into_iter()
        .map(|i| {
            build_and_import_monitored(
                &mut client,
                &mut monitor,
                BlockOrigin::Own,
                false,
                Some(id10),
                Some(i as u64 * TIMESTAMP_MULTIPLIER),
            )
        })
        .collect::<Vec<_>>();

    // At first, with B11 imported as best:
    //
    //   B0 --+-- B10 --+-- B20
    //        +-- B11   +-- B21
    //        +-- B12

    let mut expected = vec![
        blocks2[0].header.hash(),
        blocks2[1].header.hash(),
        blocks1[1].header.hash(),
        blocks1[2].header.hash(),
    ];
    assert_eq!(client.leaves(), expected);
    assert_eq!(client.info.best_hash, blocks1[1].header.hash());

    let block13 = build_and_import_monitored(
        &mut client,
        &mut monitor,
        BlockOrigin::Own,
        false,
        Some(id0),
        Some(LEVEL_LIMIT as u64 * TIMESTAMP_MULTIPLIER),
    );

    //   B0 --+-- B10 --+-- B20
    //        +-- B11   +-- B21
    //        +--(B13)              <-- in the place of B12

    expected[3] = block13.header.hash();
    assert_eq!(client.leaves(), expected);

    let block14 = build_and_import_monitored(
        &mut client,
        &mut monitor,
        BlockOrigin::Own,
        false,
        Some(id0),
        Some(2 * LEVEL_LIMIT as u64 * TIMESTAMP_MULTIPLIER),
    );

    //   B0 --+--(B14)              <-- in the place of B10
    //        +-- B11
    //        +--(B13)

    expected.remove(0);
    expected.remove(0);
    expected.push(block14.header.hash());
    assert_eq!(client.leaves(), expected);
}

#[test]
fn restore_limit_monitor() {
    // The time stamp makes for blocks with different hashes.
    const LEVEL_LIMIT: usize = 2;
    const TIMESTAMP_MULTIPLIER: u64 = 60000;

    let mut client = Client::new();
    // At first nothing is enforced.
    let mut monitor = monitor_of(&client, usize::MAX);

    let block00 = build_and_import_monitored(
        &mut client,
        &mut monitor,
        BlockOrigin::NetworkInitialSync,
        true,
        None,
        None,
    );
    let id00 = block00.header.hash();

    let blocks1 = (0..LEVEL_LIMIT + 1)
        .into_iter()
        .map(|i| {
            build_and_import_monitored(
                &mut client,
                &mut monitor,
                if i == 1 { BlockOrigin::NetworkInitialSync } else { BlockOrigin::Own },
                i == 1,
                Some(id00),
                Some(i as u64 * TIMESTAMP_MULTIPLIER),
            )
        })
        .collect::<Vec<_>>();
    let id10 = blocks1[0].header.hash();

    let _ = (0..LEVEL_LIMIT)
        .into_iter()
        .map(|i| {
            build_and_import_monitored(
                &mut client,
                &mut monitor,
                BlockOrigin::Own,
                false,
                Some(id10),
                Some(i as u64 * TIMESTAMP_MULTIPLIER),
            )
        })
        .collect::<Vec<_>>();

    // Before the limit applies, with B11 imported as best.
    // In the order of import: B00, B10, B11, B12, B20, B21
    //
    //   B00 --+-- B10 --+-- B20
    //         |         +-- B21
    //         +-- B11
    //         |
    //         +-- B12

    // A restart makes for a new monitor.
    let mut monitor = monitor_of(&client, LEVEL_LIMIT);

    let block13 = build_and_import_monitored(
        &mut client,
        &mut monitor,
        BlockOrigin::Own,
        false,
        Some(id00),
        Some(LEVEL_LIMIT as u64 * TIMESTAMP_MULTIPLIER),
    );

    //   B0 --+-- B11
    //        +--(B13)

    let expected = vec![blocks1[1].header.hash(), block13.header.hash()];
    assert_eq!(client.leaves(), expected);

    assert_eq!(monitor.import_counter, 5);
    assert!(monitor
        .blocks
        .iter()
        .filter(|entry| entry.hash != block13.header.hash())
        .all(|entry| entry.number == monitor.freshness(&entry.hash).unwrap()));
    assert_eq!(monitor.freshness(&block13.header.hash()).unwrap(), monitor.import_counter - 1);
}
