use parity_scale_codec::{Decode, Encode};
use sp_runtime::traits::BlakeTwo256;

use parachain_consensus::block::{Block, BlockHash, DigestItem, Header};
use parachain_consensus::import::{
    build_and_import_block, build_and_import_block_ext, build_block, builder_init, import_block,
    BlockId, BlockImportParams, BlockOrigin, BlockTask, BuilderInit, ForkChoiceStrategy,
};

type WireHeader = sp_runtime::generic::Header<u32, BlakeTwo256>;

fn blake(data: &[u8]) -> [u8; 32] {
    <BlakeTwo256 as sp_runtime::traits::Hash>::hash(data).into()
}

fn hash_of(data: &[u8]) -> BlockHash {
    BlockHash { bytes: blake(data) }
}

fn header(digest: Vec<DigestItem>) -> Header {
    Header {
        parent_hash: hash_of(b"1"),
        number: 2,
        state_root: hash_of(b"3"),
        extrinsics_root: hash_of(b"4"),
        digest,
    }
}

fn every_item() -> Vec<DigestItem> {
    vec![
        DigestItem::PreRuntime(*b"aura", vec![1]),
        DigestItem::Consensus(*b"babe", vec![2, 3]),
        DigestItem::Seal(*b"test", vec![]),
        DigestItem::Other(vec![4, 5, 6]),
        DigestItem::RuntimeEnvironmentUpdated,
    ]
}

fn block() -> Block {
    Block { header: header(every_item()), extrinsics: vec![vec![9, 9], vec![], vec![7]] }
}

#[test]
fn header_encoding_is_exact() {
    let header = header(vec![DigestItem::Other(b"6".to_vec())]);
    assert!(header.is_encodable());
    assert_eq!(
        header.encode(),
        vec![
            146, 205, 245, 120, 196, 112, 133, 165, 153, 34, 86, 240, 220, 249, 125, 11, 25, 241,
            241, 201, 222, 77, 95, 227, 12, 58, 206, 97, 145, 182, 229, 219, 8, 88, 19, 72, 51,
            123, 15, 62, 20, 134, 32, 23, 61, 170, 165, 249, 77, 0, 216, 129, 112, 93, 203, 240,
            170, 131, 239, 218, 186, 97, 210, 237, 225, 235, 134, 73, 33, 73, 151, 87, 78, 32, 196,
            100, 56, 138, 23, 36, 32, 210, 84, 3, 104, 43, 187, 184, 12, 73, 104, 49, 200, 204, 31,
            143, 13, 4, 0, 4, 54
        ]
    );
}

#[test]
fn header_encoding_can_be_decoded() {
    let header = header(every_item());
    let bytes = header.encode();
    let wire = WireHeader::decode(&mut &bytes[..]).unwrap();
    assert_eq!(wire.number, 2);
    assert_eq!(wire.parent_hash, blake(b"1").into());
    assert_eq!(wire.state_root, blake(b"3").into());
    assert_eq!(wire.extrinsics_root, blake(b"4").into());
    assert_eq!(
        wire.digest.logs,
        vec![
            sp_runtime::DigestItem::PreRuntime(*b"aura", vec![1]),
            sp_runtime::DigestItem::Consensus(*b"babe", vec![2, 3]),
            sp_runtime::DigestItem::Seal(*b"test", vec![]),
            sp_runtime::DigestItem::Other(vec![4, 5, 6]),
            sp_runtime::DigestItem::RuntimeEnvironmentUpdated,
        ]
    );
    assert_eq!(wire.encode(), bytes);
}

#[test]
fn decoding_gives_the_header_back() {
    let header = header(every_item());
    let mut bytes = header.encode();
    assert_eq!(Header::decode(&bytes), Some((header.clone(), 0)));
    // What follows the header is left.
    bytes.extend_from_slice(&[1, 2, 3]);
    assert_eq!(Header::decode(&bytes), Some((header, 3)));
}

#[test]
fn bytes_that_are_no_header_do_not_decode() {
    let bytes = header(every_item()).encode();
    assert_eq!(Header::decode(&Vec::new()), None);
    assert_eq!(Header::decode(&bytes[..bytes.len() - 1].to_vec()), None);
    // There is no digest item of this kind.
    let mut bytes = header(vec![DigestItem::RuntimeEnvironmentUpdated]).encode();
    assert_eq!(bytes.pop(), Some(8));
    bytes.push(7);
    assert_eq!(Header::decode(&bytes), None);
}

#[test]
fn completed_block_keeps_its_parent_and_its_hash() {
    let parent = build_block(block());
    let mut child = block();
    child.header.parent_hash = parent.header.hash();
    child.header.number = parent.header.number + 1;
    let task = build_and_import_block_ext(
        BlockOrigin::Own,
        false,
        Some(BlockId::Hash(parent.header.hash())),
        Some(60000),
    );
    let (completed, params) = task.finish(child);
    assert_eq!(completed.header.parent_hash, parent.header.hash());
    assert_eq!(completed.header.number, parent.header.number + 1);
    let mut stored = params.header;
    stored.digest.extend(params.post_digests);
    assert_eq!(stored.hash(), completed.header.hash());
}

#[test]
fn header_hash_is_the_hash_of_its_encoding() {
    let header = header(every_item());
    let wire = WireHeader::decode(&mut &header.encode()[..]).unwrap();
    let expected: [u8; 32] = wire.hash().into();
    assert_eq!(header.hash().bytes, expected);
    assert_eq!(header.hash(), hash_of(&header.encode()));
}

#[test]
fn hashes_differ_in_any_byte() {
    let a = BlockHash { bytes: [7; 32] };
    assert!(a.same(&a));
    for i in 0..32 {
        let mut b = a;
        b.bytes[i] = 8;
        assert!(!a.same(&b));
        assert!(!b.same(&a));
    }
}

#[test]
fn clones_are_equal() {
    let block = block();
    assert_eq!(block.clone(), block);
    assert_eq!(block.header.clone(), block.header);
    for item in every_item() {
        assert_eq!(item.clone(), item);
    }
}

#[test]
fn builder_is_chosen_by_block_and_time_stamp() {
    let at = BlockId::Number(5);
    assert_eq!(builder_init(Some(at), Some(60000)), BuilderInit::AtWithTimestamp(at, 60000));
    assert_eq!(builder_init(Some(at), None), BuilderInit::At(at));
    assert_eq!(builder_init(None, None), BuilderInit::AtBest);
    // Without a block to build on, the time stamp has no effect.
    assert_eq!(builder_init(None, Some(60000)), BuilderInit::AtBest);
}

#[test]
fn build_adds_the_post_digest() {
    let built = block();
    let completed = build_block(built.clone());
    assert_eq!(completed.extrinsics, built.extrinsics);
    assert_eq!(completed.header.digest.len(), built.header.digest.len() + 1);
    assert_eq!(completed.header.digest.last(), Some(&DigestItem::Other(vec![1, 2, 3])));
    assert_eq!(completed.header.digest[..5], built.header.digest[..]);
    assert_eq!(completed.header.parent_hash, built.header.parent_hash);
    assert_ne!(completed.header.hash(), built.header.hash());
}

#[test]
fn import_takes_the_last_item_apart() {
    let mut whole = block();
    whole.header.digest.pop();
    let params = import_block(whole.clone(), BlockOrigin::NetworkInitialSync, false);
    assert_eq!(params.origin, BlockOrigin::NetworkInitialSync);
    assert_eq!(params.post_digests, vec![DigestItem::Other(vec![4, 5, 6])]);
    assert_eq!(params.header.digest[..], whole.header.digest[..3]);
    assert_eq!(params.body, Some(whole.extrinsics));
    assert_eq!(params.fork_choice, Some(ForkChoiceStrategy::Custom(false)));
}

#[test]
fn import_undoes_the_build() {
    let built = block();
    let completed = build_block(built.clone());
    let params = import_block(completed.clone(), BlockOrigin::Own, true);
    assert_eq!(params.header, built.header);
    assert_eq!(params.body, Some(built.extrinsics));
    assert_eq!(params.fork_choice, Some(ForkChoiceStrategy::Custom(true)));
    let mut header = params.header;
    header.digest.extend(params.post_digests);
    assert_eq!(header, completed.header);
}

#[test]
fn new_import_params_hold_the_header_alone() {
    let params = BlockImportParams::new(BlockOrigin::File, header(every_item()));
    assert_eq!(params.origin, BlockOrigin::File);
    assert_eq!(params.header, header(every_item()));
    assert!(params.post_digests.is_empty());
    assert_eq!(params.body, None);
    assert_eq!(params.fork_choice, None);
}

#[test]
fn tasks_say_what_to_build_and_import() {
    let at = BlockId::Hash(hash_of(b"1"));
    let task = build_and_import_block_ext(
        BlockOrigin::NetworkInitialSync,
        true,
        Some(at),
        Some(120000),
    );
    assert_eq!(
        task,
        BlockTask {
            init: BuilderInit::AtWithTimestamp(at, 120000),
            origin: BlockOrigin::NetworkInitialSync,
            import_as_best: true,
        }
    );
    assert_eq!(
        build_and_import_block(false),
        BlockTask { init: BuilderInit::AtBest, origin: BlockOrigin::Own, import_as_best: false }
    );

    let (completed, params) = task.finish(block());
    assert_eq!(completed, build_block(block()));
    assert_eq!(params, import_block(build_block(block()), BlockOrigin::NetworkInitialSync, true));
}
