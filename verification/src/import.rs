//! Preparing blocks: from what a block builder made to what a block importer is given.
use vstd::prelude::*;

use crate::block::{
    digest_view, extrinsics_view, Block, BlockHash, BlockView, DigestItem, DigestItemView, Header,
    HeaderView,
};
use crate::codec::{encoded_header, hashes_collide, is_hash_of};

verus! {

/// Names a block by its hash or by its number.
#[derive(Clone, Copy, Debug, PartialEq, Eq)]
pub enum BlockId {
    Hash(BlockHash),
    Number(u32),
}

/// Where a block comes from.
#[derive(Clone, Copy, Debug, PartialEq, Eq)]
pub enum BlockOrigin {
    /// The genesis block.
    Genesis,
    /// The initial sync with the network.
    NetworkInitialSync,
    /// A broadcast on the network.
    NetworkBroadcast,
    /// The network, validated in the consensus process.
    ConsensusBroadcast,
    /// This node.
    Own,
    /// A file.
    File,
    /// A warp sync proof.
    WarpSync,
    /// A gap sync.
    GapSync,
}

/// How an importer decides whether a block becomes the best one.
#[derive(Clone, Copy, Debug, PartialEq, Eq)]
pub enum ForkChoiceStrategy {
    /// The longest chain wins.
    LongestChain,
    /// The block becomes the best one exactly if this says so.
    Custom(bool),
}

/// How a block builder is set up.
#[derive(Clone, Copy, Debug, PartialEq, Eq)]
pub enum BuilderInit {
    /// On top of the best block.
    AtBest,
    /// On top of the given block.
    At(BlockId),
    /// On top of the given block, with the given time stamp.
    AtWithTimestamp(BlockId, u64),
}

/// Chooses how to set up a block builder. A time stamp has its effect only together with a block
/// to build on.
pub fn builder_init(at: Option<BlockId>, timestamp: Option<u64>) -> (r: BuilderInit)
    ensures
        at is None ==> r == BuilderInit::AtBest,
        at matches Some(id) ==> timestamp is None ==> r == BuilderInit::At(id),
        at matches Some(id) ==> timestamp matches Some(ts) ==> r == BuilderInit::AtWithTimestamp(
            id,
            ts,
        ),
{
    match at {
        Some(at) => match timestamp {
            Some(ts) => BuilderInit::AtWithTimestamp(at, ts),
            None => BuilderInit::At(at),
        },
        None => BuilderInit::AtBest,
    }
}

/// The digest item that stands for what is added to a header once its block has been built.
pub open spec fn post_item() -> DigestItemView {
    DigestItemView::Other(seq![1u8, 2u8, 3u8])
}

/// The block with the post-build item at the end of its digest.
pub open spec fn sealed(block: BlockView) -> BlockView {
    BlockView { header: block.header.with_item(post_item()), ..block }
}

/// Completes a block that a builder has made: some activity after the build, such as a seal, adds
/// to the header's digest, so that the header after it is not the one before it.
pub fn build_block(built: Block) -> (r: Block)
    ensures
        r@ == sealed(built@),
{
    let mut block = built;
    let data: Vec<u8> = vec![1u8, 2u8, 3u8];
    assert(data@ == seq![1u8, 2u8, 3u8]);
    let item = DigestItem::Other(data);
    proof {
        assert(digest_view(block.header.digest@.push(item)) == digest_view(
            block.header.digest@,
        ).push(item@));
    }
    block.header.digest.push(item);
    block
}

/// What an importer is given of a block.
#[derive(Debug, PartialEq, Eq)]
pub struct BlockImportParams {
    /// Where the block comes from.
    pub origin: BlockOrigin,
    /// The header as it was before anything was added after the build.
    pub header: Header,
    /// The digest items that were added after the build.
    pub post_digests: Vec<DigestItem>,
    /// The block's body.
    pub body: Option<Vec<Vec<u8>>>,
    /// How the importer decides whether the block becomes the best one.
    pub fork_choice: Option<ForkChoiceStrategy>,
}

/// What [`BlockImportParams`] say.
pub struct BlockImportParamsView {
    pub origin: BlockOrigin,
    pub header: HeaderView,
    pub post_digests: Seq<DigestItemView>,
    pub body: Option<Seq<Seq<u8>>>,
    pub fork_choice: Option<ForkChoiceStrategy>,
}

impl View for BlockImportParams {
    type V = BlockImportParamsView;

    open spec fn view(&self) -> BlockImportParamsView {
        BlockImportParamsView {
            origin: self.origin,
            header: self.header@,
            post_digests: digest_view(self.post_digests@),
            body: match self.body {
                Some(body) => Some(extrinsics_view(body@)),
                None => None,
            },
            fork_choice: self.fork_choice,
        }
    }
}

impl BlockImportParamsView {
    /// The header with what was added after the build: the one that names the block.
    pub open spec fn post_header(self) -> HeaderView {
        self.header.with_items(self.post_digests)
    }
}

impl BlockImportParams {
    /// A header with nothing else known of its block.
    pub fn new(origin: BlockOrigin, header: Header) -> (r: BlockImportParams)
        ensures
            r.origin == origin,
            r.header == header,
            r@.post_digests == Seq::<DigestItemView>::empty(),
            r.body is None,
            r.fork_choice is None,
    {
        let post_digests: Vec<DigestItem> = Vec::new();
        assert(digest_view(post_digests@) == Seq::<DigestItemView>::empty());
        BlockImportParams { origin, header, post_digests, body: None, fork_choice: None }
    }
}

/// What the importer is given of a block whose last digest item was added after the build.
pub open spec fn import_params(
    block: BlockView,
    origin: BlockOrigin,
    import_as_best: bool,
) -> BlockImportParamsView {
    BlockImportParamsView {
        origin,
        header: block.header.without_last_item(),
        post_digests: seq![block.header.digest.last()],
        body: Some(block.extrinsics),
        fork_choice: Some(ForkChoiceStrategy::Custom(import_as_best)),
    }
}

/// Prepares a block for import: the last digest item of its header goes apart as the item added
/// after the build.
pub fn import_block(block: Block, origin: BlockOrigin, import_as_best: bool) -> (r:
    BlockImportParams)
    requires
        block.header.digest@.len() > 0,
    ensures
        r@ == import_params(block@, origin, import_as_best),
        r.origin == origin,
        r.fork_choice == Some(ForkChoiceStrategy::Custom(import_as_best)),
        r.body == Some(block.extrinsics),
{
    let ghost whole = block@;
    let (mut header, body) = block.deconstruct();
    let ghost items = header.digest@;
    let post_digest = header.digest.pop().unwrap();
    assert(digest_view(header.digest@) == digest_view(items).drop_last());
    assert(header@ == whole.header.without_last_item());
    let mut params = BlockImportParams::new(origin, header);
    params.fork_choice = Some(ForkChoiceStrategy::Custom(import_as_best));
    params.body = Some(body);
    params.post_digests.push(post_digest);
    assert(params@.post_digests == seq![whole.header.digest.last()]);
    params
}

/// A block to build and to import.
#[derive(Clone, Copy, Debug, PartialEq, Eq)]
pub struct BlockTask {
    /// How the builder is set up.
    pub init: BuilderInit,
    /// Where the block is said to come from.
    pub origin: BlockOrigin,
    /// Whether the block is imported as the best one.
    pub import_as_best: bool,
}

impl BlockTask {
    /// What remains once the builder has made the block: the completed block, and what the
    /// importer is given of it.
    pub fn finish(&self, built: Block) -> (r: (Block, BlockImportParams))
        ensures
            r.0@ == sealed(built@),
            r.1@ == import_params(r.0@, self.origin, self.import_as_best),
            r.1.origin == self.origin,
            r.1.fork_choice == Some(ForkChoiceStrategy::Custom(self.import_as_best)),
            r.1@.header == built@.header,
            r.1@.body == Some(built@.extrinsics),
    {
        proof {
            import_undoes_build(built@, self.origin, self.import_as_best);
        }
        let block = build_block(built);
        assert(block@.header.digest.len() == block.header.digest@.len());
        let params = import_block(block.clone(), self.origin, self.import_as_best);
        (block, params)
    }
}

/// The task of building on the given block, or on the best one where none is given, and of
/// importing the result.
pub fn build_and_import_block_ext(
    origin: BlockOrigin,
    import_as_best: bool,
    at: Option<BlockId>,
    timestamp: Option<u64>,
) -> (r: BlockTask)
    ensures
        at is None ==> r.init == BuilderInit::AtBest,
        at matches Some(id) ==> timestamp is None ==> r.init == BuilderInit::At(id),
        at matches Some(id) ==> timestamp matches Some(ts) ==> r.init
            == BuilderInit::AtWithTimestamp(id, ts),
        r.origin == origin,
        r.import_as_best == import_as_best,
{
    BlockTask { init: builder_init(at, timestamp), origin, import_as_best }
}

/// The task of building on the best block and of importing the result as a block of this node's
/// own.
pub fn build_and_import_block(import_as_best: bool) -> (r: BlockTask)
    ensures
        r == (BlockTask { init: BuilderInit::AtBest, origin: BlockOrigin::Own, import_as_best }),
{
    build_and_import_block_ext(BlockOrigin::Own, import_as_best, None, None)
}

/// Import takes back what completing a block added: the importer is given the header that the
/// builder made, with the builder's body, and the header that it puts together from what was added
/// after the build is the completed block's.
pub proof fn import_undoes_build(built: BlockView, origin: BlockOrigin, import_as_best: bool)
    ensures
        import_params(sealed(built), origin, import_as_best).header == built.header,
        import_params(sealed(built), origin, import_as_best).body == Some(built.extrinsics),
        import_params(sealed(built), origin, import_as_best).post_digests == seq![post_item()],
        import_params(sealed(built), origin, import_as_best).post_header() == sealed(built).header,
{
    let params = import_params(sealed(built), origin, import_as_best);
    assert(params.header.digest == built.header.digest);
    assert(params.post_header().digest == sealed(built).header.digest);
}

/// Whatever block is prepared for import, the importer can put its header together again, and it
/// becomes the best block exactly if it is imported as such.
pub proof fn import_keeps_the_header(block: BlockView, origin: BlockOrigin, import_as_best: bool)
    requires
        block.header.digest.len() > 0,
    ensures
        import_params(block, origin, import_as_best).post_header() == block.header,
        import_params(block, origin, import_as_best).fork_choice == Some(
            ForkChoiceStrategy::Custom(import_as_best),
        ),
{
    assert(import_params(block, origin, import_as_best).post_header().digest
        == block.header.digest);
}

/// Completing a block changes its header, so the header before and the header after are not one.
pub proof fn build_changes_the_header(built: BlockView)
    ensures
        sealed(built).header != built.header,
{
    assert(sealed(built).header.digest.len() == built.header.digest.len() + 1);
}

/// Completing a block changes its hash, as far as the hash tells encodings apart: the two headers
/// are encoded differently, and where their hashes do not collide, the hash before is not the hash
/// after.
pub proof fn build_changes_the_hash(built: BlockView, before: BlockHash, after: BlockHash)
    ensures
        is_hash_of(before, built.header) && is_hash_of(after, sealed(built).header)
            && encoded_header(built.header) != encoded_header(sealed(built).header)
            && !hashes_collide(built.header, sealed(built).header) ==> before != after,
{
}

/// Whether a header is that of a block built directly on the block with the header `parent`.
pub open spec fn child_of(header: HeaderView, parent: HeaderView) -> bool {
    is_hash_of(header.parent_hash, parent) && header.number == parent.number + 1
}

/// The importer puts a completed block under the hash that the block has, so that it can be built
/// upon; and what the builder built on a block stays that block's child, both as it is given back
/// and as it is imported.
pub proof fn block_can_be_built_upon(
    built: BlockView,
    origin: BlockOrigin,
    import_as_best: bool,
    parent: HeaderView,
    hash: BlockHash,
)
    ensures
        is_hash_of(hash, sealed(built).header) <==> is_hash_of(
            hash,
            import_params(sealed(built), origin, import_as_best).post_header(),
        ),
        child_of(built.header, parent) ==> child_of(sealed(built).header, parent) && child_of(
            import_params(sealed(built), origin, import_as_best).post_header(),
            parent,
        ),
{
    import_undoes_build(built, origin, import_as_best);
}

/// Completing a block adds one item at the end of its digest, of the bytes 1, 2 and 3, and changes
/// nothing else of it.
pub proof fn build_adds_one_item(built: BlockView)
    ensures
        sealed(built).header.digest.len() == built.header.digest.len() + 1,
        sealed(built).header.digest.drop_last() == built.header.digest,
        sealed(built).header.digest.last() == DigestItemView::Other(seq![1u8, 2u8, 3u8]),
        sealed(built).header.parent_hash == built.header.parent_hash,
        sealed(built).header.number == built.header.number,
        sealed(built).header.state_root == built.header.state_root,
        sealed(built).header.extrinsics_root == built.header.extrinsics_root,
        sealed(built).extrinsics == built.extrinsics,
{
}

/// The importer is given what was asked for: the origin, the block's body, the choice whether the
/// block becomes the best one, and a header that is the block's but for the last digest item, which
/// comes apart.
pub proof fn importer_is_given_what_was_asked(
    block: BlockView,
    origin: BlockOrigin,
    import_as_best: bool,
)
    requires
        block.header.digest.len() > 0,
    ensures
        ({
            let params = import_params(block, origin, import_as_best);
            &&& params.origin == origin
            &&& params.body == Some(block.extrinsics)
            &&& params.fork_choice == Some(ForkChoiceStrategy::Custom(import_as_best))
            &&& params.header.digest + params.post_digests == block.header.digest
            &&& params.post_digests.len() == 1
            &&& params.header.parent_hash == block.header.parent_hash
            &&& params.header.number == block.header.number
            &&& params.header.state_root == block.header.state_root
            &&& params.header.extrinsics_root == block.header.extrinsics_root
        }),
{
    let params = import_params(block, origin, import_as_best);
    assert(params.header.digest + params.post_digests == block.header.digest);
}

/// Imports that were asked for differently are told apart: where the importer is given the same, it
/// was the same block, of the same origin, to become the best one or not alike.
pub proof fn different_imports_differ(
    a: BlockView,
    b: BlockView,
    origin_a: BlockOrigin,
    origin_b: BlockOrigin,
    best_a: bool,
    best_b: bool,
)
    requires
        a.header.digest.len() > 0,
        b.header.digest.len() > 0,
        import_params(a, origin_a, best_a) == import_params(b, origin_b, best_b),
    ensures
        a == b,
        origin_a == origin_b,
        best_a == best_b,
{
    importer_is_given_what_was_asked(a, origin_a, best_a);
    importer_is_given_what_was_asked(b, origin_b, best_b);
}

/// What is said of import parameters is each of their fields, and each digest item and each
/// extrinsic in its place.
pub proof fn import_params_view_says_what_it_holds(params: BlockImportParams)
    ensures
        params@.origin == params.origin,
        params@.header == params.header@,
        params@.fork_choice == params.fork_choice,
        params@.post_digests.len() == params.post_digests@.len(),
        forall|i: int|
            0 <= i < params.post_digests@.len() ==> #[trigger] params@.post_digests[i]
                == params.post_digests@[i]@,
        params@.body is Some <==> params.body is Some,
        params.body matches Some(body) ==> params@.body->0.len() == body@.len() && forall|i: int|
            0 <= i < body@.len() ==> #[trigger] params@.body->0[i] == body@[i]@,
{
}

} // verus!
