//! Blocks, headers and digests.
use vstd::prelude::*;

verus! {

/// A block hash.
#[derive(Clone, Copy, Debug, PartialEq, Eq)]
pub struct BlockHash {
    pub bytes: [u8; 32],
}

impl BlockHash {
    /// Whether two hashes hold the same bytes.
    pub fn same(&self, other: &BlockHash) -> (r: bool)
        ensures
            r == (*self == *other),
    {
        let mut i: usize = 0;
        while i < 32
            invariant
                i <= 32,
                forall|j: int| 0 <= j < i ==> self.bytes@[j] == other.bytes@[j],
            decreases 32 - i,
        {
            if self.bytes[i] != other.bytes[i] {
                return false;
            }
            i = i + 1;
        }
        assert(self.bytes =~= other.bytes);
        true
    }
}

/// One entry of a header's digest.
#[derive(Debug, PartialEq, Eq)]
pub enum DigestItem {
    /// A message from the consensus engine to the runtime.
    PreRuntime([u8; 4], Vec<u8>),
    /// A message from the runtime to the consensus engine.
    Consensus([u8; 4], Vec<u8>),
    /// A seal put on the header once the block is complete.
    Seal([u8; 4], Vec<u8>),
    /// Anything else.
    Other(Vec<u8>),
    /// The runtime's execution environment has changed.
    RuntimeEnvironmentUpdated,
}

/// What a [`DigestItem`] says.
pub enum DigestItemView {
    PreRuntime([u8; 4], Seq<u8>),
    Consensus([u8; 4], Seq<u8>),
    Seal([u8; 4], Seq<u8>),
    Other(Seq<u8>),
    RuntimeEnvironmentUpdated,
}

impl View for DigestItem {
    type V = DigestItemView;

    open spec fn view(&self) -> DigestItemView {
        match self {
            DigestItem::PreRuntime(engine, data) => DigestItemView::PreRuntime(*engine, data@),
            DigestItem::Consensus(engine, data) => DigestItemView::Consensus(*engine, data@),
            DigestItem::Seal(engine, data) => DigestItemView::Seal(*engine, data@),
            DigestItem::Other(data) => DigestItemView::Other(data@),
            DigestItem::RuntimeEnvironmentUpdated => DigestItemView::RuntimeEnvironmentUpdated,
        }
    }
}

impl DigestItemView {
    /// The bytes that the item carries.
    pub open spec fn data(self) -> Seq<u8> {
        match self {
            DigestItemView::PreRuntime(_, data) => data,
            DigestItemView::Consensus(_, data) => data,
            DigestItemView::Seal(_, data) => data,
            DigestItemView::Other(data) => data,
            DigestItemView::RuntimeEnvironmentUpdated => Seq::empty(),
        }
    }
}

/// Copies a byte string.
fn copy_bytes(bytes: &Vec<u8>) -> (r: Vec<u8>)
    ensures
        r@ == bytes@,
{
    let mut out: Vec<u8> = Vec::new();
    let mut i: usize = 0;
    while i < bytes.len()
        invariant
            i <= bytes.len(),
            out@ == bytes@.take(i as int),
        decreases bytes.len() - i,
    {
        out.push(bytes[i]);
        assert(bytes@.take(i + 1) == bytes@.take(i as int).push(bytes@[i as int]));
        i = i + 1;
    }
    assert(bytes@.take(bytes@.len() as int) == bytes@);
    out
}

impl Clone for DigestItem {
    fn clone(&self) -> (r: DigestItem)
        ensures
            r@ == self@,
    {
        match self {
            DigestItem::PreRuntime(engine, data) => DigestItem::PreRuntime(*engine, copy_bytes(data)),
            DigestItem::Consensus(engine, data) => DigestItem::Consensus(*engine, copy_bytes(data)),
            DigestItem::Seal(engine, data) => DigestItem::Seal(*engine, copy_bytes(data)),
            DigestItem::Other(data) => DigestItem::Other(copy_bytes(data)),
            DigestItem::RuntimeEnvironmentUpdated => DigestItem::RuntimeEnvironmentUpdated,
        }
    }
}

/// What the items of a digest say, in order.
pub open spec fn digest_view(items: Seq<DigestItem>) -> Seq<DigestItemView> {
    items.map_values(|item: DigestItem| item@)
}

/// A block header.
#[derive(Debug, PartialEq, Eq)]
pub struct Header {
    pub parent_hash: BlockHash,
    pub number: u32,
    pub state_root: BlockHash,
    pub extrinsics_root: BlockHash,
    pub digest: Vec<DigestItem>,
}

/// What a [`Header`] says.
pub struct HeaderView {
    pub parent_hash: BlockHash,
    pub number: u32,
    pub state_root: BlockHash,
    pub extrinsics_root: BlockHash,
    pub digest: Seq<DigestItemView>,
}

impl View for Header {
    type V = HeaderView;

    open spec fn view(&self) -> HeaderView {
        HeaderView {
            parent_hash: self.parent_hash,
            number: self.number,
            state_root: self.state_root,
            extrinsics_root: self.extrinsics_root,
            digest: digest_view(self.digest@),
        }
    }
}

impl HeaderView {
    /// The header with one more digest item at the end.
    pub open spec fn with_item(self, item: DigestItemView) -> HeaderView {
        HeaderView { digest: self.digest.push(item), ..self }
    }

    /// The header with more digest items at the end.
    pub open spec fn with_items(self, items: Seq<DigestItemView>) -> HeaderView {
        HeaderView { digest: self.digest + items, ..self }
    }

    /// The header without its last digest item.
    pub open spec fn without_last_item(self) -> HeaderView {
        HeaderView { digest: self.digest.drop_last(), ..self }
    }

    /// Whether every length in the header fits the encoding's 32-bit length prefix.
    pub open spec fn encodable(self) -> bool {
        &&& self.digest.len() <= u32::MAX
        &&& forall|i: int| 0 <= i < self.digest.len() ==> (#[trigger] self.digest[i]).data().len() <= u32::MAX
    }
}

impl Clone for Header {
    fn clone(&self) -> (r: Header)
        ensures
            r@ == self@,
    {
        let mut digest: Vec<DigestItem> = Vec::new();
        let mut i: usize = 0;
        while i < self.digest.len()
            invariant
                i <= self.digest.len(),
                digest_view(digest@) == digest_view(self.digest@).take(i as int),
            decreases self.digest.len() - i,
        {
            let item = self.digest[i].clone();
            proof {
                assert(digest_view(digest@.push(item)) == digest_view(digest@).push(item@));
                assert(digest_view(self.digest@).take(i + 1) == digest_view(self.digest@).take(
                    i as int,
                ).push(self.digest@[i as int]@));
            }
            digest.push(item);
            i = i + 1;
        }
        assert(digest_view(self.digest@).take(self.digest@.len() as int) == digest_view(
            self.digest@,
        ));
        Header {
            parent_hash: self.parent_hash,
            number: self.number,
            state_root: self.state_root,
            extrinsics_root: self.extrinsics_root,
            digest,
        }
    }
}

/// A block: its header and its extrinsics, each in encoded form.
#[derive(Debug, PartialEq, Eq)]
pub struct Block {
    pub header: Header,
    pub extrinsics: Vec<Vec<u8>>,
}

/// What the extrinsics of a block say, in order.
pub open spec fn extrinsics_view(extrinsics: Seq<Vec<u8>>) -> Seq<Seq<u8>> {
    extrinsics.map_values(|extrinsic: Vec<u8>| extrinsic@)
}

/// What a [`Block`] says.
pub struct BlockView {
    pub header: HeaderView,
    pub extrinsics: Seq<Seq<u8>>,
}

impl View for Block {
    type V = BlockView;

    open spec fn view(&self) -> BlockView {
        BlockView { header: self.header@, extrinsics: extrinsics_view(self.extrinsics@) }
    }
}

impl Clone for Block {
    fn clone(&self) -> (r: Block)
        ensures
            r@ == self@,
    {
        let mut extrinsics: Vec<Vec<u8>> = Vec::new();
        let mut i: usize = 0;
        while i < self.extrinsics.len()
            invariant
                i <= self.extrinsics.len(),
                extrinsics_view(extrinsics@) == extrinsics_view(self.extrinsics@).take(i as int),
            decreases self.extrinsics.len() - i,
        {
            let extrinsic = copy_bytes(&self.extrinsics[i]);
            proof {
                assert(extrinsics_view(extrinsics@.push(extrinsic)) == extrinsics_view(
                    extrinsics@,
                ).push(extrinsic@));
                assert(extrinsics_view(self.extrinsics@).take(i + 1) == extrinsics_view(
                    self.extrinsics@,
                ).take(i as int).push(self.extrinsics@[i as int]@));
            }
            extrinsics.push(extrinsic);
            i = i + 1;
        }
        assert(extrinsics_view(self.extrinsics@).take(self.extrinsics@.len() as int)
            == extrinsics_view(self.extrinsics@));
        Block { header: self.header.clone(), extrinsics }
    }
}

impl Block {
    /// The header.
    pub fn header(&self) -> (r: &Header)
        ensures
            *r == self.header,
    {
        &self.header
    }

    /// Takes the block apart into its header and its body.
    pub fn deconstruct(self) -> (r: (Header, Vec<Vec<u8>>))
        ensures
            r.0 == self.header,
            r.1 == self.extrinsics,
    {
        (self.header, self.extrinsics)
    }
}

/// What is said of a digest item is its kind, its engine and its data.
pub proof fn item_view_says_what_it_holds(item: DigestItem)
    ensures
        item matches DigestItem::PreRuntime(engine, data) ==> item@ == DigestItemView::PreRuntime(
            engine,
            data@,
        ),
        item matches DigestItem::Consensus(engine, data) ==> item@ == DigestItemView::Consensus(
            engine,
            data@,
        ),
        item matches DigestItem::Seal(engine, data) ==> item@ == DigestItemView::Seal(engine, data@),
        item matches DigestItem::Other(data) ==> item@ == DigestItemView::Other(data@),
        item is RuntimeEnvironmentUpdated ==> item@ is RuntimeEnvironmentUpdated,
{
}

/// What is said of a header is each of its fields, and each item of its digest in its place.
pub proof fn header_view_says_what_it_holds(header: Header)
    ensures
        header@.parent_hash == header.parent_hash,
        header@.number == header.number,
        header@.state_root == header.state_root,
        header@.extrinsics_root == header.extrinsics_root,
        header@.digest.len() == header.digest@.len(),
        forall|i: int|
            0 <= i < header.digest@.len() ==> #[trigger] header@.digest[i] == header.digest@[i]@,
{
}

/// What is said of a block is its header, and each of its extrinsics in its place.
pub proof fn block_view_says_what_it_holds(block: Block)
    ensures
        block@.header == block.header@,
        block@.extrinsics.len() == block.extrinsics@.len(),
        forall|i: int|
            0 <= i < block.extrinsics@.len() ==> #[trigger] block@.extrinsics[i]
                == block.extrinsics@[i]@,
{
}

/// A header can be encoded exactly if neither its digest nor the data of any of its items is longer
/// than the highest 32-bit number.
pub proof fn what_can_be_encoded(header: HeaderView)
    ensures
        header.encodable() <==> header.digest.len() <= 0xffff_ffff && forall|i: int|
            0 <= i < header.digest.len() ==> match #[trigger] header.digest[i] {
                DigestItemView::PreRuntime(_, data) => data.len() <= 0xffff_ffff,
                DigestItemView::Consensus(_, data) => data.len() <= 0xffff_ffff,
                DigestItemView::Seal(_, data) => data.len() <= 0xffff_ffff,
                DigestItemView::Other(data) => data.len() <= 0xffff_ffff,
                DigestItemView::RuntimeEnvironmentUpdated => true,
            },
{
}

} // verus!
