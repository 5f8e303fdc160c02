//! Encoding, decoding and hashing of headers.
use vstd::prelude::*;

use parity_scale_codec::{Decode, Encode};
use sp_runtime::generic::{DigestItem as Log, Header as WireHeader};
use sp_runtime::traits::BlakeTwo256;

use crate::block::{BlockHash, DigestItem, Header, HeaderView};

verus! {

/// The SCALE encoding of a header, as `sp_runtime::generic::Header<u32, BlakeTwo256>` encodes it.
pub uninterp spec fn encoded_header(header: HeaderView) -> Seq<u8>;

/// The header that a byte string starts with and how many bytes follow it, as
/// `sp_runtime::generic::Header<u32, BlakeTwo256>` decodes it.
pub uninterp spec fn decoded_header(bytes: Seq<u8>) -> Option<(HeaderView, nat)>;

/// The 32 bytes of the BLAKE2b-256 hash of a byte string.
pub uninterp spec fn blake2_256(bytes: Seq<u8>) -> Seq<u8>;

/// Calls `parity_scale_codec::Encode::encode` on the `sp_runtime::generic::Header` that holds the
/// same fields. It claims that the bytes depend on what the header says alone, that `Decode` gives
/// the header back and leaves no byte, and that no two headers share an encoding. A digest, or an
/// item's data, longer than a 32-bit length prefix can say makes `encode` panic, so `encodable`
/// rules it out.
#[verifier::external_body]
pub(crate) fn scale_encode(header: &Header) -> (r: Vec<u8>)
    requires
        header@.encodable(),
    ensures
        r@ == encoded_header(header@),
        decoded_header(r@) == Some((header@, 0nat)),
        forall|other: HeaderView|
            other.encodable() && #[trigger] encoded_header(other) == r@ ==> other == header@,
{
    let item = |item: &DigestItem| match item {
        DigestItem::PreRuntime(id, data) => Log::PreRuntime(*id, data.to_vec()),
        DigestItem::Consensus(id, data) => Log::Consensus(*id, data.to_vec()),
        DigestItem::Seal(id, data) => Log::Seal(*id, data.to_vec()),
        DigestItem::Other(data) => Log::Other(data.to_vec()),
        DigestItem::RuntimeEnvironmentUpdated => Log::RuntimeEnvironmentUpdated,
    };
    WireHeader::<u32, BlakeTwo256> {
        parent_hash: header.parent_hash.bytes.into(),
        number: header.number,
        state_root: header.state_root.bytes.into(),
        extrinsics_root: header.extrinsics_root.bytes.into(),
        digest: sp_runtime::Digest { logs: header.digest.iter().map(item).collect() },
    }.encode()
}

/// Calls `parity_scale_codec::Decode::decode` of `sp_runtime::generic::Header`, and counts the
/// bytes that it leaves. It claims that the result depends on the bytes alone, that an encoding
/// gives its header back with no byte left, and that a header that was decoded can be encoded:
/// every length in it was read as a 32-bit one. Which other byte strings decode is left unsaid.
#[verifier::external_body]
pub(crate) fn scale_decode(bytes: &Vec<u8>) -> (r: Option<(Header, usize)>)
    ensures
        r is Some <==> decoded_header(bytes@) is Some,
        r matches Some(p) ==> decoded_header(bytes@) == Some((p.0@, p.1 as nat)),
        r matches Some(p) ==> p.0@.encodable(),
        r matches Some(p) ==> forall|header: HeaderView|
            header.encodable() && #[trigger] encoded_header(header) == bytes@ ==> p.0@ == header
                && p.1 == 0,
        r is None ==> forall|header: HeaderView|
            header.encodable() ==> #[trigger] encoded_header(header) != bytes@,
{
    let mut input = &bytes[..];
    let h = WireHeader::<u32, BlakeTwo256>::decode(&mut input).ok()?;
    Some((Header {
        parent_hash: BlockHash { bytes: h.parent_hash.0 },
        number: h.number,
        state_root: BlockHash { bytes: h.state_root.0 },
        extrinsics_root: BlockHash { bytes: h.extrinsics_root.0 },
        digest: h.digest.logs.into_iter().map(|log| match log {
            Log::PreRuntime(id, data) => DigestItem::PreRuntime(id, data),
            Log::Consensus(id, data) => DigestItem::Consensus(id, data),
            Log::Seal(id, data) => DigestItem::Seal(id, data),
            Log::Other(data) => DigestItem::Other(data),
            Log::RuntimeEnvironmentUpdated => DigestItem::RuntimeEnvironmentUpdated,
        }).collect(),
    }, input.len()))
}

/// Calls `sp_runtime::traits::BlakeTwo256::hash`. It claims that the hash depends on the bytes
/// alone.
#[verifier::external_body]
pub(crate) fn blake_two_256(bytes: &Vec<u8>) -> (r: BlockHash)
    ensures
        r.bytes@ == blake2_256(bytes@),
{
    BlockHash { bytes: <BlakeTwo256 as sp_runtime::traits::Hash>::hash(bytes).into() }
}

/// Whether `hash` is the hash of `header`: the BLAKE2b-256 hash of its encoding.
pub open spec fn is_hash_of(hash: BlockHash, header: HeaderView) -> bool {
    hash.bytes@ == blake2_256(encoded_header(header))
}

/// Whether two headers with different encodings have one hash all the same.
pub open spec fn hashes_collide(a: HeaderView, b: HeaderView) -> bool {
    &&& encoded_header(a) != encoded_header(b)
    &&& blake2_256(encoded_header(a)) == blake2_256(encoded_header(b))
}

impl DigestItem {
    /// How many bytes the item carries.
    fn data_len(&self) -> (r: usize)
        ensures
            r == self@.data().len(),
    {
        match self {
            DigestItem::PreRuntime(_, data) => data.len(),
            DigestItem::Consensus(_, data) => data.len(),
            DigestItem::Seal(_, data) => data.len(),
            DigestItem::Other(data) => data.len(),
            DigestItem::RuntimeEnvironmentUpdated => 0,
        }
    }
}

impl Header {
    /// Whether the header can be encoded.
    pub fn is_encodable(&self) -> (r: bool)
        ensures
            r == self@.encodable(),
    {
        if self.digest.len() > u32::MAX as usize {
            return false;
        }
        let mut i: usize = 0;
        while i < self.digest.len()
            invariant
                i <= self.digest@.len(),
                self.digest@.len() <= u32::MAX,
                forall|j: int|
                    0 <= j < i ==> (#[trigger] self@.digest[j]).data().len() <= u32::MAX,
            decreases self.digest@.len() - i,
        {
            assert(self@.digest[i as int] == self.digest@[i as int]@);
            if self.digest[i].data_len() > u32::MAX as usize {
                return false;
            }
            i = i + 1;
        }
        true
    }

    /// The header's encoding, from which the header can be told.
    pub fn encode(&self) -> (r: Vec<u8>)
        requires
            self@.encodable(),
        ensures
            r@ == encoded_header(self@),
            decoded_header(r@) == Some((self@, 0nat)),
            forall|other: HeaderView|
                other.encodable() && #[trigger] encoded_header(other) == r@ ==> other == self@,
    {
        scale_encode(self)
    }

    /// The header that a byte string starts with, and how many bytes follow it.
    pub fn decode(bytes: &Vec<u8>) -> (r: Option<(Header, usize)>)
        ensures
            r is Some <==> decoded_header(bytes@) is Some,
            r matches Some((header, left)) ==> decoded_header(bytes@) == Some(
                (header@, left as nat),
            ) && header@.encodable(),
            forall|header: HeaderView|
                header.encodable() && #[trigger] encoded_header(header) == bytes@ ==> (r matches Some(
                    p,
                ) && p.0@ == header && p.1 == 0),
    {
        scale_decode(bytes)
    }

    /// The header's hash, by which its block is known: but for a collision, it is the hash of no
    /// other header.
    pub fn hash(&self) -> (r: BlockHash)
        requires
            self@.encodable(),
        ensures
            is_hash_of(r, self@),
            forall|other: HeaderView|
                other.encodable() && #[trigger] is_hash_of(r, other) && !hashes_collide(self@, other)
                    ==> other == self@,
    {
        let encoded = scale_encode(self);
        blake_two_256(&encoded)
    }
}

/// A hash is that of a header exactly if it is the BLAKE2b-256 hash of the whole of its encoding; so
/// headers of one hash have encodings of one hash.
pub proof fn hash_is_of_the_whole_encoding(hash: BlockHash, a: HeaderView, b: HeaderView)
    ensures
        is_hash_of(hash, a) <==> blake2_256(encoded_header(a)) == hash.bytes@,
        is_hash_of(hash, a) && is_hash_of(hash, b) ==> blake2_256(encoded_header(a)) == blake2_256(
            encoded_header(b),
        ),
{
}

} // verus!
