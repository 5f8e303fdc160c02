//! Following the relay chain: which block becomes the best one, and which one is finalized.
//!
//! The relay chain announces the parachain's heads. An announced head whose block is in the chain
//! becomes the best block, unless the best block has a higher number already. It can happen that
//! the relay chain announces a head before its block has been imported: such a head is kept, and
//! its block becomes the best one in the moment it is imported.
use vstd::prelude::*;

use crate::block::{BlockHash, Header, HeaderView};
use crate::codec::{decoded_header, encoded_header, is_hash_of};

verus! {

/// What a client says of its chain.
#[derive(Clone, Copy, Debug, PartialEq, Eq)]
pub struct ChainInfo {
    pub best_hash: BlockHash,
    pub best_number: u32,
    pub finalized_hash: BlockHash,
}

/// What a client knows of a block.
#[derive(Clone, Copy, Debug, PartialEq, Eq)]
pub enum BlockStatus {
    /// In the import queue.
    Queued,
    /// In the chain, with its state.
    InChainWithState,
    /// In the chain, without its state.
    InChainPruned,
    /// Known to be bad.
    KnownBad,
    /// Neither in the queue nor in the chain.
    Unknown,
}

/// The hash and the number of a block.
#[derive(Clone, Copy, Debug, PartialEq, Eq)]
pub struct Head {
    pub hash: BlockHash,
    pub number: u32,
}

/// How hard to try to recover a block.
#[derive(Clone, Copy, Debug, PartialEq, Eq)]
pub enum RecoveryKind {
    /// The block alone.
    Simple,
    /// The block, and its ancestors as far as they are not known.
    Full,
}

/// A request to recover a block that has been announced but is not known.
#[derive(Clone, Copy, Debug, PartialEq, Eq)]
pub struct RecoveryRequest {
    pub hash: BlockHash,
    pub kind: RecoveryKind,
}

/// What the follower has to react to.
#[derive(Clone, Copy, Debug, PartialEq, Eq)]
pub enum Event {
    /// The relay chain announced a new best head, whose block has the given status.
    NewBest(Head, BlockStatus),
    /// The block with the given hash was imported.
    Imported(BlockHash),
    /// The relay chain announced a finalized head, whose block has the given status.
    Finalized(BlockHash, BlockStatus),
}

/// What the client is told to do.
#[derive(Clone, Copy, Debug, PartialEq, Eq)]
pub enum Action {
    /// Nothing.
    Wait,
    /// Make the given block the best one.
    SetBest(Head),
    /// Finalize the block with the given hash.
    Finalize(BlockHash),
    /// Try to recover a block.
    Recover(RecoveryRequest),
}

/// The state of the follower.
#[derive(Clone, Copy, Debug, PartialEq, Eq)]
pub struct Follower {
    /// The unknown head that was announced last, until its block is imported or a later
    /// announcement takes its place: another unknown head, or one whose block is in the chain with
    /// its state. An announcement of the best block, or of one that is passed over, leaves it.
    pub unset_best: Option<Head>,
    /// Whether to ask for the recovery of blocks that are not known.
    pub recovery: bool,
}

/// Makes `head` the best block, unless it is that already or the best block's number is higher.
pub open spec fn set_best(head: Head, chain: ChainInfo) -> Action {
    if head.hash == chain.best_hash || head.number < chain.best_number {
        Action::Wait
    } else {
        Action::SetBest(head)
    }
}

/// What the follower does with an event, and its state afterwards.
pub open spec fn step(follower: Follower, event: Event, chain: ChainInfo) -> (Follower, Action) {
    match event {
        Event::NewBest(head, status) => if head.hash == chain.best_hash {
            (follower, Action::Wait)
        } else {
            match status {
                BlockStatus::InChainWithState => (
                    Follower { unset_best: None, ..follower },
                    set_best(head, chain),
                ),
                BlockStatus::Unknown => (
                    Follower { unset_best: Some(head), ..follower },
                    if follower.recovery {
                        Action::Recover(
                            RecoveryRequest { hash: head.hash, kind: RecoveryKind::Full },
                        )
                    } else {
                        Action::Wait
                    },
                ),
                _ => (follower, Action::Wait),
            }
        },
        Event::Imported(hash) => match follower.unset_best {
            Some(head) if head.hash == hash => (
                Follower { unset_best: None, ..follower },
                set_best(head, chain),
            ),
            _ => (follower, Action::Wait),
        },
        Event::Finalized(hash, status) => (
            follower,
            if hash != chain.finalized_hash && (status == BlockStatus::InChainWithState || status
                == BlockStatus::InChainPruned) {
                Action::Finalize(hash)
            } else {
                Action::Wait
            },
        ),
    }
}

/// The exact form of [`set_best`] that runs.
fn decide_best(head: Head, chain: &ChainInfo) -> (r: Action)
    ensures
        r == set_best(head, *chain),
{
    if head.hash.same(&chain.best_hash) || head.number < chain.best_number {
        Action::Wait
    } else {
        Action::SetBest(head)
    }
}

impl Follower {
    /// A follower that has seen nothing yet.
    pub fn new(recovery: bool) -> (r: Follower)
        ensures
            r == (Follower { unset_best: None, recovery }),
    {
        Follower { unset_best: None, recovery }
    }

    /// Reacts to a new best head of the relay chain.
    pub fn new_best(&mut self, head: Head, status: BlockStatus, chain: &ChainInfo) -> (r: Action)
        ensures
            (*final(self), r) == step(*old(self), Event::NewBest(head, status), *chain),
            final(self).recovery == old(self).recovery,
            r matches Action::SetBest(set) ==> set == head && status
                == BlockStatus::InChainWithState,
    {
        if head.hash.same(&chain.best_hash) {
            return Action::Wait;
        }
        match status {
            BlockStatus::InChainWithState => {
                self.unset_best = None;
                decide_best(head, chain)
            },
            BlockStatus::Unknown => {
                self.unset_best = Some(head);
                if self.recovery {
                    Action::Recover(RecoveryRequest { hash: head.hash, kind: RecoveryKind::Full })
                } else {
                    Action::Wait
                }
            },
            _ => Action::Wait,
        }
    }

    /// Reacts to the import of a block.
    pub fn imported(&mut self, hash: BlockHash, chain: &ChainInfo) -> (r: Action)
        ensures
            (*final(self), r) == step(*old(self), Event::Imported(hash), *chain),
            final(self).recovery == old(self).recovery,
            r matches Action::SetBest(set) ==> set.hash == hash && old(self).unset_best == Some(set),
    {
        if let Some(head) = self.unset_best {
            if head.hash.same(&hash) {
                self.unset_best = None;
                return decide_best(head, chain);
            }
        }
        Action::Wait
    }

    /// Reacts to a finalized head of the relay chain.
    pub fn finalized(&self, hash: BlockHash, status: BlockStatus, chain: &ChainInfo) -> (r: Action)
        ensures
            (*self, r) == step(*self, Event::Finalized(hash, status), *chain),
            r == Action::Finalize(hash) || r == Action::Wait,
    {
        match status {
            BlockStatus::InChainWithState | BlockStatus::InChainPruned => if hash.same(
                &chain.finalized_hash,
            ) {
                Action::Wait
            } else {
                Action::Finalize(hash)
            },
            _ => Action::Wait,
        }
    }

    /// Reacts to an event.
    pub fn handle(&mut self, event: Event, chain: &ChainInfo) -> (r: Action)
        ensures
            (*final(self), r) == step(*old(self), event, *chain),
            final(self).recovery == old(self).recovery,
    {
        match event {
            Event::NewBest(head, status) => self.new_best(head, status, chain),
            Event::Imported(hash) => self.imported(hash, chain),
            Event::Finalized(hash, status) => self.finalized(hash, status, chain),
        }
    }
}

/// The head that a header announces.
pub fn head_of(header: &Header) -> (r: Head)
    requires
        header@.encodable(),
    ensures
        is_hash_of(r.hash, header@),
        r.number == header.number,
{
    Head { hash: header.hash(), number: header.number }
}

/// The head that the bytes of a stream's item announce, unless they are no header.
pub fn announced_head(bytes: &Vec<u8>) -> (r: Option<Head>)
    ensures
        r is Some <==> decoded_header(bytes@) is Some,
        decoded_header(bytes@) matches Some((header, _)) ==> is_hash_of(r->0.hash, header)
            && r->0.number == header.number,
        forall|header: HeaderView|
            header.encodable() && #[trigger] encoded_header(header) == bytes@ ==> r is Some
                && is_hash_of(r->0.hash, header) && r->0.number == header.number,
{
    match Header::decode(bytes) {
        Some((header, _)) => Some(head_of(&header)),
        None => None,
    }
}

impl ChainInfo {
    /// The chain once the client has done what it was told.
    pub open spec fn after(self, action: Action) -> ChainInfo {
        match action {
            Action::SetBest(head) => ChainInfo {
                best_hash: head.hash,
                best_number: head.number,
                ..self
            },
            Action::Finalize(hash) => ChainInfo { finalized_hash: hash, ..self },
            _ => self,
        }
    }
}

/// The follower and the chain after a run of events, where the client does what it is told and
/// nothing else.
pub open spec fn run(follower: Follower, chain: ChainInfo, events: Seq<Event>) -> (
    Follower,
    ChainInfo,
)
    decreases events.len(),
{
    if events.len() == 0 {
        (follower, chain)
    } else {
        let before = run(follower, chain, events.drop_last());
        let (next, action) = step(before.0, events.last(), before.1);
        (next, before.1.after(action))
    }
}

/// The follower after a run of events, where the chain may be any at each of them.
pub open spec fn observe(follower: Follower, events: Seq<(Event, ChainInfo)>) -> Follower
    decreases events.len(),
{
    if events.len() == 0 {
        follower
    } else {
        let before = observe(follower, events.drop_last());
        step(before, events.last().0, events.last().1).0
    }
}

/// Whatever the event and whatever the chain, the best block is never set to one with a lower
/// number.
pub proof fn never_sets_an_older_best(follower: Follower, event: Event, chain: ChainInfo)
    ensures
        step(follower, event, chain).1 matches Action::SetBest(head) ==> head.number
            >= chain.best_number,
        chain.after(step(follower, event, chain).1).best_number >= chain.best_number,
{
}

/// Over any run of events the number of the best block never falls.
pub proof fn best_number_never_falls(follower: Follower, chain: ChainInfo, events: Seq<Event>)
    ensures
        run(follower, chain, events).1.best_number >= chain.best_number,
    decreases events.len(),
{
    if events.len() > 0 {
        best_number_never_falls(follower, chain, events.drop_last());
        let before = run(follower, chain, events.drop_last());
        never_sets_an_older_best(before.0, events.last(), before.1);
    }
}

/// A new best head whose block is in the chain becomes the best block at once, unless a best block
/// with a higher number is there; so does one that is the best block already.
pub proof fn known_head_becomes_best(follower: Follower, head: Head, chain: ChainInfo)
    requires
        head.number >= chain.best_number,
    ensures
        chain.after(
            step(
                follower,
                Event::NewBest(head, BlockStatus::InChainWithState),
                chain,
            ).1,
        ).best_hash == head.hash,
{
}

/// Whether an event leaves a kept head where it is: it is not the import of the head's block, nor
/// the announcement of a new best head that takes the head's place.
pub open spec fn keeps(head: Head, event: Event, chain: ChainInfo) -> bool {
    match event {
        Event::NewBest(other, status) => {
            ||| other.hash == chain.best_hash
            ||| status == BlockStatus::Unknown && other == head
            ||| status != BlockStatus::Unknown && status != BlockStatus::InChainWithState
        },
        Event::Imported(hash) => hash != head.hash,
        Event::Finalized(..) => true,
    }
}

/// A kept head stays kept through exactly the events that leave it where it is.
pub proof fn kept_head_stays(follower: Follower, head: Head, event: Event, chain: ChainInfo)
    requires
        follower.unset_best == Some(head),
    ensures
        step(follower, event, chain).0.unset_best == Some(head) <==> keeps(head, event, chain),
{
}

/// A head that is announced before its block is known is kept through whatever other blocks are
/// imported, whatever heads are finalized and whatever announcements do not take its place: of
/// itself again, of the best block, or of a block that is passed over. Its block becomes the best
/// one when it is imported, unless a best block with a higher number is there by then.
pub proof fn unknown_head_becomes_best_on_import(
    follower: Follower,
    head: Head,
    announced: ChainInfo,
    between: Seq<(Event, ChainInfo)>,
    imported: ChainInfo,
)
    requires
        head.hash != announced.best_hash,
        forall|i: int|
            0 <= i < between.len() ==> keeps(head, (#[trigger] between[i]).0, between[i].1),
        head.number >= imported.best_number,
    ensures
        ({
            let kept = observe(
                step(follower, Event::NewBest(head, BlockStatus::Unknown), announced).0,
                between,
            );
            let (last, action) = step(kept, Event::Imported(head.hash), imported);
            &&& kept.unset_best == Some(head)
            &&& imported.after(action).best_hash == head.hash
            &&& last.unset_best is None
        }),
    decreases between.len(),
{
    if between.len() > 0 {
        let shorter = between.drop_last();
        assert forall|i: int| 0 <= i < shorter.len() implies keeps(
            head,
            (#[trigger] shorter[i]).0,
            shorter[i].1,
        ) by {
            assert(shorter[i] == between[i]);
        }
        unknown_head_becomes_best_on_import(follower, head, announced, shorter, imported);
        assert(between.last() == between[between.len() - 1]);
    }
}

/// Recovery is asked for exactly when a new best head's block is not known and recovery is on; the
/// request is for that block, in full.
pub proof fn recovery_is_for_unknown_heads(follower: Follower, event: Event, chain: ChainInfo)
    ensures
        step(follower, event, chain).1 is Recover <==> follower.recovery && (event matches
            Event::NewBest(head, status) && status == BlockStatus::Unknown && head.hash
            != chain.best_hash),
        step(follower, event, chain).1 matches Action::Recover(request) ==> event matches
            Event::NewBest(head, _) && request == (RecoveryRequest {
            hash: head.hash,
            kind: RecoveryKind::Full,
        }),
{
}

/// Finalized heads whose blocks are not known stop nothing: whatever events came before, a
/// finalized head whose block is in the chain is finalized.
pub proof fn known_head_is_finalized(
    follower: Follower,
    before: Seq<(Event, ChainInfo)>,
    hash: BlockHash,
    status: BlockStatus,
    chain: ChainInfo,
)
    requires
        status == BlockStatus::InChainWithState || status == BlockStatus::InChainPruned,
    ensures
        chain.after(
            step(observe(follower, before), Event::Finalized(hash, status), chain).1,
        ).finalized_hash == hash,
{
}

/// A finalized head whose block is not known changes neither the follower nor the chain.
pub proof fn unknown_finalized_head_changes_nothing(
    follower: Follower,
    hash: BlockHash,
    chain: ChainInfo,
)
    ensures
        step(follower, Event::Finalized(hash, BlockStatus::Unknown), chain) == (
            follower,
            Action::Wait,
        ),
{
}

/// The best block is only ever set to a block that the client has: exactly when the head of a block
/// in the chain is announced, or when the block of the kept head is imported, unless the block is
/// the best one already or has a lower number.
pub proof fn best_is_set_to_blocks_at_hand(
    follower: Follower,
    event: Event,
    chain: ChainInfo,
    head: Head,
)
    ensures
        step(follower, event, chain).1 == Action::SetBest(head) <==> (event == Event::NewBest(
            head,
            BlockStatus::InChainWithState,
        ) || (event == Event::Imported(head.hash) && follower.unset_best == Some(head)))
            && head.hash != chain.best_hash && head.number >= chain.best_number,
{
}

/// Whatever came before, a block becomes the best one only if its head was announced with the block
/// in the chain, or if it is imported after its head was announced without it.
pub proof fn best_was_announced(
    recovery: bool,
    before: Seq<(Event, ChainInfo)>,
    event: Event,
    chain: ChainInfo,
    head: Head,
)
    requires
        step(observe((Follower { unset_best: None, recovery }), before), event, chain).1
            == Action::SetBest(head),
    ensures
        event == Event::NewBest(head, BlockStatus::InChainWithState) || (event == Event::Imported(
            head.hash,
        ) && exists|i: int|
            0 <= i < before.len() && (#[trigger] before[i]).0 == Event::NewBest(
                head,
                BlockStatus::Unknown,
            )),
{
    let follower = observe(Follower { unset_best: None, recovery }, before);
    best_is_set_to_blocks_at_hand(follower, event, chain, head);
    if follower.unset_best == Some(head) {
        kept_head_was_announced(recovery, before, head);
    }
}

/// A head is kept only if it was announced before its block was known.
pub proof fn kept_head_was_announced(recovery: bool, before: Seq<(Event, ChainInfo)>, head: Head)
    requires
        observe((Follower { unset_best: None, recovery }), before).unset_best == Some(head),
    ensures
        exists|i: int|
            0 <= i < before.len() && (#[trigger] before[i]).0 == Event::NewBest(
                head,
                BlockStatus::Unknown,
            ),
    decreases before.len(),
{
    if before.len() > 0 {
        let shorter = before.drop_last();
        let last = before[before.len() - 1];
        assert(before.last() == last);
        let follower = observe(Follower { unset_best: None, recovery }, shorter);
        kept_head_follows_announcements(follower, last.0, last.1, head);
        if last.0 != Event::NewBest(head, BlockStatus::Unknown) {
            kept_head_was_announced(recovery, shorter, head);
            let i = choose|i: int|
                0 <= i < shorter.len() && (#[trigger] shorter[i]).0 == Event::NewBest(
                    head,
                    BlockStatus::Unknown,
                );
            assert(before[i] == shorter[i]);
        }
    }
}

/// After an event a head is kept exactly if the event announced it as the new best head with its
/// block not known and not the best one, or if it was kept before and the event neither imported
/// its block nor announced, of another block than the best one, a new best head that is not known
/// or that is in the chain with its state.
pub proof fn kept_head_follows_announcements(
    follower: Follower,
    event: Event,
    chain: ChainInfo,
    head: Head,
)
    ensures
        step(follower, event, chain).0.unset_best == Some(head) <==> (event == Event::NewBest(
            head,
            BlockStatus::Unknown,
        ) && head.hash != chain.best_hash) || (follower.unset_best == Some(head) && match event {
            Event::NewBest(other, status) => other.hash == chain.best_hash || (status
                != BlockStatus::Unknown && status != BlockStatus::InChainWithState),
            Event::Imported(hash) => hash != head.hash,
            Event::Finalized(..) => true,
        }),
{
}

/// A block is finalized exactly when its head is announced as finalized while it is in the chain,
/// with its state or without, and is not the finalized block already.
pub proof fn blocks_of_the_chain_are_finalized(
    follower: Follower,
    event: Event,
    chain: ChainInfo,
    hash: BlockHash,
)
    ensures
        step(follower, event, chain).1 == Action::Finalize(hash) <==> (event == Event::Finalized(
            hash,
            BlockStatus::InChainWithState,
        ) || event == Event::Finalized(hash, BlockStatus::InChainPruned)) && hash
            != chain.finalized_hash,
{
}

/// Whether recovery is asked for never changes, whatever events come and whatever the client does.
pub proof fn recovery_stays_as_it_was(
    follower: Follower,
    events: Seq<(Event, ChainInfo)>,
    chain: ChainInfo,
    told: Seq<Event>,
)
    ensures
        observe(follower, events).recovery == follower.recovery,
        run(follower, chain, told).0.recovery == follower.recovery,
    decreases events.len() + told.len(),
{
    if events.len() > 0 {
        recovery_stays_as_it_was(follower, events.drop_last(), chain, told);
    }
    if told.len() > 0 {
        recovery_stays_as_it_was(follower, events, chain, told.drop_last());
    }
}

/// Every unknown head is asked for: whatever came before, a new best head whose block is not known
/// and not the best one leads to a request for that block, in full, exactly if recovery was on at
/// the start.
pub proof fn every_unknown_head_is_asked_for(
    recovery: bool,
    before: Seq<(Event, ChainInfo)>,
    head: Head,
    chain: ChainInfo,
)
    requires
        head.hash != chain.best_hash,
    ensures
        step(
            observe((Follower { unset_best: None, recovery }), before),
            Event::NewBest(head, BlockStatus::Unknown),
            chain,
        ).1 == if recovery {
            Action::Recover(RecoveryRequest { hash: head.hash, kind: RecoveryKind::Full })
        } else {
            Action::Wait
        },
{
    recovery_stays_as_it_was(
        Follower { unset_best: None, recovery },
        before,
        chain,
        Seq::empty(),
    );
}

} // verus!
