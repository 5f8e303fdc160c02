//! The relay chain's side: the streams on which it announces the parachain's heads.
use vstd::prelude::*;

use futures::channel::mpsc::{UnboundedReceiver, UnboundedSender};

use crate::block::{Header, HeaderView};
use crate::codec::{decoded_header, encoded_header};

verus! {

/// `futures::channel::mpsc::UnboundedSender`, as an opaque type.
#[verifier::external_type_specification]
#[verifier::external_body]
#[verifier::reject_recursive_types(T)]
pub struct ExUnboundedSender<T>(futures::channel::mpsc::UnboundedSender<T>);

/// `futures::channel::mpsc::UnboundedReceiver`, as an opaque type.
#[verifier::external_type_specification]
#[verifier::external_body]
#[verifier::reject_recursive_types(T)]
pub struct ExUnboundedReceiver<T>(futures::channel::mpsc::UnboundedReceiver<T>);

/// Whether the two are ends of one channel: what
/// `futures::channel::mpsc::UnboundedSender::is_connected_to` returns.
pub uninterp spec fn connected(
    sender: UnboundedSender<Header>,
    receiver: UnboundedReceiver<Header>,
) -> bool;

/// Calls `futures::channel::mpsc::unbounded`, which takes no argument: `_other` is there to speak of.
/// It claims that the two ends belong to one channel, and to a new one: neither is connected to an
/// end of a channel that is there already. That nothing is queued in it is left unsaid: what a
/// receiver holds changes with every send, and a send does not go through the receiver.
#[verifier::external_body]
fn unbounded(_other: Option<(&UnboundedSender<Header>, &UnboundedReceiver<Header>)>) -> (r: (
    UnboundedSender<Header>,
    UnboundedReceiver<Header>,
))
    ensures
        connected(r.0, r.1),
        _other matches Some((sender, receiver)) ==> !connected(r.0, *receiver) && !connected(
            *sender,
            r.1,
        ),
{
    futures::channel::mpsc::unbounded()
}

/// The identifier of a parachain.
#[derive(Clone, Copy, Debug, PartialEq, Eq)]
pub struct ParaId {
    pub id: u32,
}

/// The heads of one kind that the relay chain announces. Every header that comes out of the
/// channel is one item of the stream, in its encoded form.
pub struct HeadStream {
    pub receiver: UnboundedReceiver<Header>,
}

impl HeadStream {
    /// The item of the stream for what the channel gave: the header's encoding, which decodes to
    /// that header, or the end of the stream where the channel has ended.
    pub fn item(received: &Option<Header>) -> (r: Option<Vec<u8>>)
        requires
            received matches Some(head) ==> head@.encodable(),
        ensures
            r is Some <==> received is Some,
            received matches Some(head) ==> {
                &&& r->0@ == encoded_header(head@)
                &&& decoded_header(r->0@) == Some((head@, 0nat))
                &&& forall|other: HeaderView|
                    other.encodable() && #[trigger] encoded_header(other) == r->0@ ==> other
                        == head@
            },
    {
        match received {
            Some(head) => Some(head.encode()),
            None => None,
        }
    }
}

/// The announcements of new best heads and of finalized heads: the sending end of each, and the
/// receiving end until it is handed out.
pub struct RelaychainInner {
    pub new_best_heads: Option<UnboundedReceiver<Header>>,
    pub finalized_heads: Option<UnboundedReceiver<Header>>,
    pub new_best_heads_sender: UnboundedSender<Header>,
    pub finalized_heads_sender: UnboundedSender<Header>,
}

/// The two kinds of heads that are announced.
#[derive(Clone, Copy, Debug, PartialEq, Eq)]
pub enum HeadKind {
    NewBest,
    Finalized,
}

impl RelaychainInner {
    /// The receiving end of a kind, if it has not been handed out.
    pub open spec fn receiver(&self, kind: HeadKind) -> Option<UnboundedReceiver<Header>> {
        match kind {
            HeadKind::NewBest => self.new_best_heads,
            HeadKind::Finalized => self.finalized_heads,
        }
    }

    /// The sending end of a kind.
    pub open spec fn sender(&self, kind: HeadKind) -> UnboundedSender<Header> {
        match kind {
            HeadKind::NewBest => self.new_best_heads_sender,
            HeadKind::Finalized => self.finalized_heads_sender,
        }
    }

    /// Whether a receiving end belongs to the sending end of the given kind, and to that one alone.
    pub open spec fn belongs(&self, kind: HeadKind, receiver: UnboundedReceiver<Header>) -> bool {
        &&& connected(self.new_best_heads_sender, receiver) == (kind == HeadKind::NewBest)
        &&& connected(self.finalized_heads_sender, receiver) == (kind == HeadKind::Finalized)
    }

    /// Whether each receiving end that has not been handed out belongs to the sending end of its
    /// kind alone.
    pub open spec fn wired(&self) -> bool {
        &&& self.new_best_heads matches Some(receiver) ==> self.belongs(HeadKind::NewBest, receiver)
        &&& self.finalized_heads matches Some(receiver) ==> self.belongs(
            HeadKind::Finalized,
            receiver,
        )
    }

    /// Two channels, apart from each other, with both ends in place.
    pub fn new() -> (r: RelaychainInner)
        ensures
            r.wired(),
            r.new_best_heads is Some,
            r.finalized_heads is Some,
    {
        let (new_best_heads_sender, new_best_heads) = unbounded(None);
        let (finalized_heads_sender, finalized_heads) = unbounded(
            Some((&new_best_heads_sender, &new_best_heads)),
        );
        RelaychainInner {
            new_best_heads_sender,
            finalized_heads_sender,
            new_best_heads: Some(new_best_heads),
            finalized_heads: Some(finalized_heads),
        }
    }

    /// Hands out the stream of new best heads, which can be had once. It does not depend on the
    /// parachain.
    pub fn new_best_heads(&mut self, _para_id: ParaId) -> (r: HeadStream)
        requires
            old(self).new_best_heads is Some,
        ensures
            handed_out(*old(self), HeadKind::NewBest, r, *final(self)),
            old(self).wired() ==> old(self).belongs(HeadKind::NewBest, r.receiver),
            old(self).wired() ==> final(self).wired(),
    {
        let receiver = self.new_best_heads.take().unwrap();
        HeadStream { receiver }
    }

    /// Hands out the stream of finalized heads, which can be had once. It does not depend on the
    /// parachain.
    pub fn finalized_heads(&mut self, _para_id: ParaId) -> (r: HeadStream)
        requires
            old(self).finalized_heads is Some,
        ensures
            handed_out(*old(self), HeadKind::Finalized, r, *final(self)),
            old(self).wired() ==> old(self).belongs(HeadKind::Finalized, r.receiver),
            old(self).wired() ==> final(self).wired(),
    {
        let receiver = self.finalized_heads.take().unwrap();
        HeadStream { receiver }
    }
}

/// Whether `stream` is the stream of a kind, taken out of `before`, and all else in `after` is as it
/// was.
pub open spec fn handed_out(
    before: RelaychainInner,
    kind: HeadKind,
    stream: HeadStream,
    after: RelaychainInner,
) -> bool {
    &&& before.receiver(kind) == Some(stream.receiver)
    &&& after.new_best_heads == if kind == HeadKind::NewBest {
        None
    } else {
        before.new_best_heads
    }
    &&& after.finalized_heads == if kind == HeadKind::Finalized {
        None
    } else {
        before.finalized_heads
    }
    &&& after.new_best_heads_sender == before.new_best_heads_sender
    &&& after.finalized_heads_sender == before.finalized_heads_sender
}

/// Whether the streams of the given kinds are handed out one after the other, from one state to the
/// next.
pub open spec fn handed_out_in_turn(
    states: Seq<RelaychainInner>,
    kinds: Seq<HeadKind>,
    streams: Seq<HeadStream>,
) -> bool {
    &&& states.len() == kinds.len() + 1
    &&& streams.len() == kinds.len()
    &&& forall|i: int|
        0 <= i < kinds.len() ==> handed_out(
            states[i],
            #[trigger] kinds[i],
            streams[i],
            states[i + 1],
        )
}

/// After the first `n` streams have been handed out, a receiving end is still there exactly if it
/// was at the start and its stream is not among them; the sending ends are as at the start.
proof fn lemma_handed_out(
    states: Seq<RelaychainInner>,
    kinds: Seq<HeadKind>,
    streams: Seq<HeadStream>,
    n: int,
    kind: HeadKind,
)
    requires
        handed_out_in_turn(states, kinds, streams),
        0 <= n <= kinds.len(),
    ensures
        kinds.take(n).contains(kind) ==> states[n].receiver(kind) is None,
        !kinds.take(n).contains(kind) ==> states[n].receiver(kind) == states[0].receiver(kind),
        states[n].sender(kind) == states[0].sender(kind),
    decreases n,
{
    if n > 0 {
        lemma_handed_out(states, kinds, streams, n - 1, kind);
        let last = kinds[n - 1];
        assert(handed_out(states[n - 1], last, streams[n - 1], states[n]));
        let earlier = kinds.take(n - 1);
        let sofar = kinds.take(n);
        assert(sofar == earlier.push(last));
        assert(sofar[n - 1] == last);
        if earlier.contains(kind) {
            let i = choose|i: int| 0 <= i < earlier.len() && earlier[i] == kind;
            assert(sofar[i] == kind);
        }
        if sofar.contains(kind) && kind != last {
            let i = choose|i: int| 0 <= i < sofar.len() && sofar[i] == kind;
            assert(earlier[i] == kind);
        }
    }
}

/// However the streams are asked for, each is handed out at most once; it can be had as long as it
/// has not been, whatever became of the other; and where the ends were wired at the start, each
/// stream handed out belongs to the sending end of its kind, and not to the other one.
pub proof fn each_stream_is_handed_out_once(
    states: Seq<RelaychainInner>,
    kinds: Seq<HeadKind>,
    streams: Seq<HeadStream>,
)
    requires
        handed_out_in_turn(states, kinds, streams),
    ensures
        forall|i: int, j: int| 0 <= i < j < kinds.len() ==> kinds[i] != kinds[j],
        forall|kind: HeadKind| #[trigger]
            states.last().receiver(kind) is Some <==> states[0].receiver(kind) is Some
                && !kinds.contains(kind),
        forall|kind: HeadKind| #[trigger] states.last().sender(kind) == states[0].sender(kind),
        states[0].wired() ==> states.last().wired() && forall|i: int|
            0 <= i < kinds.len() ==> states[0].belongs(#[trigger] kinds[i], streams[i].receiver),
{
    let n = kinds.len() as int;
    assert(kinds.take(n) == kinds);
    assert forall|kind: HeadKind| #[trigger]
        states.last().receiver(kind) is Some <==> states[0].receiver(kind) is Some
            && !kinds.contains(kind) by {
        lemma_handed_out(states, kinds, streams, n, kind);
    }
    assert forall|kind: HeadKind| #[trigger] states.last().sender(kind) == states[0].sender(
        kind,
    ) by {
        lemma_handed_out(states, kinds, streams, n, kind);
    }
    assert forall|i: int, j: int| 0 <= i < j < kinds.len() implies kinds[i] != kinds[j] by {
        lemma_handed_out(states, kinds, streams, j, kinds[j]);
        assert(handed_out(states[j], kinds[j], streams[j], states[j + 1]));
        assert(kinds.take(j)[i] == kinds[i]);
    }
    if states[0].wired() {
        assert forall|i: int| 0 <= i < kinds.len() implies states[0].belongs(
            #[trigger] kinds[i],
            streams[i].receiver,
        ) by {
            lemma_handed_out(states, kinds, streams, i, kinds[i]);
            assert(handed_out(states[i], kinds[i], streams[i], states[i + 1]));
        }
        lemma_handed_out(states, kinds, streams, n, HeadKind::NewBest);
        lemma_handed_out(states, kinds, streams, n, HeadKind::Finalized);
    }
}

/// Where the ends are wired, a receiving end that is there hears what is sent on the sending end of
/// its own kind, and nothing of what is sent on the other.
pub proof fn announcements_do_not_mix(inner: RelaychainInner)
    requires
        inner.wired(),
    ensures
        inner.new_best_heads matches Some(receiver) ==> connected(
            inner.new_best_heads_sender,
            receiver,
        ) && !connected(inner.finalized_heads_sender, receiver),
        inner.finalized_heads matches Some(receiver) ==> connected(
            inner.finalized_heads_sender,
            receiver,
        ) && !connected(inner.new_best_heads_sender, receiver),
{
}

/// The stream that is handed out is the one that was asked for, its receiving end is gone
/// afterwards, and the other receiving end and both sending ends are untouched.
pub proof fn the_stream_asked_for_is_handed_out(
    before: RelaychainInner,
    kind: HeadKind,
    stream: HeadStream,
    after: RelaychainInner,
)
    requires
        handed_out(before, kind, stream, after),
    ensures
        kind == HeadKind::NewBest ==> before.new_best_heads == Some(stream.receiver)
            && after.new_best_heads is None && after.finalized_heads == before.finalized_heads,
        kind == HeadKind::Finalized ==> before.finalized_heads == Some(stream.receiver)
            && after.finalized_heads is None && after.new_best_heads == before.new_best_heads,
        after.new_best_heads_sender == before.new_best_heads_sender,
        after.finalized_heads_sender == before.finalized_heads_sender,
        before.wired() && kind == HeadKind::NewBest ==> connected(
            after.new_best_heads_sender,
            stream.receiver,
        ) && !connected(after.finalized_heads_sender, stream.receiver),
        before.wired() && kind == HeadKind::Finalized ==> connected(
            after.finalized_heads_sender,
            stream.receiver,
        ) && !connected(after.new_best_heads_sender, stream.receiver),
{
}

} // verus!
