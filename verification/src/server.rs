//! The ordering state of one node and the decisions it takes on each packet.
//!
//! A sender proposes a message with its own next sequence number; every peer
//! that receives the proposal queues the message as not yet deliverable and
//! answers with its own next sequence number. Once the sender has counted
//! three proposals (its own included) it announces the agreed sequence to
//! all peers. A message becomes deliverable under its agreed key, and the
//! queue hands messages out in ascending key order, stopping at the first
//! one still waiting for its agreement.
use std::collections::HashMap;
use vstd::prelude::*;
use vstd::string::StringSliceAdditionalSpecFns;
use crate::messages::{MessageId, Packet, PacketModel};
use crate::queue::{
    as_map, deliverable_prefix, lemma_index_of, lemma_insert_at, lemma_sorted_determined_by_map,
    sorted, DeliveryQueue, QueueEntry, QueueItem,
};

verus! {

broadcast use vstd::std_specs::hash::group_hash_axioms;

/// The number of proposals (the sender's own included) after which the
/// sender announces an agreement.
pub const AGREEMENT_QUORUM: u8 = 3;

/// The model of a node's ordering state.
pub struct NodeModel {
    pub address: Seq<char>,
    pub id: u32,
    /// The node's sequence counter.
    pub seq: u64,
    /// The delivery queue, in ascending key order.
    pub queue: Seq<QueueItem>,
    /// For each message this node sent: the largest sequence proposed for it
    /// so far and the number of proposals counted.
    pub proposals: Map<MessageId, (u64, u8)>,
    /// For each message waiting for its agreement: the sequence under which
    /// it is queued.
    pub pending: Map<MessageId, u64>,
}

impl NodeModel {
    /// The node's invariant: the queue is in ascending key order, the
    /// counter is at least every queued sequence, and every message waiting
    /// for its agreement is queued under its pending key as not deliverable.
    pub open spec fn wf(self) -> bool {
        &&& sorted(self.queue)
        &&& forall|k: (u64, u64)| #[trigger] as_map(self.queue).contains_key(k) ==> k.0 <= self.seq
        &&& forall|m: MessageId| #[trigger]
            self.pending.contains_key(m) ==> {
                let k = (self.pending[m], m);
                as_map(self.queue).contains_key(k) && !as_map(self.queue)[k].0
            }
    }

    /// The proposal tally of message `m`, or `(0, 0)` before the first one.
    pub open spec fn tally(self, m: MessageId) -> (u64, u8) {
        if self.proposals.contains_key(m) {
            self.proposals[m]
        } else {
            (0, 0)
        }
    }

    /// `self` after counting a proposal of sequence `p` for message `m`: the
    /// tally keeps the largest proposal and counts one more.
    pub open spec fn tallied(self, m: MessageId, p: u64) -> NodeModel {
        let prev = self.tally(m);
        NodeModel {
            proposals: self.proposals.insert(
                m,
                (
                    if p > prev.0 {
                        p
                    } else {
                        prev.0
                    },
                    (prev.1 + 1) as u8,
                ),
            ),
            ..self
        }
    }

    /// The packets this state can take without an arithmetic overflow: a
    /// proposal request needs room for the next sequence number, a reply
    /// needs room in the message's proposal count.
    pub open spec fn can_handle(self, p: PacketModel) -> bool {
        match p {
            PacketModel::ProposalRequest(..) => self.seq < u64::MAX,
            PacketModel::ProposalReply(m, _) => self.tally(m).1 < u8::MAX,
            _ => true,
        }
    }

    /// The converse half of the pending invariant: every queued message that
    /// is not deliverable is pending under its key.
    pub open spec fn pending_complete(self) -> bool {
        forall|k: (u64, u64)| #[trigger]
            as_map(self.queue).contains_key(k) && !as_map(self.queue)[k].0 ==> {
                &&& self.pending.contains_key(k.1)
                &&& self.pending[k.1] == k.0
            }
    }

    /// `m` is in use neither as a pending message nor as one this node sent.
    pub open spec fn is_free_id(self, m: MessageId) -> bool {
        !self.pending.contains_key(m) && !self.proposals.contains_key(m)
    }

    /// Some message identifier is free here.
    pub open spec fn has_free_id(self) -> bool {
        exists|m: MessageId| #[trigger] self.is_free_id(m)
    }

    /// The packet does not propose a message that is already pending here.
    pub open spec fn is_fresh(self, p: PacketModel) -> bool {
        match p {
            PacketModel::ProposalRequest(m, _) => !self.pending.contains_key(m),
            _ => true,
        }
    }
}

/// `post` and the action `a` are what handling packet `p` in state `pre`
/// gives:
///
/// * an agreement is applied, and nothing is sent;
/// * a proposal reply is counted; at the third proposal the message's
///   agreement, with the count as its final sequence, is applied and sent to
///   every peer;
/// * a proposal request is queued under the next sequence number, which goes
///   back to the sender;
/// * a ping is answered with a pong; a pong needs no answer.
pub open spec fn packet_handled(pre: NodeModel, p: PacketModel, post: NodeModel, a: ActionModel) -> bool {
    match p {
        PacketModel::Agreement(m, f) => {
            &&& agreement_applied(pre, post, m, f)
            &&& a == ActionModel::Nothing
        },
        PacketModel::ProposalReply(m, q) => {
            let tallied = pre.tallied(m, q);
            if pre.tally(m).1 + 1 == AGREEMENT_QUORUM {
                &&& agreement_applied(tallied, post, m, AGREEMENT_QUORUM as u64)
                &&& a == ActionModel::Broadcast(PacketModel::Agreement(m, AGREEMENT_QUORUM as u64))
            } else {
                &&& post == tallied
                &&& a == ActionModel::Nothing
            }
        },
        PacketModel::ProposalRequest(m, msg) => {
            &&& proposal_queued(pre, post, m, msg)
            &&& post.proposals == pre.proposals
            &&& a == ActionModel::Reply(PacketModel::ProposalReply(m, post.seq))
        },
        PacketModel::Ping => {
            &&& post == pre
            &&& a == ActionModel::Reply(PacketModel::Pong)
        },
        PacketModel::Pong => {
            &&& post == pre
            &&& a == ActionModel::Nothing
        },
    }
}

/// The action sends the agreement of message `m`.
pub open spec fn broadcasts_agreement(a: ActionModel, m: MessageId) -> bool {
    a matches ActionModel::Broadcast(PacketModel::Agreement(m2, _)) && m2 == m
}

/// `post` is `pre` after the agreement that message `m` has the final
/// sequence `f`: a pending message is requeued under `(f, m)` as
/// deliverable and the counter rises to `f`; an unknown one changes
/// nothing.
pub open spec fn agreement_applied(pre: NodeModel, post: NodeModel, m: MessageId, f: u64) -> bool {
    if pre.pending.contains_key(m) {
        let k = (pre.pending[m], m);
        &&& post.pending == pre.pending.remove(m)
        &&& as_map(post.queue) == as_map(pre.queue).remove(k).insert(
            (f, m),
            (true, as_map(pre.queue)[k].1),
        )
        &&& post.seq == (if f > pre.seq {
            f
        } else {
            pre.seq
        })
        &&& post.proposals == pre.proposals
        &&& post.address == pre.address
        &&& post.id == pre.id
    } else {
        post == pre
    }
}

/// `post` is `pre` after message `m` with bytes `msg` was queued under the
/// next sequence number, as not deliverable and pending: it goes to the
/// back of the queue.
pub open spec fn proposal_queued(pre: NodeModel, post: NodeModel, m: MessageId, msg: Seq<u8>) -> bool {
    &&& post.seq == pre.seq + 1
    &&& post.pending == pre.pending.insert(m, post.seq)
    &&& post.queue == pre.queue.push(
        QueueItem { seq: post.seq, id: m, deliverable: false, msg },
    )
    &&& post.address == pre.address
    &&& post.id == pre.id
}

/// What a node sends after handling a packet.
pub enum Action {
    /// Nothing is sent.
    Nothing,
    /// The packet goes back to the peer that sent the handled one.
    Reply(Packet),
    /// The packet goes to every peer.
    Broadcast(Packet),
}

/// The model of an [`Action`].
pub enum ActionModel {
    Nothing,
    Reply(PacketModel),
    Broadcast(PacketModel),
}

impl View for Action {
    type V = ActionModel;

    open spec fn view(&self) -> ActionModel {
        match self {
            Action::Nothing => ActionModel::Nothing,
            Action::Reply(p) => ActionModel::Reply(p@),
            Action::Broadcast(p) => ActionModel::Broadcast(p@),
        }
    }
}

/// The ordering state of a node.
pub struct Node {
    address: String,
    id: u32,
    seq: u64,
    queue: DeliveryQueue,
    proposed_msgs: HashMap<MessageId, (u64, u8)>,
    msg_idx: HashMap<MessageId, u64>,
}

impl View for Node {
    type V = NodeModel;

    closed spec fn view(&self) -> NodeModel {
        NodeModel {
            address: self.address@,
            id: self.id,
            seq: self.seq,
            queue: self.queue@,
            proposals: self.proposed_msgs@,
            pending: self.msg_idx@,
        }
    }
}

/// Calls `rand::random::<u64>()`, a value drawn from the thread-local
/// generator. Nothing is claimed of the value.
#[verifier::external_body]
fn random_message_id() -> MessageId {
    rand::random::<u64>()
}

impl Node {
    /// The node's invariant.
    pub open spec fn wf(&self) -> bool {
        self@.wf()
    }

    /// A node listening on `address`, with an empty queue and its counter
    /// at zero.
    pub fn new(address: String, id: u32) -> (node: Self)
        ensures
            node.wf(),
            node@ == (NodeModel {
                address: address@,
                id,
                seq: 0,
                queue: Seq::empty(),
                proposals: Map::empty(),
                pending: Map::empty(),
            }),
    {
        let node = Node {
            address,
            id,
            seq: 0,
            queue: DeliveryQueue::new(),
            proposed_msgs: HashMap::new(),
            msg_idx: HashMap::new(),
        };
        assert(as_map(node@.queue) =~= Map::empty());
        node
    }

    /// The address the node listens on.
    pub fn address(&self) -> (a: &String)
        ensures
            a@ == self@.address,
    {
        &self.address
    }

    /// The node's identifier.
    pub fn id(&self) -> (id: u32)
        ensures
            id == self@.id,
    {
        self.id
    }

    /// The node's sequence counter.
    pub fn seq(&self) -> (seq: u64)
        ensures
            seq == self@.seq,
    {
        self.seq
    }

    /// The number of queued messages.
    pub fn queue_len(&self) -> (n: usize)
        ensures
            n == self@.queue.len(),
    {
        self.queue.len()
    }

    /// Whether message `message_id` is waiting for its agreement.
    pub fn is_pending(&self, message_id: MessageId) -> (b: bool)
        ensures
            b == self@.pending.contains_key(message_id),
    {
        self.msg_idx.contains_key(&message_id)
    }

    /// The proposal tally of message `message_id`.
    pub fn tally(&self, message_id: MessageId) -> (t: (u64, u8))
        ensures
            t == self@.tally(message_id),
    {
        match self.proposed_msgs.get(&message_id) {
            Some(t) => *t,
            None => (0, 0),
        }
    }

    /// Whether [`Node::handle_packet`] can take `packet` in this state.
    pub fn can_handle(&self, packet: &Packet) -> (b: bool)
        ensures
            b == self@.can_handle(packet@),
            !b <==> {
                ||| (packet@ is ProposalRequest && self@.seq + 1 > u64::MAX)
                ||| (packet@ matches PacketModel::ProposalReply(m, _) && self@.tally(m).1 + 1
                    > u8::MAX)
            },
    {
        match packet {
            Packet::ProposalRequest(..) => self.seq < u64::MAX,
            Packet::ProposalReply(m, _) => self.tally(*m).1 < u8::MAX,
            _ => true,
        }
    }

    /// Applies the agreement that message `message_id` has the final
    /// sequence `final_seq`; returns whether the message was pending.
    pub fn apply_agreement(&mut self, message_id: MessageId, final_seq: u64) -> (applied: bool)
        requires
            old(self).wf(),
        ensures
            final(self).wf(),
            applied == old(self)@.pending.contains_key(message_id),
            agreement_applied(old(self)@, final(self)@, message_id, final_seq),
    {
        let ghost pre = self@;
        match self.msg_idx.remove(&message_id) {
            Some(old_seq) => {
                assert(pre.pending.contains_key(message_id) && pre.pending[message_id] == old_seq);
                match self.queue.remove(old_seq, message_id) {
                    Some(entry) => {
                        self.queue.insert(
                            final_seq,
                            message_id,
                            QueueEntry { is_deliverable: true, msg: entry.msg },
                        );
                    },
                    None => {
                        assert(false);
                    },
                }
                if final_seq > self.seq {
                    self.seq = final_seq;
                }
                proof {
                    let post = self@;
                    assert forall|k2: (u64, u64)| #[trigger]
                        as_map(post.queue).contains_key(k2) implies k2.0 <= post.seq by {
                        if k2 != (final_seq, message_id) {
                            assert(as_map(pre.queue).contains_key(k2));
                        }
                    }
                    assert forall|m: MessageId| #[trigger] post.pending.contains_key(m) implies {
                        let k2 = (post.pending[m], m);
                        as_map(post.queue).contains_key(k2) && !as_map(post.queue)[k2].0
                    } by {
                        assert(pre.pending.contains_key(m) && m != message_id);
                    }
                }
                true
            },
            None => {
                assert(self@.pending =~= pre.pending);
                false
            },
        }
    }

    /// Queues message `message_id` under the next sequence number, as not
    /// deliverable and pending; returns that sequence number.
    fn accept_proposal(&mut self, message_id: MessageId, msg: Vec<u8>) -> (seq: u64)
        requires
            old(self).wf(),
            old(self)@.seq < u64::MAX,
        ensures
            final(self).wf(),
            seq == final(self)@.seq,
            proposal_queued(old(self)@, final(self)@, message_id, msg@),
            final(self)@.proposals == old(self)@.proposals,
    {
        let ghost pre = self@;
        let ghost msg_view = msg@;
        let seq = self.seq + 1;
        self.seq = seq;
        self.msg_idx.insert(message_id, seq);
        self.queue.insert(seq, message_id, QueueEntry { is_deliverable: false, msg });
        proof {
            let x = QueueItem { seq, id: message_id, deliverable: false, msg: msg_view };
            let n = pre.queue.len() as int;
            let t = pre.queue.push(x);
            assert forall|j: int| 0 <= j < n implies crate::queue::key_lt(
                #[trigger] pre.queue[j].key(),
                x.key(),
            ) by {
                lemma_index_of(pre.queue, j);
            }
            lemma_insert_at(pre.queue, n, x);
            assert(pre.queue.insert(n, x) =~= t);
            lemma_sorted_determined_by_map(self@.queue, t);
            let post = self@;
            assert forall|m: MessageId| #[trigger] post.pending.contains_key(m) implies {
                let k2 = (post.pending[m], m);
                as_map(post.queue).contains_key(k2) && !as_map(post.queue)[k2].0
            } by {
                if m != message_id {
                    assert(pre.pending.contains_key(m));
                }
            }
        }
        seq
    }

    /// Counts a proposal of sequence `proposed` for message `message_id`;
    /// returns the new count.
    fn record_reply(&mut self, message_id: MessageId, proposed: u64) -> (count: u8)
        requires
            old(self)@.tally(message_id).1 < u8::MAX,
        ensures
            count == old(self)@.tally(message_id).1 + 1,
            final(self)@ == old(self)@.tallied(message_id, proposed),
    {
        let (max_seq, count) = self.tally(message_id);
        let max_seq = if proposed > max_seq {
            proposed
        } else {
            max_seq
        };
        let count = count + 1;
        self.proposed_msgs.insert(message_id, (max_seq, count));
        count
    }

    /// Takes the decision that a packet from a peer calls for: it updates
    /// the state and says what to send.
    ///
    /// * An agreement is applied, and nothing is sent.
    /// * A proposal reply is counted; at the third proposal the message's
    ///   agreement, with the count as its final sequence, is applied here and
    ///   sent to every peer.
    /// * A proposal request is queued under the next sequence number, which
    ///   goes back to the sender as this node's proposal.
    /// * A ping is answered with a pong; a pong needs no answer.
    pub fn handle_packet(&mut self, packet: Packet) -> (action: Action)
        requires
            old(self).wf(),
            old(self)@.can_handle(packet@),
        ensures
            final(self).wf(),
            packet_handled(old(self)@, packet@, final(self)@, action@),
    {
        match packet {
            Packet::Agreement(message_id, final_seq) => {
                self.apply_agreement(message_id, final_seq);
                Action::Nothing
            },
            Packet::ProposalReply(message_id, proposed) => {
                let count = self.record_reply(message_id, proposed);
                if count == AGREEMENT_QUORUM {
                    let final_seq = count as u64;
                    self.apply_agreement(message_id, final_seq);
                    Action::Broadcast(Packet::Agreement(message_id, final_seq))
                } else {
                    Action::Nothing
                }
            },
            Packet::ProposalRequest(message_id, msg) => {
                let seq = self.accept_proposal(message_id, msg);
                Action::Reply(Packet::ProposalReply(message_id, seq))
            },
            Packet::Ping() => Action::Reply(Packet::Pong()),
            Packet::Pong() => Action::Nothing,
        }
    }

    /// Proposes this node's message `msg` under the identifier `message_id`:
    /// the message is queued under the next sequence number as not
    /// deliverable and pending, its tally starts with this node's own
    /// proposal, and the returned request is for every peer.
    pub fn send_message_with_id(&mut self, msg: &[u8], message_id: MessageId) -> (packet: Packet)
        requires
            old(self).wf(),
            old(self)@.seq < u64::MAX,
        ensures
            final(self).wf(),
            proposal_queued(old(self)@, final(self)@, message_id, msg@),
            final(self)@.proposals == old(self)@.proposals.insert(
                message_id,
                (final(self)@.seq, 1),
            ),
            packet@ == PacketModel::ProposalRequest(message_id, msg@),
    {
        let seq = self.accept_proposal(message_id, vstd::slice::slice_to_vec(msg));
        self.proposed_msgs.insert(message_id, (seq, 1));
        Packet::ProposalRequest(message_id, vstd::slice::slice_to_vec(msg))
    }

    /// Proposes the text `msg` under a fresh random identifier, as
    /// [`Node::send_message_with_id`] does.
    pub fn send_message(&mut self, msg: &str) -> (packet: Packet)
        requires
            old(self).wf(),
            old(self)@.seq < u64::MAX,
        ensures
            final(self).wf(),
            match packet@ {
                PacketModel::ProposalRequest(m, bytes) => {
                    &&& bytes == msg.spec_bytes()
                    &&& proposal_queued(old(self)@, final(self)@, m, bytes)
                    &&& final(self)@.proposals == old(self)@.proposals.insert(
                        m,
                        (final(self)@.seq, 1),
                    )
                    &&& old(self)@.has_free_id() ==> old(self)@.is_free_id(m)
                },
                _ => false,
            },
    {
        let drawn = random_message_id();
        let message_id = self.free_message_id(drawn);
        self.send_message_with_id(msg.as_bytes(), message_id)
    }

    /// Whether `m` is already in use here, as a pending message or as one
    /// this node sent.
    fn is_used_id(&self, m: MessageId) -> (b: bool)
        ensures
            b == !self@.is_free_id(m),
    {
        self.msg_idx.contains_key(&m) || self.proposed_msgs.contains_key(&m)
    }

    /// `drawn` when it is not in use here; otherwise the smallest identifier
    /// that is not, when there is one.
    fn free_message_id(&self, drawn: MessageId) -> (m: MessageId)
        ensures
            self@.has_free_id() ==> self@.is_free_id(m),
            self@.is_free_id(drawn) ==> m == drawn,
    {
        if !self.is_used_id(drawn) {
            return drawn;
        }
        let total: u128 = self.msg_idx.len() as u128 + self.proposed_msgs.len() as u128;
        let bound: u64 = if total > 0xffff_ffff_ffff_ffffu128 {
            u64::MAX
        } else {
            total as u64
        };
        let mut c: u64 = 0;
        loop
            invariant
                c <= bound,
                bound == u64::MAX || bound == total,
                total == self@.pending.dom().len() + self@.proposals.dom().len(),
                forall|x: u64| x < c ==> !#[trigger] self@.is_free_id(x),
                !self@.is_free_id(drawn),
            ensures
                forall|x: u64| x <= bound ==> !#[trigger] self@.is_free_id(x),
            decreases bound - c,
        {
            if !self.is_used_id(c) {
                return c;
            }
            if c == bound {
                break;
            }
            c = c + 1;
        }
        proof {
            let used = self@.pending.dom().union(self@.proposals.dom());
            assert forall|x: u64| x <= bound implies #[trigger] used.contains(x) by {
                assert(!self@.is_free_id(x));
            }
            if bound == total && total < u64::MAX + 1 {
                lemma_prefix_count(used, bound as nat + 1);
                vstd::set_lib::lemma_len_union(self@.pending.dom(), self@.proposals.dom());
                assert(false);
            } else {
                assert forall|x: u64| !#[trigger] self@.is_free_id(x) by {
                    assert(used.contains(x));
                }
            }
        }
        drawn
    }

    /// Takes out, in queue order, the messages before the first one that is
    /// not deliverable.
    pub fn take_deliverable_messages(&mut self) -> (ready: Vec<Vec<u8>>)
        requires
            old(self).wf(),
        ensures
            final(self).wf(),
            deliverable_prefix(old(self)@.queue, ready@.len() as int),
            forall|i: int|
                0 <= i < ready@.len() ==> #[trigger] ready@[i]@ == old(self)@.queue[i].msg,
            final(self)@ == (NodeModel {
                queue: old(self)@.queue.skip(ready@.len() as int),
                ..old(self)@
            }),
    {
        let ghost pre = self@;
        let ready = self.queue.take_deliverable();
        proof {
            let post = self@;
            let n = ready@.len() as int;
            assert forall|k2: (u64, u64)| #[trigger]
                as_map(post.queue).contains_key(k2) implies k2.0 <= post.seq by {
                let j = crate::queue::index_of(post.queue, k2);
                assert(post.queue[j] == pre.queue[j + n]);
                lemma_index_of(pre.queue, j + n);
            }
            assert forall|m: MessageId| #[trigger] post.pending.contains_key(m) implies {
                let k2 = (post.pending[m], m);
                as_map(post.queue).contains_key(k2) && !as_map(post.queue)[k2].0
            } by {
                let k2 = (pre.pending[m], m);
                let i = crate::queue::index_of(pre.queue, k2);
                lemma_index_of(pre.queue, i);
                assert(!pre.queue[i].deliverable);
                assert(i >= n);
                assert(post.queue[i - n] == pre.queue[i]);
                lemma_index_of(post.queue, i - n);
            }
        }
        ready
    }
}

/// A message waiting for its agreement is never handed out: it lies beyond
/// the deliverable prefix of the queue.
pub proof fn lemma_pending_not_delivered(node: NodeModel, m: MessageId, n: int)
    requires
        node.wf(),
        node.pending.contains_key(m),
        deliverable_prefix(node.queue, n),
    ensures
        forall|i: int| 0 <= i < n ==> (#[trigger] node.queue[i]).key() != (node.pending[m], m),
{
    assert forall|i: int| 0 <= i < n implies (#[trigger] node.queue[i]).key() != (
        node.pending[m],
        m,
    ) by {
        lemma_index_of(node.queue, i);
    }
}

/// The sequence counter never goes down: an agreement raises it to at least
/// the agreed sequence, and a proposal moves it one up.
pub proof fn lemma_counter_monotone(pre: NodeModel, post: NodeModel, m: MessageId, f: u64, msg: Seq<u8>)
    ensures
        agreement_applied(pre, post, m, f) ==> pre.seq <= post.seq,
        agreement_applied(pre, post, m, f) && pre.pending.contains_key(m) ==> f <= post.seq,
        proposal_queued(pre, post, m, msg) ==> pre.seq < post.seq,
{
}

/// After an agreement on a pending message, the message is queued as
/// deliverable under its agreed key, with its bytes unchanged, and no
/// longer waits.
pub proof fn lemma_agreement_makes_deliverable(pre: NodeModel, post: NodeModel, m: MessageId, f: u64)
    requires
        pre.wf(),
        pre.pending.contains_key(m),
        agreement_applied(pre, post, m, f),
    ensures
        !post.pending.contains_key(m),
        as_map(post.queue).contains_key((f, m)),
        as_map(post.queue)[(f, m)] == (true, as_map(pre.queue)[(pre.pending[m], m)].1),
{
}

/// Agreements keep every undeliverable queued message pending under its
/// key.
pub proof fn lemma_agreement_keeps_pending_complete(pre: NodeModel, post: NodeModel, m: MessageId, f: u64)
    requires
        pre.wf(),
        pre.pending_complete(),
        agreement_applied(pre, post, m, f),
    ensures
        post.pending_complete(),
{
    if pre.pending.contains_key(m) {
        let k = (pre.pending[m], m);
        assert forall|k2: (u64, u64)| #[trigger]
            as_map(post.queue).contains_key(k2) && !as_map(post.queue)[k2].0 implies {
            &&& post.pending.contains_key(k2.1)
            &&& post.pending[k2.1] == k2.0
        } by {
            assert(k2 != (f, m));
            assert(k2 != k);
            assert(as_map(pre.queue).contains_key(k2) && !as_map(pre.queue)[k2].0);
        }
    }
}

/// Queuing a proposal for a message that is not pending keeps every
/// undeliverable queued message pending under its key.
pub proof fn lemma_proposal_keeps_pending_complete(pre: NodeModel, post: NodeModel, m: MessageId, msg: Seq<u8>)
    requires
        pre.wf(),
        pre.pending_complete(),
        !pre.pending.contains_key(m),
        proposal_queued(pre, post, m, msg),
    ensures
        post.pending_complete(),
{
    let x = QueueItem { seq: post.seq, id: m, deliverable: false, msg };
    let n = pre.queue.len() as int;
    assert forall|j: int| 0 <= j < n implies crate::queue::key_lt(
        #[trigger] pre.queue[j].key(),
        x.key(),
    ) by {
        lemma_index_of(pre.queue, j);
    }
    lemma_insert_at(pre.queue, n, x);
    assert(pre.queue.insert(n, x) =~= post.queue);
    assert forall|k2: (u64, u64)| #[trigger]
        as_map(post.queue).contains_key(k2) && !as_map(post.queue)[k2].0 implies {
        &&& post.pending.contains_key(k2.1)
        &&& post.pending[k2.1] == k2.0
    } by {
        if k2 != x.key() {
            assert(as_map(pre.queue).contains_key(k2) && !as_map(pre.queue)[k2].0);
            assert(k2.1 != m);
        }
    }
}

/// Handing out the deliverable prefix of the queue keeps every undeliverable
/// queued message pending under its key.
pub proof fn lemma_delivery_keeps_pending_complete(pre: NodeModel, n: int)
    requires
        pre.wf(),
        pre.pending_complete(),
        deliverable_prefix(pre.queue, n),
    ensures
        (NodeModel { queue: pre.queue.skip(n), ..pre }).pending_complete(),
{
    let post = NodeModel { queue: pre.queue.skip(n), ..pre };
    assert forall|i: int, j: int| 0 <= i < j < post.queue.len() implies crate::queue::key_lt(
        #[trigger] post.queue[i].key(),
        #[trigger] post.queue[j].key(),
    ) by {
        assert(post.queue[i] == pre.queue[i + n] && post.queue[j] == pre.queue[j + n]);
    }
    assert forall|k2: (u64, u64)| #[trigger]
        as_map(post.queue).contains_key(k2) && !as_map(post.queue)[k2].0 implies {
        &&& post.pending.contains_key(k2.1)
        &&& post.pending[k2.1] == k2.0
    } by {
        let j = crate::queue::index_of(post.queue, k2);
        lemma_index_of(post.queue, j);
        assert(post.queue[j] == pre.queue[j + n]);
        lemma_index_of(pre.queue, j + n);
    }
}

/// Handling a packet that proposes no message already pending keeps every
/// undeliverable queued message pending under its key.
pub proof fn lemma_handled_keeps_pending_complete(pre: NodeModel, p: PacketModel, post: NodeModel, a: ActionModel)
    requires
        pre.wf(),
        pre.pending_complete(),
        pre.is_fresh(p),
        packet_handled(pre, p, post, a),
    ensures
        post.pending_complete(),
{
    match p {
        PacketModel::Agreement(m, f) => {
            lemma_agreement_keeps_pending_complete(pre, post, m, f);
        },
        PacketModel::ProposalReply(m, q) => {
            let tallied = pre.tallied(m, q);
            if pre.tally(m).1 + 1 == AGREEMENT_QUORUM {
                lemma_agreement_keeps_pending_complete(tallied, post, m, AGREEMENT_QUORUM as u64);
            }
        },
        PacketModel::ProposalRequest(m, msg) => {
            lemma_proposal_keeps_pending_complete(pre, post, m, msg);
        },
        _ => {},
    }
}

/// Handling a packet never lowers a proposal count; an agreement is sent only
/// on the reply that brings its message's count to the quorum.
pub proof fn lemma_handled_tally(pre: NodeModel, p: PacketModel, post: NodeModel, a: ActionModel)
    requires
        pre.can_handle(p),
        packet_handled(pre, p, post, a),
    ensures
        forall|m: MessageId| #[trigger] post.tally(m).1 >= pre.tally(m).1,
        forall|m: MessageId|
            #[trigger] broadcasts_agreement(a, m) ==> pre.tally(m).1 + 1 == AGREEMENT_QUORUM
                && post.tally(m).1 == AGREEMENT_QUORUM,
{
    match p {
        PacketModel::ProposalReply(m, q) => {
            assert(pre.tallied(m, q).tally(m).1 == pre.tally(m).1 + 1);
            assert forall|m2: MessageId| #[trigger] post.tally(m2).1 >= pre.tally(m2).1 by {
                if m2 != m {
                    assert(pre.tallied(m, q).tally(m2) == pre.tally(m2));
                }
            }
        },
        _ => {},
    }
}

/// Over any run of handled packets, the agreement of a message is sent at
/// most once: no two steps both send it.
pub proof fn lemma_agreement_sent_at_most_once(
    states: Seq<NodeModel>,
    packets: Seq<PacketModel>,
    actions: Seq<ActionModel>,
    m: MessageId,
    i: int,
    j: int,
)
    requires
        states.len() == packets.len() + 1,
        actions.len() == packets.len(),
        forall|t: int|
            0 <= t < packets.len() ==> #[trigger] states[t].can_handle(packets[t])
                && packet_handled(states[t], packets[t], states[t + 1], actions[t]),
        0 <= i < j < packets.len(),
        broadcasts_agreement(actions[i], m),
    ensures
        !broadcasts_agreement(actions[j], m),
{
    lemma_tally_stays_at_quorum(states, packets, actions, m, i, j);
    assert(states[j].can_handle(packets[j]));
    lemma_handled_tally(states[j], packets[j], states[j + 1], actions[j]);
}

proof fn lemma_tally_stays_at_quorum(
    states: Seq<NodeModel>,
    packets: Seq<PacketModel>,
    actions: Seq<ActionModel>,
    m: MessageId,
    i: int,
    t: int,
)
    requires
        states.len() == packets.len() + 1,
        actions.len() == packets.len(),
        forall|u: int|
            0 <= u < packets.len() ==> #[trigger] states[u].can_handle(packets[u])
                && packet_handled(states[u], packets[u], states[u + 1], actions[u]),
        0 <= i < t <= packets.len(),
        broadcasts_agreement(actions[i], m),
    ensures
        states[t].tally(m).1 >= AGREEMENT_QUORUM,
    decreases t - i,
{
    if t == i + 1 {
        assert(states[i].can_handle(packets[i]));
        lemma_handled_tally(states[i], packets[i], states[i + 1], actions[i]);
    } else {
        lemma_tally_stays_at_quorum(states, packets, actions, m, i, t - 1);
        assert(states[t - 1].can_handle(packets[t - 1]));
        lemma_handled_tally(states[t - 1], packets[t - 1], states[t], actions[t - 1]);
    }
}

/// A finite set of identifiers holding every identifier below `c` has at
/// least `c` members.
proof fn lemma_prefix_count(s: Set<u64>, c: nat)
    requires
        s.finite(),
        c <= u64::MAX + 1,
        forall|x: u64| (x as nat) < c ==> #[trigger] s.contains(x),
    ensures
        s.len() >= c,
    decreases c,
{
    if c > 0 {
        let y = (c - 1) as u64;
        let t = s.remove(y);
        assert forall|x: u64| (x as nat) < c - 1 implies #[trigger] t.contains(x) by {
            assert(s.contains(x));
        }
        lemma_prefix_count(t, (c - 1) as nat);
    }
}

/// `post` is `pre` after this node sent message `m` with bytes `msg`, as
/// [`Node::send_message`] ensures.
pub open spec fn message_sent(pre: NodeModel, post: NodeModel, m: MessageId, msg: Seq<u8>) -> bool {
    &&& proposal_queued(pre, post, m, msg)
    &&& post.proposals == pre.proposals.insert(m, (post.seq, 1))
    &&& pre.has_free_id() ==> pre.is_free_id(m)
}

/// Handling a packet never forgets a message this node sent: its tally
/// stays.
pub proof fn lemma_handled_keeps_sent_ids(pre: NodeModel, p: PacketModel, post: NodeModel, a: ActionModel)
    requires
        packet_handled(pre, p, post, a),
    ensures
        pre.proposals.dom().subset_of(post.proposals.dom()),
{
}

/// Two messages sent by the same node never share an identifier, whatever
/// happened in between (as long as no sent message was forgotten) and
/// unless every identifier was already in use.
pub proof fn lemma_sent_ids_distinct(
    pre1: NodeModel,
    post1: NodeModel,
    m1: MessageId,
    msg1: Seq<u8>,
    pre2: NodeModel,
    post2: NodeModel,
    m2: MessageId,
    msg2: Seq<u8>,
)
    requires
        message_sent(pre1, post1, m1, msg1),
        post1.proposals.dom().subset_of(pre2.proposals.dom()),
        message_sent(pre2, post2, m2, msg2),
        pre2.has_free_id(),
    ensures
        m1 != m2,
{
    assert(post1.proposals.contains_key(m1));
    assert(pre2.proposals.contains_key(m1));
}

/// A packet is refused only where handling it would overflow: every
/// agreement, ping and pong is taken in every state; a proposal request is
/// refused only when the next sequence number would exceed `u64::MAX`, and a
/// reply only when the message's next proposal count would exceed `u8::MAX`.
pub proof fn lemma_refused_only_on_overflow(node: NodeModel, p: PacketModel)
    ensures
        !node.can_handle(p) <==> {
            ||| (p is ProposalRequest && node.seq + 1 > u64::MAX)
            ||| (p matches PacketModel::ProposalReply(m, _) && node.tally(m).1 + 1 > u8::MAX)
        },
        (p is Agreement || p is Ping || p is Pong) ==> node.can_handle(p),
{
}

} // verus!
