use std::collections::HashSet;
use vstd::prelude::*;

use crate::block::Block;
use crate::buffer::{
    are_buckets, bucket_end, descends_from_invalid, evicted, flatten, groups_view, insertion_point,
    poisoned, sorted_by_height, BlockBuffer,
};
use crate::chain::{
    blocks_backward, lemma_push_dom, lemma_push_wf, ChainView, NanoBlockchain, PushError,
    PushResult,
};
use crate::policy::{last_macro_block, BATCH_LENGTH};

verus! {

broadcast use vstd::std_specs::hash::group_hash_axioms;

/// The gossip topic on which blocks are announced.
#[derive(Clone, Copy, Debug, Default)]
pub struct BlockTopic;

impl BlockTopic {
    /// The topic's name.
    pub fn topic(&self) -> (r: String)
        ensures
            r@ == "blocks"@,
    {
        String::from_str("blocks")
    }

    /// Whether messages on the topic are validated before they are relayed.
    pub fn validate(&self) -> (r: bool)
        ensures
            r,
    {
        true
    }
}

/// Limits of the queue's buffer.
#[derive(Clone, Copy, Debug)]
pub struct BlockQueueConfig {
    /// How many blocks the buffer holds at most.
    pub buffer_max: usize,
    /// How far above the head a block may be to be buffered.
    pub window_max: u32,
}

impl Default for BlockQueueConfig {
    fn default() -> (r: Self)
        ensures
            r.buffer_max == 4 * BATCH_LENGTH,
            r.window_max == 2 * BATCH_LENGTH,
    {
        BlockQueueConfig { buffer_max: 4 * (BATCH_LENGTH as usize), window_max: 2 * BATCH_LENGTH }
    }
}

/// What the network is told about a gossiped block: relay it, drop it
/// quietly, or drop it as invalid.
#[derive(Clone, Copy, Debug, PartialEq, Eq, Structural)]
pub enum MsgAcceptance {
    Accept,
    Ignore,
    Reject,
}

/// Work the queue asks of the network and request layers.
#[derive(Debug)]
pub enum QueueAction {
    /// Fetch the blocks between the locators and `target_hash`.
    RequestMissingBlocks { target_hash: u64, locators: Vec<u64> },
    /// The peer is too far ahead: switch it to a full resync.
    PutPeerIntoSyncMode(u64),
    /// Tell the gossip layer whether to relay the message `pubsub_id`.
    ValidateMessage { pubsub_id: u64, acceptance: MsgAcceptance },
}

/// The mathematical form of an action.
pub enum ActionView {
    RequestMissingBlocks(u64, Seq<u64>),
    PutPeerIntoSyncMode(u64),
    ValidateMessage(u64, MsgAcceptance),
}

impl View for QueueAction {
    type V = ActionView;

    open spec fn view(&self) -> ActionView {
        match self {
            QueueAction::RequestMissingBlocks { target_hash, locators } => ActionView::RequestMissingBlocks(
                *target_hash,
                locators@,
            ),
            QueueAction::PutPeerIntoSyncMode(p) => ActionView::PutPeerIntoSyncMode(*p),
            QueueAction::ValidateMessage { pubsub_id, acceptance } => ActionView::ValidateMessage(
                *pubsub_id,
                *acceptance,
            ),
        }
    }
}

/// What the queue reports to its caller.
#[derive(Clone, Copy, Debug, PartialEq, Eq, Structural)]
pub enum BlockQueueEvent {
    ReceivedBlocks,
    PeerMacroSynced(u64),
    PeerLeft(u64),
}

/// What the queue is handed: a gossiped block with its message id and the peer
/// it came from, a response to a missing-blocks request, or a peer event.
#[derive(Debug)]
pub enum QueueInput {
    Announced { block: Block, pubsub_id: u64, peer_id: u64 },
    MissingBlocks(Vec<Block>),
    PeerMacroSynced(u64),
    PeerLeft(u64),
}

/// The mathematical state of a queue.
pub struct QueueView {
    pub buffer_max: nat,
    pub window_max: nat,
    pub chain: ChainView,
    pub buffer: Seq<Block>,
    pub peers: Seq<u64>,
    pub accepted: nat,
    pub actions: Seq<ActionView>,
}

/// The relay verdict for a push outcome.
pub open spec fn acceptance_of(r: Result<PushResult, PushError>) -> MsgAcceptance {
    match r {
        Ok(PushResult::Known) | Ok(PushResult::Extended) | Ok(PushResult::Rebranched) => MsgAcceptance::Accept,
        Ok(_) => MsgAcceptance::Ignore,
        Err(_) => MsgAcceptance::Reject,
    }
}

/// A push that ends the processing of a missing-blocks response.
pub open spec fn breaks_response(r: Result<PushResult, PushError>) -> bool {
    r is Err || r == Ok::<PushResult, PushError>(PushResult::Ignored)
}

/// The chain and the number of blocks of `bs` pushed, in order, before the
/// first one that is ignored or refused.
pub open spec fn push_prefix(c: ChainView, bs: Seq<Block>) -> (ChainView, nat)
    decreases bs.len(),
{
    if bs.len() == 0 {
        (c, 0)
    } else {
        let (c1, r) = c.push(bs[0]);
        if breaks_response(r) {
            (c1, 0)
        } else {
            let (c2, k) = push_prefix(c1, bs.drop_first());
            (c2, k + 1)
        }
    }
}

/// `peers` without `peer`.
pub open spec fn without_peer(peers: Seq<u64>, peer: u64) -> Seq<u64> {
    peers.filter(|x: u64| x != peer)
}

/// The hashes of the blocks of `bs` from position `k` on.
pub open spec fn hashes_from(bs: Seq<Block>, k: int) -> Set<u64> {
    Set::new(|h: u64| exists|j: int| k <= j < bs.len() && #[trigger] bs[j].hash == h)
}

/// The hashes, from the head backwards, down to the last macro block.
pub open spec fn block_locators(c: ChainView) -> Seq<u64> {
    let h = c.head().block_number;
    blocks_backward(c.records, c.head_hash(), (h % BATCH_LENGTH + 1) as nat).map_values(
        |b: Block| b.hash,
    )
}

impl QueueView {
    pub open spec fn head_number(self) -> int {
        self.chain.head().block_number as int
    }

    pub open spec fn wf(self) -> bool {
        &&& self.chain.wf()
        &&& sorted_by_height(self.buffer)
        &&& self.peers.no_duplicates()
    }

    /// Pushes `b`, reports the relay verdict when the block came by gossip,
    /// and tells whether it extended the main chain.
    pub open spec fn push_block(self, b: Block, pubsub_id: Option<u64>) -> (QueueView, bool) {
        let (c, r) = self.chain.push(b);
        let actions = match pubsub_id {
            Some(id) => self.actions.push(ActionView::ValidateMessage(id, acceptance_of(r))),
            None => self.actions,
        };
        (QueueView { chain: c, actions, ..self }, r == Ok::<PushResult, PushError>(PushResult::Extended))
    }

    /// Pushes each block of `bs` in order, whatever the outcomes.
    pub open spec fn push_bucket(self, bs: Seq<Block>) -> QueueView
        decreases bs.len(),
    {
        if bs.len() == 0 {
            self
        } else {
            self.push_block(bs[0], None).0.push_bucket(bs.drop_first())
        }
    }

    /// Pushes the lowest bucket of the buffer while its height is at most one
    /// above the head.
    pub open spec fn drain(self) -> QueueView
        decreases self.buffer.len(),
        via Self::drain_decreases
    {
        if self.buffer.len() > 0 && self.buffer[0].block_number <= self.head_number() + 1 {
            let k = bucket_end(self.buffer, 0);
            QueueView {
                buffer: self.buffer.subrange(k, self.buffer.len() as int),
                ..self
            }.push_bucket(self.buffer.subrange(0, k)).drain()
        } else {
            self
        }
    }

    /// The state after an announcement of `b` by `peer_id`, and whether it
    /// extended the main chain.
    pub open spec fn announce(self, b: Block, peer_id: u64, pubsub_id: Option<u64>) -> (
        QueueView,
        bool,
    ) {
        let h = self.head_number();
        if b.block_number <= h {
            self.push_block(b, pubsub_id)
        } else if b.block_number == h + 1 {
            let (q, r) = self.push_block(b, pubsub_id);
            (q.drain(), r)
        } else if b.block_number > h + self.window_max {
            (
                QueueView {
                    actions: self.actions.push(ActionView::PutPeerIntoSyncMode(peer_id)),
                    ..self
                },
                false,
            )
        } else if self.buffer.len() >= self.buffer_max {
            (self, false)
        } else {
            (
                QueueView {
                    buffer: self.buffer.insert(insertion_point(self.buffer, b.block_number), b),
                    actions: self.actions.push(
                        ActionView::RequestMissingBlocks(b.hash, block_locators(self.chain)),
                    ),
                    ..self
                },
                false,
            )
        }
    }

    /// The state after a missing-blocks response `bs`: its blocks are pushed
    /// in order up to the first that fails; that one and the rest are
    /// invalid, and so is every buffered block depending on them; then the
    /// buffer is drained.
    pub open spec fn missing_received(self, bs: Seq<Block>) -> QueueView {
        let (c, k) = push_prefix(self.chain, bs);
        let q = QueueView { chain: c, ..self };
        if k < bs.len() {
            QueueView { buffer: evicted(q.buffer, hashes_from(bs, k as int)), ..q }.drain()
        } else {
            q.drain()
        }
    }

    /// The state after handling `input`, and the event reported.
    pub open spec fn handle(self, input: QueueInput) -> (QueueView, Option<BlockQueueEvent>) {
        match input {
            QueueInput::Announced { block, pubsub_id, peer_id } => {
                if self.peers.len() > 0 {
                    let (q, extended) = self.announce(block, peer_id, Some(pubsub_id));
                    let accepted = if extended && self.accepted < usize::MAX {
                        self.accepted + 1
                    } else {
                        self.accepted
                    };
                    (QueueView { accepted, ..q }, Some(BlockQueueEvent::ReceivedBlocks))
                } else {
                    (self, None)
                }
            },
            QueueInput::MissingBlocks(bs) => (
                self.missing_received(bs@),
                Some(BlockQueueEvent::ReceivedBlocks),
            ),
            QueueInput::PeerMacroSynced(p) => (
                QueueView {
                    peers: if self.peers.contains(p) {
                        self.peers
                    } else {
                        self.peers.push(p)
                    },
                    ..self
                },
                Some(BlockQueueEvent::PeerMacroSynced(p)),
            ),
            QueueInput::PeerLeft(p) => (
                QueueView { peers: without_peer(self.peers, p), ..self },
                Some(BlockQueueEvent::PeerLeft(p)),
            ),
        }
    }

    #[via_fn]
    proof fn drain_decreases(self) {
        if self.buffer.len() > 0 && self.buffer[0].block_number <= self.head_number() + 1 {
            let k = bucket_end(self.buffer, 0);
            lemma_bucket_end_bounds(self.buffer, 1);
            let q1 = QueueView { buffer: self.buffer.subrange(k, self.buffer.len() as int), ..self };
            lemma_push_bucket_keeps(q1, self.buffer.subrange(0, k));
        }
    }
}

/// A block announced beyond the buffering window is never pushed nor
/// buffered: the only effect is a request to resync the peer that sent it.
pub proof fn lemma_beyond_window(q: QueueView, b: Block, peer_id: u64, pubsub_id: Option<u64>)
    requires
        b.block_number > q.head_number() + q.window_max,
        q.window_max > 0 || b.block_number > q.head_number() + 1,
    ensures
        q.announce(b, peer_id, pubsub_id) == (
            QueueView { actions: q.actions.push(ActionView::PutPeerIntoSyncMode(peer_id)), ..q },
            false,
        ),
{
}

/// After a drain, every block left in the buffer stands more than one above
/// the head: no bucket that could be pushed remains.
pub proof fn lemma_drain_complete(q: QueueView)
    requires
        sorted_by_height(q.buffer),
    ensures
        forall|j: int|
            0 <= j < q.drain().buffer.len() ==> #[trigger] q.drain().buffer[j].block_number
                > q.drain().head_number() + 1,
    decreases q.buffer.len(),
{
    if q.buffer.len() > 0 && q.buffer[0].block_number <= q.head_number() + 1 {
        let k = bucket_end(q.buffer, 0);
        lemma_bucket_end_bounds(q.buffer, 1);
        let q1 = QueueView { buffer: q.buffer.subrange(k, q.buffer.len() as int), ..q };
        let bucket = q.buffer.subrange(0, k);
        lemma_push_bucket_keeps(q1, bucket);
        let q2 = q1.push_bucket(bucket);
        assert(sorted_by_height(q2.buffer)) by {
            assert forall|a: int, c: int| 0 <= a <= c < q2.buffer.len() implies #[trigger] q2.buffer[a].block_number
                <= #[trigger] q2.buffer[c].block_number by {
                assert(q2.buffer[a] == q.buffer[a + k]);
                assert(q2.buffer[c] == q.buffer[c + k]);
            }
        }
        lemma_drain_complete(q2);
    } else if q.buffer.len() > 0 {
        assert forall|j: int| 0 <= j < q.buffer.len() implies #[trigger] q.buffer[j].block_number
            > q.head_number() + 1 by {
            assert(q.buffer[0].block_number <= q.buffer[j].block_number);
        }
    }
}

/// Pushing a sequence of blocks adds to the store only hashes of those blocks.
proof fn lemma_push_bucket_dom(q: QueueView, bs: Seq<Block>)
    requires
        q.chain.wf(),
    ensures
        q.push_bucket(bs).chain.wf(),
        forall|h: u64| #[trigger]
            q.push_bucket(bs).chain.records.contains_key(h) ==> q.chain.records.contains_key(h)
                || exists|j: int| 0 <= j < bs.len() && #[trigger] bs[j].hash == h,
    decreases bs.len(),
{
    if bs.len() > 0 {
        let q1 = q.push_block(bs[0], None).0;
        lemma_push_wf(q.chain, bs[0]);
        lemma_push_dom(q.chain, bs[0]);
        lemma_push_bucket_dom(q1, bs.drop_first());
        assert forall|h: u64| #[trigger]
            q.push_bucket(bs).chain.records.contains_key(h) implies q.chain.records.contains_key(h)
                || exists|j: int| 0 <= j < bs.len() && #[trigger] bs[j].hash == h by {
            if !q1.chain.records.contains_key(h) {
                let j = choose|j: int| 0 <= j < bs.drop_first().len() && #[trigger] bs.drop_first()[j].hash == h;
                assert(bs[j + 1].hash == h);
            } else if !q.chain.records.contains_key(h) {
                assert(bs[0].hash == h);
            }
        }
    }
}

/// A drain adds to the store only hashes of buffered blocks, and keeps only
/// blocks that were buffered.
proof fn lemma_drain_dom(q: QueueView)
    requires
        q.chain.wf(),
    ensures
        forall|h: u64| #[trigger]
            q.drain().chain.records.contains_key(h) ==> q.chain.records.contains_key(h)
                || exists|j: int| 0 <= j < q.buffer.len() && #[trigger] q.buffer[j].hash == h,
        forall|j: int| 0 <= j < q.drain().buffer.len() ==> q.buffer.contains(#[trigger] q.drain().buffer[j]),
    decreases q.buffer.len(),
{
    if q.buffer.len() > 0 && q.buffer[0].block_number <= q.head_number() + 1 {
        let k = bucket_end(q.buffer, 0);
        lemma_bucket_end_bounds(q.buffer, 1);
        let q1 = QueueView { buffer: q.buffer.subrange(k, q.buffer.len() as int), ..q };
        let bucket = q.buffer.subrange(0, k);
        lemma_push_bucket_keeps(q1, bucket);
        lemma_push_bucket_dom(q1, bucket);
        let q2 = q1.push_bucket(bucket);
        assert(q.drain() == q2.drain());
        lemma_drain_dom(q2);
        assert forall|h: u64| #[trigger] q.drain().chain.records.contains_key(h) implies q.chain.records.contains_key(h)
            || exists|j: int| 0 <= j < q.buffer.len() && #[trigger] q.buffer[j].hash == h by {
            if !q2.chain.records.contains_key(h) {
                let j = choose|j: int| 0 <= j < q2.buffer.len() && #[trigger] q2.buffer[j].hash == h;
                assert(q.buffer[j + k].hash == h);
            } else if !q1.chain.records.contains_key(h) {
                let j = choose|j: int| 0 <= j < bucket.len() && #[trigger] bucket[j].hash == h;
                assert(q.buffer[j].hash == h);
            }
        }
        assert forall|j: int| 0 <= j < q.drain().buffer.len() implies q.buffer.contains(
            #[trigger] q.drain().buffer[j],
        ) by {
            let x = q.drain().buffer[j];
            assert(q2.buffer.contains(x));
            let w = choose|w: int| 0 <= w < q2.buffer.len() && q2.buffer[w] == x;
            assert(q.buffer[w + k] == x);
        }
    }
}

/// In a missing-blocks response `[b1, b2, b3]` where `b1` is pushed, `b2` is
/// ignored or refused and `b3` is a child of `b2`, `b3` ends up neither in the
/// store nor in the buffer, though it was never checked itself. Hashes
/// identify blocks, so a buffered block with `b3`'s hash has `b3`'s parent.
pub proof fn lemma_poison_propagates(q: QueueView, b1: Block, b2: Block, b3: Block)
    requires
        q.wf(),
        !breaks_response(q.chain.push(b1).1),
        breaks_response(q.chain.push(b1).0.push(b2).1),
        b3.parent_hash == b2.hash,
        !q.chain.records.contains_key(b3.hash),
        b3.hash != b1.hash,
        forall|j: int| 0 <= j < q.buffer.len() && #[trigger] q.buffer[j].hash == b3.hash
            ==> q.buffer[j].parent_hash == b2.hash,
    ensures
        ({
            let n = q.missing_received(seq![b1, b2, b3]);
            &&& !n.chain.records.contains_key(b3.hash)
            &&& forall|j: int| 0 <= j < n.buffer.len() ==> #[trigger] n.buffer[j].hash != b3.hash
        }),
{
    let bs = seq![b1, b2, b3];
    let c1 = q.chain.push(b1).0;
    let c2 = c1.push(b2).0;
    assert(bs.drop_first() =~= seq![b2, b3]);
    assert(seq![b2, b3][0] == b2);
    assert(push_prefix(c1, seq![b2, b3]) == (c2, 0nat));
    assert(push_prefix(q.chain, bs) == (c2, 1nat));
    lemma_push_wf(q.chain, b1);
    lemma_push_dom(q.chain, b1);
    lemma_push_wf(c1, b2);
    lemma_push_dom(c1, b2);
    assert(!c2.records.contains_key(b3.hash));
    let invalid = hashes_from(bs, 1);
    assert(invalid.contains(b2.hash)) by {
        assert(bs[1].hash == b2.hash);
    }
    let kept = evicted(q.buffer, invalid);
    assert forall|j: int| 0 <= j < kept.len() implies #[trigger] kept[j].hash != b3.hash by {
        broadcast use vstd::seq_lib::group_filter_ensures;
        let x = kept[j];
        assert(!descends_from_invalid(q.buffer, invalid, x));
        assert(q.buffer.contains(x)) by {
            lemma_filter_sub(q.buffer, |b: Block| !descends_from_invalid(q.buffer, invalid, b), j);
        }
        if x.hash == b3.hash {
            assert(poisoned(q.buffer, invalid, x, 0));
        }
    }
    let q2 = QueueView { chain: c2, buffer: kept, ..q };
    lemma_drain_dom(q2);
    assert forall|j: int| 0 <= j < q2.drain().buffer.len() implies #[trigger] q2.drain().buffer[j].hash
        != b3.hash by {
        let x = q2.drain().buffer[j];
        assert(kept.contains(x));
    }
}

/// Every element of a filter comes from the filtered sequence.
proof fn lemma_filter_sub(s: Seq<Block>, p: spec_fn(Block) -> bool, j: int)
    requires
        0 <= j < s.filter(p).len(),
    ensures
        s.contains(s.filter(p)[j]),
    decreases s.len(),
{
    reveal(Seq::filter);
    if s.len() > 0 {
        let t = s.drop_last();
        if j < t.filter(p).len() {
            lemma_filter_sub(t, p, j);
            let w = choose|w: int| 0 <= w < t.len() && t[w] == t.filter(p)[j];
            assert(s[w] == t[w]);
        } else {
            assert(s.filter(p)[j] == s[s.len() - 1]);
        }
    }
}

/// Walking back `n` steps from position `t` of a consistent main chain meets
/// the main-chain blocks at positions `t`, `t - 1`, and so on.
proof fn lemma_backward_main(c: ChainView, t: int, n: nat)
    requires
        c.wf(),
        0 <= t < c.main.len(),
        n <= t + 1,
    ensures
        blocks_backward(c.records, c.main[t], n).len() == n,
        forall|i: int|
            0 <= i < n ==> #[trigger] blocks_backward(c.records, c.main[t], n)[i] == c.records[c.main[t
                - i]].head,
    decreases n,
{
    if n > 0 {
        assert(c.main_link(t));
        let rest = blocks_backward(c.records, c.main[t], n);
        if n > 1 {
            lemma_backward_main(c, t - 1, (n - 1) as nat);
            assert forall|i: int| 0 <= i < n implies #[trigger] rest[i] == c.records[c.main[t - i]].head by {
                if i > 0 {
                    assert(rest[i] == blocks_backward(c.records, c.main[t - 1], (n - 1) as nat)[i - 1]);
                }
            }
        } else {
            let parent = c.records[c.main[t]].head.parent_hash;
            assert(blocks_backward(c.records, parent, 0) == Seq::<Block>::empty());
        }
    }
}

/// On a main chain that reaches down to the last macro block, the locators
/// are the main-chain hashes from the head down to that macro block, one per
/// height.
pub proof fn lemma_locators_follow_main_chain(c: ChainView)
    requires
        c.wf(),
        c.base() <= c.head().block_number - c.head().block_number % BATCH_LENGTH,
    ensures
        ({
            let h = c.head().block_number;
            let locators = block_locators(c);
            &&& locators.len() == h % BATCH_LENGTH + 1
            &&& forall|i: int| 0 <= i < locators.len() ==> #[trigger] locators[i] == c.main[c.main.len() - 1 - i]
            &&& forall|i: int|
                0 <= i < locators.len() ==> c.records[#[trigger] locators[i]].head.block_number == h - i
            &&& c.records[locators.last()].head.block_number == h - h % BATCH_LENGTH
        }),
{
    let len = c.main.len();
    let h = c.head().block_number;
    let n = (h % BATCH_LENGTH + 1) as nat;
    assert(c.main_link(len - 1));
    lemma_backward_main(c, len - 1, n);
    let locators = block_locators(c);
    assert forall|i: int| 0 <= i < locators.len() implies #[trigger] locators[i] == c.main[len - 1 - i]
        && c.records[locators[i]].head.block_number == h - i by {
        assert(c.main_link(len - 1 - i));
    }
}

proof fn lemma_push_bucket_keeps(q: QueueView, bs: Seq<Block>)
    ensures
        q.push_bucket(bs).buffer == q.buffer,
        q.push_bucket(bs).peers == q.peers,
        q.push_bucket(bs).accepted == q.accepted,
        q.push_bucket(bs).buffer_max == q.buffer_max,
        q.push_bucket(bs).window_max == q.window_max,
    decreases bs.len(),
{
    if bs.len() > 0 {
        lemma_push_bucket_keeps(q.push_block(bs[0], None).0, bs.drop_first());
    }
}

proof fn lemma_bucket_end_bounds(s: Seq<Block>, i: int)
    requires
        0 <= i <= s.len(),
    ensures
        i <= bucket_end(s, i) <= s.len(),
    decreases s.len() - i,
{
    if i < s.len() && s[i].block_number == s[0].block_number {
        lemma_bucket_end_bounds(s, i + 1);
    }
}

/// The synchronisation queue: it takes gossiped blocks and missing-blocks
/// responses, drives the chain and the buffer, and collects the actions the
/// network layer has to carry out.
pub struct BlockQueue {
    config: BlockQueueConfig,
    blockchain: NanoBlockchain,
    buffer: BlockBuffer,
    peers: Vec<u64>,
    accepted_announcements: usize,
    actions: Vec<QueueAction>,
}

impl View for BlockQueue {
    type V = QueueView;

    closed spec fn view(&self) -> QueueView {
        QueueView {
            buffer_max: self.config.buffer_max as nat,
            window_max: self.config.window_max as nat,
            chain: self.blockchain@,
            buffer: self.buffer@,
            peers: self.peers@,
            accepted: self.accepted_announcements as nat,
            actions: self.actions@.map_values(|a: QueueAction| a@),
        }
    }
}

impl BlockQueue {
    /// A queue over `blockchain` with an empty buffer, no peers and no actions.
    pub fn new(config: BlockQueueConfig, blockchain: NanoBlockchain) -> (r: BlockQueue)
        requires
            blockchain@.wf(),
        ensures
            r@.wf(),
            r@.buffer_max == config.buffer_max,
            r@.window_max == config.window_max,
            r@.chain == blockchain@,
            r@.buffer.len() == 0,
            r@.peers.len() == 0,
            r@.accepted == 0,
            r@.actions.len() == 0,
    {
        let r = BlockQueue {
            config,
            blockchain,
            buffer: BlockBuffer::new(),
            peers: Vec::new(),
            accepted_announcements: 0,
            actions: Vec::new(),
        };
        proof {
            assert(r@.actions =~= Seq::<ActionView>::empty());
        }
        r
    }

    fn push_action(&mut self, a: QueueAction)
        ensures
            final(self)@ == (QueueView { actions: old(self)@.actions.push(a@), ..old(self)@ }),
    {
        self.actions.push(a);
        proof {
            assert(self.actions@.map_values(|a: QueueAction| a@) =~= old(self).actions@.map_values(
                |a: QueueAction| a@,
            ).push(a@));
        }
    }

    /// Hands out the actions collected so far and forgets them.
    pub fn take_actions(&mut self) -> (r: Vec<QueueAction>)
        ensures
            r@.map_values(|a: QueueAction| a@) == old(self)@.actions,
            final(self)@ == (QueueView { actions: Seq::empty(), ..old(self)@ }),
    {
        let mut r: Vec<QueueAction> = Vec::new();
        std::mem::swap(&mut r, &mut self.actions);
        proof {
            assert(self@.actions =~= Seq::<ActionView>::empty());
        }
        r
    }

    /// Pushes `block`, reports the relay verdict when it came by gossip, and
    /// tells whether it extended the main chain.
    fn push_and_report(&mut self, block: Block, pubsub_id: Option<u64>) -> (r: bool)
        requires
            old(self)@.wf(),
        ensures
            final(self)@.wf(),
            (final(self)@, r) == old(self)@.push_block(block, pubsub_id),
    {
        let result = self.blockchain.push(block);
        let acceptance = match result {
            Ok(PushResult::Known) | Ok(PushResult::Extended) | Ok(PushResult::Rebranched) => MsgAcceptance::Accept,
            Ok(_) => MsgAcceptance::Ignore,
            Err(_) => MsgAcceptance::Reject,
        };
        match pubsub_id {
            Some(id) => self.push_action(QueueAction::ValidateMessage { pubsub_id: id, acceptance }),
            None => {},
        }
        matches!(result, Ok(PushResult::Extended))
    }

    /// Pushes the buffered blocks that have become reachable: the lowest
    /// bucket goes while its height is at most one above the head.
    fn push_buffered(&mut self)
        requires
            old(self)@.wf(),
        ensures
            final(self)@.wf(),
            final(self)@ == old(self)@.drain(),
            forall|j: int|
                0 <= j < final(self)@.buffer.len() ==> #[trigger] final(self)@.buffer[j].block_number
                    > final(self)@.head_number() + 1,
    {
        let ghost q0 = self@;
        proof {
            lemma_drain_complete(q0);
        }
        let mut more = true;
        while more
            invariant
                self@.wf(),
                q0.drain() == if more {
                    self@.drain()
                } else {
                    self@
                },
            decreases self@.buffer.len() + if more {
                1int
            } else {
                0int
            },
        {
            let ghost q = self@;
            let head = self.blockchain.block_number();
            let max_height = if head < u32::MAX {
                head + 1
            } else {
                head
            };
            let bucket = self.buffer.pop_ready(max_height);
            if bucket.len() == 0 {
                more = false;
                proof {
                    if q.buffer.len() > 0 && q.buffer[0].block_number <= max_height {
                        lemma_bucket_end_bounds(q.buffer, 1);
                    }
                }
            } else {
                let ghost q1 = self@;
                let mut i: usize = 0;
                proof {
                    assert(bucket@.subrange(0, bucket@.len() as int) =~= bucket@);
                }
                while i < bucket.len()
                    invariant
                        self@.wf(),
                        i <= bucket@.len(),
                        q1.push_bucket(bucket@) == self@.push_bucket(
                            bucket@.subrange(i as int, bucket@.len() as int),
                        ),
                        self@.buffer == q1.buffer,
                    decreases bucket@.len() - i,
                {
                    proof {
                        assert(bucket@.subrange(i as int, bucket@.len() as int).drop_first()
                            =~= bucket@.subrange(i + 1, bucket@.len() as int));
                    }
                    self.push_and_report(bucket[i], None);
                    i = i + 1;
                }
                proof {
                    assert(bucket@.subrange(i as int, bucket@.len() as int) =~= Seq::<Block>::empty());
                    lemma_bucket_end_bounds(q.buffer, 1);
                }
            }
        }
    }

    /// Handles a block announced by `peer_id`; returns whether it extended the
    /// main chain at once.
    pub fn on_block_announced(&mut self, block: Block, peer_id: u64, pubsub_id: Option<u64>) -> (r: bool)
        requires
            old(self)@.wf(),
        ensures
            final(self)@.wf(),
            (final(self)@, r) == old(self)@.announce(block, peer_id, pubsub_id),
    {
        let block_height = block.block_number;
        let head_height = self.blockchain.block_number();
        if block_height <= head_height {
            self.push_and_report(block, pubsub_id)
        } else if block_height as u64 == head_height as u64 + 1 {
            let result = self.push_and_report(block, pubsub_id);
            self.push_buffered();
            result
        } else if block_height as u64 > head_height as u64 + self.config.window_max as u64 {
            self.push_action(QueueAction::PutPeerIntoSyncMode(peer_id));
            false
        } else if self.buffer.len() >= self.config.buffer_max {
            false
        } else {
            let locators = self.block_locators();
            self.buffer.insert(block);
            self.push_action(QueueAction::RequestMissingBlocks { target_hash: block.hash, locators });
            false
        }
    }

    /// The locators sent with a missing-blocks request.
    fn block_locators(&self) -> (r: Vec<u64>)
        requires
            self@.wf(),
        ensures
            r@ == block_locators(self@.chain),
    {
        let head_height = self.blockchain.block_number();
        let prev_macro_block_height = last_macro_block(head_height);
        let blocks = self.blockchain.get_blocks_backward(
            self.blockchain.head_hash(),
            head_height - prev_macro_block_height + 1,
        );
        let mut hashes: Vec<u64> = Vec::new();
        let mut i: usize = 0;
        while i < blocks.len()
            invariant
                i <= blocks@.len(),
                hashes@ == blocks@.subrange(0, i as int).map_values(|b: Block| b.hash),
            decreases blocks@.len() - i,
        {
            hashes.push(blocks[i].hash);
            i = i + 1;
            proof {
                assert(hashes@ =~= blocks@.subrange(0, i as int).map_values(|b: Block| b.hash));
            }
        }
        proof {
            assert(blocks@.subrange(0, i as int) =~= blocks@);
        }
        hashes
    }

    /// Handles a block handed over directly by `peer_id`, as an announcement
    /// without a gossip message to validate.
    pub fn push_block(&mut self, block: Block, peer_id: u64)
        requires
            old(self)@.wf(),
        ensures
            final(self)@.wf(),
            final(self)@ == old(self)@.announce(block, peer_id, None).0,
    {
        self.on_block_announced(block, peer_id, None);
    }

    /// The buffered blocks grouped by height, lowest height first.
    pub fn buffered_blocks(&self) -> (r: Vec<(u32, Vec<Block>)>)
        requires
            self@.wf(),
        ensures
            flatten(groups_view(r@)) == self@.buffer,
            are_buckets(groups_view(r@)),
    {
        self.buffer.buckets()
    }

    /// The number of peers that have caught up and not left.
    pub fn num_peers(&self) -> (r: usize)
        ensures
            r == self@.peers.len(),
    {
        self.peers.len()
    }

    /// The peers that have caught up and not left, in the order they did.
    pub fn peers(&self) -> (r: Vec<u64>)
        ensures
            r@ == self@.peers,
    {
        let mut r: Vec<u64> = Vec::new();
        let mut i: usize = 0;
        while i < self.peers.len()
            invariant
                i <= self.peers@.len(),
                r@ == self.peers@.subrange(0, i as int),
            decreases self.peers@.len() - i,
        {
            r.push(self.peers[i]);
            i = i + 1;
            proof {
                assert(r@ =~= self.peers@.subrange(0, i as int));
            }
        }
        proof {
            assert(self.peers@.subrange(0, i as int) =~= self.peers@);
        }
        r
    }

    /// How many announcements extended the main chain at once (saturating).
    pub fn accepted_block_announcements(&self) -> (r: usize)
        ensures
            r == self@.accepted,
    {
        self.accepted_announcements
    }

    /// The chain the queue drives.
    pub fn blockchain(&self) -> (r: &NanoBlockchain)
        ensures
            r@ == self@.chain,
    {
        &self.blockchain
    }

    /// Handles a missing-blocks response: pushes its blocks in order until
    /// one is ignored or refused, evicts the buffered blocks that depend on
    /// that one or on those after it, then drains the buffer.
    pub fn on_missing_blocks_received(&mut self, blocks: Vec<Block>)
        requires
            old(self)@.wf(),
        ensures
            final(self)@.wf(),
            final(self)@ == old(self)@.missing_received(blocks@),
            forall|j: int|
                0 <= j < final(self)@.buffer.len() ==> #[trigger] final(self)@.buffer[j].block_number
                    > final(self)@.head_number() + 1,
    {
        let ghost q0 = self@;
        let ghost bs = blocks@;
        let mut i: usize = 0;
        let mut stop = false;
        proof {
            assert(bs.subrange(0, bs.len() as int) =~= bs);
        }
        while i < blocks.len() && !stop
            invariant
                self@.wf(),
                i <= bs.len(),
                bs == blocks@,
                self@ == (QueueView { chain: self@.chain, ..q0 }),
                push_prefix(q0.chain, bs) == if stop {
                    (self@.chain, i as nat)
                } else {
                    let (c, k) = push_prefix(self@.chain, bs.subrange(i as int, bs.len() as int));
                    (c, (k + i) as nat)
                },
                stop ==> i < bs.len(),
            decreases bs.len() - i + if stop {
                0int
            } else {
                1int
            },
        {
            let ghost sub = bs.subrange(i as int, bs.len() as int);
            proof {
                assert(sub.drop_first() =~= bs.subrange(i + 1, bs.len() as int));
                assert(sub[0] == bs[i as int]);
            }
            let result = self.blockchain.push(blocks[i]);
            match result {
                Ok(PushResult::Ignored) | Err(_) => {
                    stop = true;
                },
                Ok(_) => {
                    i = i + 1;
                },
            }
        }
        proof {
            if !stop {
                assert(bs.subrange(i as int, bs.len() as int) =~= Seq::<Block>::empty());
            }
        }
        if stop {
            let mut invalid: HashSet<u64> = HashSet::new();
            let mut j: usize = i;
            while j < blocks.len()
                invariant
                    i <= j <= bs.len(),
                    bs == blocks@,
                    invalid@ == Set::new(
                        |h: u64| exists|x: int| i <= x < j && #[trigger] bs[x].hash == h,
                    ),
                decreases bs.len() - j,
            {
                invalid.insert(blocks[j].hash);
                j = j + 1;
                proof {
                    assert forall|h: u64| #[trigger] invalid@.contains(h) == (exists|x: int|
                        i <= x < j && #[trigger] bs[x].hash == h) by {
                        if h == bs[j - 1].hash {
                            assert(i <= j - 1 < j && bs[j - 1].hash == h);
                        }
                    }
                    assert(invalid@ =~= Set::new(
                        |h: u64| exists|x: int| i <= x < j && #[trigger] bs[x].hash == h,
                    ));
                }
            }
            proof {
                assert(invalid@ =~= hashes_from(bs, i as int));
            }
            self.buffer.evict_descendants_of(invalid);
        }
        self.push_buffered();
    }

    /// Handles one input and returns the event to report. Announcements are
    /// dropped while no peer has caught up.
    pub fn handle(&mut self, input: QueueInput) -> (r: Option<BlockQueueEvent>)
        requires
            old(self)@.wf(),
        ensures
            final(self)@.wf(),
            (final(self)@, r) == old(self)@.handle(input),
    {
        match input {
            QueueInput::Announced { block, pubsub_id, peer_id } => {
                if self.peers.len() > 0 {
                    let accepted = self.accepted_announcements;
                    let extended = self.on_block_announced(block, peer_id, Some(pubsub_id));
                    self.accepted_announcements = if extended && accepted < usize::MAX {
                        accepted + 1
                    } else {
                        accepted
                    };
                    Some(BlockQueueEvent::ReceivedBlocks)
                } else {
                    None
                }
            },
            QueueInput::MissingBlocks(blocks) => {
                self.on_missing_blocks_received(blocks);
                Some(BlockQueueEvent::ReceivedBlocks)
            },
            QueueInput::PeerMacroSynced(peer) => {
                self.add_peer(peer);
                Some(BlockQueueEvent::PeerMacroSynced(peer))
            },
            QueueInput::PeerLeft(peer) => {
                self.remove_peer(peer);
                Some(BlockQueueEvent::PeerLeft(peer))
            },
        }
    }

    fn add_peer(&mut self, peer: u64)
        requires
            old(self)@.wf(),
        ensures
            final(self)@.wf(),
            final(self)@ == (QueueView {
                peers: if old(self)@.peers.contains(peer) {
                    old(self)@.peers
                } else {
                    old(self)@.peers.push(peer)
                },
                ..old(self)@
            }),
    {
        let mut i: usize = 0;
        while i < self.peers.len()
            invariant
                i <= self.peers@.len(),
                self@ == old(self)@,
                self@.wf(),
                forall|j: int| 0 <= j < i ==> self.peers@[j] != peer,
            decreases self.peers@.len() - i,
        {
            if self.peers[i] == peer {
                proof {
                    assert(self.peers@.contains(peer));
                }
                return;
            }
            i = i + 1;
        }
        self.peers.push(peer);
        proof {
            assert(self@.peers.no_duplicates()) by {
                assert(forall|j: int| 0 <= j < old(self)@.peers.len() ==> self@.peers[j] == old(self)@.peers[j]);
            }
        }
    }

    fn remove_peer(&mut self, peer: u64)
        requires
            old(self)@.wf(),
        ensures
            final(self)@.wf(),
            final(self)@ == (QueueView { peers: without_peer(old(self)@.peers, peer), ..old(self)@ }),
    {
        let ghost s = self.peers@;
        let mut kept: Vec<u64> = Vec::new();
        let mut i: usize = 0;
        while i < self.peers.len()
            invariant
                i <= s.len(),
                self.peers@ == s,
                self@ == old(self)@,
                self@.wf(),
                kept@ == without_peer(s.subrange(0, i as int), peer),
            decreases s.len() - i,
        {
            proof {
                reveal(Seq::filter);
                assert(s.subrange(0, i + 1).drop_last() =~= s.subrange(0, i as int));
            }
            if self.peers[i] != peer {
                kept.push(self.peers[i]);
            }
            i = i + 1;
        }
        proof {
            assert(s.subrange(0, s.len() as int) =~= s);
            lemma_filter_no_duplicates(s, peer);
        }
        self.peers = kept;
    }
}

proof fn lemma_filter_no_duplicates(s: Seq<u64>, peer: u64)
    requires
        s.no_duplicates(),
    ensures
        without_peer(s, peer).no_duplicates(),
        forall|x: u64| #[trigger] without_peer(s, peer).contains(x) ==> s.contains(x),
    decreases s.len(),
{
    reveal(Seq::filter);
    if s.len() > 0 {
        let t = s.drop_last();
        let ft = without_peer(t, peer);
        assert(t.no_duplicates());
        lemma_filter_no_duplicates(t, peer);
        assert forall|x: u64| #[trigger] t.contains(x) implies s.contains(x) by {
            let w = choose|w: int| 0 <= w < t.len() && t[w] == x;
            assert(s[w] == x);
        }
        if s.last() != peer {
            let fs = ft.push(s.last());
            assert(!ft.contains(s.last())) by {
                if ft.contains(s.last()) {
                    let w = choose|w: int| 0 <= w < t.len() && t[w] == s.last();
                    assert(s[w] == s[s.len() - 1]);
                }
            }
            assert forall|a: int, b: int| 0 <= a < fs.len() && 0 <= b < fs.len() && a != b implies fs[a]
                != fs[b] by {
                if a == fs.len() - 1 {
                    assert(ft.contains(fs[b]));
                } else if b == fs.len() - 1 {
                    assert(ft.contains(fs[a]));
                }
            }
            assert forall|x: u64| #[trigger] fs.contains(x) implies s.contains(x) by {
                if x != s.last() {
                    let w = choose|w: int| 0 <= w < fs.len() && fs[w] == x;
                    assert(ft.contains(x));
                } else {
                    assert(s[s.len() - 1] == x);
                }
            }
        }
    }
}

} // verus!
