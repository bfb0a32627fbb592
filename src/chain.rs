use std::collections::HashMap;
use vstd::prelude::*;

use crate::block::{Block, BlockType, Validity};

verus! {

broadcast use vstd::std_specs::hash::group_hash_axioms;

/// What the chain store keeps of a known block.
#[derive(Clone, Copy, Debug, PartialEq, Eq, Structural)]
pub struct ChainInfo {
    pub head: Block,
    pub on_main_chain: bool,
    pub main_chain_successor: Option<u64>,
}

/// How a candidate block relates to the current main chain.
#[derive(Clone, Copy, Debug, PartialEq, Eq, Structural)]
pub enum ChainOrdering {
    Extend,
    Better,
    Inferior,
    Unknown,
}

/// The successful outcomes of a push.
#[derive(Clone, Copy, Debug, PartialEq, Eq, Structural)]
pub enum PushResult {
    Known,
    Extended,
    Rebranched,
    Forked,
    Ignored,
}

/// The reasons a push is refused.
#[derive(Clone, Copy, Debug, PartialEq, Eq, Structural)]
pub enum PushError {
    Orphan,
    InvalidHeader,
    InvalidJustification,
    InvalidSuccessor,
    InvalidFork,
    DuplicateTransaction,
}

/// Notifications the chain hands to its listeners.
#[derive(Debug)]
pub enum BlockchainEvent {
    Extended(u64),
    Rebranched(Vec<Block>, Vec<Block>),
}

/// The mathematical form of a chain event.
pub enum ChainEvent {
    Extended(u64),
    Rebranched(Seq<Block>, Seq<Block>),
}

impl View for BlockchainEvent {
    type V = ChainEvent;

    open spec fn view(&self) -> ChainEvent {
        match self {
            BlockchainEvent::Extended(h) => ChainEvent::Extended(*h),
            BlockchainEvent::Rebranched(r, a) => ChainEvent::Rebranched(r@, a@),
        }
    }
}

/// The mathematical state of a chain: its records by hash, the main chain as
/// the hashes of its blocks from the oldest to the head, and the events emitted.
pub struct ChainView {
    pub records: Map<u64, ChainInfo>,
    pub main: Seq<u64>,
    pub events: Seq<ChainEvent>,
}

impl ChainView {
    pub open spec fn head_hash(self) -> u64 {
        self.main.last()
    }

    pub open spec fn head(self) -> Block {
        self.records[self.head_hash()].head
    }

    pub open spec fn base(self) -> int {
        self.records[self.main[0]].head.block_number as int
    }

    /// Position `i` of the main chain is a record on the main chain, at the
    /// right height, pointing to the next position and back to the previous.
    pub open spec fn main_link(self, i: int) -> bool {
        let h = self.main[i];
        &&& self.records.contains_key(h)
        &&& self.records[h].on_main_chain
        &&& self.records[h].head.block_number == self.base() + i
        &&& self.records[h].main_chain_successor == (if i + 1 < self.main.len() {
            Some(self.main[i + 1])
        } else {
            None::<u64>
        })
        &&& i > 0 ==> self.records[h].head.parent_hash == self.main[i - 1]
    }

    /// The consistency of the store: records are keyed by their hash, the main
    /// chain is a linked run of consecutive heights, and exactly its records
    /// are flagged as being on it.
    pub open spec fn wf(self) -> bool {
        &&& self.main.len() >= 1
        &&& forall|h: u64| #[trigger]
            self.records.contains_key(h) ==> self.records[h].head.hash == h
        &&& forall|i: int| 0 <= i < self.main.len() ==> #[trigger] self.main_link(i)
        &&& forall|h: u64|
            #[trigger] self.records.contains_key(h) && self.records[h].on_main_chain ==> {
                let k = self.records[h].head.block_number - self.base();
                &&& 0 <= k < self.main.len()
                &&& self.main[k] == h
            }
        &&& forall|h: u64|
            #[trigger] self.records.contains_key(h) && !self.records[h].on_main_chain
                ==> self.records[h].main_chain_successor is None
    }

    /// The verdict on a block whose parent is known.
    pub open spec fn ordering(self, b: Block) -> ChainOrdering {
        if b.parent_hash == self.head_hash() {
            ChainOrdering::Extend
        } else if self.records[b.parent_hash].on_main_chain {
            let head = self.head();
            if b.block_number > head.block_number || (b.block_number == head.block_number
                && b.view_number > head.view_number) {
                ChainOrdering::Better
            } else {
                ChainOrdering::Inferior
            }
        } else {
            ChainOrdering::Unknown
        }
    }

    /// Appending `b` to the main chain.
    pub open spec fn extend(self, b: Block) -> (ChainView, Result<PushResult, PushError>) {
        if b.validity == Validity::BadState {
            (self, Err(PushError::DuplicateTransaction))
        } else {
            let prev = self.records[b.parent_hash];
            let records = self.records.insert(
                b.parent_hash,
                ChainInfo { main_chain_successor: Some(b.hash), ..prev },
            ).insert(b.hash, ChainInfo { head: b, on_main_chain: true, main_chain_successor: None });
            (
                ChainView {
                    records,
                    main: self.main.push(b.hash),
                    events: self.events.push(ChainEvent::Extended(b.hash)),
                },
                Ok(PushResult::Extended),
            )
        }
    }

    /// Adopting `b`, a better sibling of the head: the head is reverted, then
    /// `b` is applied on the common ancestor. If applying `b` fails, the chain
    /// is left at the ancestor.
    pub open spec fn rebranch(self, b: Block) -> (ChainView, Result<PushResult, PushError>) {
        let old_head = self.head();
        let ancestor = self.records[b.parent_hash];
        if old_head.ty == BlockType::Macro || b.ty == BlockType::Macro {
            (self, Err(PushError::InvalidFork))
        } else {
            let reverted = self.records.insert(
                self.head_hash(),
                ChainInfo { head: old_head, on_main_chain: false, main_chain_successor: None },
            );
            let main = self.main.drop_last();
            if b.validity == Validity::BadState {
                (
                    ChainView {
                        records: reverted.insert(
                            b.parent_hash,
                            ChainInfo { main_chain_successor: None, ..ancestor },
                        ),
                        main,
                        events: self.events,
                    },
                    Err(PushError::InvalidFork),
                )
            } else {
                let records = reverted.insert(
                    b.parent_hash,
                    ChainInfo { main_chain_successor: Some(b.hash), ..ancestor },
                ).insert(b.hash, ChainInfo { head: b, on_main_chain: true, main_chain_successor: None });
                (
                    ChainView {
                        records,
                        main: main.push(b.hash),
                        events: self.events.push(ChainEvent::Rebranched(seq![old_head], seq![b])),
                    },
                    Ok(PushResult::Rebranched),
                )
            }
        }
    }

    /// The state and outcome of pushing `b`.
    pub open spec fn push(self, b: Block) -> (ChainView, Result<PushResult, PushError>) {
        if self.records.contains_key(b.hash) {
            (self, Ok(PushResult::Known))
        } else if !self.records.contains_key(b.parent_hash) {
            (self, Err(PushError::Orphan))
        } else {
            let ord = self.ordering(b);
            let prev = self.records[b.parent_hash];
            if ord == ChainOrdering::Inferior {
                (self, Ok(PushResult::Ignored))
            } else if b.validity == Validity::BadHeader {
                (self, Err(PushError::InvalidHeader))
            } else if b.validity == Validity::BadJustification {
                (self, Err(PushError::InvalidJustification))
            } else if b.block_number != prev.head.block_number + 1 {
                (self, Err(PushError::InvalidSuccessor))
            } else if ord == ChainOrdering::Extend {
                self.extend(b)
            } else if ord == ChainOrdering::Better {
                self.rebranch(b)
            } else {
                (
                    ChainView {
                        records: self.records.insert(
                            b.hash,
                            ChainInfo { head: b, on_main_chain: false, main_chain_successor: None },
                        ),
                        ..self
                    },
                    Ok(PushResult::Forked),
                )
            }
        }
    }
}

/// The blocks met when walking back from `hash` through parent links, at most
/// `count` of them, starting with the block of `hash` itself.
pub open spec fn blocks_backward(records: Map<u64, ChainInfo>, hash: u64, count: nat) -> Seq<Block>
    decreases count,
{
    if count == 0 || !records.contains_key(hash) {
        Seq::empty()
    } else {
        seq![records[hash].head] + blocks_backward(records, records[hash].head.parent_hash, (count - 1) as nat)
    }
}

/// Every push keeps the store consistent: whatever the block, the records stay
/// keyed by hash and the main chain stays a linked run flagged as such.
pub proof fn lemma_push_wf(m: ChainView, b: Block)
    requires
        m.wf(),
    ensures
        m.push(b).0.wf(),
{
    let n = m.push(b).0;
    if m.records.contains_key(b.hash) || !m.records.contains_key(b.parent_hash) {
    } else {
        let ord = m.ordering(b);
        let prev = m.records[b.parent_hash];
        if ord == ChainOrdering::Inferior || b.validity == Validity::BadHeader
            || b.validity == Validity::BadJustification
            || b.block_number != prev.head.block_number + 1 {
        } else if ord == ChainOrdering::Extend {
            if b.validity != Validity::BadState {
                assert(m.main_link(m.main.len() - 1));
                assert(n.base() == m.base()) by {
                    assert(m.main_link(0));
                }
                assert forall|i: int| 0 <= i < n.main.len() implies #[trigger] n.main_link(i) by {
                    if i < m.main.len() {
                        assert(m.main_link(i));
                        if i > 0 {
                            assert(m.main_link(i - 1));
                        }
                    }
                }
                assert forall|h: u64|
                    #[trigger] n.records.contains_key(h) && n.records[h].on_main_chain implies {
                    let k = n.records[h].head.block_number - n.base();
                    &&& 0 <= k < n.main.len()
                    &&& n.main[k] == h
                } by {
                    if h != b.hash && h != b.parent_hash {
                        assert(m.records.contains_key(h));
                    }
                }
            }
        } else if ord == ChainOrdering::Better {
            let len = m.main.len();
            let k = prev.head.block_number - m.base();
            assert(m.main_link(len - 1));
            assert(m.main_link(k));
            assert(k == len - 2);
            assert(m.main_link(0));
            if m.head().ty != BlockType::Macro && b.ty != BlockType::Macro {
                assert(n.base() == m.base());
                assert forall|i: int| 0 <= i < n.main.len() implies #[trigger] n.main_link(i) by {
                    if i < len - 1 {
                        assert(m.main_link(i));
                        if i > 0 {
                            assert(m.main_link(i - 1));
                        }
                    }
                }
                assert forall|h: u64|
                    #[trigger] n.records.contains_key(h) && n.records[h].on_main_chain implies {
                    let k = n.records[h].head.block_number - n.base();
                    &&& 0 <= k < n.main.len()
                    &&& n.main[k] == h
                } by {
                    if h != b.hash && h != b.parent_hash {
                        assert(m.records.contains_key(h));
                    }
                }
            }
        } else {
            assert(m.main_link(0));
            assert(n.base() == m.base());
            assert forall|i: int| 0 <= i < n.main.len() implies #[trigger] n.main_link(i) by {
                assert(m.main_link(i));
            }
        }
    }
}

/// Distinct positions of a consistent main chain hold distinct hashes.
proof fn lemma_main_distinct(c: ChainView, i: int, j: int)
    requires
        c.wf(),
        0 <= i < c.main.len(),
        0 <= j < c.main.len(),
        i != j,
    ensures
        c.main[i] != c.main[j],
{
    assert(c.main_link(i));
    assert(c.main_link(j));
}

/// A block that a push stored is reported as known when pushed again, and
/// the second push changes nothing.
pub proof fn lemma_push_idempotent(c: ChainView, b: Block)
    requires
        c.wf(),
        c.push(b).1 is Ok,
        c.push(b).1 != Ok::<PushResult, PushError>(PushResult::Ignored),
    ensures
        c.push(b).0.push(b) == (c.push(b).0, Ok::<PushResult, PushError>(PushResult::Known)),
{
}

/// Adopting a better sibling of the head either completes, with the fork tip
/// as head, the old head flagged off the main chain and the ancestor linked to
/// the tip, or fails while applying the tip and leaves the chain exactly at
/// the common ancestor, with the tip not stored.
pub proof fn lemma_rebranch_atomic(c: ChainView, b: Block)
    requires
        c.wf(),
        !c.records.contains_key(b.hash),
        c.records.contains_key(b.parent_hash),
        c.ordering(b) == ChainOrdering::Better,
        b.validity != Validity::BadHeader,
        b.validity != Validity::BadJustification,
        b.block_number == c.records[b.parent_hash].head.block_number + 1,
        c.head().ty != BlockType::Macro,
        b.ty != BlockType::Macro,
    ensures
        ({
            let (n, r) = c.push(b);
            &&& n.wf()
            &&& c.main.len() >= 2
            &&& b.parent_hash == c.main[c.main.len() - 2]
            &&& !n.records[c.head_hash()].on_main_chain
            &&& n.records[c.head_hash()].main_chain_successor is None
            &&& if b.validity == Validity::BadState {
                &&& r == Err::<PushResult, PushError>(PushError::InvalidFork)
                &&& n.main == c.main.drop_last()
                &&& n.head_hash() == b.parent_hash
                &&& n.records[b.parent_hash].main_chain_successor is None
                &&& !n.records.contains_key(b.hash)
                &&& n.events == c.events
            } else {
                &&& r == Ok::<PushResult, PushError>(PushResult::Rebranched)
                &&& n.main == c.main.drop_last().push(b.hash)
                &&& n.head_hash() == b.hash
                &&& n.records[b.hash].on_main_chain
                &&& n.records[b.parent_hash].main_chain_successor == Some(b.hash)
                &&& n.events == c.events.push(ChainEvent::Rebranched(seq![c.head()], seq![b]))
            }
        }),
{
    lemma_push_wf(c, b);
    let len = c.main.len();
    let k = c.records[b.parent_hash].head.block_number - c.base();
    assert(c.main_link(len - 1));
    assert(c.main_link(k));
    assert(k == len - 2);
    if b.validity == Validity::BadState {
        assert(c.push(b).0.main.last() == c.main[len - 2]);
    }
}

/// Between a candidate and the head, both children of the head's parent and
/// at the same height, the higher view number wins; on equal view numbers
/// the head, seen first, stays.
pub proof fn lemma_tie_break(c: ChainView, b: Block)
    requires
        c.wf(),
        c.main.len() >= 2,
        b.parent_hash == c.main[c.main.len() - 2],
        b.block_number == c.head().block_number,
    ensures
        c.ordering(b) == if b.view_number > c.head().view_number {
            ChainOrdering::Better
        } else {
            ChainOrdering::Inferior
        },
{
    lemma_main_distinct(c, c.main.len() - 2, c.main.len() - 1);
    assert(c.main_link(c.main.len() - 2));
}

/// A push adds to the store at most the pushed block's hash, and one that is
/// ignored or refused adds nothing.
pub proof fn lemma_push_dom(c: ChainView, b: Block)
    requires
        c.wf(),
    ensures
        forall|h: u64| #[trigger]
            c.push(b).0.records.contains_key(h) ==> c.records.contains_key(h) || (h == b.hash
                && c.push(b).1 is Ok && c.push(b).1 != Ok::<PushResult, PushError>(
                PushResult::Ignored,
            )),
{
    assert(c.main_link(c.main.len() - 1));
}

/// A chain of blocks held in a store of records, with its main chain.
pub struct NanoBlockchain {
    records: HashMap<u64, ChainInfo>,
    main: Vec<u64>,
    events: Vec<BlockchainEvent>,
}

impl View for NanoBlockchain {
    type V = ChainView;

    closed spec fn view(&self) -> ChainView {
        ChainView {
            records: self.records@,
            main: self.main@,
            events: self.events@.map_values(|e: BlockchainEvent| e@),
        }
    }
}

impl NanoBlockchain {
    /// A chain that holds only `genesis`, on its main chain.
    pub fn new(genesis: Block) -> (r: NanoBlockchain)
        ensures
            r@.wf(),
            r@.records == map![genesis.hash => ChainInfo { head: genesis, on_main_chain: true, main_chain_successor: None }],
            r@.main == seq![genesis.hash],
            r@.events.len() == 0,
    {
        let mut records: HashMap<u64, ChainInfo> = HashMap::new();
        records.insert(genesis.hash, ChainInfo { head: genesis, on_main_chain: true, main_chain_successor: None });
        let mut main: Vec<u64> = Vec::new();
        main.push(genesis.hash);
        let r = NanoBlockchain { records, main, events: Vec::new() };
        proof {
            assert(r@.records =~= map![genesis.hash => ChainInfo { head: genesis, on_main_chain: true, main_chain_successor: None }]);
            assert(r@.main =~= seq![genesis.hash]);
            assert(r@.main_link(0));
        }
        r
    }

    pub fn head_hash(&self) -> (r: u64)
        requires
            self@.wf(),
        ensures
            r == self@.head_hash(),
    {
        self.main[self.main.len() - 1]
    }

    /// The head block.
    pub fn head(&self) -> (r: Block)
        requires
            self@.wf(),
        ensures
            r == self@.head(),
    {
        let h = self.head_hash();
        proof {
            assert(self@.main_link(self@.main.len() - 1));
        }
        match self.records.get(&h) {
            Some(info) => info.head,
            None => {
                proof {
                    assert(false);
                }
                Block::new(0, 0, 0, 0)
            },
        }
    }

    /// The height of the head block.
    pub fn block_number(&self) -> (r: u32)
        requires
            self@.wf(),
        ensures
            r == self@.head().block_number,
    {
        self.head().block_number
    }

    /// The record of the block with hash `hash`, if it is known.
    pub fn get_chain_info(&self, hash: u64) -> (r: Option<ChainInfo>)
        ensures
            r == (if self@.records.contains_key(hash) {
                Some(self@.records[hash])
            } else {
                None::<ChainInfo>
            }),
    {
        match self.records.get(&hash) {
            Some(info) => Some(*info),
            None => None,
        }
    }

    /// Classifies `block` against the main chain; `prev_info` is the record
    /// of its parent.
    pub fn order_chains(&self, block: &Block, prev_info: &ChainInfo) -> (r: ChainOrdering)
        requires
            self@.wf(),
            self@.records.contains_key(block.parent_hash),
            *prev_info == self@.records[block.parent_hash],
        ensures
            r == self@.ordering(*block),
    {
        if block.parent_hash == self.head_hash() {
            ChainOrdering::Extend
        } else if prev_info.on_main_chain {
            let head = self.head();
            if block.block_number > head.block_number || (block.block_number == head.block_number
                && block.view_number > head.view_number) {
                ChainOrdering::Better
            } else {
                ChainOrdering::Inferior
            }
        } else {
            ChainOrdering::Unknown
        }
    }

    fn push_event(&mut self, e: BlockchainEvent)
        ensures
            final(self)@ == (ChainView { events: old(self)@.events.push(e@), ..old(self)@ }),
    {
        self.events.push(e);
        proof {
            assert(self.events@.map_values(|e: BlockchainEvent| e@) =~= old(self).events@.map_values(
                |e: BlockchainEvent| e@,
            ).push(e@));
        }
    }

    /// Hands out the events emitted so far and forgets them.
    pub fn take_events(&mut self) -> (r: Vec<BlockchainEvent>)
        ensures
            r@.map_values(|e: BlockchainEvent| e@) == old(self)@.events,
            final(self)@ == (ChainView { events: Seq::empty(), ..old(self)@ }),
    {
        let mut r: Vec<BlockchainEvent> = Vec::new();
        std::mem::swap(&mut r, &mut self.events);
        proof {
            assert(self@.events =~= Seq::<ChainEvent>::empty());
        }
        r
    }

    fn extend(&mut self, block: Block, prev_info: ChainInfo) -> (r: Result<PushResult, PushError>)
        requires
            old(self)@.wf(),
            old(self)@.records.contains_key(block.parent_hash),
            prev_info == old(self)@.records[block.parent_hash],
        ensures
            (final(self)@, r) == old(self)@.extend(block),
    {
        if block.validity == Validity::BadState {
            return Err(PushError::DuplicateTransaction);
        }
        self.records.insert(block.parent_hash, ChainInfo { main_chain_successor: Some(block.hash), ..prev_info });
        self.records.insert(block.hash, ChainInfo { head: block, on_main_chain: true, main_chain_successor: None });
        self.main.push(block.hash);
        self.push_event(BlockchainEvent::Extended(block.hash));
        Ok(PushResult::Extended)
    }

    fn rebranch(&mut self, block: Block, ancestor: ChainInfo) -> (r: Result<PushResult, PushError>)
        requires
            old(self)@.wf(),
            old(self)@.main.len() >= 2,
            old(self)@.records.contains_key(block.parent_hash),
            ancestor == old(self)@.records[block.parent_hash],
        ensures
            (final(self)@, r) == old(self)@.rebranch(block),
    {
        let old_hash = self.head_hash();
        let old_head = self.head();
        if old_head.is_macro() || block.is_macro() {
            return Err(PushError::InvalidFork);
        }
        self.records.insert(old_hash, ChainInfo { head: old_head, on_main_chain: false, main_chain_successor: None });
        self.main.pop();
        if block.validity == Validity::BadState {
            self.records.insert(block.parent_hash, ChainInfo { main_chain_successor: None, ..ancestor });
            proof {
                assert(self.main@ =~= old(self).main@.drop_last());
            }
            return Err(PushError::InvalidFork);
        }
        self.records.insert(block.parent_hash, ChainInfo { main_chain_successor: Some(block.hash), ..ancestor });
        self.records.insert(block.hash, ChainInfo { head: block, on_main_chain: true, main_chain_successor: None });
        self.main.push(block.hash);
        proof {
            assert(self.main@ =~= old(self).main@.drop_last().push(block.hash));
        }
        let mut reverted: Vec<Block> = Vec::new();
        reverted.push(old_head);
        let mut adopted: Vec<Block> = Vec::new();
        adopted.push(block);
        proof {
            assert(reverted@ =~= seq![old_head]);
            assert(adopted@ =~= seq![block]);
        }
        self.push_event(BlockchainEvent::Rebranched(reverted, adopted));
        Ok(PushResult::Rebranched)
    }

    /// Pushes `block` into the chain: known blocks are reported as such,
    /// orphans and blocks failing a check are refused without any change, an
    /// inferior block is ignored, and otherwise the block extends the main
    /// chain, replaces its head, or is stored as a fork.
    pub fn push(&mut self, block: Block) -> (r: Result<PushResult, PushError>)
        requires
            old(self)@.wf(),
        ensures
            final(self)@.wf(),
            (final(self)@, r) == old(self)@.push(block),
    {
        proof {
            lemma_push_wf(self@, block);
        }
        if self.records.contains_key(&block.hash) {
            return Ok(PushResult::Known);
        }
        let prev_info = match self.records.get(&block.parent_hash) {
            Some(info) => *info,
            None => {
                return Err(PushError::Orphan);
            },
        };
        let chain_order = self.order_chains(&block, &prev_info);
        if chain_order == ChainOrdering::Inferior {
            return Ok(PushResult::Ignored);
        }
        match block.validity {
            Validity::BadHeader => {
                return Err(PushError::InvalidHeader);
            },
            Validity::BadJustification => {
                return Err(PushError::InvalidJustification);
            },
            _ => {},
        }
        if prev_info.head.block_number == u32::MAX || block.block_number != prev_info.head.block_number + 1 {
            return Err(PushError::InvalidSuccessor);
        }
        match chain_order {
            ChainOrdering::Extend => self.extend(block, prev_info),
            ChainOrdering::Better => {
                proof {
                    let m = self@;
                    let k = prev_info.head.block_number - m.base();
                    assert(m.main_link(m.main.len() - 1));
                    assert(m.main_link(k));
                }
                self.rebranch(block, prev_info)
            },
            _ => {
                self.records.insert(block.hash, ChainInfo { head: block, on_main_chain: false, main_chain_successor: None });
                Ok(PushResult::Forked)
            },
        }
    }

    /// The blocks from `start_hash` backwards through parent links, at most
    /// `count` of them.
    pub fn get_blocks_backward(&self, start_hash: u64, count: u32) -> (r: Vec<Block>)
        ensures
            r@ == blocks_backward(self@.records, start_hash, count as nat),
    {
        let mut blocks: Vec<Block> = Vec::new();
        let mut hash = start_hash;
        let mut left = count;
        while left > 0
            invariant
                blocks@ + blocks_backward(self@.records, hash, left as nat) == blocks_backward(
                    self@.records,
                    start_hash,
                    count as nat,
                ),
            decreases left,
        {
            match self.records.get(&hash) {
                Some(info) => {
                    let ghost before = blocks@;
                    blocks.push(info.head);
                    let ghost rest = blocks_backward(self@.records, info.head.parent_hash, (left - 1) as nat);
                    proof {
                        assert(before + (seq![info.head] + rest) =~= blocks@ + rest);
                    }
                    hash = info.head.parent_hash;
                    left = left - 1;
                },
                None => {
                    proof {
                        assert(blocks@ + Seq::<Block>::empty() =~= blocks@);
                    }
                    return blocks;
                },
            }
        }
        proof {
            assert(blocks@ + Seq::<Block>::empty() =~= blocks@);
        }
        blocks
    }
}

} // verus!
