use std::collections::HashSet;
use vstd::prelude::*;

use crate::block::Block;

verus! {

broadcast use vstd::std_specs::hash::group_hash_axioms;

/// Heights never decrease along `s`.
pub open spec fn sorted_by_height(s: Seq<Block>) -> bool {
    forall|i: int, j: int|
        0 <= i <= j < s.len() ==> #[trigger] s[i].block_number <= #[trigger] s[j].block_number
}

/// Where a block of height `n` goes: after every block no higher than it.
pub open spec fn insertion_point(s: Seq<Block>, n: u32) -> int
    decreases s.len(),
{
    if s.len() == 0 {
        0
    } else if s.last().block_number <= n {
        s.len() as int
    } else {
        insertion_point(s.drop_last(), n)
    }
}

/// The end of the run of blocks, from position `i` on, that share the height
/// of the first block.
pub open spec fn bucket_end(s: Seq<Block>, i: int) -> int
    decreases s.len() - i,
{
    if 0 <= i < s.len() && s[i].block_number == s[0].block_number {
        bucket_end(s, i + 1)
    } else {
        i
    }
}

/// `b`'s parent is invalid, or is the hash of a block of `s` for which this
/// holds with one step less.
pub open spec fn poisoned(s: Seq<Block>, invalid: Set<u64>, b: Block, depth: nat) -> bool
    decreases depth,
{
    invalid.contains(b.parent_hash) || (depth > 0 && exists|j: int|
        0 <= j < s.len() && #[trigger] s[j].hash == b.parent_hash && poisoned(
            s,
            invalid,
            s[j],
            (depth - 1) as nat,
        ))
}

/// `b` depends, through parent links among the blocks of `s`, on an invalid hash.
pub open spec fn descends_from_invalid(s: Seq<Block>, invalid: Set<u64>, b: Block) -> bool {
    exists|depth: nat| poisoned(s, invalid, b, depth)
}

/// What is left of `s` once every block depending on an invalid hash is removed.
pub open spec fn evicted(s: Seq<Block>, invalid: Set<u64>) -> Seq<Block> {
    s.filter(|b: Block| !descends_from_invalid(s, invalid, b))
}

/// The number of positions below `n` whose block hash is outside `set`.
spec fn fresh(s: Seq<Block>, set: Set<u64>, n: int) -> nat
    decreases n,
{
    if n <= 0 {
        0
    } else {
        fresh(s, set, n - 1) + if set.contains(s[n - 1].hash) {
            0nat
        } else {
            1nat
        }
    }
}

proof fn lemma_fresh_insert(s: Seq<Block>, set: Set<u64>, w: int, n: int)
    requires
        0 <= w < n <= s.len(),
        !set.contains(s[w].hash),
    ensures
        fresh(s, set.insert(s[w].hash), n) < fresh(s, set, n),
    decreases n,
{
    if n - 1 > w {
        lemma_fresh_insert(s, set, w, n - 1);
    } else {
        lemma_fresh_insert_le(s, set, s[w].hash, n - 1);
    }
}

proof fn lemma_fresh_insert_le(s: Seq<Block>, set: Set<u64>, h: u64, n: int)
    requires
        n <= s.len(),
    ensures
        fresh(s, set.insert(h), n) <= fresh(s, set, n),
    decreases n,
{
    if n > 0 {
        lemma_fresh_insert_le(s, set, h, n - 1);
    }
}

/// Once every block of `s` whose parent is in `closed` has its own hash in
/// `closed`, every block depending on `invalid` has its parent in `closed`.
proof fn lemma_closed_catches(s: Seq<Block>, invalid: Set<u64>, closed: Set<u64>, b: Block, d: nat)
    requires
        invalid.subset_of(closed),
        forall|j: int|
            0 <= j < s.len() && closed.contains(#[trigger] s[j].parent_hash) ==> closed.contains(
                s[j].hash,
            ),
        poisoned(s, invalid, b, d),
    ensures
        closed.contains(b.parent_hash),
    decreases d,
{
    if !invalid.contains(b.parent_hash) {
        let j = choose|j: int|
            0 <= j < s.len() && #[trigger] s[j].hash == b.parent_hash && poisoned(
                s,
                invalid,
                s[j],
                (d - 1) as nat,
            );
        lemma_closed_catches(s, invalid, closed, s[j], (d - 1) as nat);
    }
}

/// Filters agree when their predicates agree on every element.
proof fn lemma_filter_agree(s: Seq<Block>, p: spec_fn(Block) -> bool, q: spec_fn(Block) -> bool)
    requires
        forall|j: int| 0 <= j < s.len() ==> p(#[trigger] s[j]) == q(s[j]),
    ensures
        s.filter(p) == s.filter(q),
    decreases s.len(),
{
    reveal(Seq::filter);
    if s.len() > 0 {
        assert forall|j: int| 0 <= j < s.drop_last().len() implies p(#[trigger] s.drop_last()[j])
            == q(s.drop_last()[j]) by {
            assert(s.drop_last()[j] == s[j]);
        }
        lemma_filter_agree(s.drop_last(), p, q);
        assert(p(s[s.len() - 1]) == q(s[s.len() - 1]));
    }
}

/// The blocks of a sequence of groups, one group after the other.
pub open spec fn flatten(groups: Seq<(u32, Seq<Block>)>) -> Seq<Block>
    decreases groups.len(),
{
    if groups.len() == 0 {
        Seq::empty()
    } else {
        flatten(groups.drop_last()) + groups.last().1
    }
}

/// The mathematical form of a list of groups.
pub open spec fn groups_view(groups: Seq<(u32, Vec<Block>)>) -> Seq<(u32, Seq<Block>)> {
    groups.map_values(|g: (u32, Vec<Block>)| (g.0, g.1@))
}

/// `groups` lists buckets: each is non-empty, holds only blocks of its
/// height, and heights strictly increase from one to the next.
pub open spec fn are_buckets(groups: Seq<(u32, Seq<Block>)>) -> bool {
    &&& forall|a: int| 0 <= a < groups.len() ==> (#[trigger] groups[a]).1.len() > 0
    &&& forall|a: int, j: int|
        0 <= a < groups.len() && 0 <= j < groups[a].1.len() ==> (#[trigger] groups[a].1[j]).block_number
            == groups[a].0
    &&& forall|a: int, c: int| 0 <= a < c < groups.len() ==> #[trigger] groups[a].0 < #[trigger] groups[c].0
}

/// Blocks waiting for their parent, kept in order of height; blocks of one
/// height stay in the order they arrived.
pub struct BlockBuffer {
    blocks: Vec<Block>,
}

impl View for BlockBuffer {
    type V = Seq<Block>;

    closed spec fn view(&self) -> Seq<Block> {
        self.blocks@
    }
}

impl BlockBuffer {
    pub open spec fn wf(&self) -> bool {
        sorted_by_height(self@)
    }

    pub fn new() -> (r: BlockBuffer)
        ensures
            r@ == Seq::<Block>::empty(),
            r.wf(),
    {
        BlockBuffer { blocks: Vec::new() }
    }

    /// The number of buffered blocks, over all heights.
    pub fn len(&self) -> (r: usize)
        ensures
            r == self@.len(),
    {
        self.blocks.len()
    }

    pub fn is_empty(&self) -> (r: bool)
        ensures
            r == (self@.len() == 0),
    {
        self.blocks.len() == 0
    }

    /// Adds `block` behind the blocks of its height.
    pub fn insert(&mut self, block: Block)
        requires
            old(self).wf(),
        ensures
            final(self).wf(),
            final(self)@ == old(self)@.insert(insertion_point(old(self)@, block.block_number), block),
    {
        let ghost s = self@;
        let n = block.block_number;
        let mut i: usize = self.blocks.len();
        proof {
            assert(s.subrange(0, i as int) =~= s);
        }
        while i > 0 && self.blocks[i - 1].block_number > n
            invariant
                self@ == s,
                i <= s.len(),
                insertion_point(s, n) == insertion_point(s.subrange(0, i as int), n),
                forall|j: int| i <= j < s.len() ==> #[trigger] s[j].block_number > n,
            decreases i,
        {
            proof {
                assert(s.subrange(0, i as int).drop_last() =~= s.subrange(0, i - 1));
            }
            i = i - 1;
        }
        proof {
            if i > 0 {
                assert(s.subrange(0, i as int).last() == s[i - 1]);
            }
        }
        self.blocks.insert(i, block);
        proof {
            let t = self@;
            assert forall|a: int, c: int| 0 <= a <= c < t.len() implies #[trigger] t[a].block_number
                <= #[trigger] t[c].block_number by {
                if a < i && c > i {
                    assert(t[a] == s[a] && t[c] == s[c - 1]);
                } else if a < i && c == i {
                    assert(s[a].block_number <= s[i - 1].block_number);
                } else if a == i && c > i {
                    assert(t[c] == s[c - 1]);
                }
            }
        }
    }

    /// Removes and returns the lowest bucket when its height is at most
    /// `max_height`; returns nothing and leaves the buffer as it is otherwise.
    pub fn pop_ready(&mut self, max_height: u32) -> (r: Vec<Block>)
        requires
            old(self).wf(),
        ensures
            final(self).wf(),
            ({
                let s = old(self)@;
                if s.len() > 0 && s[0].block_number <= max_height {
                    let k = bucket_end(s, 0);
                    &&& 0 < k <= s.len()
                    &&& r@ == s.subrange(0, k)
                    &&& final(self)@ == s.subrange(k, s.len() as int)
                    &&& forall|j: int| 0 <= j < k ==> #[trigger] s[j].block_number == s[0].block_number
                    &&& forall|j: int| k <= j < s.len() ==> #[trigger] s[j].block_number > s[0].block_number
                } else {
                    &&& r@.len() == 0
                    &&& final(self)@ == s
                }
            }),
    {
        let ghost s = self@;
        if self.blocks.len() == 0 || self.blocks[0].block_number > max_height {
            return Vec::new();
        }
        let h = self.blocks[0].block_number;
        let mut k: usize = 1;
        while k < self.blocks.len() && self.blocks[k].block_number == h
            invariant
                self@ == s,
                s.len() > 0,
                h == s[0].block_number,
                1 <= k <= s.len(),
                bucket_end(s, k as int) == bucket_end(s, 0),
                forall|j: int| 0 <= j < k ==> #[trigger] s[j].block_number == h,
            decreases s.len() - k,
        {
            k = k + 1;
        }
        proof {
            assert forall|j: int| k <= j < s.len() implies #[trigger] s[j].block_number > h by {
                assert(s[k as int].block_number <= s[j].block_number);
                assert(s[0].block_number <= s[k as int].block_number);
            }
        }
        let mut rest = self.blocks.split_off(k);
        std::mem::swap(&mut rest, &mut self.blocks);
        rest
    }

    /// Removes every block that depends, directly or through other buffered
    /// blocks, on a hash of `invalid`.
    pub fn evict_descendants_of(&mut self, invalid: HashSet<u64>)
        requires
            old(self).wf(),
        ensures
            final(self).wf(),
            final(self)@ == evicted(old(self)@, invalid@),
    {
        let ghost s = self@;
        let ghost inv0 = invalid@;
        let mut invalid = invalid;
        let mut changed = true;
        while changed
            invariant
                self@ == s,
                inv0.subset_of(invalid@),
                forall|h: u64|
                    #[trigger] invalid@.contains(h) ==> inv0.contains(h) || exists|j: int|
                        0 <= j < s.len() && #[trigger] s[j].hash == h && descends_from_invalid(
                            s,
                            inv0,
                            s[j],
                        ),
                !changed ==> forall|j: int|
                    0 <= j < s.len() && invalid@.contains(#[trigger] s[j].parent_hash)
                        ==> invalid@.contains(s[j].hash),
            decreases fresh(s, invalid@, s.len() as int) + if changed {
                1int
            } else {
                0int
            },
        {
            changed = false;
            let ghost start = invalid@;
            let mut i: usize = 0;
            while i < self.blocks.len()
                invariant
                    self@ == s,
                    i <= s.len(),
                    start.subset_of(invalid@),
                    inv0.subset_of(invalid@),
                    forall|h: u64|
                        #[trigger] invalid@.contains(h) ==> inv0.contains(h) || exists|j: int|
                            0 <= j < s.len() && #[trigger] s[j].hash == h && descends_from_invalid(
                                s,
                                inv0,
                                s[j],
                            ),
                    !changed ==> invalid@ == start,
                    !changed ==> forall|j: int|
                        0 <= j < i && invalid@.contains(#[trigger] s[j].parent_hash)
                            ==> invalid@.contains(s[j].hash),
                    fresh(s, invalid@, s.len() as int) <= fresh(s, start, s.len() as int),
                    changed ==> fresh(s, invalid@, s.len() as int) < fresh(s, start, s.len() as int),
                decreases s.len() - i,
            {
                let b = self.blocks[i];
                if invalid.contains(&b.parent_hash) && !invalid.contains(&b.hash) {
                    proof {
                        if inv0.contains(b.parent_hash) {
                            assert(poisoned(s, inv0, b, 0));
                        } else {
                            let j = choose|j: int|
                                0 <= j < s.len() && #[trigger] s[j].hash == b.parent_hash
                                    && descends_from_invalid(s, inv0, s[j]);
                            let d = choose|d: nat| poisoned(s, inv0, s[j], d);
                            assert(poisoned(s, inv0, b, d + 1));
                        }
                        assert(descends_from_invalid(s, inv0, s[i as int]));
                        lemma_fresh_insert(s, invalid@, i as int, s.len() as int);
                    }
                    invalid.insert(b.hash);
                    changed = true;
                }
                i = i + 1;
            }
        }
        let ghost closed = invalid@;
        let mut kept: Vec<Block> = Vec::new();
        let mut i: usize = 0;
        while i < self.blocks.len()
            invariant
                self@ == s,
                i <= s.len(),
                sorted_by_height(s),
                sorted_by_height(kept@),
                kept@.len() > 0 ==> kept@.last().block_number <= s[i - 1].block_number,
                kept@ == s.subrange(0, i as int).filter(
                    |b: Block| !closed.contains(b.parent_hash),
                ),
                invalid@ == closed,
            decreases s.len() - i,
        {
            let b = self.blocks[i];
            proof {
                reveal(Seq::filter);
                assert(s.subrange(0, i + 1).drop_last() =~= s.subrange(0, i as int));
            }
            if !invalid.contains(&b.parent_hash) {
                kept.push(b);
            }
            i = i + 1;
        }
        proof {
            assert(s.subrange(0, s.len() as int) =~= s);
            assert forall|j: int| 0 <= j < s.len() implies (|b: Block| !closed.contains(b.parent_hash))(
                #[trigger] s[j],
            ) == (|b: Block| !descends_from_invalid(s, inv0, b))(s[j]) by {
                let b = s[j];
                if closed.contains(b.parent_hash) {
                    if inv0.contains(b.parent_hash) {
                        assert(poisoned(s, inv0, b, 0));
                    } else {
                        let w = choose|w: int|
                            0 <= w < s.len() && #[trigger] s[w].hash == b.parent_hash
                                && descends_from_invalid(s, inv0, s[w]);
                        let d = choose|d: nat| poisoned(s, inv0, s[w], d);
                        assert(poisoned(s, inv0, b, d + 1));
                    }
                } else if descends_from_invalid(s, inv0, b) {
                    let d = choose|d: nat| poisoned(s, inv0, b, d);
                    lemma_closed_catches(s, inv0, closed, b, d);
                }
            }
            lemma_filter_agree(
                s,
                |b: Block| !closed.contains(b.parent_hash),
                |b: Block| !descends_from_invalid(s, inv0, b),
            );
        }
        self.blocks = kept;
    }

    /// The buffered blocks grouped by height, lowest height first.
    pub fn buckets(&self) -> (r: Vec<(u32, Vec<Block>)>)
        requires
            self.wf(),
        ensures
            flatten(groups_view(r@)) == self@,
            are_buckets(groups_view(r@)),
    {
        let ghost s = self@;
        let mut out: Vec<(u32, Vec<Block>)> = Vec::new();
        let mut cur: Vec<Block> = Vec::new();
        let mut cur_h: u32 = 0;
        let mut i: usize = 0;
        while i < self.blocks.len()
            invariant
                s == self@,
                sorted_by_height(s),
                i <= s.len(),
                flatten(groups_view(out@)) + cur@ == s.subrange(0, i as int),
                are_buckets(groups_view(out@)),
                i == 0 ==> out@.len() == 0 && cur@.len() == 0,
                i > 0 ==> cur@.len() > 0 && cur_h == s[i - 1].block_number,
                forall|j: int| 0 <= j < cur@.len() ==> (#[trigger] cur@[j]).block_number == cur_h,
                forall|a: int| 0 <= a < out@.len() ==> (#[trigger] out@[a]).0 < cur_h,
            decreases s.len() - i,
        {
            let b = self.blocks[i];
            if i > 0 && b.block_number != cur_h {
                proof {
                    assert(s[i - 1].block_number <= s[i as int].block_number);
                }
                let ghost before = groups_view(out@);
                let ghost group = cur@;
                let mut fresh_group: Vec<Block> = Vec::new();
                std::mem::swap(&mut fresh_group, &mut cur);
                out.push((cur_h, fresh_group));
                proof {
                    assert(groups_view(out@) =~= before.push((cur_h, group)));
                    assert(groups_view(out@).drop_last() =~= before);
                }
                cur_h = b.block_number;
            } else if i == 0 {
                cur_h = b.block_number;
            }
            cur.push(b);
            proof {
                assert(s.subrange(0, i + 1) =~= s.subrange(0, i as int).push(b));
            }
            i = i + 1;
        }
        if cur.len() > 0 {
            let ghost before = groups_view(out@);
            let ghost group = cur@;
            out.push((cur_h, cur));
            proof {
                assert(groups_view(out@) =~= before.push((cur_h, group)));
                assert(groups_view(out@).drop_last() =~= before);
            }
        }
        proof {
            assert(s.subrange(0, i as int) =~= s);
        }
        out
    }
}

} // verus!
