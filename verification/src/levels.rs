//! Bounding how many blocks may share a level of the block tree.
//!
//! A level holds the blocks of one number. When a block is about to be imported on a full level,
//! blocks of that level make room for it, each together with everything that was built on it. The
//! block whose branch was extended the longest ago goes first, and no block goes that the best
//! block is, or was built on.
use vstd::prelude::*;

use crate::block::BlockHash;
use crate::tree::{
    branch_freshness, built_on, candidate, carries_best, descends, distinct, dropped_upto, enforced,
    evicted, freshest_upto, goes_before, has_parent, has_target, is_target, lemma_distinct_push,
    lemma_left, lemma_parent, lemma_pruned_upto, lemma_same_entry, lemma_target, level_len, pruned,
    pruned_upto, recorded, target, tracks, BlockEntry,
};

verus! {

/// A block of the chain at the time the monitor starts.
#[derive(Clone, Copy, Debug, PartialEq, Eq)]
pub struct KnownBlock {
    pub hash: BlockHash,
    pub number: u32,
    pub parent: BlockHash,
}

/// The entries of the blocks of the chain at the time the monitor starts. When they were imported
/// is not known any more: a block's number stands for its freshness.
pub open spec fn restored(known: Seq<KnownBlock>) -> Seq<BlockEntry>
    decreases known.len(),
{
    if known.len() == 0 {
        Seq::empty()
    } else {
        let rest = restored(known.drop_last());
        let last = known.last();
        if tracks(rest, last.hash) {
            rest
        } else {
            rest.push(
                BlockEntry {
                    hash: last.hash,
                    number: last.number,
                    parent: last.parent,
                    freshness: last.number,
                },
            )
        }
    }
}

/// The counter to start with: the lowest one that is above every number.
pub open spec fn restored_counter(known: Seq<KnownBlock>) -> int
    decreases known.len(),
{
    if known.len() == 0 {
        0
    } else {
        let rest = restored_counter(known.drop_last());
        if known.last().number < rest {
            rest
        } else {
            known.last().number + 1
        }
    }
}

/// Keeps the blocks of the chain by level and bounds how many there are on each.
#[derive(Debug, PartialEq, Eq)]
pub struct LevelMonitor {
    /// How many blocks there may be on a level.
    pub level_limit: usize,
    /// The freshness of the block that is imported next.
    pub import_counter: u32,
    /// The blocks, in the order in which the monitor came to know them.
    pub blocks: Vec<BlockEntry>,
}

impl LevelMonitor {
    /// Whether the entries are of different blocks and all less fresh than the next import.
    pub open spec fn wf(&self) -> bool {
        &&& distinct(self.blocks@)
        &&& forall|i: int|
            0 <= i < self.blocks@.len() ==> (#[trigger] self.blocks@[i]).freshness
                < self.import_counter
    }

    /// The entry of the block with the given hash.
    fn index_of(&self, hash: &BlockHash) -> (r: Option<usize>)
        ensures
            r matches Some(i) ==> i < self.blocks@.len() && self.blocks@[i as int].hash == *hash,
            r is None ==> !tracks(self.blocks@, *hash),
    {
        let mut i: usize = 0;
        while i < self.blocks.len()
            invariant
                i <= self.blocks@.len(),
                forall|j: int| 0 <= j < i ==> (#[trigger] self.blocks@[j]).hash != *hash,
            decreases self.blocks@.len() - i,
        {
            if self.blocks[i].hash.same(hash) {
                return Some(i);
            }
            i = i + 1;
        }
        None
    }

    /// The entry that entry `i` was built on.
    fn parent_index(&self, i: usize) -> (r: Option<usize>)
        requires
            i < self.blocks@.len(),
        ensures
            r matches Some(j) ==> j < self.blocks@.len() && built_on(
                self.blocks@[i as int],
                self.blocks@[j as int],
            ),
            r is None ==> !has_parent(self.blocks@, i as int),
    {
        let child = self.blocks[i];
        if child.number == 0 {
            return None;
        }
        let mut j: usize = 0;
        while j < self.blocks.len()
            invariant
                i < self.blocks@.len(),
                child == self.blocks@[i as int],
                child.number > 0,
                j <= self.blocks@.len(),
                forall|k: int| 0 <= k < j ==> !built_on(child, #[trigger] self.blocks@[k]),
            decreases self.blocks@.len() - j,
        {
            if self.blocks[j].number == child.number - 1 && child.parent.same(&self.blocks[j].hash) {
                return Some(j);
            }
            j = j + 1;
        }
        None
    }

    /// Whether entry `i` is entry `v` or was built on it.
    fn is_descendant(&self, i: usize, v: usize) -> (r: bool)
        requires
            distinct(self.blocks@),
            i < self.blocks@.len(),
            v < self.blocks@.len(),
        ensures
            r == descends(self.blocks@, i as int, v as int),
    {
        let mut cur: usize = i;
        loop
            invariant
                distinct(self.blocks@),
                cur < self.blocks@.len(),
                descends(self.blocks@, cur as int, v as int) == descends(
                    self.blocks@,
                    i as int,
                    v as int,
                ),
            decreases self.blocks@[cur as int].number,
        {
            if cur == v {
                return true;
            }
            match self.parent_index(cur) {
                Some(j) => {
                    proof {
                        lemma_parent(self.blocks@, cur as int, j as int);
                    }
                    cur = j;
                },
                None => {
                    return false;
                },
            }
        }
    }

    /// Whether the best block is entry `v` or was built on it.
    fn is_best_branch(&self, v: usize, best: &BlockHash) -> (r: bool)
        requires
            distinct(self.blocks@),
            v < self.blocks@.len(),
        ensures
            r == carries_best(self.blocks@, v as int, *best),
    {
        match self.index_of(best) {
            Some(b) => {
                let r = self.is_descendant(b, v);
                proof {
                    let s = self.blocks@;
                    if carries_best(s, v as int, *best) {
                        let i = choose|i: int|
                            0 <= i < s.len() && (#[trigger] s[i]).hash == *best && descends(
                                s,
                                i,
                                v as int,
                            );
                        lemma_same_entry(s, i, b as int);
                    }
                    assert(s[b as int].hash == *best);
                }
                r
            },
            None => false,
        }
    }

    /// The freshness of the branch of entry `v`.
    fn freshness_of_branch(&self, v: usize) -> (r: i64)
        requires
            distinct(self.blocks@),
            v < self.blocks@.len(),
        ensures
            r == branch_freshness(self.blocks@, v as int),
    {
        let mut r: i64 = -1;
        let mut i: usize = 0;
        while i < self.blocks.len()
            invariant
                distinct(self.blocks@),
                v < self.blocks@.len(),
                i <= self.blocks@.len(),
                r == freshest_upto(self.blocks@, v as int, i as int),
            decreases self.blocks@.len() - i,
        {
            let freshness: i64 = self.blocks[i].freshness as i64;
            if freshness > r && self.is_descendant(i, v) {
                r = freshness;
            }
            i = i + 1;
        }
        r
    }

    /// How many blocks there are on a level.
    pub fn level_size(&self, number: u32) -> (r: usize)
        ensures
            r == level_len(self.blocks@, number),
    {
        let mut r: usize = 0;
        let mut i: usize = 0;
        while i < self.blocks.len()
            invariant
                i <= self.blocks@.len(),
                r <= i,
                r == level_len(self.blocks@.take(i as int), number),
            decreases self.blocks@.len() - i,
        {
            assert(self.blocks@.take(i + 1).drop_last() == self.blocks@.take(i as int));
            if self.blocks[i].number == number {
                r = r + 1;
            }
            i = i + 1;
        }
        assert(self.blocks@.take(i as int) == self.blocks@);
        r
    }

    /// The first entry of the level to go.
    fn find_target(&self, number: u32, best: &BlockHash) -> (r: Option<usize>)
        requires
            distinct(self.blocks@),
        ensures
            r matches Some(v) ==> is_target(self.blocks@, number, *best, v as int),
            r is None ==> !has_target(self.blocks@, number, *best),
    {
        let mut found: Option<(usize, i64)> = None;
        let mut i: usize = 0;
        while i < self.blocks.len()
            invariant
                distinct(self.blocks@),
                i <= self.blocks@.len(),
                found is None ==> forall|w: int|
                    w < i ==> !#[trigger] candidate(self.blocks@, number, *best, w),
                found matches Some(p) ==> {
                    &&& p.0 < i
                    &&& candidate(self.blocks@, number, *best, p.0 as int)
                    &&& p.1 == branch_freshness(self.blocks@, p.0 as int)
                    &&& forall|w: int|
                        w < i && #[trigger] candidate(self.blocks@, number, *best, w)
                            ==> goes_before(self.blocks@, p.0 as int, w)
                },
            decreases self.blocks@.len() - i,
        {
            if self.blocks[i].number == number && !self.is_best_branch(i, best) {
                let freshness: i64 = self.freshness_of_branch(i);
                let sooner = match found {
                    Some((_, least)) => freshness < least,
                    None => true,
                };
                if sooner {
                    found = Some((i, freshness));
                }
            }
            i = i + 1;
        }
        match found {
            Some((v, _)) => Some(v),
            None => {
                proof {
                    if has_target(self.blocks@, number, *best) {
                        let v = target(self.blocks@, number, *best);
                        assert(is_target(self.blocks@, number, *best, v));
                        assert(candidate(self.blocks@, number, *best, v));
                    }
                }
                None
            },
        }
    }

    /// Forgets entry `v` and what was built on it, and gives back their hashes.
    fn prune(&mut self, v: usize) -> (r: Vec<BlockHash>)
        requires
            old(self).wf(),
            v < old(self).blocks@.len(),
        ensures
            final(self).wf(),
            final(self).blocks@ == pruned(old(self).blocks@, v as int),
            r@ == dropped_upto(old(self).blocks@, v as int, old(self).blocks@.len() as int),
            final(self).level_limit == old(self).level_limit,
            final(self).import_counter == old(self).import_counter,
    {
        let ghost s = self.blocks@;
        let mut kept: Vec<BlockEntry> = Vec::new();
        let mut gone: Vec<BlockHash> = Vec::new();
        let mut i: usize = 0;
        while i < self.blocks.len()
            invariant
                self.blocks@ == s,
                distinct(s),
                v < s.len(),
                i <= s.len(),
                kept@ == pruned_upto(s, v as int, i as int),
                gone@ == dropped_upto(s, v as int, i as int),
            decreases s.len() - i,
        {
            if self.is_descendant(i, v) {
                gone.push(self.blocks[i].hash);
            } else {
                kept.push(self.blocks[i]);
            }
            i = i + 1;
        }
        proof {
            lemma_pruned_upto(s, v as int, s.len() as int);
            assert forall|k: int| 0 <= k < kept@.len() implies (#[trigger] kept@[k]).freshness
                < self.import_counter by {
                let j = lemma_left(s, v as int, k);
                assert(s[j] == kept@[k]);
            }
        }
        self.blocks = kept;
        gone
    }

    /// Makes room on a level for one more block, and gives back the hashes of the blocks that had
    /// to go.
    pub fn enforce_limit(&mut self, number: u32, best: BlockHash) -> (r: Vec<BlockHash>)
        requires
            old(self).wf(),
        ensures
            final(self).wf(),
            final(self).blocks@ == enforced(
                old(self).blocks@,
                number,
                old(self).level_limit,
                best,
            ),
            r@ == evicted(old(self).blocks@, number, old(self).level_limit, best),
            final(self).level_limit == old(self).level_limit,
            final(self).import_counter == old(self).import_counter,
    {
        let ghost s = self.blocks@;
        let ghost limit = self.level_limit;
        let mut removed: Vec<BlockHash> = Vec::new();
        loop
            invariant
                self.wf(),
                s == old(self).blocks@,
                limit == old(self).level_limit,
                self.level_limit == limit,
                self.import_counter == old(self).import_counter,
                enforced(self.blocks@, number, limit, best) == enforced(s, number, limit, best),
                removed@ + evicted(self.blocks@, number, limit, best) == evicted(
                    s,
                    number,
                    limit,
                    best,
                ),
            decreases self.blocks@.len(),
        {
            let ghost cur = self.blocks@;
            if self.level_size(number) < self.level_limit {
                assert(removed@ + Seq::<BlockHash>::empty() == removed@);
                return removed;
            }
            match self.find_target(number, &best) {
                Some(v) => {
                    proof {
                        lemma_target(cur, number, best, v as int);
                        lemma_pruned_upto(cur, v as int, cur.len() as int);
                        assert(descends(cur, v as int, v as int));
                    }
                    let ghost before = removed@;
                    let mut gone = self.prune(v);
                    let ghost dropped = gone@;
                    removed.append(&mut gone);
                    proof {
                        assert(removed@ == before + dropped);
                        assert(removed@ + evicted(self.blocks@, number, limit, best) == before + (
                        dropped + evicted(self.blocks@, number, limit, best)));
                    }
                },
                None => {
                    assert(removed@ + Seq::<BlockHash>::empty() == removed@);
                    return removed;
                },
            }
        }
    }

    /// Takes note of a block that has been imported: it is the freshest one.
    pub fn block_imported(&mut self, number: u32, hash: BlockHash, parent: BlockHash)
        requires
            old(self).wf(),
            old(self).import_counter < u32::MAX,
        ensures
            final(self).wf(),
            final(self).blocks@ == recorded(
                old(self).blocks@,
                (BlockEntry { hash, number, parent, freshness: old(self).import_counter }),
            ),
            final(self).import_counter == old(self).import_counter + 1,
            final(self).level_limit == old(self).level_limit,
    {
        let ghost s = self.blocks@;
        let freshness: u32 = self.import_counter;
        let entry = BlockEntry { hash, number, parent, freshness };
        match self.index_of(&hash) {
            Some(i) => {
                let old_entry = self.blocks[i];
                self.blocks.set(i, BlockEntry { freshness, ..old_entry });
                proof {
                    assert(s[i as int].hash == hash);
                    assert forall|k: int| 0 <= k < s.len() && (#[trigger] s[k]).hash == hash implies k
                        == i by {
                        lemma_same_entry(s, k, i as int);
                    }
                    assert(self.blocks@ == recorded(s, entry));
                }
            },
            None => {
                self.blocks.push(entry);
                proof {
                    lemma_distinct_push(s, entry);
                }
            },
        }
        self.import_counter = freshness + 1;
    }

    /// Imports a block: makes room for it on its level and takes note of it. Gives back the hashes
    /// of the blocks that had to go.
    pub fn import(
        &mut self,
        number: u32,
        hash: BlockHash,
        parent: BlockHash,
        best: BlockHash,
    ) -> (r: Vec<BlockHash>)
        requires
            old(self).wf(),
            old(self).import_counter < u32::MAX,
        ensures
            final(self).wf(),
            final(self).blocks@ == recorded(
                enforced(old(self).blocks@, number, old(self).level_limit, best),
                (BlockEntry { hash, number, parent, freshness: old(self).import_counter }),
            ),
            r@ == evicted(old(self).blocks@, number, old(self).level_limit, best),
            final(self).import_counter == old(self).import_counter + 1,
            final(self).level_limit == old(self).level_limit,
    {
        let removed = self.enforce_limit(number, best);
        self.block_imported(number, hash, parent);
        removed
    }

    /// The freshness of a block, if the block is known.
    pub fn freshness(&self, hash: &BlockHash) -> (r: Option<u32>)
        requires
            self.wf(),
        ensures
            r is Some <==> tracks(self.blocks@, *hash),
            forall|i: int|
                0 <= i < self.blocks@.len() && (#[trigger] self.blocks@[i]).hash == *hash ==> r
                    == Some(self.blocks@[i].freshness),
    {
        match self.index_of(hash) {
            Some(i) => {
                proof {
                    let s = self.blocks@;
                    assert(s[i as int].hash == *hash);
                    assert forall|k: int| 0 <= k < s.len() && (#[trigger] s[k]).hash == *hash implies k
                        == i by {
                        lemma_same_entry(s, k, i as int);
                    }
                }
                Some(self.blocks[i].freshness)
            },
            None => None,
        }
    }

    /// A monitor of the blocks that the chain has at the time it starts.
    pub fn restore(level_limit: usize, known: &Vec<KnownBlock>) -> (r: LevelMonitor)
        requires
            forall|i: int| 0 <= i < known@.len() ==> (#[trigger] known@[i]).number < u32::MAX,
        ensures
            r.wf(),
            r.level_limit == level_limit,
            r.blocks@ == restored(known@),
            r.import_counter == restored_counter(known@),
    {
        let mut monitor = LevelMonitor { level_limit, import_counter: 0, blocks: Vec::new() };
        let mut i: usize = 0;
        while i < known.len()
            invariant
                forall|i: int| 0 <= i < known@.len() ==> (#[trigger] known@[i]).number < u32::MAX,
                i <= known@.len(),
                monitor.wf(),
                monitor.level_limit == level_limit,
                monitor.blocks@ == restored(known@.take(i as int)),
                monitor.import_counter == restored_counter(known@.take(i as int)),
            decreases known@.len() - i,
        {
            let block = known[i];
            let ghost s = monitor.blocks@;
            proof {
                assert(known@.take(i + 1).drop_last() == known@.take(i as int));
                assert(known@.take(i + 1).last() == known@[i as int]);
            }
            if block.number >= monitor.import_counter {
                monitor.import_counter = block.number + 1;
            }
            match monitor.index_of(&block.hash) {
                Some(j) => {
                    assert(s[j as int].hash == block.hash);
                },
                None => {
                    let entry = BlockEntry {
                        hash: block.hash,
                        number: block.number,
                        parent: block.parent,
                        freshness: block.number,
                    };
                    monitor.blocks.push(entry);
                    proof {
                        lemma_distinct_push(s, entry);
                    }
                },
            }
            i = i + 1;
        }
        assert(known@.take(i as int) == known@);
        monitor
    }
}

/// Whether a hash is among the given ones.
fn contains_hash(hashes: &Vec<BlockHash>, hash: &BlockHash) -> (r: bool)
    ensures
        r == hashes@.contains(*hash),
{
    let mut i: usize = 0;
    while i < hashes.len()
        invariant
            i <= hashes@.len(),
            forall|j: int| 0 <= j < i ==> hashes@[j] != *hash,
        decreases hashes@.len() - i,
    {
        if hashes[i].same(hash) {
            return true;
        }
        i = i + 1;
    }
    false
}

/// Whether numbers never rise along the entries.
pub open spec fn falling(s: Seq<BlockEntry>) -> bool {
    forall|i: int, j: int| 0 <= i < j < s.len() ==> s[i].number >= s[j].number
}

/// Puts an entry where it keeps the numbers from rising.
fn insert_falling(sorted: &mut Vec<BlockEntry>, entry: BlockEntry)
    requires
        falling(old(sorted)@),
    ensures
        falling(final(sorted)@),
        exists|at: int|
            0 <= at <= old(sorted)@.len() && final(sorted)@ == #[trigger] old(sorted)@.insert(
                at,
                entry,
            ),
{
    let ghost s = sorted@;
    let mut at: usize = 0;
    while at < sorted.len() && sorted[at].number >= entry.number
        invariant
            sorted@ == s,
            at <= s.len(),
            forall|i: int| 0 <= i < at ==> (#[trigger] s[i]).number >= entry.number,
        decreases s.len() - at,
    {
        at = at + 1;
    }
    sorted.insert(at, entry);
    proof {
        let t = sorted@;
        assert(t == s.insert(at as int, entry));
        assert forall|i: int, j: int| 0 <= i < j < t.len() implies t[i].number >= t[j].number by {
            let a = if i < at { i } else { i - 1 };
            let b = if j < at { j } else { j - 1 };
            if i != at {
                assert(t[i] == s[a]);
            }
            if j != at {
                assert(t[j] == s[b]);
            }
            if i == at && b > at {
                assert(s[at as int].number >= s[b].number);
            }
        }
    }
}

/// The hashes of those of the entries that are to go, in an order in which they can be taken out of
/// the tree one by one: what was built on a block goes before it.
pub fn removal_order(blocks: &Vec<BlockEntry>, gone: &Vec<BlockHash>) -> (r: Vec<BlockHash>)
    requires
        distinct(blocks@),
    ensures
        forall|hash: BlockHash| #[trigger]
            r@.contains(hash) <==> tracks(blocks@, hash) && gone@.contains(hash),
        r@.no_duplicates(),
        forall|i: int, j: int, a: int, b: int|
            0 <= i < j < r@.len() && 0 <= a < blocks@.len() && 0 <= b < blocks@.len()
                && #[trigger] blocks@[a].hash == #[trigger] r@[i] && #[trigger] blocks@[b].hash
                == #[trigger] r@[j] ==> blocks@[a].number >= blocks@[b].number,
{
    let ghost s = blocks@;
    let mut sorted: Vec<BlockEntry> = Vec::new();
    let mut i: usize = 0;
    while i < blocks.len()
        invariant
            blocks@ == s,
            distinct(s),
            i <= s.len(),
            falling(sorted@),
            distinct(sorted@),
            forall|k: int|
                0 <= k < sorted@.len() ==> s.take(i as int).contains(#[trigger] sorted@[k])
                    && gone@.contains(sorted@[k].hash),
            forall|k: int|
                0 <= k < i && gone@.contains((#[trigger] s[k]).hash) ==> sorted@.contains(s[k]),
        decreases s.len() - i,
    {
        let entry = blocks[i];
        let ghost before = sorted@;
        if contains_hash(gone, &entry.hash) {
            insert_falling(&mut sorted, entry);
            proof {
                let at = choose|at: int|
                    0 <= at <= before.len() && sorted@ == #[trigger] before.insert(at, entry);
                lemma_inserted(s, i as int, before, at);
                assert forall|k: int| 0 <= k < sorted@.len() implies gone@.contains(
                    (#[trigger] sorted@[k]).hash,
                ) by {
                    if k < at {
                        assert(sorted@[k] == before[k]);
                    } else if k > at {
                        assert(sorted@[k] == before[k - 1]);
                    }
                }
            }
        } else {
            proof {
                assert forall|k: int| 0 <= k < sorted@.len() implies s.take(i + 1).contains(
                    #[trigger] sorted@[k],
                ) by {
                    lemma_take_longer(s, i as int, sorted@[k]);
                }
            }
        }
        i = i + 1;
    }
    assert(s.take(i as int) == s);
    let mut hashes: Vec<BlockHash> = Vec::new();
    let mut n: usize = 0;
    while n < sorted.len()
        invariant
            n <= sorted@.len(),
            hashes@.len() == n,
            forall|k: int| 0 <= k < n ==> #[trigger] hashes@[k] == sorted@[k].hash,
        decreases sorted@.len() - n,
    {
        hashes.push(sorted[n].hash);
        n = n + 1;
    }
    proof {
        let r = hashes@;
        assert forall|hash: BlockHash| #[trigger] r.contains(hash) <==> tracks(s, hash)
            && gone@.contains(hash) by {
            if r.contains(hash) {
                let k = choose|k: int| 0 <= k < r.len() && r[k] == hash;
                assert(s.contains(sorted@[k]));
                let a = choose|a: int| 0 <= a < s.len() && s[a] == sorted@[k];
                assert(s[a].hash == hash);
            }
            if tracks(s, hash) && gone@.contains(hash) {
                let a = choose|a: int| 0 <= a < s.len() && (#[trigger] s[a]).hash == hash;
                assert(sorted@.contains(s[a]));
                let k = choose|k: int| 0 <= k < sorted@.len() && sorted@[k] == s[a];
                assert(r[k] == hash);
            }
        }
        assert forall|x: int, y: int| 0 <= x < r.len() && 0 <= y < r.len() && x != y implies r[x]
            != r[y] by {
            if r[x] == r[y] {
                lemma_same_entry(sorted@, x, y);
            }
        }
        assert forall|x: int, y: int, a: int, b: int|
            0 <= x < y < r.len() && 0 <= a < s.len() && 0 <= b < s.len() && #[trigger] s[a].hash
                == #[trigger] r[x] && #[trigger] s[b].hash == #[trigger] r[y] implies s[a].number
            >= s[b].number by {
            lemma_entry_of(s, sorted@[x], a);
            lemma_entry_of(s, sorted@[y], b);
            assert(sorted@[x].number >= sorted@[y].number);
        }
    }
    hashes
}

/// What is among the first entries is among more of them.
proof fn lemma_take_longer(s: Seq<BlockEntry>, n: int, e: BlockEntry)
    requires
        0 <= n < s.len(),
        s.take(n).contains(e),
    ensures
        s.take(n + 1).contains(e),
{
    let k = choose|k: int| 0 <= k < s.take(n).len() && s.take(n)[k] == e;
    assert(s.take(n + 1)[k] == e);
}

/// An entry is the one with its hash.
proof fn lemma_entry_of(s: Seq<BlockEntry>, e: BlockEntry, a: int)
    requires
        distinct(s),
        s.contains(e),
        0 <= a < s.len(),
        s[a].hash == e.hash,
    ensures
        s[a] == e,
{
    let k = choose|k: int| 0 <= k < s.len() && s[k] == e;
    lemma_same_entry(s, k, a);
}

/// With the next entry put in, entries that were among the first `n` are among the first `n + 1`,
/// of different blocks still, and none is lost.
proof fn lemma_inserted(s: Seq<BlockEntry>, n: int, before: Seq<BlockEntry>, at: int)
    requires
        distinct(s),
        distinct(before),
        0 <= n < s.len(),
        0 <= at <= before.len(),
        forall|k: int| 0 <= k < before.len() ==> s.take(n).contains(#[trigger] before[k]),
    ensures
        distinct(before.insert(at, s[n])),
        before.insert(at, s[n]).contains(s[n]),
        forall|e: BlockEntry| before.contains(e) ==> #[trigger] before.insert(at, s[n]).contains(e),
        forall|k: int|
            0 <= k <= before.len() ==> s.take(n + 1).contains(
                #[trigger] before.insert(at, s[n])[k],
            ),
{
    let t = before.insert(at, s[n]);
    assert(t[at] == s[n]);
    assert forall|e: BlockEntry| before.contains(e) implies #[trigger] t.contains(e) by {
        let k = choose|k: int| 0 <= k < before.len() && before[k] == e;
        assert(t[if k < at { k } else { k + 1 }] == e);
    }
    assert forall|k: int| 0 <= k < before.len() implies (#[trigger] before[k]).hash != s[n].hash by {
        let i = choose|i: int| 0 <= i < s.take(n).len() && s.take(n)[i] == before[k];
        if before[k].hash == s[n].hash {
            lemma_same_entry(s, i, n);
        }
    }
    assert forall|k: int| 0 <= k <= before.len() implies s.take(n + 1).contains(#[trigger] t[k]) by {
        if k == at {
            assert(s.take(n + 1)[n] == s[n]);
        } else {
            let x = if k < at { k } else { k - 1 };
            assert(t[k] == before[x]);
            lemma_take_longer(s, n, before[x]);
        }
    }
    assert forall|i: int, j: int| 0 <= i < j < t.len() implies t[i].hash != t[j].hash by {
        let a = if i < at { i } else { i - 1 };
        let b = if j < at { j } else { j - 1 };
        if i == at {
            assert(t[j] == before[b]);
        } else if j == at {
            assert(t[i] == before[a]);
        } else {
            assert(t[i] == before[a] && t[j] == before[b]);
            assert(before[a].hash != before[b].hash);
        }
    }
}

} // verus!
