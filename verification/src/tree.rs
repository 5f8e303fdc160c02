//! The tree of known blocks: who was built on whom, how fresh a branch is, and what is left of the
//! tree when a level has to make room.
use vstd::prelude::*;

use crate::block::BlockHash;

verus! {

/// What the monitor keeps of a block.
#[derive(Clone, Copy, Debug, PartialEq, Eq)]
pub struct BlockEntry {
    pub hash: BlockHash,
    pub number: u32,
    pub parent: BlockHash,
    /// The place of the block in the order of imports: later ones are fresher.
    pub freshness: u32,
}

/// Whether all entries are of different blocks.
pub open spec fn distinct(s: Seq<BlockEntry>) -> bool {
    forall|i: int, j: int| 0 <= i < j < s.len() ==> s[i].hash != s[j].hash
}

/// Where all entries are of different blocks, entries of one block are one.
pub(crate) proof fn lemma_same_entry(s: Seq<BlockEntry>, i: int, j: int)
    requires
        distinct(s),
        0 <= i < s.len(),
        0 <= j < s.len(),
        s[i].hash == s[j].hash,
    ensures
        i == j,
{
    if i < j {
        assert(s[i].hash != s[j].hash);
    } else if j < i {
        assert(s[j].hash != s[i].hash);
    }
}

/// Whether there is an entry of the block with the given hash.
pub open spec fn tracks(s: Seq<BlockEntry>, hash: BlockHash) -> bool {
    exists|i: int| 0 <= i < s.len() && (#[trigger] s[i]).hash == hash
}

/// With an entry of one more block, all entries are of different blocks still.
pub(crate) proof fn lemma_distinct_push(s: Seq<BlockEntry>, entry: BlockEntry)
    requires
        distinct(s),
        !tracks(s, entry.hash),
    ensures
        distinct(s.push(entry)),
{
    let t = s.push(entry);
    assert forall|a: int, b: int| 0 <= a < b < t.len() implies t[a].hash != t[b].hash by {
        assert(t[a] == s[a]);
        if b < s.len() {
            assert(t[b] == s[b]);
        }
    }
}

/// Whether `child` was built on `parent`.
pub open spec fn built_on(child: BlockEntry, parent: BlockEntry) -> bool {
    child.parent == parent.hash && child.number == parent.number + 1
}

/// Whether entry `i` has its parent among the entries.
pub open spec fn has_parent(s: Seq<BlockEntry>, i: int) -> bool {
    exists|j: int| 0 <= j < s.len() && built_on(s[i], #[trigger] s[j])
}

/// The entry that entry `i` was built on.
pub open spec fn parent(s: Seq<BlockEntry>, i: int) -> int {
    choose|j: int| 0 <= j < s.len() && built_on(s[i], #[trigger] s[j])
}

/// Whether entry `i` is entry `v`, or was built on it directly or not.
pub open spec fn descends(s: Seq<BlockEntry>, i: int, v: int) -> bool
    decreases s[i].number,
{
    i == v || (has_parent(s, i) && descends(s, parent(s, i), v))
}

/// Whether the best block is entry `v` or was built on it.
pub open spec fn carries_best(s: Seq<BlockEntry>, v: int, best: BlockHash) -> bool {
    exists|i: int| 0 <= i < s.len() && (#[trigger] s[i]).hash == best && descends(s, i, v)
}

/// The highest freshness among the first `n` entries that are `v` or were built on it, and -1
/// where there is none.
pub open spec fn freshest_upto(s: Seq<BlockEntry>, v: int, n: int) -> int
    decreases n,
{
    if n <= 0 {
        -1
    } else {
        let rest = freshest_upto(s, v, n - 1);
        if descends(s, n - 1, v) && s[n - 1].freshness > rest {
            s[n - 1].freshness as int
        } else {
            rest
        }
    }
}

/// The freshness of the branch of `v`: the highest among `v` and what was built on it.
pub open spec fn branch_freshness(s: Seq<BlockEntry>, v: int) -> int {
    freshest_upto(s, v, s.len() as int)
}

/// Whether entry `v` is on the given level and may go.
pub open spec fn candidate(s: Seq<BlockEntry>, number: u32, best: BlockHash, v: int) -> bool {
    0 <= v < s.len() && s[v].number == number && !carries_best(s, v, best)
}

/// Whether `v` goes before `w` does: its branch is less fresh, or as fresh and known for longer.
pub open spec fn goes_before(s: Seq<BlockEntry>, v: int, w: int) -> bool {
    branch_freshness(s, v) < branch_freshness(s, w) || (branch_freshness(s, v)
        == branch_freshness(s, w) && v <= w)
}

/// Whether `v` is the first entry of the level to go.
pub open spec fn is_target(s: Seq<BlockEntry>, number: u32, best: BlockHash, v: int) -> bool {
    &&& candidate(s, number, best, v)
    &&& forall|w: int| #[trigger] candidate(s, number, best, w) ==> goes_before(s, v, w)
}

/// Whether any entry of the level may go.
pub open spec fn has_target(s: Seq<BlockEntry>, number: u32, best: BlockHash) -> bool {
    exists|v: int| #[trigger] is_target(s, number, best, v)
}

/// The first entry of the level to go.
pub open spec fn target(s: Seq<BlockEntry>, number: u32, best: BlockHash) -> int {
    choose|v: int| #[trigger] is_target(s, number, best, v)
}

/// The first `n` entries without `v` and without what was built on it.
pub open spec fn pruned_upto(s: Seq<BlockEntry>, v: int, n: int) -> Seq<BlockEntry>
    decreases n,
{
    if n <= 0 {
        Seq::empty()
    } else if descends(s, n - 1, v) {
        pruned_upto(s, v, n - 1)
    } else {
        pruned_upto(s, v, n - 1).push(s[n - 1])
    }
}

/// The entries without `v` and without what was built on it.
pub open spec fn pruned(s: Seq<BlockEntry>, v: int) -> Seq<BlockEntry> {
    pruned_upto(s, v, s.len() as int)
}

/// The hashes of those of the first `n` entries that are `v` or were built on it.
pub open spec fn dropped_upto(s: Seq<BlockEntry>, v: int, n: int) -> Seq<BlockHash>
    decreases n,
{
    if n <= 0 {
        Seq::empty()
    } else if descends(s, n - 1, v) {
        dropped_upto(s, v, n - 1).push(s[n - 1].hash)
    } else {
        dropped_upto(s, v, n - 1)
    }
}

/// How many entries are on the given level.
pub open spec fn level_len(s: Seq<BlockEntry>, number: u32) -> nat
    decreases s.len(),
{
    if s.len() == 0 {
        0
    } else {
        level_len(s.drop_last(), number) + if s.last().number == number {
            1nat
        } else {
            0nat
        }
    }
}

/// Whether `e` is one of the first `n` entries, and neither `v` nor built on it.
pub open spec fn left_from(s: Seq<BlockEntry>, v: int, n: int, e: BlockEntry) -> bool {
    exists|i: int| 0 <= i < n && !descends(s, i, v) && #[trigger] s[i] == e
}

/// Every entry that pruning leaves was there and does not descend from `v`; every such entry is
/// left; and the entries left are of different blocks if the entries before were.
pub proof fn lemma_pruned_upto(s: Seq<BlockEntry>, v: int, n: int)
    requires
        0 <= n <= s.len(),
    ensures
        pruned_upto(s, v, n).len() + dropped_upto(s, v, n).len() == n,
        forall|k: int|
            0 <= k < pruned_upto(s, v, n).len() ==> left_from(
                s,
                v,
                n,
                #[trigger] pruned_upto(s, v, n)[k],
            ),
        forall|i: int|
            0 <= i < n && !descends(s, i, v) ==> pruned_upto(s, v, n).contains(#[trigger] s[i]),
        distinct(s) ==> distinct(pruned_upto(s, v, n)),
        forall|i: int| 0 <= i < n && descends(s, i, v) ==> pruned_upto(s, v, n).len() < n,
    decreases n,
{
    if n > 0 {
        lemma_pruned_upto(s, v, n - 1);
        let rest = pruned_upto(s, v, n - 1);
        let all = pruned_upto(s, v, n);
        if !descends(s, n - 1, v) {
            assert(all == rest.push(s[n - 1]));
            assert(all[all.len() - 1] == s[n - 1]);
            assert forall|i: int| 0 <= i < n && !descends(s, i, v) implies all.contains(
                #[trigger] s[i],
            ) by {
                if i < n - 1 {
                    assert(rest.contains(s[i]));
                    let k = choose|k: int| 0 <= k < rest.len() && rest[k] == s[i];
                    assert(all[k] == s[i]);
                }
            }
            assert forall|k: int| 0 <= k < all.len() implies left_from(
                s,
                v,
                n,
                #[trigger] all[k],
            ) by {
                if k < rest.len() {
                    assert(all[k] == rest[k]);
                    assert(left_from(s, v, n - 1, rest[k]));
                } else {
                    assert(s[n - 1] == all[k]);
                }
            }
            if distinct(s) {
                assert(!tracks(rest, s[n - 1].hash)) by {
                    if tracks(rest, s[n - 1].hash) {
                        let k = choose|k: int|
                            0 <= k < rest.len() && (#[trigger] rest[k]).hash == s[n - 1].hash;
                        assert(left_from(s, v, n - 1, rest[k]));
                        let i = choose|i: int|
                            0 <= i < n - 1 && !descends(s, i, v) && #[trigger] s[i] == rest[k];
                        lemma_same_entry(s, i, n - 1);
                    }
                }
                lemma_distinct_push(rest, s[n - 1]);
            }
        } else {
            assert forall|k: int| 0 <= k < all.len() implies left_from(
                s,
                v,
                n,
                #[trigger] all[k],
            ) by {
                assert(left_from(s, v, n - 1, rest[k]));
            }
        }
    }
}

/// The entries once the level has room for one more block: while it has not, the first entry to go
/// goes with what was built on it, as long as there is one.
pub open spec fn enforced(
    s: Seq<BlockEntry>,
    number: u32,
    limit: usize,
    best: BlockHash,
) -> Seq<BlockEntry>
    decreases s.len(),
{
    if level_len(s, number) < limit || !has_target(s, number, best) {
        s
    } else {
        proof {
            lemma_pruned_upto(s, target(s, number, best), s.len() as int);
            assert(is_target(s, number, best, target(s, number, best)));
            assert(descends(s, target(s, number, best), target(s, number, best)));
        }
        enforced(pruned(s, target(s, number, best)), number, limit, best)
    }
}

/// The hashes of the blocks that make room, in the order in which they go.
pub open spec fn evicted(
    s: Seq<BlockEntry>,
    number: u32,
    limit: usize,
    best: BlockHash,
) -> Seq<BlockHash>
    decreases s.len(),
{
    if level_len(s, number) < limit || !has_target(s, number, best) {
        Seq::empty()
    } else {
        proof {
            lemma_pruned_upto(s, target(s, number, best), s.len() as int);
            assert(is_target(s, number, best, target(s, number, best)));
            assert(descends(s, target(s, number, best), target(s, number, best)));
        }
        dropped_upto(s, target(s, number, best), s.len() as int) + evicted(
            pruned(s, target(s, number, best)),
            number,
            limit,
            best,
        )
    }
}

/// The entries with one of a block that has just been imported. A block that was there already
/// only becomes as fresh as the new entry.
pub open spec fn recorded(s: Seq<BlockEntry>, entry: BlockEntry) -> Seq<BlockEntry> {
    if tracks(s, entry.hash) {
        s.map_values(
            |e: BlockEntry|
                if e.hash == entry.hash {
                    BlockEntry { freshness: entry.freshness, ..e }
                } else {
                    e
                },
        )
    } else {
        s.push(entry)
    }
}

/// A parent is unique where all entries are of different blocks.
pub(crate) proof fn lemma_parent(s: Seq<BlockEntry>, i: int, j: int)
    requires
        distinct(s),
        0 <= j < s.len(),
        built_on(s[i], s[j]),
    ensures
        has_parent(s, i),
        parent(s, i) == j,
{
    let p = parent(s, i);
    assert(0 <= p < s.len() && built_on(s[i], s[p]));
    lemma_same_entry(s, p, j);
}

/// What was built on a block has no lower number.
pub(crate) proof fn lemma_descends_number(s: Seq<BlockEntry>, i: int, v: int)
    requires
        descends(s, i, v),
    ensures
        s[v].number <= s[i].number,
        i == v || s[v].number < s[i].number,
    decreases s[i].number,
{
    if i != v {
        lemma_descends_number(s, parent(s, i), v);
    }
}

/// What was built on a block that was built on `c` was built on `c`.
pub(crate) proof fn lemma_descends_trans(s: Seq<BlockEntry>, a: int, b: int, c: int)
    requires
        descends(s, a, b),
        descends(s, b, c),
    ensures
        descends(s, a, c),
    decreases s[a].number,
{
    if a != b {
        lemma_descends_trans(s, parent(s, a), b, c);
    }
}

/// A block was built on no two blocks of one level.
pub(crate) proof fn lemma_one_ancestor_per_level(s: Seq<BlockEntry>, b: int, v: int, w: int)
    requires
        descends(s, b, v),
        descends(s, b, w),
        s[v].number == s[w].number,
    ensures
        v == w,
    decreases s[b].number,
{
    lemma_descends_number(s, b, v);
    lemma_descends_number(s, b, w);
    if b != v && b != w {
        lemma_one_ancestor_per_level(s, parent(s, b), v, w);
    }
}

/// Where an entry that pruning leaves was before.
pub(crate) proof fn lemma_left(s: Seq<BlockEntry>, v: int, k: int) -> (i: int)
    requires
        0 <= k < pruned(s, v).len(),
    ensures
        0 <= i < s.len(),
        !descends(s, i, v),
        s[i] == pruned(s, v)[k],
{
    lemma_pruned_upto(s, v, s.len() as int);
    assert(left_from(s, v, s.len() as int, pruned(s, v)[k]));
    choose|i: int| 0 <= i < s.len() && !descends(s, i, v) && #[trigger] s[i] == pruned(s, v)[k]
}

/// Where an entry that does not descend from `v` is after pruning.
pub(crate) proof fn lemma_stays(s: Seq<BlockEntry>, v: int, i: int) -> (k: int)
    requires
        0 <= i < s.len(),
        !descends(s, i, v),
    ensures
        0 <= k < pruned(s, v).len(),
        s[i] == pruned(s, v)[k],
{
    lemma_pruned_upto(s, v, s.len() as int);
    assert(pruned(s, v).contains(s[i]));
    choose|k: int| 0 <= k < pruned(s, v).len() && pruned(s, v)[k] == s[i]
}

/// Pruning does not change who was built on whom among the entries that it leaves.
pub(crate) proof fn lemma_pruned_descends(s: Seq<BlockEntry>, v: int, i: int, w: int, k: int, x: int)
    requires
        distinct(s),
        0 <= i < s.len(),
        0 <= w < s.len(),
        0 <= k < pruned(s, v).len(),
        0 <= x < pruned(s, v).len(),
        pruned(s, v)[k] == s[i],
        pruned(s, v)[x] == s[w],
    ensures
        descends(pruned(s, v), k, x) == descends(s, i, w),
    decreases s[i].number,
{
    let p = pruned(s, v);
    lemma_pruned_upto(s, v, s.len() as int);
    assert(distinct(p));
    assert((i == w) == (k == x)) by {
        if i == w {
            lemma_same_entry(p, k, x);
        }
        if k == x {
            lemma_same_entry(s, i, w);
        }
    }
    if i != w {
        if has_parent(s, i) {
            let j = parent(s, i);
            let i0 = lemma_left(s, v, k);
            lemma_same_entry(s, i0, i);
            assert(!descends(s, j, v));
            let y = lemma_stays(s, v, j);
            lemma_parent(p, k, y);
            lemma_pruned_descends(s, v, j, w, y, x);
        } else if has_parent(p, k) {
            let y = parent(p, k);
            let j = lemma_left(s, v, y);
            assert(built_on(s[i], s[j]));
        }
    }
}

/// The first entry to go is one.
pub(crate) proof fn lemma_target(s: Seq<BlockEntry>, number: u32, best: BlockHash, v: int)
    requires
        is_target(s, number, best, v),
    ensures
        has_target(s, number, best),
        target(s, number, best) == v,
{
    let t = target(s, number, best);
    assert(is_target(s, number, best, t));
    assert(goes_before(s, v, t) && goes_before(s, t, v));
}

/// Among the first `n` entries, one goes first if any may go.
proof fn lemma_first_upto(s: Seq<BlockEntry>, number: u32, best: BlockHash, n: int) -> (v: int)
    requires
        exists|w: int| w < n && #[trigger] candidate(s, number, best, w),
    ensures
        candidate(s, number, best, v),
        forall|w: int| w < n && #[trigger] candidate(s, number, best, w) ==> goes_before(s, v, w),
    decreases n,
{
    if exists|w: int| w < n - 1 && #[trigger] candidate(s, number, best, w) {
        let v = lemma_first_upto(s, number, best, n - 1);
        if candidate(s, number, best, n - 1) && !goes_before(s, v, n - 1) {
            n - 1
        } else {
            v
        }
    } else {
        n - 1
    }
}

/// If any entry of the level may go, one goes first.
pub(crate) proof fn lemma_target_exists(s: Seq<BlockEntry>, number: u32, best: BlockHash, w: int)
    requires
        candidate(s, number, best, w),
    ensures
        has_target(s, number, best),
{
    let v = lemma_first_upto(s, number, best, s.len() as int);
    assert(is_target(s, number, best, v));
}

/// A level with two blocks has two different entries.
pub(crate) proof fn lemma_two_on_level(s: Seq<BlockEntry>, number: u32) -> (r: (int, int))
    requires
        level_len(s, number) >= 2,
    ensures
        0 <= r.0 < r.1 < s.len(),
        s[r.0].number == number,
        s[r.1].number == number,
    decreases s.len(),
{
    let n = s.len() - 1;
    if s.last().number != number {
        lemma_two_on_level(s.drop_last(), number)
    } else {
        (lemma_one_on_level(s.drop_last(), number), n)
    }
}

/// A level with a block has an entry.
proof fn lemma_one_on_level(s: Seq<BlockEntry>, number: u32) -> (r: int)
    requires
        level_len(s, number) >= 1,
    ensures
        0 <= r < s.len(),
        s[r].number == number,
    decreases s.len(),
{
    if s.last().number != number {
        lemma_one_on_level(s.drop_last(), number)
    } else {
        s.len() - 1
    }
}

/// A level has no more blocks than there are entries.
pub(crate) proof fn lemma_level_len_bound(s: Seq<BlockEntry>, number: u32)
    ensures
        level_len(s, number) <= s.len(),
    decreases s.len(),
{
    if s.len() > 0 {
        lemma_level_len_bound(s.drop_last(), number);
    }
}

} // verus!
