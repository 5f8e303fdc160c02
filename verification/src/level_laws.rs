//! What holds of the monitor of levels, whatever blocks there are.
use vstd::prelude::*;

use crate::block::BlockHash;
use crate::levels::{restored, restored_counter, KnownBlock, LevelMonitor};
use crate::tree::{
    branch_freshness, built_on, candidate, carries_best, descends, distinct, dropped_upto, enforced,
    evicted, freshest_upto, goes_before, has_target, is_target, lemma_descends_number, lemma_descends_trans, lemma_distinct_push,
    lemma_left, lemma_level_len_bound, lemma_one_ancestor_per_level, lemma_parent,
    lemma_pruned_descends, lemma_pruned_upto, lemma_same_entry, lemma_stays, lemma_target_exists,
    lemma_two_on_level, left_from, level_len, parent, pruned, pruned_upto, recorded, target, tracks, BlockEntry,
};

verus! {

/// Pruning the first entry to go leaves fewer entries, which are of different blocks still.
proof fn lemma_step(s: Seq<BlockEntry>, number: u32, best: BlockHash)
    requires
        distinct(s),
        has_target(s, number, best),
    ensures
        is_target(s, number, best, target(s, number, best)),
        pruned(s, target(s, number, best)).len() < s.len(),
        distinct(pruned(s, target(s, number, best))),
{
    let t = target(s, number, best);
    assert(is_target(s, number, best, t));
    assert(descends(s, t, t));
    lemma_pruned_upto(s, t, s.len() as int);
}

/// Where nothing may go, what is left on the level is what the best block is or was built on, which
/// is one block at most.
proof fn lemma_only_best_left(s: Seq<BlockEntry>, number: u32, best: BlockHash)
    requires
        distinct(s),
        !has_target(s, number, best),
    ensures
        level_len(s, number) <= 1,
        forall|i: int|
            0 <= i < s.len() && (#[trigger] s[i]).number == number ==> carries_best(s, i, best),
{
    assert forall|i: int| 0 <= i < s.len() && (#[trigger] s[i]).number == number implies carries_best(
        s,
        i,
        best,
    ) by {
        if candidate(s, number, best, i) {
            lemma_target_exists(s, number, best, i);
        }
    }
    if level_len(s, number) >= 2 {
        let (v, w) = lemma_two_on_level(s, number);
        assert(carries_best(s, v, best) && carries_best(s, w, best));
        let i = choose|i: int| 0 <= i < s.len() && (#[trigger] s[i]).hash == best && descends(s, i, v);
        let j = choose|j: int| 0 <= j < s.len() && (#[trigger] s[j]).hash == best && descends(s, j, w);
        lemma_same_entry(s, i, j);
        lemma_one_ancestor_per_level(s, i, v, w);
    }
}

/// Whether at most one block is on the level, and the best block is it or was built on it.
pub open spec fn only_best_left(s: Seq<BlockEntry>, number: u32, best: BlockHash) -> bool {
    &&& level_len(s, number) <= 1
    &&& forall|i: int|
        0 <= i < s.len() && (#[trigger] s[i]).number == number ==> carries_best(s, i, best)
}

/// Making room succeeds: afterwards the level is below the limit, or nothing is left on it but the
/// one block that the best block is or was built on.
pub proof fn room_is_made(s: Seq<BlockEntry>, number: u32, limit: usize, best: BlockHash)
    requires
        distinct(s),
    ensures
        level_len(enforced(s, number, limit, best), number) < limit || only_best_left(
            enforced(s, number, limit, best),
            number,
            best,
        ),
    decreases s.len(),
{
    if level_len(s, number) < limit {
    } else if has_target(s, number, best) {
        lemma_step(s, number, best);
        room_is_made(pruned(s, target(s, number, best)), number, limit, best);
    } else {
        lemma_only_best_left(s, number, best);
    }
}

/// Pruning takes one block off the level of the entry that it takes: what was built on the entry is
/// on higher levels.
proof fn lemma_pruned_own_level(s: Seq<BlockEntry>, v: int, n: int)
    requires
        0 <= v < s.len(),
        0 <= n <= s.len(),
    ensures
        level_len(s.take(n), s[v].number) == level_len(pruned_upto(s, v, n), s[v].number) + if v
            < n {
            1nat
        } else {
            0nat
        },
    decreases n,
{
    if n > 0 {
        lemma_pruned_own_level(s, v, n - 1);
        assert(s.take(n).drop_last() == s.take(n - 1));
        assert(s.take(n).last() == s[n - 1]);
        if descends(s, n - 1, v) {
            lemma_descends_number(s, n - 1, v);
        } else {
            let rest = pruned_upto(s, v, n - 1);
            assert(rest.push(s[n - 1]).drop_last() == rest);
            assert(n - 1 != v);
        }
    }
}

/// No more blocks of the level go than have to: a full level keeps one block less than the limit
/// says, if the limit leaves room beside the best block's branch.
pub proof fn no_more_go_than_needed(s: Seq<BlockEntry>, number: u32, limit: usize, best: BlockHash)
    requires
        distinct(s),
        limit >= 2,
        level_len(s, number) >= limit,
    ensures
        level_len(enforced(s, number, limit, best), number) == limit - 1,
    decreases s.len(),
{
    if has_target(s, number, best) {
        lemma_step(s, number, best);
        let t = target(s, number, best);
        lemma_pruned_own_level(s, t, s.len() as int);
        assert(s.take(s.len() as int) == s);
        if level_len(pruned(s, t), number) >= limit {
            no_more_go_than_needed(pruned(s, t), number, limit, best);
        } else {
            assert(enforced(pruned(s, t), number, limit, best) == pruned(s, t));
        }
        assert(enforced(s, number, limit, best) == enforced(pruned(s, t), number, limit, best));
    } else {
        lemma_only_best_left(s, number, best);
    }
}

/// A level that is below the limit already loses nothing; so with a limit above the number of
/// blocks no block ever goes.
pub proof fn nothing_goes_below_the_limit(
    s: Seq<BlockEntry>,
    number: u32,
    limit: usize,
    best: BlockHash,
)
    requires
        level_len(s, number) < limit || s.len() < limit,
    ensures
        enforced(s, number, limit, best) == s,
        evicted(s, number, limit, best) == Seq::<BlockHash>::empty(),
{
    lemma_level_len_bound(s, number);
}

/// Making room adds no entry and changes none.
pub proof fn what_is_left_was_there(
    s: Seq<BlockEntry>,
    number: u32,
    limit: usize,
    best: BlockHash,
    k: int,
)
    requires
        distinct(s),
        0 <= k < enforced(s, number, limit, best).len(),
    ensures
        s.contains(enforced(s, number, limit, best)[k]),
        distinct(enforced(s, number, limit, best)),
    decreases s.len(),
{
    if level_len(s, number) < limit || !has_target(s, number, best) {
    } else {
        lemma_step(s, number, best);
        let p = pruned(s, target(s, number, best));
        what_is_left_was_there(p, number, limit, best, k);
        let e = enforced(s, number, limit, best)[k];
        let x = choose|x: int| 0 <= x < p.len() && p[x] == e;
        let i = lemma_left(s, target(s, number, best), x);
        assert(s[i] == e);
    }
}

/// The best block and every block that it was built on stay.
pub proof fn best_branch_stays(
    s: Seq<BlockEntry>,
    number: u32,
    limit: usize,
    best: BlockHash,
    b: int,
    i: int,
)
    requires
        distinct(s),
        0 <= b < s.len(),
        0 <= i < s.len(),
        s[b].hash == best,
        descends(s, b, i),
    ensures
        enforced(s, number, limit, best).contains(s[i]),
    decreases s.len(),
{
    if level_len(s, number) < limit || !has_target(s, number, best) {
    } else {
        lemma_step(s, number, best);
        let t = target(s, number, best);
        assert(!descends(s, b, t)) by {
            if descends(s, b, t) {
                assert(s[b].hash == best);
                assert(carries_best(s, t, best));
            }
        }
        if descends(s, i, t) {
            lemma_descends_trans(s, b, i, t);
        }
        let c = lemma_stays(s, t, b);
        let k = lemma_stays(s, t, i);
        lemma_pruned_descends(s, t, b, i, c, k);
        best_branch_stays(pruned(s, t), number, limit, best, c, k);
    }
}

/// Blocks of lower levels stay.
pub proof fn lower_levels_stay(
    s: Seq<BlockEntry>,
    number: u32,
    limit: usize,
    best: BlockHash,
    i: int,
)
    requires
        distinct(s),
        0 <= i < s.len(),
        s[i].number < number,
    ensures
        enforced(s, number, limit, best).contains(s[i]),
    decreases s.len(),
{
    if level_len(s, number) < limit || !has_target(s, number, best) {
    } else {
        lemma_step(s, number, best);
        let t = target(s, number, best);
        if descends(s, i, t) {
            lemma_descends_number(s, i, t);
        }
        let k = lemma_stays(s, t, i);
        lower_levels_stay(pruned(s, t), number, limit, best, k);
    }
}

/// A block goes with everything that was built on it: no block is left whose parent went.
pub proof fn no_orphans(
    s: Seq<BlockEntry>,
    number: u32,
    limit: usize,
    best: BlockHash,
    child: BlockEntry,
    j: int,
)
    requires
        distinct(s),
        enforced(s, number, limit, best).contains(child),
        0 <= j < s.len(),
        built_on(child, s[j]),
    ensures
        enforced(s, number, limit, best).contains(s[j]),
    decreases s.len(),
{
    if level_len(s, number) < limit || !has_target(s, number, best) {
    } else {
        lemma_step(s, number, best);
        let t = target(s, number, best);
        let p = pruned(s, t);
        let out = enforced(s, number, limit, best);
        let n = choose|n: int| 0 <= n < out.len() && out[n] == child;
        what_is_left_was_there(p, number, limit, best, n);
        let x = choose|x: int| 0 <= x < p.len() && p[x] == child;
        let i = lemma_left(s, t, x);
        lemma_parent(s, i, j);
        assert(!descends(s, j, t));
        let y = lemma_stays(s, t, j);
        no_orphans(p, number, limit, best, child, y);
    }
}

/// What one pruning drops is what descends from the entry.
proof fn lemma_dropped(s: Seq<BlockEntry>, v: int, n: int, hash: BlockHash)
    requires
        0 <= n <= s.len(),
    ensures
        dropped_upto(s, v, n).contains(hash) <==> exists|i: int|
            0 <= i < n && descends(s, i, v) && (#[trigger] s[i]).hash == hash,
    decreases n,
{
    if n > 0 {
        lemma_dropped(s, v, n - 1, hash);
        let rest = dropped_upto(s, v, n - 1);
        let all = dropped_upto(s, v, n);
        if descends(s, n - 1, v) {
            assert(all == rest.push(s[n - 1].hash));
            assert(all[all.len() - 1] == s[n - 1].hash);
            if rest.contains(hash) {
                let k = choose|k: int| 0 <= k < rest.len() && rest[k] == hash;
                assert(all[k] == hash);
            }
            if all.contains(hash) && s[n - 1].hash != hash {
                let k = choose|k: int| 0 <= k < all.len() && all[k] == hash;
                assert(rest[k] == hash);
            }
        }
    }
}

/// The blocks that are said to go are those that were there and are not any more.
pub proof fn evicted_is_what_went(
    s: Seq<BlockEntry>,
    number: u32,
    limit: usize,
    best: BlockHash,
    hash: BlockHash,
)
    requires
        distinct(s),
    ensures
        evicted(s, number, limit, best).contains(hash) <==> tracks(s, hash) && !tracks(
            enforced(s, number, limit, best),
            hash,
        ),
    decreases s.len(),
{
    if level_len(s, number) < limit || !has_target(s, number, best) {
    } else {
        lemma_step(s, number, best);
        let t = target(s, number, best);
        let p = pruned(s, t);
        let first = dropped_upto(s, t, s.len() as int);
        let rest = evicted(p, number, limit, best);
        let out = enforced(s, number, limit, best);
        lemma_dropped(s, t, s.len() as int, hash);
        evicted_is_what_went(p, number, limit, best, hash);
        assert((first + rest).contains(hash) <==> first.contains(hash) || rest.contains(hash)) by {
            if first.contains(hash) {
                let k = choose|k: int| 0 <= k < first.len() && first[k] == hash;
                assert((first + rest)[k] == hash);
            }
            if rest.contains(hash) {
                let k = choose|k: int| 0 <= k < rest.len() && rest[k] == hash;
                assert((first + rest)[first.len() + k] == hash);
            }
        }
        if tracks(out, hash) {
            let n = choose|n: int| 0 <= n < out.len() && (#[trigger] out[n]).hash == hash;
            what_is_left_was_there(p, number, limit, best, n);
            let x = choose|x: int| 0 <= x < p.len() && p[x] == out[n];
            assert(p[x].hash == hash);
        }
        if tracks(p, hash) {
            let x = choose|x: int| 0 <= x < p.len() && (#[trigger] p[x]).hash == hash;
            let i = lemma_left(s, t, x);
            assert(s[i].hash == hash);
            if first.contains(hash) {
                let j = choose|j: int|
                    0 <= j < s.len() && descends(s, j, t) && (#[trigger] s[j]).hash == hash;
                lemma_same_entry(s, i, j);
            }
        } else if tracks(s, hash) {
            let i = choose|i: int| 0 <= i < s.len() && (#[trigger] s[i]).hash == hash;
            if !descends(s, i, t) {
                let k = lemma_stays(s, t, i);
                assert(p[k].hash == hash);
            }
        }
    }
}

/// Entries of the same numbers fill the levels alike.
proof fn lemma_level_len_same(a: Seq<BlockEntry>, b: Seq<BlockEntry>, number: u32)
    requires
        a.len() == b.len(),
        forall|i: int| 0 <= i < a.len() ==> (#[trigger] a[i]).number == b[i].number,
    ensures
        level_len(a, number) == level_len(b, number),
    decreases a.len(),
{
    if a.len() > 0 {
        assert(a[a.len() - 1].number == b[a.len() - 1].number);
        assert forall|i: int| 0 <= i < a.len() - 1 implies (#[trigger] a.drop_last()[i]).number
            == b.drop_last()[i].number by {
            assert(a[i].number == b[i].number);
        }
        lemma_level_len_same(a.drop_last(), b.drop_last(), number);
    }
}

/// After an import there are no more blocks on the level than the limit says, if the limit leaves
/// room beside the best block's branch.
pub proof fn limit_holds_after_import(
    s: Seq<BlockEntry>,
    limit: usize,
    best: BlockHash,
    entry: BlockEntry,
)
    requires
        distinct(s),
        limit >= 2,
    ensures
        level_len(recorded(enforced(s, entry.number, limit, best), entry), entry.number) <= limit,
{
    let e = enforced(s, entry.number, limit, best);
    room_is_made(s, entry.number, limit, best);
    if tracks(e, entry.hash) {
        lemma_level_len_same(recorded(e, entry), e, entry.number);
    } else {
        assert(recorded(e, entry).drop_last() == e);
    }
}

/// Whether no level holds more blocks than the limit says.
pub open spec fn within_limit(s: Seq<BlockEntry>, limit: usize) -> bool {
    forall|number: u32| #[trigger] level_len(s, number) <= limit
}

/// The entries after a run of imports, where the best block may be any at each of them.
pub open spec fn after_imports(
    s: Seq<BlockEntry>,
    limit: usize,
    imports: Seq<(BlockEntry, BlockHash)>,
) -> Seq<BlockEntry>
    decreases imports.len(),
{
    if imports.len() == 0 {
        s
    } else {
        let before = after_imports(s, limit, imports.drop_last());
        let (entry, best) = imports.last();
        recorded(enforced(before, entry.number, limit, best), entry)
    }
}

/// Pruning does not fill a level.
proof fn lemma_pruned_level(s: Seq<BlockEntry>, v: int, n: int, number: u32)
    requires
        0 <= n <= s.len(),
    ensures
        level_len(pruned_upto(s, v, n), number) <= level_len(s.take(n), number),
    decreases n,
{
    if n > 0 {
        lemma_pruned_level(s, v, n - 1, number);
        assert(s.take(n).drop_last() == s.take(n - 1));
        if !descends(s, n - 1, v) {
            let rest = pruned_upto(s, v, n - 1);
            assert(rest.push(s[n - 1]).drop_last() == rest);
        }
    }
}

/// Making room on one level does not fill another.
proof fn lemma_enforced_level(
    s: Seq<BlockEntry>,
    number: u32,
    limit: usize,
    best: BlockHash,
    other: u32,
)
    requires
        distinct(s),
    ensures
        level_len(enforced(s, number, limit, best), other) <= level_len(s, other),
        distinct(enforced(s, number, limit, best)),
    decreases s.len(),
{
    if level_len(s, number) < limit || !has_target(s, number, best) {
    } else {
        lemma_step(s, number, best);
        let t = target(s, number, best);
        lemma_pruned_level(s, t, s.len() as int, other);
        assert(s.take(s.len() as int) == s);
        lemma_enforced_level(pruned(s, t), number, limit, best, other);
    }
}

/// An import fills its own level only, and the entries stay of different blocks.
proof fn lemma_recorded(s: Seq<BlockEntry>, entry: BlockEntry, other: u32)
    requires
        distinct(s),
        other != entry.number,
    ensures
        distinct(recorded(s, entry)),
        level_len(recorded(s, entry), other) == level_len(s, other),
{
    let r = recorded(s, entry);
    if tracks(s, entry.hash) {
        lemma_level_len_same(r, s, other);
        assert forall|a: int, b: int| 0 <= a < b < r.len() implies r[a].hash != r[b].hash by {
            assert(s[a].hash != s[b].hash);
        }
    } else {
        assert(r.drop_last() == s);
        lemma_distinct_push(s, entry);
    }
}

/// Whatever is imported in whatever order, and whichever block is the best one meanwhile, no level
/// ever holds more blocks than the limit says, if none did at the start and the limit leaves room
/// beside the best block's branch.
pub proof fn limit_holds_over_imports(
    s: Seq<BlockEntry>,
    limit: usize,
    imports: Seq<(BlockEntry, BlockHash)>,
)
    requires
        distinct(s),
        within_limit(s, limit),
        limit >= 2,
    ensures
        distinct(after_imports(s, limit, imports)),
        within_limit(after_imports(s, limit, imports), limit),
    decreases imports.len(),
{
    if imports.len() > 0 {
        limit_holds_over_imports(s, limit, imports.drop_last());
        let before = after_imports(s, limit, imports.drop_last());
        let (entry, best) = imports.last();
        let room = enforced(before, entry.number, limit, best);
        let after = after_imports(s, limit, imports);
        let another: u32 = if entry.number == 0 {
            1
        } else {
            0
        };
        lemma_enforced_level(before, entry.number, limit, best, another);
        lemma_recorded(room, entry, another);
        assert forall|number: u32| #[trigger] level_len(after, number) <= limit by {
            if number == entry.number {
                limit_holds_after_import(before, limit, best, entry);
            } else {
                lemma_enforced_level(before, entry.number, limit, best, number);
                lemma_recorded(room, entry, number);
                assert(level_len(before, number) <= limit);
            }
        }
    }
}

/// The block imported last is known, and fresher than every other.
pub proof fn last_import_is_freshest(s: Seq<BlockEntry>, entry: BlockEntry)
    requires
        distinct(s),
        forall|i: int| 0 <= i < s.len() ==> (#[trigger] s[i]).freshness < entry.freshness,
    ensures
        tracks(recorded(s, entry), entry.hash),
        forall|i: int|
            0 <= i < recorded(s, entry).len() ==> if (#[trigger] recorded(s, entry)[i]).hash
                == entry.hash {
                recorded(s, entry)[i].freshness == entry.freshness
            } else {
                recorded(s, entry)[i].freshness < entry.freshness
            },
{
    let r = recorded(s, entry);
    if tracks(s, entry.hash) {
        let k = choose|k: int| 0 <= k < s.len() && (#[trigger] s[k]).hash == entry.hash;
        assert(r[k].hash == entry.hash);
    } else {
        assert(r[s.len() as int].hash == entry.hash);
    }
}

/// An import leaves the other blocks as they are.
pub proof fn import_keeps_the_others(s: Seq<BlockEntry>, entry: BlockEntry, i: int)
    requires
        0 <= i < s.len(),
        s[i].hash != entry.hash,
    ensures
        recorded(s, entry).contains(s[i]),
{
    assert(recorded(s, entry)[i] == s[i]);
}

/// After a restart every block of the chain is known, its number stands for its freshness, and the
/// next import is fresher than all of them.
pub proof fn restart_knows_the_chain(known: Seq<KnownBlock>)
    ensures
        distinct(restored(known)),
        forall|i: int|
            0 <= i < known.len() ==> tracks(restored(known), (#[trigger] known[i]).hash),
        forall|i: int|
            0 <= i < restored(known).len() ==> (#[trigger] restored(known)[i]).freshness
                == restored(known)[i].number && restored(known)[i].freshness < restored_counter(
                known,
            ),
    decreases known.len(),
{
    if known.len() > 0 {
        let shorter = known.drop_last();
        restart_knows_the_chain(shorter);
        let rest = restored(shorter);
        let all = restored(known);
        assert forall|i: int| 0 <= i < known.len() implies tracks(
            all,
            (#[trigger] known[i]).hash,
        ) by {
            if i < shorter.len() {
                assert(shorter[i] == known[i]);
                assert(tracks(rest, shorter[i].hash));
                let k = choose|k: int|
                    0 <= k < rest.len() && (#[trigger] rest[k]).hash == known[i].hash;
                assert(all[k] == rest[k]);
            } else if !tracks(rest, known.last().hash) {
                assert(all[rest.len() as int].hash == known[i].hash);
            }
        }
        assert forall|i: int| 0 <= i < all.len() implies (#[trigger] all[i]).freshness
            == all[i].number && all[i].freshness < restored_counter(known) by {
            if i < rest.len() {
                assert(all[i] == rest[i]);
            }
        }
        if !tracks(rest, known.last().hash) {
            lemma_distinct_push(rest, all[rest.len() as int]);
        }
    }
}

/// A block is known exactly if its hash is among those of the entries, and the entries are of
/// different blocks exactly if no hash comes twice.
pub proof fn entries_go_by_their_hashes(s: Seq<BlockEntry>, hash: BlockHash)
    ensures
        tracks(s, hash) <==> s.map_values(|e: BlockEntry| e.hash).contains(hash),
        distinct(s) <==> s.map_values(|e: BlockEntry| e.hash).no_duplicates(),
{
    let hashes = s.map_values(|e: BlockEntry| e.hash);
    if tracks(s, hash) {
        let i = choose|i: int| 0 <= i < s.len() && (#[trigger] s[i]).hash == hash;
        assert(hashes[i] == hash);
    }
    if hashes.contains(hash) {
        let i = choose|i: int| 0 <= i < hashes.len() && hashes[i] == hash;
        assert(s[i].hash == hash);
    }
    if distinct(s) {
        assert forall|i: int, j: int|
            0 <= i < hashes.len() && 0 <= j < hashes.len() && i != j implies hashes[i]
            != hashes[j] by {
            if hashes[i] == hashes[j] {
                lemma_same_entry(s, i, j);
            }
        }
    }
    if hashes.no_duplicates() {
        assert forall|i: int, j: int| 0 <= i < j < s.len() implies s[i].hash != s[j].hash by {
            assert(hashes[i] != hashes[j]);
        }
    }
}

/// A monitor is in order exactly if no hash comes twice among its entries and the next import is
/// fresher than all of them.
pub proof fn monitor_in_order(monitor: LevelMonitor)
    ensures
        monitor.wf() <==> monitor.blocks@.map_values(|e: BlockEntry| e.hash).no_duplicates()
            && forall|i: int|
            0 <= i < monitor.blocks@.len() ==> monitor.import_counter
                > (#[trigger] monitor.blocks@[i]).freshness,
{
    if monitor.blocks@.len() > 0 {
        entries_go_by_their_hashes(monitor.blocks@, monitor.blocks@[0].hash);
    }
}

/// Whether `path` leads from entry `i` down to entry `v`: from each entry on it to the one of the
/// block that it names as its parent, which has the number below.
pub open spec fn leads_down(s: Seq<BlockEntry>, path: Seq<int>, i: int, v: int) -> bool {
    &&& path.len() > 0
    &&& path[0] == i
    &&& path[path.len() - 1] == v
    &&& forall|a: int| 0 <= a < path.len() ==> 0 <= #[trigger] path[a] < s.len()
    &&& forall|a: int, b: int|
        0 <= a < b < path.len() && b == a + 1 ==> s[#[trigger] path[a]].parent
            == s[#[trigger] path[b]].hash && s[path[a]].number == s[path[b]].number + 1
}

/// What a path leads down to was built on.
proof fn lemma_path_descends(s: Seq<BlockEntry>, path: Seq<int>, i: int, v: int)
    requires
        distinct(s),
        leads_down(s, path, i, v),
    ensures
        descends(s, i, v),
    decreases path.len(),
{
    if path.len() > 1 {
        let rest = path.subrange(1, path.len() as int);
        assert(rest[0] == path[1]);
        assert forall|a: int| 0 <= a < rest.len() implies 0 <= #[trigger] rest[a] < s.len() by {
            assert(rest[a] == path[a + 1]);
        }
        assert forall|a: int, b: int| 0 <= a < b < rest.len() && b == a + 1 implies s[
            #[trigger] rest[a]
        ].parent == s[#[trigger] rest[b]].hash && s[rest[a]].number == s[rest[b]].number + 1 by {
            assert(rest[a] == path[a + 1]);
            assert(rest[b] == path[b + 1]);
        }
        lemma_path_descends(s, rest, path[1], v);
        assert(s[path[0]].parent == s[path[1]].hash);
        lemma_parent(s, i, path[1]);
    }
}

/// The path down to what an entry was built on.
proof fn lemma_descends_path(s: Seq<BlockEntry>, i: int, v: int) -> (path: Seq<int>)
    requires
        0 <= i < s.len(),
        0 <= v < s.len(),
        descends(s, i, v),
    ensures
        leads_down(s, path, i, v),
    decreases s[i].number,
{
    if i == v {
        seq![i]
    } else {
        let j = parent(s, i);
        let rest = lemma_descends_path(s, j, v);
        let path = seq![i] + rest;
        assert forall|a: int| 0 <= a < path.len() implies 0 <= #[trigger] path[a] < s.len() by {
            if a > 0 {
                assert(path[a] == rest[a - 1]);
            }
        }
        assert forall|a: int, b: int| 0 <= a < b < path.len() && b == a + 1 implies s[
            #[trigger] path[a]
        ].parent == s[#[trigger] path[b]].hash && s[path[a]].number == s[path[b]].number + 1 by {
            assert(path[b] == rest[b - 1]);
            if a > 0 {
                assert(path[a] == rest[a - 1]);
            }
        }
        path
    }
}

/// A block counts as built on another exactly if a path of parents, of any length, leads from it
/// down to the other.
pub proof fn descent_is_a_path_of_parents(s: Seq<BlockEntry>, i: int, v: int)
    requires
        distinct(s),
        0 <= i < s.len(),
        0 <= v < s.len(),
    ensures
        descends(s, i, v) <==> exists|path: Seq<int>| leads_down(s, path, i, v),
{
    if descends(s, i, v) {
        let path = lemma_descends_path(s, i, v);
        assert(leads_down(s, path, i, v));
    }
    if exists|path: Seq<int>| leads_down(s, path, i, v) {
        let path = choose|path: Seq<int>| leads_down(s, path, i, v);
        lemma_path_descends(s, path, i, v);
    }
}

/// The best block's branch is what the best block is or was built on, and nothing else; where the
/// best block is not known, there is none.
pub proof fn best_branch_is_that_of_the_best_block(
    s: Seq<BlockEntry>,
    v: int,
    best: BlockHash,
    b: int,
)
    requires
        distinct(s),
    ensures
        0 <= b < s.len() && s[b].hash == best ==> carries_best(s, v, best) == descends(s, b, v),
        (forall|i: int| 0 <= i < s.len() ==> (#[trigger] s[i]).hash != best) ==> !carries_best(
            s,
            v,
            best,
        ),
{
    if 0 <= b < s.len() && s[b].hash == best && carries_best(s, v, best) {
        let i = choose|i: int| 0 <= i < s.len() && (#[trigger] s[i]).hash == best && descends(s, i, v);
        lemma_same_entry(s, i, b);
    }
}

/// Among the first entries, none of a branch is fresher than the branch, and one is as fresh.
proof fn lemma_freshest(s: Seq<BlockEntry>, v: int, n: int)
    requires
        0 <= n <= s.len(),
    ensures
        forall|i: int|
            0 <= i < n && #[trigger] descends(s, i, v) ==> s[i].freshness <= freshest_upto(s, v, n),
        (exists|i: int|
            0 <= i < n && #[trigger] descends(s, i, v) && s[i].freshness == freshest_upto(s, v, n))
            || freshest_upto(s, v, n) == -1,
    decreases n,
{
    if n > 0 {
        lemma_freshest(s, v, n - 1);
        if descends(s, n - 1, v) && s[n - 1].freshness > freshest_upto(s, v, n - 1) {
            assert(s[n - 1].freshness == freshest_upto(s, v, n));
        } else if freshest_upto(s, v, n) != -1 {
            let i = choose|i: int|
                0 <= i < n - 1 && #[trigger] descends(s, i, v) && s[i].freshness == freshest_upto(
                    s,
                    v,
                    n - 1,
                );
            assert(descends(s, i, v) && s[i].freshness == freshest_upto(s, v, n));
        }
    }
}

/// A branch is as fresh as the freshest block in it, at any depth: no block that descends from the
/// branch's first one is fresher, and one is as fresh.
pub proof fn branch_is_as_fresh_as_its_freshest_block(s: Seq<BlockEntry>, v: int)
    requires
        0 <= v < s.len(),
    ensures
        forall|i: int|
            0 <= i < s.len() && #[trigger] descends(s, i, v) ==> s[i].freshness
                <= branch_freshness(s, v),
        exists|i: int|
            0 <= i < s.len() && #[trigger] descends(s, i, v) && s[i].freshness
                == branch_freshness(s, v),
{
    lemma_freshest(s, v, s.len() as int);
    assert(descends(s, v, v));
}

/// A level holds as many blocks as there are entries of its number.
pub proof fn level_holds_the_blocks_of_its_number(s: Seq<BlockEntry>, number: u32)
    ensures
        level_len(s, number) == s.filter(|e: BlockEntry| e.number == number).len(),
    decreases s.len(),
{
    reveal(Seq::filter);
    if s.len() > 0 {
        level_holds_the_blocks_of_its_number(s.drop_last(), number);
    }
}

/// Whether the branch of `v` was extended before the branch of `w` was: some block of the branch of
/// `w` is fresher than every block of the branch of `v`, or as fresh where `v` has been known for
/// longer than `w`.
pub open spec fn extended_before(s: Seq<BlockEntry>, v: int, w: int) -> bool {
    exists|x: int|
        0 <= x < s.len() && #[trigger] descends(s, x, w) && forall|y: int|
            0 <= y < s.len() && #[trigger] descends(s, y, v) ==> s[y].freshness < s[x].freshness || (
            s[y].freshness == s[x].freshness && v < w)
}

/// A branch that was extended after another does not go before it.
proof fn lemma_extended_before(s: Seq<BlockEntry>, v: int, w: int)
    requires
        0 <= v < s.len(),
        extended_before(s, v, w),
    ensures
        v != w,
        !goes_before(s, w, v),
{
    let x = choose|x: int|
        0 <= x < s.len() && #[trigger] descends(s, x, w) && forall|y: int|
            0 <= y < s.len() && #[trigger] descends(s, y, v) ==> s[y].freshness < s[x].freshness || (
            s[y].freshness == s[x].freshness && v < w);
    branch_is_as_fresh_as_its_freshest_block(s, v);
    lemma_freshest(s, w, s.len() as int);
    assert(descends(s, x, w));
    let y = choose|y: int|
        0 <= y < s.len() && #[trigger] descends(s, y, v) && s[y].freshness == branch_freshness(s, v);
    assert(descends(s, y, v));
    if v == w {
        assert(descends(s, x, v));
    }
}

/// Entries that pruning leaves stay in their order.
proof fn lemma_pruned_order_upto(s: Seq<BlockEntry>, v: int, n: int, a: int, b: int) -> (r: (int, int))
    requires
        0 <= n <= s.len(),
        0 <= a < b < pruned_upto(s, v, n).len(),
    ensures
        0 <= r.0 < r.1 < n,
        s[r.0] == pruned_upto(s, v, n)[a],
        s[r.1] == pruned_upto(s, v, n)[b],
    decreases n,
{
    let rest = pruned_upto(s, v, n - 1);
    if descends(s, n - 1, v) || b < rest.len() {
        lemma_pruned_order_upto(s, v, n - 1, a, b)
    } else {
        lemma_pruned_upto(s, v, n - 1);
        assert(left_from(s, v, n - 1, rest[a]));
        let i = choose|i: int| 0 <= i < n - 1 && !descends(s, i, v) && #[trigger] s[i] == rest[a];
        (i, n - 1)
    }
}

/// Of two entries that pruning leaves, the one that came first comes first.
proof fn lemma_pruned_order(s: Seq<BlockEntry>, v: int, i: int, j: int, x: int, y: int)
    requires
        distinct(s),
        0 <= i < j < s.len(),
        0 <= x < pruned(s, v).len(),
        0 <= y < pruned(s, v).len(),
        pruned(s, v)[x] == s[i],
        pruned(s, v)[y] == s[j],
    ensures
        x < y,
{
    if y < x {
        let (b, a) = lemma_pruned_order_upto(s, v, s.len() as int, y, x);
        lemma_same_entry(s, a, i);
        lemma_same_entry(s, b, j);
    } else if x == y {
        lemma_same_entry(s, i, j);
    }
}

/// What is pruned first does not come back, and only one block of the level is pruned with it.
proof fn lemma_first_gone(s: Seq<BlockEntry>, number: u32, limit: usize, best: BlockHash, i: int)
    requires
        distinct(s),
        level_len(s, number) >= limit,
        has_target(s, number, best),
        0 <= i < s.len(),
        descends(s, i, target(s, number, best)),
    ensures
        !enforced(s, number, limit, best).contains(s[i]),
        s[i].number == number ==> i == target(s, number, best),
{
    lemma_step(s, number, best);
    let t = target(s, number, best);
    let p = pruned(s, t);
    let out = enforced(s, number, limit, best);
    lemma_descends_number(s, i, t);
    if out.contains(s[i]) {
        let n = choose|n: int| 0 <= n < out.len() && out[n] == s[i];
        what_is_left_was_there(p, number, limit, best, n);
        let x = choose|x: int| 0 <= x < p.len() && p[x] == s[i];
        let j = lemma_left(s, t, x);
        lemma_same_entry(s, i, j);
    }
}

/// Pruning one block of a level changes nothing for the others: neither whether the best block was
/// built on them, nor which of two branches was extended before the other.
proof fn lemma_pruned_branches(
    s: Seq<BlockEntry>,
    t: int,
    best: BlockHash,
    v: int,
    w: int,
    c: int,
    k: int,
)
    requires
        distinct(s),
        0 <= t < s.len(),
        0 <= v < s.len(),
        0 <= w < s.len(),
        s[v].number == s[t].number,
        s[w].number == s[t].number,
        0 <= c < pruned(s, t).len(),
        0 <= k < pruned(s, t).len(),
        pruned(s, t)[c] == s[v],
        pruned(s, t)[k] == s[w],
    ensures
        carries_best(pruned(s, t), c, best) == carries_best(s, v, best),
        extended_before(s, v, w) ==> extended_before(pruned(s, t), c, k),
{
    let p = pruned(s, t);
    assert(descends(s, t, t));
    let v0 = lemma_left(s, t, c);
    lemma_same_entry(s, v0, v);
    let w0 = lemma_left(s, t, k);
    lemma_same_entry(s, w0, w);
    if carries_best(p, c, best) {
        let i = choose|i: int| 0 <= i < p.len() && (#[trigger] p[i]).hash == best && descends(p, i, c);
        let j = lemma_left(s, t, i);
        lemma_pruned_descends(s, t, j, v, i, c);
        assert(s[j].hash == best);
    }
    if carries_best(s, v, best) {
        let j = choose|j: int| 0 <= j < s.len() && (#[trigger] s[j]).hash == best && descends(s, j, v);
        if descends(s, j, t) {
            lemma_one_ancestor_per_level(s, j, t, v);
        }
        let i = lemma_stays(s, t, j);
        lemma_pruned_descends(s, t, j, v, i, c);
        assert(p[i].hash == best);
    }
    if extended_before(s, v, w) {
        let x = choose|x: int|
            0 <= x < s.len() && #[trigger] descends(s, x, w) && forall|y: int|
                0 <= y < s.len() && #[trigger] descends(s, y, v) ==> s[y].freshness
                    < s[x].freshness || (s[y].freshness == s[x].freshness && v < w);
        if descends(s, x, t) {
            lemma_one_ancestor_per_level(s, x, t, w);
        }
        let z = lemma_stays(s, t, x);
        lemma_pruned_descends(s, t, x, w, z, k);
        if v < w {
            lemma_pruned_order(s, t, v, w, c, k);
        }
        assert forall|y: int| 0 <= y < p.len() && #[trigger] descends(p, y, c) implies p[y].freshness
            < p[z].freshness || (p[y].freshness == p[z].freshness && c < k) by {
            let u = lemma_left(s, t, y);
            lemma_pruned_descends(s, t, u, v, y, c);
            assert(descends(s, u, v));
        }
        assert(descends(p, z, k));
    }
}

/// The branch that was extended the longest ago goes first: of two blocks of the level, where the
/// first may go and its branch was extended before that of the second, the second goes only if the
/// first does.
pub proof fn stalest_branch_goes_first(
    s: Seq<BlockEntry>,
    number: u32,
    limit: usize,
    best: BlockHash,
    v: int,
    w: int,
)
    requires
        distinct(s),
        0 <= v < s.len(),
        0 <= w < s.len(),
        s[v].number == number,
        s[w].number == number,
        !carries_best(s, v, best),
        extended_before(s, v, w),
    ensures
        enforced(s, number, limit, best).contains(s[v]) ==> enforced(
            s,
            number,
            limit,
            best,
        ).contains(s[w]),
    decreases s.len(),
{
    if level_len(s, number) < limit || !has_target(s, number, best) {
    } else {
        lemma_step(s, number, best);
        let t = target(s, number, best);
        let p = pruned(s, t);
        lemma_extended_before(s, v, w);
        assert(candidate(s, number, best, v));
        if descends(s, w, t) {
            lemma_first_gone(s, number, limit, best, w);
            assert(goes_before(s, w, v));
        } else if descends(s, v, t) {
            lemma_first_gone(s, number, limit, best, v);
        } else {
            let c = lemma_stays(s, t, v);
            let k = lemma_stays(s, t, w);
            lemma_pruned_branches(s, t, best, v, w, c, k);
            stalest_branch_goes_first(p, number, limit, best, c, k);
        }
    }
}

/// Only branches of the level go: a block that went is, or was built on, a block of the level that
/// went too, and that the best block neither is nor was built on.
pub proof fn only_branches_of_the_level_go(
    s: Seq<BlockEntry>,
    number: u32,
    limit: usize,
    best: BlockHash,
    i: int,
)
    requires
        distinct(s),
        0 <= i < s.len(),
        !enforced(s, number, limit, best).contains(s[i]),
    ensures
        exists|v: int|
            0 <= v < s.len() && (#[trigger] s[v]).number == number && descends(s, i, v)
                && !carries_best(s, v, best) && !enforced(s, number, limit, best).contains(s[v]),
    decreases s.len(),
{
    if level_len(s, number) < limit || !has_target(s, number, best) {
    } else {
        lemma_step(s, number, best);
        let t = target(s, number, best);
        let p = pruned(s, t);
        let out = enforced(s, number, limit, best);
        if descends(s, i, t) {
            assert(descends(s, t, t));
            lemma_first_gone(s, number, limit, best, t);
            assert(s[t].number == number);
        } else {
            let k = lemma_stays(s, t, i);
            only_branches_of_the_level_go(p, number, limit, best, k);
            let c = choose|c: int|
                0 <= c < p.len() && (#[trigger] p[c]).number == number && descends(p, k, c)
                    && !carries_best(p, c, best) && !out.contains(p[c]);
            let v = lemma_left(s, t, c);
            lemma_pruned_descends(s, t, i, v, k, c);
            lemma_pruned_branches(s, t, best, v, v, c, c);
            assert(s[v].number == number);
        }
    }
}

/// The blocks that are left stay in their order.
pub proof fn what_is_left_stays_in_order(
    s: Seq<BlockEntry>,
    number: u32,
    limit: usize,
    best: BlockHash,
    i: int,
    j: int,
    a: int,
    b: int,
)
    requires
        distinct(s),
        0 <= i < j < s.len(),
        0 <= a < enforced(s, number, limit, best).len(),
        0 <= b < enforced(s, number, limit, best).len(),
        enforced(s, number, limit, best)[a] == s[i],
        enforced(s, number, limit, best)[b] == s[j],
    ensures
        a < b,
    decreases s.len(),
{
    if level_len(s, number) < limit || !has_target(s, number, best) {
        lemma_same_entry(s, a, i);
        lemma_same_entry(s, b, j);
    } else {
        lemma_step(s, number, best);
        let t = target(s, number, best);
        let p = pruned(s, t);
        what_is_left_was_there(p, number, limit, best, a);
        what_is_left_was_there(p, number, limit, best, b);
        let x = choose|x: int| 0 <= x < p.len() && p[x] == s[i];
        let y = choose|y: int| 0 <= y < p.len() && p[y] == s[j];
        lemma_pruned_order(s, t, i, j, x, y);
        what_is_left_stays_in_order(p, number, limit, best, x, y, a, b);
    }
}

/// One pruning drops no block twice.
proof fn lemma_dropped_once(s: Seq<BlockEntry>, v: int, n: int)
    requires
        distinct(s),
        0 <= n <= s.len(),
    ensures
        dropped_upto(s, v, n).no_duplicates(),
    decreases n,
{
    if n > 0 {
        lemma_dropped_once(s, v, n - 1);
        let rest = dropped_upto(s, v, n - 1);
        let all = dropped_upto(s, v, n);
        if descends(s, n - 1, v) {
            lemma_dropped(s, v, n - 1, s[n - 1].hash);
            if rest.contains(s[n - 1].hash) {
                let i = choose|i: int|
                    0 <= i < n - 1 && descends(s, i, v) && (#[trigger] s[i]).hash == s[n - 1].hash;
                lemma_same_entry(s, i, n - 1);
            }
            assert forall|a: int, b: int|
                0 <= a < all.len() && 0 <= b < all.len() && a != b implies all[a] != all[b] by {
                if a < rest.len() && b < rest.len() {
                    assert(rest[a] != rest[b]);
                } else if a < rest.len() {
                    assert(rest.contains(rest[a]));
                } else {
                    assert(rest.contains(rest[b]));
                }
            }
        }
    }
}

/// What goes in the first pruning is what descends from the first entry to go, and what goes later
/// does not.
proof fn lemma_goes_at(s: Seq<BlockEntry>, number: u32, limit: usize, best: BlockHash, i: int, a: int)
    requires
        distinct(s),
        level_len(s, number) >= limit,
        has_target(s, number, best),
        0 <= i < s.len(),
        0 <= a < evicted(s, number, limit, best).len(),
        evicted(s, number, limit, best)[a] == s[i].hash,
    ensures
        a < dropped_upto(s, target(s, number, best), s.len() as int).len() <==> descends(
            s,
            i,
            target(s, number, best),
        ),
{
    lemma_step(s, number, best);
    let t = target(s, number, best);
    let p = pruned(s, t);
    let first = dropped_upto(s, t, s.len() as int);
    let rest = evicted(p, number, limit, best);
    let hash = s[i].hash;
    assert(evicted(s, number, limit, best) == first + rest);
    lemma_dropped(s, t, s.len() as int, hash);
    if a < first.len() {
        assert(first.contains(first[a]));
        let j = choose|j: int| 0 <= j < s.len() && descends(s, j, t) && (#[trigger] s[j]).hash == hash;
        lemma_same_entry(s, i, j);
    } else {
        assert(rest[a - first.len()] == hash);
        assert(rest.contains(hash));
        evicted_is_what_went(p, number, limit, best, hash);
        let x = choose|x: int| 0 <= x < p.len() && (#[trigger] p[x]).hash == hash;
        let j = lemma_left(s, t, x);
        lemma_same_entry(s, i, j);
    }
}

/// No block is said to go twice.
pub proof fn each_goes_once(s: Seq<BlockEntry>, number: u32, limit: usize, best: BlockHash)
    requires
        distinct(s),
    ensures
        evicted(s, number, limit, best).no_duplicates(),
    decreases s.len(),
{
    if level_len(s, number) < limit || !has_target(s, number, best) {
    } else {
        lemma_step(s, number, best);
        let t = target(s, number, best);
        let p = pruned(s, t);
        let first = dropped_upto(s, t, s.len() as int);
        let rest = evicted(p, number, limit, best);
        let all = evicted(s, number, limit, best);
        assert(all == first + rest);
        lemma_dropped_once(s, t, s.len() as int);
        each_goes_once(p, number, limit, best);
        assert forall|a: int, b: int| 0 <= a < b < all.len() implies all[a] != all[b] by {
            if b < first.len() {
                assert(first[a] != first[b]);
            } else if a >= first.len() {
                assert(rest[a - first.len()] != rest[b - first.len()]);
            } else if all[a] == all[b] {
                assert(all.contains(all[a]));
                evicted_is_what_went(s, number, limit, best, all[a]);
                let i = choose|i: int| 0 <= i < s.len() && (#[trigger] s[i]).hash == all[a];
                lemma_goes_at(s, number, limit, best, i, a);
                lemma_goes_at(s, number, limit, best, i, b);
            }
        }
    }
}

/// The blocks go branch by branch: where the branch of a block of the level that may go was extended
/// before that of another, all that goes of the first branch goes before what goes of the second.
pub proof fn branches_go_in_turn(
    s: Seq<BlockEntry>,
    number: u32,
    limit: usize,
    best: BlockHash,
    v: int,
    w: int,
    i: int,
    j: int,
    a: int,
    b: int,
)
    requires
        distinct(s),
        0 <= v < s.len(),
        0 <= w < s.len(),
        0 <= i < s.len(),
        0 <= j < s.len(),
        s[v].number == number,
        s[w].number == number,
        !carries_best(s, v, best),
        extended_before(s, v, w),
        descends(s, i, v),
        descends(s, j, w),
        0 <= a < evicted(s, number, limit, best).len(),
        0 <= b < evicted(s, number, limit, best).len(),
        evicted(s, number, limit, best)[a] == s[i].hash,
        evicted(s, number, limit, best)[b] == s[j].hash,
    ensures
        a < b,
    decreases s.len(),
{
    if level_len(s, number) < limit || !has_target(s, number, best) {
    } else {
        lemma_step(s, number, best);
        let t = target(s, number, best);
        let p = pruned(s, t);
        let first = dropped_upto(s, t, s.len() as int);
        assert(evicted(s, number, limit, best) == first + evicted(p, number, limit, best));
        lemma_extended_before(s, v, w);
        lemma_goes_at(s, number, limit, best, i, a);
        lemma_goes_at(s, number, limit, best, j, b);
        assert(candidate(s, number, best, v));
        if descends(s, j, t) {
            lemma_one_ancestor_per_level(s, j, t, w);
            assert(goes_before(s, w, v));
        } else if !descends(s, i, t) {
            assert(!descends(s, v, t)) by {
                if descends(s, v, t) {
                    lemma_descends_trans(s, i, v, t);
                }
            }
            assert(!descends(s, w, t)) by {
                if descends(s, w, t) {
                    lemma_descends_trans(s, j, w, t);
                }
            }
            let c = lemma_stays(s, t, v);
            let k = lemma_stays(s, t, w);
            let x = lemma_stays(s, t, i);
            let y = lemma_stays(s, t, j);
            lemma_pruned_branches(s, t, best, v, w, c, k);
            lemma_pruned_descends(s, t, i, v, x, c);
            lemma_pruned_descends(s, t, j, w, y, k);
            branches_go_in_turn(
                p,
                number,
                limit,
                best,
                c,
                k,
                x,
                y,
                a - first.len(),
                b - first.len(),
            );
        }
    }
}

/// An import changes one entry: a block that was not known gets the entry that it comes with, at the
/// end; one that was known keeps its number and its parent, and only becomes as fresh as the entry
/// says. Every other entry is as it was, in its place.
pub proof fn import_changes_one_entry(s: Seq<BlockEntry>, entry: BlockEntry)
    ensures
        !tracks(s, entry.hash) ==> recorded(s, entry).len() == s.len() + 1 && recorded(
            s,
            entry,
        ).last() == entry,
        tracks(s, entry.hash) ==> recorded(s, entry).len() == s.len(),
        forall|i: int|
            0 <= i < s.len() ==> {
                let e = #[trigger] recorded(s, entry)[i];
                &&& e.hash == s[i].hash
                &&& e.number == s[i].number
                &&& e.parent == s[i].parent
                &&& e.freshness == if s[i].hash == entry.hash {
                    entry.freshness
                } else {
                    s[i].freshness
                }
            },
{
    assert(forall|i: int| 0 <= i < s.len() && !tracks(s, entry.hash) ==> s[i].hash != entry.hash);
}

/// Whether the block that is listed at `i` is the first one listed under its hash, and an entry is
/// of that block as it is listed.
pub open spec fn lists(known: Seq<KnownBlock>, i: int, e: BlockEntry) -> bool {
    &&& 0 <= i < known.len()
    &&& known[i].hash == e.hash
    &&& known[i].number == e.number
    &&& known[i].parent == e.parent
    &&& forall|j: int| 0 <= j < i ==> (#[trigger] known[j]).hash != e.hash
}

/// After a restart every entry is of a block of the chain as it is listed, with its number and its
/// parent, in whatever order the blocks are listed; where a hash is listed more than once, it is as
/// listed first.
pub proof fn restart_keeps_the_blocks_as_they_are(known: Seq<KnownBlock>, a: int) -> (i: int)
    requires
        0 <= a < restored(known).len(),
    ensures
        lists(known, i, restored(known)[a]),
    decreases known.len(),
{
    let shorter = known.drop_last();
    let rest = restored(shorter);
    let e = restored(known)[a];
    if a < rest.len() {
        assert(e == rest[a]);
        let i = restart_keeps_the_blocks_as_they_are(shorter, a);
        assert(known[i] == shorter[i]);
        assert forall|j: int| 0 <= j < i implies (#[trigger] known[j]).hash != e.hash by {
            assert(known[j] == shorter[j]);
        }
        i
    } else {
        restart_knows_the_chain(shorter);
        let i = known.len() - 1;
        assert forall|j: int| 0 <= j < i implies (#[trigger] known[j]).hash != e.hash by {
            assert(known[j] == shorter[j]);
            assert(tracks(rest, shorter[j].hash));
        }
        i
    }
}

/// After a restart the entries come in the order in which their blocks are listed.
pub proof fn restart_keeps_the_order(known: Seq<KnownBlock>, a: int, b: int, i: int, j: int)
    requires
        0 <= a < b < restored(known).len(),
        lists(known, i, restored(known)[a]),
        lists(known, j, restored(known)[b]),
    ensures
        i < j,
    decreases known.len(),
{
    let shorter = known.drop_last();
    let rest = restored(shorter);
    let all = restored(known);
    restart_knows_the_chain(known);
    assert(all[a].hash != all[b].hash);
    let x = restart_keeps_the_blocks_as_they_are(shorter, a);
    assert(all[a] == rest[a]);
    assert(known[x] == shorter[x]);
    assert(i <= x);
    if b < rest.len() {
        assert(all[b] == rest[b]);
        let y = restart_keeps_the_blocks_as_they_are(shorter, b);
        assert(known[y] == shorter[y]);
        assert(j <= y);
        assert(lists(shorter, i, rest[a])) by {
            assert(shorter[i] == known[i]);
            assert forall|k: int| 0 <= k < i implies (#[trigger] shorter[k]).hash
                != rest[a].hash by {
                assert(shorter[k] == known[k]);
            }
        }
        assert(lists(shorter, j, rest[b])) by {
            assert(shorter[j] == known[j]);
            assert forall|k: int| 0 <= k < j implies (#[trigger] shorter[k]).hash
                != rest[b].hash by {
                assert(shorter[k] == known[k]);
            }
        }
        restart_keeps_the_order(shorter, a, b, i, j);
    } else {
        restart_knows_the_chain(shorter);
        if j < shorter.len() {
            assert(known[j] == shorter[j]);
            assert(tracks(rest, shorter[j].hash));
        }
    }
}

/// After a restart the next import is fresher than every number in the chain, by no more than it
/// takes: its freshness is one above the highest number, and zero where there is no block.
pub proof fn restart_counts_from_the_highest_number(known: Seq<KnownBlock>)
    ensures
        forall|i: int| 0 <= i < known.len() ==> (#[trigger] known[i]).number < restored_counter(known),
        known.len() == 0 ==> restored_counter(known) == 0,
        known.len() > 0 ==> exists|i: int|
            0 <= i < known.len() && (#[trigger] known[i]).number + 1 == restored_counter(known),
    decreases known.len(),
{
    if known.len() > 0 {
        let shorter = known.drop_last();
        let n = known.len() - 1;
        restart_counts_from_the_highest_number(shorter);
        assert forall|i: int| 0 <= i < known.len() implies (#[trigger] known[i]).number
            < restored_counter(known) by {
            if i < n {
                assert(known[i] == shorter[i]);
            }
        }
        if known[n].number < restored_counter(shorter) {
            let i = choose|i: int|
                0 <= i < shorter.len() && (#[trigger] shorter[i]).number + 1 == restored_counter(
                    shorter,
                );
            assert(known[i].number + 1 == restored_counter(known));
        } else {
            assert(known[n].number + 1 == restored_counter(known));
        }
    }
}

} // verus!
