//! The meaning of a log: what replaying records does to the contents, to
//! the index and to the stale-byte count, and the sizes involved.
use vstd::prelude::*;

use crate::record::{encode_command, encode_log, CommandMetaData, CommandView, parse_log};

verus! {

/// What a record does to the contents of the store.
pub open spec fn apply_command(m: Map<Seq<char>, Seq<char>>, c: CommandView) -> Map<
    Seq<char>,
    Seq<char>,
> {
    match c {
        CommandView::SetValue(k, v) => m.insert(k, v),
        CommandView::Remove(k) => m.remove(k),
    }
}

/// The contents after applying the records `cs` in order.
pub open spec fn apply_log(m: Map<Seq<char>, Seq<char>>, cs: Seq<CommandView>) -> Map<
    Seq<char>,
    Seq<char>,
>
    decreases cs.len(),
{
    if cs.len() == 0 {
        m
    } else {
        apply_command(apply_log(m, cs.drop_last()), cs.last())
    }
}

/// The contents that the segments `ids`, replayed in order, leave behind.
pub open spec fn replay(ids: Seq<u64>, log: Map<u64, Seq<CommandView>>) -> Map<
    Seq<char>,
    Seq<char>,
>
    decreases ids.len(),
{
    if ids.len() == 0 {
        Map::empty()
    } else {
        apply_log(replay(ids.drop_last(), log), log[ids.last()])
    }
}

/// The contents recovered from segment files holding `disk`, read in the order `ids`.
pub open spec fn recovered(ids: Seq<u64>, disk: Map<u64, Seq<u8>>) -> Map<Seq<char>, Seq<char>> {
    replay(ids, Map::new(|id: u64| disk.contains_key(id), |id: u64| parse_log(disk[id]).unwrap()))
}

/// `a + b`, held at `u64::MAX`.
pub open spec fn sat_add(a: u64, b: u64) -> u64 {
    if a + b > u64::MAX {
        u64::MAX
    } else {
        (a + b) as u64
    }
}

/// What a record at `loc` does to the index and to the stale-byte count.
pub open spec fn index_step(
    idx: Map<Seq<char>, CommandMetaData>,
    stale: u64,
    c: CommandView,
    loc: CommandMetaData,
) -> (Map<Seq<char>, CommandMetaData>, u64) {
    match c {
        CommandView::SetValue(k, _) => (
            idx.insert(k, loc),
            if idx.contains_key(k) {
                sat_add(stale, idx[k].length)
            } else {
                stale
            },
        ),
        CommandView::Remove(k) => (
            idx.remove(k),
            sat_add(
                if idx.contains_key(k) {
                    sat_add(stale, idx[k].length)
                } else {
                    stale
                },
                loc.length,
            ),
        ),
    }
}

/// The index and stale count after replaying the records `cs` of segment `id`.
pub open spec fn replay_index(
    idx: Map<Seq<char>, CommandMetaData>,
    stale: u64,
    id: u64,
    cs: Seq<CommandView>,
) -> (Map<Seq<char>, CommandMetaData>, u64)
    decreases cs.len(),
{
    if cs.len() == 0 {
        (idx, stale)
    } else {
        let (i, s) = replay_index(idx, stale, id, cs.drop_last());
        index_step(
            i,
            s,
            cs.last(),
            CommandMetaData {
                file_number: id,
                offset: encode_log(cs.drop_last()).len() as u64,
                length: encode_command(cs.last()).len() as u64,
            },
        )
    }
}

pub open spec fn strictly_ascending(s: Seq<u64>) -> bool {
    forall|i: int, j: int| 0 <= i < j < s.len() ==> s[i] < s[j]
}

pub(crate) proof fn lemma_replay_frame(ids: Seq<u64>, a: Map<u64, Seq<CommandView>>, b: Map<u64, Seq<CommandView>>)
    requires
        forall|i: int| 0 <= i < ids.len() ==> a[ids[i]] == b[ids[i]],
    ensures
        replay(ids, a) == replay(ids, b),
    decreases ids.len(),
{
    if ids.len() > 0 {
        lemma_replay_frame(ids.drop_last(), a, b);
    }
}

pub(crate) proof fn lemma_apply_log_push(m: Map<Seq<char>, Seq<char>>, cs: Seq<CommandView>, c: CommandView)
    ensures
        apply_log(m, cs.push(c)) == apply_command(apply_log(m, cs), c),
{
    assert(cs.push(c).drop_last() =~= cs);
}

/// Replaying after one more record in the last segment applies that record.
pub(crate) proof fn lemma_replay_append(ids: Seq<u64>, log: Map<u64, Seq<CommandView>>, c: CommandView)
    requires
        ids.len() > 0,
        strictly_ascending(ids),
    ensures
        replay(ids, log.insert(ids.last(), log[ids.last()].push(c))) == apply_command(
            replay(ids, log),
            c,
        ),
{
    let log2 = log.insert(ids.last(), log[ids.last()].push(c));
    let pre = ids.drop_last();
    assert forall|i: int| 0 <= i < pre.len() implies log[pre[i]] == log2[pre[i]] by {
        assert(pre[i] < ids.last());
    }
    lemma_replay_frame(pre, log, log2);
    lemma_apply_log_push(replay(pre, log), log[ids.last()], c);
}

/// Replaying a log made of `SetValue` records for distinct keys gives exactly those pairs.
pub(crate) proof fn lemma_apply_sets(keys: Seq<Seq<char>>, m: Map<Seq<char>, Seq<char>>, n: int)
    requires
        0 <= n <= keys.len(),
        forall|i: int| 0 <= i < keys.len() ==> m.contains_key(#[trigger] keys[i]),
    ensures
        apply_log(
            Map::empty(),
            Seq::new(n as nat, |i: int| CommandView::SetValue(keys[i], m[keys[i]])),
        ) == m.restrict(Set::new(|k: Seq<char>| exists|i: int| 0 <= i < n && keys[i] == k)),
    decreases n,
{
    let cs = Seq::new(n as nat, |i: int| CommandView::SetValue(keys[i], m[keys[i]]));
    let dom = Set::new(|k: Seq<char>| exists|i: int| 0 <= i < n && keys[i] == k);
    if n == 0 {
        assert(m.restrict(dom) =~= Map::empty());
    } else {
        lemma_apply_sets(keys, m, n - 1);
        let prev = Seq::new((n - 1) as nat, |i: int| CommandView::SetValue(keys[i], m[keys[i]]));
        assert(cs.drop_last() =~= prev);
        let dom1 = Set::new(|k: Seq<char>| exists|i: int| 0 <= i < n - 1 && keys[i] == k);
        assert(m.restrict(dom1).insert(keys[n - 1], m[keys[n - 1]]) =~= m.restrict(dom)) by {
            assert forall|k: Seq<char>| dom.contains(k) <==> (dom1.contains(k) || k == keys[n - 1]) by {
                if dom.contains(k) {
                    let i = choose|i: int| 0 <= i < n && keys[i] == k;
                    if i < n - 1 {
                        assert(dom1.contains(k));
                    }
                }
                if dom1.contains(k) {
                    let i = choose|i: int| 0 <= i < n - 1 && keys[i] == k;
                    assert(dom.contains(k));
                }
            }
        }
    }
}

/// The total size of the segments `ids`.
pub open spec fn disk_bytes(ids: Seq<u64>, log: Map<u64, Seq<CommandView>>) -> nat
    decreases ids.len(),
{
    if ids.len() == 0 {
        0
    } else {
        disk_bytes(ids.drop_last(), log) + encode_log(log[ids.last()]).len()
    }
}

/// The locations of `keys` in `m`, in the order of `keys`.
pub open spec fn live_lengths(keys: Seq<Seq<char>>, m: Map<Seq<char>, CommandMetaData>) -> Seq<
    CommandMetaData,
> {
    keys.map_values(|k: Seq<char>| m[k])
}

pub(crate) proof fn lemma_disk_bytes_frame(ids: Seq<u64>, a: Map<u64, Seq<CommandView>>, b: Map<u64, Seq<CommandView>>)
    requires
        forall|i: int| 0 <= i < ids.len() ==> a[ids[i]] == b[ids[i]],
    ensures
        disk_bytes(ids, a) == disk_bytes(ids, b),
    decreases ids.len(),
{
    if ids.len() > 0 {
        lemma_disk_bytes_frame(ids.drop_last(), a, b);
    }
}

pub(crate) proof fn lemma_total_length_update(s: Seq<CommandMetaData>, i: int, x: CommandMetaData)
    requires
        0 <= i < s.len(),
    ensures
        total_length(s.update(i, x)) == total_length(s) - s[i].length + x.length,
    decreases s.len(),
{
    if i == s.len() - 1 {
        assert(s.update(i, x).drop_last() =~= s.drop_last());
    } else {
        lemma_total_length_update(s.drop_last(), i, x);
        assert(s.update(i, x).drop_last() =~= s.drop_last().update(i, x));
    }
}

pub(crate) proof fn lemma_total_length_remove(s: Seq<CommandMetaData>, i: int)
    requires
        0 <= i < s.len(),
    ensures
        total_length(s.remove(i)) == total_length(s) - s[i].length,
    decreases s.len(),
{
    if i == s.len() - 1 {
        assert(s.remove(i) =~= s.drop_last());
    } else {
        lemma_total_length_remove(s.drop_last(), i);
        assert(s.remove(i).drop_last() =~= s.drop_last().remove(i));
        assert(s.remove(i).last() == s.last());
    }
}

pub(crate) proof fn lemma_live_insert_existing(
    keys: Seq<Seq<char>>,
    m: Map<Seq<char>, CommandMetaData>,
    i: int,
    x: CommandMetaData,
)
    requires
        0 <= i < keys.len(),
        forall|a: int, b: int| 0 <= a < b < keys.len() ==> keys[a] != keys[b],
    ensures
        total_length(live_lengths(keys, m.insert(keys[i], x))) == total_length(live_lengths(keys, m))
            - m[keys[i]].length + x.length,
{
    assert(live_lengths(keys, m.insert(keys[i], x)) =~= live_lengths(keys, m).update(i, x)) by {
        assert forall|j: int| 0 <= j < keys.len() && j != i implies keys[j] != keys[i] by {
            if j < i {
            } else {
            }
        }
    }
    lemma_total_length_update(live_lengths(keys, m), i, x);
}

pub(crate) proof fn lemma_live_insert_new(
    keys: Seq<Seq<char>>,
    m: Map<Seq<char>, CommandMetaData>,
    k: Seq<char>,
    x: CommandMetaData,
)
    requires
        forall|j: int| 0 <= j < keys.len() ==> keys[j] != k,
    ensures
        total_length(live_lengths(keys.push(k), m.insert(k, x))) == total_length(
            live_lengths(keys, m),
        ) + x.length,
{
    assert(live_lengths(keys.push(k), m.insert(k, x)) =~= live_lengths(keys, m).push(x));
    assert(live_lengths(keys, m).push(x).drop_last() =~= live_lengths(keys, m));
}

pub(crate) proof fn lemma_live_remove(keys: Seq<Seq<char>>, m: Map<Seq<char>, CommandMetaData>, i: int)
    requires
        0 <= i < keys.len(),
        forall|a: int, b: int| 0 <= a < b < keys.len() ==> keys[a] != keys[b],
    ensures
        total_length(live_lengths(keys.remove(i), m.remove(keys[i]))) == total_length(
            live_lengths(keys, m),
        ) - m[keys[i]].length,
{
    assert(live_lengths(keys.remove(i), m.remove(keys[i])) =~= live_lengths(keys, m).remove(i)) by {
        assert forall|j: int| 0 <= j < keys.len() - 1 implies keys.remove(i)[j] != keys[i] by {
            if j < i {
                assert(keys.remove(i)[j] == keys[j]);
            } else {
                assert(keys.remove(i)[j] == keys[j + 1]);
            }
        }
    }
    lemma_total_length_remove(live_lengths(keys, m), i);
}

/// The bytes at `locs`, one location after the other, read from `bytes`.
pub open spec fn gather(bytes: spec_fn(u64) -> Seq<u8>, locs: Seq<CommandMetaData>) -> Seq<u8>
    decreases locs.len(),
{
    if locs.len() == 0 {
        seq![]
    } else {
        let m = locs.last();
        gather(bytes, locs.drop_last()) + bytes(m.file_number).subrange(
            m.offset as int,
            m.offset + m.length,
        )
    }
}

/// The total length of the locations `locs`.
pub open spec fn total_length(locs: Seq<CommandMetaData>) -> nat
    decreases locs.len(),
{
    if locs.len() == 0 {
        0
    } else {
        (total_length(locs.drop_last()) + locs.last().length) as nat
    }
}

pub(crate) proof fn lemma_total_length_prefix(s: Seq<CommandMetaData>, j: int)
    requires
        0 <= j <= s.len(),
    ensures
        total_length(s.take(j)) <= total_length(s),
    decreases s.len() - j,
{
    if j < s.len() {
        lemma_total_length_prefix(s, j + 1);
        assert(s.take(j + 1).drop_last() =~= s.take(j));
    } else {
        assert(s.take(j) =~= s);
    }
}

/// `Some(cs + rest)` when `o` is `Some(rest)`.
pub open spec fn join_log(cs: Seq<CommandView>, o: Option<Seq<CommandView>>) -> Option<Seq<CommandView>> {
    match o {
        Some(rest) => Some(cs + rest),
        None => None,
    }
}

/// The number the next new segment takes: one past the last, or 1 when there is none.
pub open spec fn next_segment_id(ids: Seq<u64>) -> int {
    if ids.len() == 0 {
        1
    } else {
        ids.last() + 1
    }
}

} // verus!
