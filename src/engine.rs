//! The log-structured engine: recovery, writes, point reads and compaction.
//!
//! The engine keeps the index, the segment numbers and the stale-byte count,
//! and decides every change to the segments. The caller holds the files: it
//! appends what `flush` hands over to the active segment, reads the bytes a
//! location names, and carries out a `CompactionPlan`. The contents of each
//! segment are modelled by the sequence of records written to it.
use vstd::prelude::*;
use vstd::slice::slice_to_vec;

use crate::error::KVStoreError;
use crate::model::{
    apply_command, apply_log, disk_bytes, gather, index_step, join_log, lemma_apply_sets, lemma_disk_bytes_frame, lemma_live_insert_existing, lemma_live_insert_new, lemma_live_remove, lemma_replay_append, lemma_replay_frame, lemma_total_length_prefix, live_lengths, next_segment_id, recovered, replay, replay_index, sat_add, strictly_ascending, total_length,
};
use crate::index::Index;
use crate::position::{BufferReaderWithPosition, BufferWriterWithPosition};
use crate::record::{
    encodable, encode_command, encode_log, lemma_encode_log_append, lemma_encode_log_push, lemma_encode_log_slice, lemma_parse_canonical,
    lemma_parse_encode, lemma_parse_log_canonical, lemma_parse_log_encode, parse_command,
    parse_exact, parse_log, Command, CommandMetaData, CommandView,
};

verus! {

/// Stale bytes above which the log should be compacted.
pub const COMPACTION_THRESHOLD: u64 = 1048576;

/// The segments, their records and the index: what recovery rebuilds and the engine keeps.
struct LogState {
    index: Index,
    files: Vec<u64>,
    uncompacted: u64,
    log: Ghost<Map<u64, Seq<CommandView>>>,
    stale_total: Ghost<nat>,
}

impl LogState {
    spec fn contents(&self) -> Map<Seq<char>, Seq<char>> {
        replay(self.files@, self.log@)
    }

    spec fn bytes(&self, id: u64) -> Seq<u8> {
        encode_log(self.log@[id])
    }

    /// The bytes of the records that the index points at.
    spec fn live_bytes(&self) -> nat {
        total_length(live_lengths(self.index.keys(), self.index@))
    }

    /// Every byte of every segment is either live or stale, and the exact
    /// stale count is what `uncompacted` holds, up to `u64::MAX`.
    spec fn accounted(&self) -> bool {
        &&& disk_bytes(self.files@, self.log@) == self.live_bytes() + self.stale_total@
        &&& self.uncompacted == if self.stale_total@ > u64::MAX {
            u64::MAX
        } else {
            self.stale_total@ as u64
        }
    }

    /// The location of `k` holds exactly the `SetValue` record of its current value.
    spec fn location_ok(&self, k: Seq<char>) -> bool {
        let m = self.index@[k];
        &&& self.files@.contains(m.file_number)
        &&& m.offset + m.length <= self.bytes(m.file_number).len()
        &&& self.bytes(m.file_number).subrange(m.offset as int, m.offset + m.length)
            == encode_command(CommandView::SetValue(k, self.contents()[k]))
        &&& encodable(CommandView::SetValue(k, self.contents()[k]))
    }

    spec fn wf(&self) -> bool {
        &&& self.index.wf()
        &&& strictly_ascending(self.files@)
        &&& forall|i: int| 0 <= i < self.files@.len() ==> self.log@.contains_key(#[trigger] self.files@[i])
        &&& forall|i: int, j: int|
            0 <= i < self.files@.len() && 0 <= j < self.log@[self.files@[i]].len() ==> encodable(
                #[trigger] self.log@[self.files@[i]][j],
            )
        &&& forall|i: int|
            0 <= i < self.files@.len() ==> self.bytes(#[trigger] self.files@[i]).len() <= u64::MAX
        &&& self.index@.dom() == self.contents().dom()
        &&& forall|k: Seq<char>| #[trigger] self.index@.contains_key(k) ==> self.location_ok(k)
        &&& self.accounted()
    }

    /// `new` is `self` with one more record at the end of the last segment.
    proof fn lemma_append(self, new: Self, c: CommandView)
        requires
            self.wf(),
            self.files@.len() > 0,
            new.index.wf(),
            new.files@ == self.files@,
            new.live_bytes() + new.stale_total@ == self.live_bytes() + self.stale_total@
                + encode_command(c).len(),
            new.uncompacted == if new.stale_total@ > u64::MAX {
                u64::MAX
            } else {
                new.stale_total@ as u64
            },
            new.log@ == self.log@.insert(
                self.files@.last(),
                self.log@[self.files@.last()].push(c),
            ),
            encodable(c),
            self.bytes(self.files@.last()).len() + encode_command(c).len() <= u64::MAX,
            new.index@ == match c {
                CommandView::SetValue(k, _) => self.index@.insert(
                    k,
                    CommandMetaData {
                        file_number: self.files@.last(),
                        offset: self.bytes(self.files@.last()).len() as u64,
                        length: encode_command(c).len() as u64,
                    },
                ),
                CommandView::Remove(k) => self.index@.remove(k),
            },
        ensures
            new.wf(),
            new.contents() == apply_command(self.contents(), c),
            new.bytes(self.files@.last()) == self.bytes(self.files@.last()) + encode_command(c),
            forall|id: u64| id != self.files@.last() ==> new.bytes(id) == self.bytes(id),
    {
        let a = self.files@.last();
        lemma_replay_append(self.files@, self.log@, c);
        lemma_encode_log_push(self.log@[a], c);
        let pre = self.files@.drop_last();
        assert forall|i: int| 0 <= i < pre.len() implies self.log@[pre[i]] == new.log@[pre[i]] by {
            assert(pre[i] < a);
        }
        lemma_disk_bytes_frame(pre, self.log@, new.log@);
        let old_bytes = self.bytes(a);
        let rec = encode_command(c);
        assert forall|i: int, j: int|
            0 <= i < new.files@.len() && 0 <= j < new.log@[new.files@[i]].len() implies encodable(
            #[trigger] new.log@[new.files@[i]][j],
        ) by {
            if new.files@[i] == a && j == self.log@[a].len() {
            } else {
                assert(new.log@[new.files@[i]][j] == self.log@[self.files@[i]][j]);
            }
        }
        assert forall|i: int| 0 <= i < new.files@.len() implies new.bytes(
            #[trigger] new.files@[i],
        ).len() <= u64::MAX by {
            if new.files@[i] != a {
                assert(new.bytes(new.files@[i]) == self.bytes(self.files@[i]));
            }
        }
        assert(new.index@.dom() =~= new.contents().dom());
        assert forall|k: Seq<char>| #[trigger] new.index@.contains_key(k) implies new.location_ok(
            k,
        ) by {
            let m = new.index@[k];
            let is_new = match c {
                CommandView::SetValue(kk, _) => kk == k,
                CommandView::Remove(_) => false,
            };
            if is_new {
                assert(new.bytes(a).subrange(m.offset as int, m.offset + m.length) =~= rec);
                assert(self.files@.contains(a)) by {
                    assert(self.files@[self.files@.len() - 1] == a);
                }
            } else {
                assert(self.index@.contains_key(k));
                assert(self.location_ok(k));
                assert(m == self.index@[k]);
                if m.file_number == a {
                    assert(new.bytes(a).subrange(m.offset as int, m.offset + m.length)
                        =~= old_bytes.subrange(m.offset as int, m.offset + m.length));
                }
            }
        }
    }
}

impl LogState {
    spec fn disk(&self) -> Map<u64, Seq<u8>> {
        Map::new(|id: u64| self.files@.contains(id), |id: u64| self.bytes(id))
    }

    /// Decoding each segment's bytes and replaying them in order gives the contents back.
    proof fn lemma_recovered(&self)
        requires
            self.wf(),
        ensures
            recovered(self.files@, self.disk()) == self.contents(),
    {
        let disk = self.disk();
        let decoded = Map::new(
            |id: u64| disk.contains_key(id),
            |id: u64| parse_log(disk[id]).unwrap(),
        );
        assert forall|i: int| 0 <= i < self.files@.len() implies decoded[self.files@[i]]
            == self.log@[self.files@[i]] by {
            let id = self.files@[i];
            assert(self.files@.contains(id));
            assert forall|j: int| 0 <= j < self.log@[id].len() implies encodable(
                #[trigger] self.log@[id][j],
            ) by {
                assert(encodable(self.log@[self.files@[i]][j]));
            }
            lemma_parse_log_encode(self.log@[id]);
        }
        lemma_replay_frame(self.files@, decoded, self.log@);
    }

    fn empty() -> (r: Self)
        ensures
            r.wf(),
            r.files@.len() == 0,
            r.index@ == Map::<Seq<char>, CommandMetaData>::empty(),
            r.uncompacted == 0,
            r.contents() == Map::<Seq<char>, Seq<char>>::empty(),
    {
        let r = LogState {
            index: Index::new(),
            files: Vec::new(),
            uncompacted: 0,
            log: Ghost(Map::empty()),
            stale_total: Ghost(0),
        };
        assert(r.index@.dom() =~= r.contents().dom());
        assert(live_lengths(r.index.keys(), r.index@) =~= Seq::<CommandMetaData>::empty());
        r
    }

    /// Adds the empty segment `id` after all others.
    fn start_segment(&mut self, id: u64)
        requires
            old(self).wf(),
            old(self).files@.len() > 0 ==> old(self).files@.last() < id,
        ensures
            final(self).wf(),
            final(self).files@ == old(self).files@.push(id),
            final(self).log@ == old(self).log@.insert(id, Seq::<CommandView>::empty()),
            final(self).index == old(self).index,
            final(self).uncompacted == old(self).uncompacted,
            final(self).contents() == old(self).contents(),
    {
        let ghost before = *self;
        self.files.push(id);
        self.log = Ghost(self.log@.insert(id, Seq::<CommandView>::empty()));
        proof {
            let files = self.files@;
            assert(files.drop_last() =~= before.files@);
            assert forall|i: int| 0 <= i < before.files@.len() implies before.log@[before.files@[i]]
                == self.log@[before.files@[i]] by {
                if before.files@.len() > 0 {
                    assert(before.files@[i] <= before.files@.last());
                }
            }
            lemma_replay_frame(before.files@, before.log@, self.log@);
            lemma_disk_bytes_frame(before.files@, before.log@, self.log@);
            assert(encode_log(self.log@[id]) =~= Seq::<u8>::empty());
            assert(disk_bytes(files, self.log@) == disk_bytes(before.files@, self.log@));
            assert(replay(files, self.log@) == apply_log(replay(before.files@, self.log@), Seq::<CommandView>::empty()));
            assert forall|i: int, j: int| 0 <= i < files.len() && 0 <= j < self.log@[files[i]].len() implies encodable(
                #[trigger] self.log@[files[i]][j],
            ) by {
                assert(i < before.files@.len());
                assert(self.log@[files[i]] == before.log@[before.files@[i]]);
            }
            assert forall|i: int| 0 <= i < files.len() implies self.bytes(#[trigger] files[i]).len() <= u64::MAX by {
                if i < before.files@.len() {
                    assert(self.bytes(files[i]) == before.bytes(before.files@[i]));
                } else {
                    assert(self.bytes(files[i]) == encode_log(Seq::<CommandView>::empty()));
                }
            }
            assert forall|k: Seq<char>| #[trigger] self.index@.contains_key(k) implies self.location_ok(k) by {
                assert(before.location_ok(k));
                let m = self.index@[k];
                assert(before.files@.contains(m.file_number));
                assert(m.file_number != id);
                assert(self.bytes(m.file_number) == before.bytes(m.file_number));
            }
        }
    }

    /// Applies the record `cmd`, written at `offset` of the last segment.
    fn push_record(&mut self, cmd: &Command, offset: u64, length: u64)
        requires
            old(self).wf(),
            old(self).files@.len() > 0,
            encodable(cmd@),
            offset == old(self).bytes(old(self).files@.last()).len(),
            length == encode_command(cmd@).len(),
            offset + length <= u64::MAX,
        ensures
            final(self).wf(),
            final(self).files == old(self).files,
            final(self).log@ == old(self).log@.insert(
                old(self).files@.last(),
                old(self).log@[old(self).files@.last()].push(cmd@),
            ),
            final(self).contents() == apply_command(old(self).contents(), cmd@),
            (final(self).index@, final(self).uncompacted) == index_step(
                old(self).index@,
                old(self).uncompacted,
                cmd@,
                CommandMetaData { file_number: old(self).files@.last(), offset, length },
            ),
            final(self).bytes(old(self).files@.last()) == old(self).bytes(old(self).files@.last())
                + encode_command(cmd@),
            forall|id: u64| id != old(self).files@.last() ==> final(self).bytes(id) == old(self).bytes(id),
    {
        let ghost before = *self;
        let ghost c = cmd@;
        let ghost a = self.files@.last();
        let last = self.files.len() - 1;
        let loc = CommandMetaData { file_number: self.files[last], offset, length };
        proof {
            self.index.lemma_keys();
        }
        let ghost keys = self.index.keys();
        let ghost idx = self.index@;
        let ghost st = self.stale_total@;
        match cmd {
            Command::SetValue(key, _) => {
                match self.index.insert(key.clone(), loc) {
                    Some(prev) => {
                        self.uncompacted = self.uncompacted.saturating_add(prev.length);
                        proof {
                            let i = choose|i: int| 0 <= i < keys.len() && #[trigger] keys[i] == key@;
                            lemma_live_insert_existing(keys, idx, i, loc);
                            self.stale_total = Ghost((st + prev.length) as nat);
                            assert(self.index.keys() == keys);
                            assert(self.index@ == idx.insert(keys[i], loc));
                            assert(self.live_bytes() == before.live_bytes() - prev.length + length);
                        }
                    },
                    None => {
                        proof {
                            assert forall|j: int| 0 <= j < keys.len() implies keys[j] != key@ by {
                                assert(idx.contains_key(keys[j]));
                            }
                            lemma_live_insert_new(keys, idx, key@, loc);
                            assert(self.live_bytes() == before.live_bytes() + length);
                        }
                    },
                }
            },
            Command::Remove(key) => {
                match self.index.remove(key.as_str()) {
                    Some(prev) => {
                        self.uncompacted = self.uncompacted.saturating_add(prev.length);
                        proof {
                            let i = choose|i: int|
                                0 <= i < keys.len() && keys[i] == key@ && self.index.keys()
                                    == keys.remove(i);
                            lemma_live_remove(keys, idx, i);
                            self.stale_total = Ghost((st + prev.length) as nat);
                            assert(self.live_bytes() == before.live_bytes() - prev.length);
                        }
                    },
                    None => {
                        proof {
                            assert(self.index@ =~= idx);
                            assert(self.live_bytes() == before.live_bytes());
                        }
                    },
                }
                self.uncompacted = self.uncompacted.saturating_add(length);
                proof {
                    self.stale_total = Ghost((self.stale_total@ + length) as nat);
                }
            },
        }
        self.log = Ghost(before.log@.insert(a, before.log@[a].push(c)));
        proof {
            assert(self.live_bytes() + self.stale_total@ == before.live_bytes() + before.stale_total@
                + length);
            before.lemma_append(*self, c);
        }
    }
}

/// The work a compaction leaves to the holder of the files, in this order:
/// create segment `compact_file_number` and append to it, one after the
/// other, the bytes at each location of `copies`; delete every segment of
/// `obsolete`; create the empty segment `active_file_number`.
pub struct CompactionPlan {
    pub compact_file_number: u64,
    pub copies: Vec<CommandMetaData>,
    pub obsolete: Vec<u64>,
    pub active_file_number: u64,
}

/// The log-structured store.
pub struct KVStore {
    state: LogState,
    current_file_number: u64,
    writer: BufferWriterWithPosition,
}

impl View for KVStore {
    type V = Map<Seq<char>, Seq<char>>;

    /// The value of each key.
    closed spec fn view(&self) -> Map<Seq<char>, Seq<char>> {
        self.state.contents()
    }
}

impl KVStore {
    /// The segment numbers, ascending; the last is the active segment.
    pub closed spec fn segment_ids(&self) -> Seq<u64> {
        self.state.files@
    }

    /// The bytes of segment `id`, including those not yet flushed.
    pub closed spec fn segment_bytes(&self, id: u64) -> Seq<u8> {
        self.state.bytes(id)
    }

    /// The total size of the segments.
    pub closed spec fn disk_size(&self) -> nat {
        disk_bytes(self.state.files@, self.state.log@)
    }

    /// The bytes of every segment, by number.
    pub closed spec fn disk(&self) -> Map<u64, Seq<u8>> {
        Map::new(|id: u64| self.state.files@.contains(id), |id: u64| self.state.bytes(id))
    }

    /// Where each live key's latest `SetValue` record lies.
    pub closed spec fn locations(&self) -> Map<Seq<char>, CommandMetaData> {
        self.state.index@
    }

    /// The live keys in the order in which compaction copies them.
    pub closed spec fn live_keys(&self) -> Seq<Seq<char>> {
        self.state.index.keys()
    }

    /// The locations of the live keys, in the order of `live_keys`.
    pub open spec fn live_locations(&self) -> Seq<CommandMetaData> {
        self.live_keys().map_values(|k: Seq<char>| self.locations()[k])
    }

    /// The running count of stale bytes.
    pub closed spec fn stale(&self) -> u64 {
        self.state.uncompacted
    }

    /// The segment that writes go to.
    pub closed spec fn active(&self) -> u64 {
        self.current_file_number
    }

    /// Bytes written to the active segment and not yet handed over by `flush`.
    pub closed spec fn pending(&self) -> Seq<u8> {
        self.writer.spec_pending()
    }

    /// What reading `k` gives: nothing when `k` has no location, else the value
    /// decoded from exactly the bytes that its location names.
    pub open spec fn stored_value(&self, k: Seq<char>) -> Option<Seq<char>> {
        if self.locations().contains_key(k) {
            let m = self.locations()[k];
            match parse_exact(
                self.segment_bytes(m.file_number).subrange(m.offset as int, m.offset + m.length),
            ) {
                Some(CommandView::SetValue(_, v)) => Some(v),
                _ => None,
            }
        } else {
            None
        }
    }

    pub closed spec fn wf(&self) -> bool {
        &&& self.state.wf()
        &&& self.state.files@.len() > 0
        &&& self.state.files@.last() == self.current_file_number
        &&& self.writer.spec_position() == self.state.bytes(self.current_file_number).len()
        &&& self.writer.spec_pending().len() <= self.writer.spec_position()
        &&& self.state.bytes(self.current_file_number).subrange(
            self.writer.spec_position() - self.writer.spec_pending().len(),
            self.writer.spec_position() as int,
        ) == self.writer.spec_pending()
    }

    /// What the model says of a location: it is inside a segment and its bytes decode,
    /// exactly, as the `SetValue` record of the key's value.
    pub proof fn lemma_locations(&self, k: Seq<char>)
        requires
            self.wf(),
        ensures
            self.locations().contains_key(k) == self@.contains_key(k),
            self.locations().contains_key(k) ==> {
                let m = self.locations()[k];
                &&& self.segment_ids().contains(m.file_number)
                &&& m.offset + m.length <= self.segment_bytes(m.file_number).len()
                &&& parse_exact(
                    self.segment_bytes(m.file_number).subrange(m.offset as int, m.offset + m.length),
                ) == Some(CommandView::SetValue(k, self@[k]))
            },
    {
        if self.locations().contains_key(k) {
            assert(self.state.location_ok(k));
            let c = CommandView::SetValue(k, self@[k]);
            lemma_parse_encode(c, seq![]);
            assert(encode_command(c) + seq![] =~= encode_command(c));
        }
    }

    /// The number of the active segment.
    pub fn current_file_number(&self) -> (r: u64)
        ensures
            r == self.active(),
    {
        self.current_file_number
    }

    /// The running count of stale bytes.
    pub fn uncompacted(&self) -> (r: u64)
        ensures
            r == self.stale(),
    {
        self.state.uncompacted
    }

    /// Whether the stale bytes have passed the compaction threshold.
    pub fn needs_compaction(&self) -> (r: bool)
        ensures
            r == (self.stale() > COMPACTION_THRESHOLD),
    {
        self.state.uncompacted > COMPACTION_THRESHOLD
    }

    /// Hands over the bytes to append to the active segment.
    pub fn flush(&mut self) -> (r: Vec<u8>)
        requires
            old(self).wf(),
        ensures
            final(self).wf(),
            r@ == old(self).pending(),
            final(self).pending() == Seq::<u8>::empty(),
            final(self)@ == old(self)@,
            final(self).segment_ids() == old(self).segment_ids(),
            final(self).disk() == old(self).disk(),
            final(self).locations() == old(self).locations(),
            final(self).stale() == old(self).stale(),
            final(self).active() == old(self).active(),
    {
        let r = self.writer.flush();
        assert(self.state.bytes(self.current_file_number).subrange(
            self.writer.spec_position() as int,
            self.writer.spec_position() as int,
        ) =~= Seq::<u8>::empty());
        r
    }

    /// Where the latest `SetValue` record of `key` lies, if the key is live.
    pub fn locate(&self, key: &str) -> (r: Option<CommandMetaData>)
        requires
            self.wf(),
        ensures
            r == (if self@.contains_key(key@) {
                Some(self.locations()[key@])
            } else {
                None
            }),
    {
        proof {
            self.lemma_locations(key@);
        }
        self.state.index.get(key)
    }

    fn append(&mut self, cmd: Command) -> (r: Result<(), KVStoreError>)
        requires
            old(self).wf(),
            cmd@ is Remove ==> old(self)@.contains_key(cmd@->Remove_0),
        ensures
            ({
                let c = cmd@;
                let a = old(self).active();
                let fits = old(self).segment_bytes(a).len() + encode_command(c).len() <= u64::MAX;
                let loc = CommandMetaData {
                    file_number: a,
                    offset: old(self).segment_bytes(a).len() as u64,
                    length: encode_command(c).len() as u64,
                };
                &&& final(self).wf()
                &&& fits ==> {
                    &&& r is Ok
                    &&& final(self)@ == apply_command(old(self)@, c)
                    &&& (final(self).locations(), final(self).stale()) == index_step(
                        old(self).locations(),
                        old(self).stale(),
                        c,
                        loc,
                    )
                    &&& final(self).segment_ids() == old(self).segment_ids()
                    &&& final(self).active() == a
                    &&& final(self).segment_bytes(a) == old(self).segment_bytes(a) + encode_command(c)
                    &&& final(self).pending() == old(self).pending() + encode_command(c)
                    &&& forall|id: u64| id != a ==> final(self).segment_bytes(id) == old(self).segment_bytes(id)
                }
                &&& !fits ==> r == Err::<(), KVStoreError>(KVStoreError::Overflow) && *final(self)
                    == *old(self)
            }),
    {
        let rec = cmd.encode();
        let len = rec.len() as u64;
        if self.writer.position() > u64::MAX - len {
            return Err(KVStoreError::Overflow);
        }
        let ghost before = self.state;
        let ghost a = self.current_file_number;
        let offset = self.writer.position();
        self.writer.write(rec.as_slice());
        self.state.push_record(&cmd, offset, len);
        proof {
            let nb = self.state.bytes(a);
            let p = self.writer.spec_position();
            let q = self.writer.spec_pending();
            assert(nb.subrange(p - q.len(), p as int) =~= q);
        }
        Ok(())
    }

    /// Writes `key = value` to the active segment and points the index at it.
    /// The record's bytes wait in `pending` until `flush`.
    pub fn set(&mut self, key: String, value: String) -> (r: Result<(), KVStoreError>)
        requires
            old(self).wf(),
        ensures
            ({
                let c = CommandView::SetValue(key@, value@);
                let a = old(self).active();
                let fits = old(self).segment_bytes(a).len() + encode_command(c).len() <= u64::MAX;
                let loc = CommandMetaData {
                    file_number: a,
                    offset: old(self).segment_bytes(a).len() as u64,
                    length: encode_command(c).len() as u64,
                };
                &&& final(self).wf()
                &&& fits ==> {
                    &&& r is Ok
                    &&& final(self)@ == old(self)@.insert(key@, value@)
                    &&& final(self).locations() == old(self).locations().insert(key@, loc)
                    &&& final(self).stale() == if old(self).locations().contains_key(key@) {
                        sat_add(old(self).stale(), old(self).locations()[key@].length)
                    } else {
                        old(self).stale()
                    }
                    &&& final(self).segment_ids() == old(self).segment_ids()
                    &&& final(self).active() == a
                    &&& final(self).segment_bytes(a) == old(self).segment_bytes(a) + encode_command(c)
                    &&& final(self).pending() == old(self).pending() + encode_command(c)
                    &&& forall|id: u64| id != a ==> final(self).segment_bytes(id) == old(self).segment_bytes(id)
                }
                &&& !fits ==> r == Err::<(), KVStoreError>(KVStoreError::Overflow) && *final(self)
                    == *old(self)
            }),
    {
        let cmd = Command::set(key, value);
        self.append(cmd)
    }

    /// Drops `key`: the index forgets it and a `Remove` record goes to the active segment.
    pub fn remove(&mut self, key: String) -> (r: Result<(), KVStoreError>)
        requires
            old(self).wf(),
        ensures
            ({
                let c = CommandView::Remove(key@);
                let a = old(self).active();
                let fits = old(self).segment_bytes(a).len() + encode_command(c).len() <= u64::MAX;
                &&& final(self).wf()
                &&& !old(self)@.contains_key(key@) ==> r == Err::<(), KVStoreError>(
                    KVStoreError::KeyNotFound,
                ) && *final(self) == *old(self)
                &&& old(self)@.contains_key(key@) && fits ==> {
                    &&& r is Ok
                    &&& final(self)@ == old(self)@.remove(key@)
                    &&& final(self).locations() == old(self).locations().remove(key@)
                    &&& final(self).stale() == sat_add(
                        sat_add(old(self).stale(), old(self).locations()[key@].length),
                        encode_command(c).len() as u64,
                    )
                    &&& final(self).segment_ids() == old(self).segment_ids()
                    &&& final(self).active() == a
                    &&& final(self).segment_bytes(a) == old(self).segment_bytes(a) + encode_command(c)
                    &&& final(self).pending() == old(self).pending() + encode_command(c)
                    &&& forall|id: u64| id != a ==> final(self).segment_bytes(id) == old(self).segment_bytes(id)
                }
                &&& old(self)@.contains_key(key@) && !fits ==> r == Err::<(), KVStoreError>(
                    KVStoreError::Overflow,
                ) && *final(self) == *old(self)
            }),
    {
        if self.state.index.get(key.as_str()).is_none() {
            return Err(KVStoreError::KeyNotFound);
        }
        let cmd = Command::remove(key);
        self.append(cmd)
    }

    proof fn lemma_after_compaction(
        &self,
        old_state: LogState,
        keys: Seq<Seq<char>>,
        contents: Map<Seq<char>, Seq<char>>,
        sets: Seq<CommandView>,
        new_locs: Seq<CommandMetaData>,
        c: u64,
    )
        requires
            old_state.wf(),
            keys == old_state.index.keys(),
            contents == old_state.contents(),
            sets.len() == keys.len(),
            new_locs.len() == keys.len(),
            forall|j: int|
                0 <= j < sets.len() ==> #[trigger] sets[j] == CommandView::SetValue(
                    keys[j],
                    contents[keys[j]],
                ),
            forall|j: int|
                0 <= j < sets.len() ==> #[trigger] new_locs[j] == (CommandMetaData {
                    file_number: c,
                    offset: encode_log(sets.take(j)).len() as u64,
                    length: encode_command(sets[j]).len() as u64,
                }),
            encode_log(sets).len() <= u64::MAX,
            c + 1 <= u64::MAX,
            self.state.index.wf(),
            self.state.index.keys() == keys,
            self.state.index@.dom() == old_state.index@.dom(),
            forall|j: int| 0 <= j < keys.len() ==> #[trigger] self.state.index@[keys[j]] == new_locs[j],
            self.state.files@ == seq![c, (c + 1) as u64],
            self.state.log@ == Map::<u64, Seq<CommandView>>::empty().insert(c, sets).insert(
                (c + 1) as u64,
                Seq::<CommandView>::empty(),
            ),
            self.current_file_number == c + 1,
            self.writer.spec_position() == 0,
            self.writer.spec_pending().len() == 0,
            self.state.stale_total@ == 0,
            self.state.uncompacted == 0,
            total_length(new_locs) == encode_log(sets).len(),
        ensures
            self.wf(),
            self@ == contents,
            self.segment_bytes(c) == encode_log(sets),
            self.disk_size() == encode_log(sets).len(),
    {
        let next = (c + 1) as u64;
        let files = self.state.files@;
        let log = self.state.log@;
        old_state.index.lemma_keys();
        assert(files.drop_last() =~= seq![c]);
        assert(seq![c].drop_last() =~= Seq::<u64>::empty());
        assert(files.last() == next);
        assert(seq![c].last() == c);
        assert(replay(files, log) == apply_log(replay(seq![c], log), Seq::<CommandView>::empty()));
        assert(log[c] == sets);
        assert(replay(Seq::<u64>::empty(), log) == Map::<Seq<char>, Seq<char>>::empty());
        assert(replay(seq![c], log) == apply_log(replay(seq![c].drop_last(), log), log[c]));
        assert(replay(seq![c], log) == apply_log(Map::empty(), sets));
        assert forall|i: int| 0 <= i < keys.len() implies contents.contains_key(#[trigger] keys[i]) by {
            assert(old_state.index@.contains_key(keys[i]));
        }
        lemma_apply_sets(keys, contents, keys.len() as int);
        assert(sets =~= Seq::new(keys.len(), |i: int| CommandView::SetValue(keys[i], contents[keys[i]])));
        let dom = Set::new(|k: Seq<char>| exists|i: int| 0 <= i < keys.len() && keys[i] == k);
        assert(contents.restrict(dom) =~= contents) by {
            assert forall|k: Seq<char>| contents.contains_key(k) implies dom.contains(k) by {
                assert(old_state.index@.contains_key(k));
                let i = choose|i: int| 0 <= i < keys.len() && #[trigger] keys[i] == k;
            }
        }
        assert(self@ == contents);
        assert forall|j: int| 0 <= j < sets.len() implies encodable(#[trigger] sets[j]) by {
            assert(old_state.index@.contains_key(keys[j]));
            assert(old_state.location_ok(keys[j]));
        }
        assert forall|i: int, j: int|
            0 <= i < files.len() && 0 <= j < log[files[i]].len() implies encodable(
            #[trigger] log[files[i]][j],
        ) by {
            if i == 0 {
                assert(log[files[i]] == sets);
            } else {
                assert(log[files[i]] == Seq::<CommandView>::empty());
            }
        }
        assert(self.state.bytes(next) == encode_log(Seq::<CommandView>::empty()));
        assert(self.state.bytes(c) == encode_log(sets));
        assert forall|i: int| 0 <= i < files.len() implies self.state.bytes(#[trigger] files[i]).len()
            <= u64::MAX by {
            if i == 0 {
            } else {
            }
        }
        assert forall|k: Seq<char>| #[trigger] self.state.index@.contains_key(k) implies self.state.location_ok(
            k,
        ) by {
            let j = choose|j: int| 0 <= j < keys.len() && #[trigger] keys[j] == k;
            assert(old_state.index@.contains_key(k));
            assert(old_state.location_ok(k));
            lemma_encode_log_slice(sets, j);
            assert(files.contains(c)) by {
                assert(files[0] == c);
            }
        }
        assert(self.state.index@.dom() =~= self.state.contents().dom());
        assert(self.state.bytes(next).subrange(0, 0) =~= self.writer.spec_pending());
        assert(live_lengths(keys, self.state.index@) =~= new_locs);
        assert(disk_bytes(files, log) == disk_bytes(seq![c], log) + encode_log(log[next]).len());
        assert(disk_bytes(seq![c], log) == disk_bytes(Seq::<u64>::empty(), log) + encode_log(log[c]).len());
    }

    /// Rewrites the live records into a fresh segment and starts a new active
    /// segment after it; every older segment becomes obsolete. The engine's
    /// state changes at once; the returned plan says what the files must go
    /// through to match it.
    pub fn compact(&mut self) -> (r: Result<CompactionPlan, KVStoreError>)
        requires
            old(self).wf(),
            old(self).pending().len() == 0,
        ensures
            final(self).wf(),
            match r {
                Ok(plan) => {
                    let c = plan.compact_file_number;
                    &&& c == old(self).active() + 1
                    &&& plan.active_file_number == c + 1
                    &&& plan.obsolete@ == old(self).segment_ids()
                    &&& plan.copies@ == old(self).live_locations()
                    &&& final(self)@ == old(self)@
                    &&& final(self).segment_ids() == seq![c, (c + 1) as u64]
                    &&& final(self).active() == c + 1
                    &&& final(self).segment_bytes(c) == gather(
                        |id: u64| old(self).segment_bytes(id),
                        plan.copies@,
                    )
                    &&& final(self).segment_bytes((c + 1) as u64).len() == 0
                    &&& final(self).pending().len() == 0
                    &&& final(self).stale() == 0
                    &&& final(self).disk_size() == total_length(old(self).live_locations())
                    &&& final(self).disk_size() <= old(self).disk_size()
                },
                Err(e) => {
                    &&& e == KVStoreError::Overflow
                    &&& old(self).active() + 2 > u64::MAX || total_length(old(self).live_locations())
                        > u64::MAX
                    &&& *final(self) == *old(self)
                },
            },
            r is Err ==> old(self).active() + 2 > u64::MAX || total_length(
                old(self).live_locations(),
            ) > u64::MAX,
            old(self).active() + 2 <= u64::MAX && total_length(old(self).live_locations())
                <= u64::MAX ==> r is Ok,
    {
        let cur = self.current_file_number;
        if cur > u64::MAX - 2 {
            return Err(KVStoreError::Overflow);
        }
        let compact_id = cur + 1;
        let ghost contents = self.state.contents();
        let ghost keys = self.state.index.keys();
        let ghost locs = self.live_locations();
        proof {
            self.state.index.lemma_keys();
        }
        let n = self.state.index.len();
        let mut copies: Vec<CommandMetaData> = Vec::new();
        let mut new_locs: Vec<CommandMetaData> = Vec::new();
        let mut offset: u64 = 0;
        let ghost mut sets: Seq<CommandView> = seq![];
        let mut i: usize = 0;
        while i < n
            invariant
                self.wf(),
                *self == *old(self),
                n == keys.len(),
                keys == self.state.index.keys(),
                contents == self.state.contents(),
                locs == self.live_locations(),
                i <= n,
                copies@ == locs.take(i as int),
                new_locs@.len() == i,
                sets.len() == i,
                offset == total_length(copies@),
                offset == total_length(new_locs@),
                offset == encode_log(sets).len(),
                gather(|id: u64| self.state.bytes(id), copies@) == encode_log(sets),
                forall|j: int|
                    0 <= j < i ==> #[trigger] sets[j] == CommandView::SetValue(
                        keys[j],
                        contents[keys[j]],
                    ),
                forall|j: int|
                    0 <= j < i ==> #[trigger] new_locs@[j] == (CommandMetaData {
                        file_number: compact_id,
                        offset: encode_log(sets.take(j)).len() as u64,
                        length: encode_command(sets[j]).len() as u64,
                    }),
            decreases n - i,
        {
            let m = self.state.index.meta_at(i);
            let ghost k = keys[i as int];
            proof {
                self.state.index.lemma_keys();
                assert(self.state.index@.contains_key(k));
                assert(self.state.location_ok(k));
            }
            if offset > u64::MAX - m.length {
                proof {
                    assert(locs.take(i + 1) =~= copies@.push(m));
                    assert(locs.take(i + 1).drop_last() =~= copies@);
                    lemma_total_length_prefix(locs, i + 1);
                }
                return Err(KVStoreError::Overflow);
            }
            let ghost c = CommandView::SetValue(k, contents[k]);
            let ghost prev_sets = sets;
            let ghost prev_copies = copies@;
            let ghost prev_new_locs = new_locs@;
            copies.push(m);
            new_locs.push(CommandMetaData { file_number: compact_id, offset, length: m.length });
            offset = offset + m.length;
            proof {
                sets = sets.push(c);
                lemma_encode_log_push(prev_sets, c);
                assert(copies@.drop_last() =~= prev_copies);
                assert(new_locs@.drop_last() =~= prev_new_locs);
                assert(locs.take(i + 1) =~= copies@);
                assert(sets.take(i as int) =~= prev_sets);
                assert forall|j: int| 0 <= j < i + 1 implies #[trigger] new_locs@[j] == CommandMetaData {
                    file_number: compact_id,
                    offset: encode_log(sets.take(j)).len() as u64,
                    length: encode_command(sets[j]).len() as u64,
                } by {
                    if j < i {
                        assert(sets.take(j) =~= prev_sets.take(j));
                    }
                }
            }
            i = i + 1;
        }
        proof {
            assert(locs.take(n as int) =~= locs);
            assert((|id: u64| old(self).segment_bytes(id)) =~= (|id: u64| self.state.bytes(id)));
            assert(gather(|id: u64| old(self).segment_bytes(id), copies@) == encode_log(sets));
            assert(locs =~= live_lengths(keys, self.state.index@));
            assert(old(self).state.accounted());
        }
        // from here on nothing can fail
        let ghost old_state = self.state;
        let mut i: usize = 0;
        while i < n
            invariant
                n == keys.len(),
                i <= n,
                new_locs@.len() == n,
                self.state.index.wf(),
                self.state.index.keys() == keys,
                forall|j: int|
                    0 <= j < n ==> #[trigger] self.state.index@[keys[j]] == if j < i {
                        new_locs@[j]
                    } else {
                        old_state.index@[keys[j]]
                    },
                self.state.index@.dom() == old_state.index@.dom(),
                self.state.files@ == old_state.files@,
                old_state == old(self).state,
                forall|a: int, b: int| 0 <= a < b < keys.len() ==> keys[a] != keys[b],
            decreases n - i,
        {
            proof {
                self.state.index.lemma_keys();
            }
            self.state.index.set_meta_at(i, new_locs[i]);
            proof {
                assert(self.state.index@.dom() =~= old_state.index@.dom());
                assert forall|j: int| 0 <= j < n implies #[trigger] self.state.index@[keys[j]] == if j < i + 1 {
                    new_locs@[j]
                } else {
                    old_state.index@[keys[j]]
                } by {
                    if j != i {
                        assert(keys[j] != keys[i as int]);
                    }
                }
            }
            i = i + 1;
        }
        let next_id = compact_id + 1;
        let ghost new_log = Map::empty().insert(compact_id, sets).insert(next_id, Seq::<CommandView>::empty());
        let mut obsolete: Vec<u64> = vec![compact_id, next_id];
        std::mem::swap(&mut obsolete, &mut self.state.files);
        self.state.log = Ghost(new_log);
        self.state.uncompacted = 0;
        self.state.stale_total = Ghost(0);
        self.current_file_number = next_id;
        self.writer = BufferWriterWithPosition::new(0);
        proof {
            self.lemma_after_compaction(old_state, keys, contents, sets, new_locs@, compact_id);
            assert(self.segment_bytes(next_id).len() == 0);
        }
        Ok(CompactionPlan {
            compact_file_number: compact_id,
            copies,
            obsolete,
            active_file_number: next_id,
        })
    }
}

/// Decodes a whole segment: its records, each one's offset and each one's length.
fn decode_segment(data: &[u8]) -> (r: Result<(Vec<Command>, Vec<u64>, Vec<u64>), KVStoreError>)
    ensures
        parse_log(data@) is None ==> r == Err::<(Vec<Command>, Vec<u64>, Vec<u64>), KVStoreError>(
            KVStoreError::Serialization,
        ),
        parse_log(data@) is Some ==> (r matches Ok((cmds, offsets, lengths)) && {
            let cs = parse_log(data@).unwrap();
            &&& cmds@.len() == cs.len()
            &&& offsets@.len() == cs.len()
            &&& lengths@.len() == cs.len()
            &&& forall|j: int|
                0 <= j < cs.len() ==> {
                    &&& #[trigger] cmds@[j]@ == cs[j]
                    &&& offsets@[j] == encode_log(cs.take(j)).len()
                    &&& lengths@[j] == encode_command(cs[j]).len()
                }
        }),
{
    let ghost d = data@;
    let size: usize = data.len();
    assert(size as int <= u64::MAX);
    let mut reader = BufferReaderWithPosition::new(slice_to_vec(data));
    let mut cmds: Vec<Command> = Vec::new();
    let mut offsets: Vec<u64> = Vec::new();
    let mut lengths: Vec<u64> = Vec::new();
    let ghost mut cs: Seq<CommandView> = seq![];
    assert(reader.rest() =~= d);
    while !reader.is_at_end()
        invariant
            reader.wf(),
            reader.spec_data() == d,
            d == data@,
            d.len() <= u64::MAX,
            cmds@.len() == cs.len(),
            offsets@.len() == cs.len(),
            lengths@.len() == cs.len(),
            forall|j: int|
                0 <= j < cs.len() ==> {
                    &&& #[trigger] cmds@[j]@ == cs[j]
                    &&& offsets@[j] == encode_log(cs.take(j)).len()
                    &&& lengths@[j] == encode_command(cs[j]).len()
                },
            reader.spec_position() == encode_log(cs).len(),
            parse_log(d) == join_log(cs, parse_log(reader.rest())),
        decreases d.len() - reader.spec_position(),
    {
        let start = reader.position();
        let ghost rest = reader.rest();
        match reader.read_command() {
            Err(e) => {
                proof {
                    assert(rest.len() > 0);
                    assert(parse_log(rest) is None);
                }
                return Err(e);
            },
            Ok(cmd) => {
                let end = reader.position();
                proof {
                    lemma_parse_canonical(rest);
                    let (c, n) = parse_command(rest).unwrap();
                    assert(reader.spec_position() == start + n);
                    assert(reader.rest() =~= rest.subrange(n, rest.len() as int));
                    let prev = cs;
                    lemma_encode_log_push(prev, c);
                    match parse_log(reader.rest()) {
                        Some(r) => {
                            assert(prev + (seq![c] + r) =~= prev.push(c) + r);
                        },
                        None => {},
                    }
                    cs = cs.push(c);
                    assert(cs.take(prev.len() as int) =~= prev);
                    assert forall|j: int| 0 <= j < prev.len() implies cs.take(j) == prev.take(j) by {
                        assert(cs.take(j) =~= prev.take(j));
                    }
                }
                let ghost old_cmds = cmds@;
                let ghost old_offsets = offsets@;
                let ghost old_lengths = lengths@;
                offsets.push(start);
                lengths.push(end - start);
                cmds.push(cmd);
                proof {
                    let i = cs.len() - 1;
                    let prev = cs.drop_last();
                    assert(prev =~= cs.take(i));
                    assert forall|j: int| 0 <= j < cs.len() implies {
                        &&& #[trigger] cmds@[j]@ == cs[j]
                        &&& offsets@[j] == encode_log(cs.take(j)).len()
                        &&& lengths@[j] == encode_command(cs[j]).len()
                    } by {
                        if j < i {
                            assert(cmds@[j] == old_cmds[j]);
                            assert(old_cmds[j]@ == prev[j]);
                            assert(offsets@[j] == old_offsets[j]);
                            assert(lengths@[j] == old_lengths[j]);
                            assert(cs.take(j) =~= prev.take(j));
                        }
                    }
                }
            },
        }
    }
    proof {
        assert(reader.rest() =~= Seq::<u8>::empty());
        assert(cs + Seq::<CommandView>::empty() =~= cs);
    }
    Ok((cmds, offsets, lengths))
}

/// Rebuilds the engine's state from the existing segments, oldest first.
pub struct Recovery {
    state: LogState,
}

impl View for Recovery {
    type V = Map<Seq<char>, Seq<char>>;

    /// The value of each key, after the segments loaded so far.
    closed spec fn view(&self) -> Map<Seq<char>, Seq<char>> {
        self.state.contents()
    }
}

impl Recovery {
    /// The segments loaded so far, ascending.
    pub closed spec fn segment_ids(&self) -> Seq<u64> {
        self.state.files@
    }

    /// The bytes of each segment loaded so far.
    pub closed spec fn disk(&self) -> Map<u64, Seq<u8>> {
        self.state.disk()
    }

    /// Where each live key's latest `SetValue` record lies.
    pub closed spec fn locations(&self) -> Map<Seq<char>, CommandMetaData> {
        self.state.index@
    }

    /// The stale bytes found so far.
    pub closed spec fn stale(&self) -> u64 {
        self.state.uncompacted
    }

    pub closed spec fn wf(&self) -> bool {
        self.state.wf()
    }

    /// Recovery over a directory that holds no segment yet.
    pub fn new() -> (r: Recovery)
        ensures
            r.wf(),
            r@ == Map::<Seq<char>, Seq<char>>::empty(),
            r.segment_ids().len() == 0,
            r.disk() == Map::<u64, Seq<u8>>::empty(),
            r.locations() == Map::<Seq<char>, CommandMetaData>::empty(),
            r.stale() == 0,
    {
        let r = Recovery { state: LogState::empty() };
        assert(r.disk() =~= Map::<u64, Seq<u8>>::empty());
        r
    }

    /// Replays segment `file_number`, whose bytes are `data`. A segment that is
    /// not a whole number of records, a cut-off last record included, is refused
    /// with `Serialization` and leaves the recovery as it was.
    pub fn load_segment(&mut self, file_number: u64, data: Vec<u8>) -> (r: Result<(), KVStoreError>)
        requires
            old(self).wf(),
            old(self).segment_ids().len() > 0 ==> old(self).segment_ids().last() < file_number,
        ensures
            final(self).wf(),
            final(self)@ == recovered(final(self).segment_ids(), final(self).disk()),
            match parse_log(data@) {
                None => r == Err::<(), KVStoreError>(KVStoreError::Serialization) && *final(self)
                    == *old(self),
                Some(cs) => {
                    &&& r is Ok
                    &&& final(self).segment_ids() == old(self).segment_ids().push(file_number)
                    &&& final(self).disk() == old(self).disk().insert(file_number, data@)
                    &&& final(self)@ == apply_log(old(self)@, cs)
                    &&& (final(self).locations(), final(self).stale()) == replay_index(
                        old(self).locations(),
                        old(self).stale(),
                        file_number,
                        cs,
                    )
                },
            },
    {
        let ghost d = data@;
        let size: usize = data.len();
        assert(size as int <= u64::MAX);
        proof {
            self.state.lemma_recovered();
        }
        let (cmds, offsets, lengths) = match decode_segment(data.as_slice()) {
            Ok(decoded) => decoded,
            Err(e) => {
                return Err(e);
            },
        };
        let ghost cs = parse_log(d).unwrap();
        proof {
            lemma_parse_log_canonical(d);
        }
        let ghost before = self.state;
        self.state.start_segment(file_number);
        assert(cs.take(0) =~= Seq::<CommandView>::empty());
        let mut i: usize = 0;
        while i < cmds.len()
            invariant
                before.wf(),
                !before.files@.contains(file_number),
                self.state.wf(),
                encode_log(cs) == d,
                d.len() <= u64::MAX,
                forall|j: int| 0 <= j < cs.len() ==> encodable(#[trigger] cs[j]),
                cmds@.len() == cs.len(),
                offsets@.len() == cs.len(),
                lengths@.len() == cs.len(),
                forall|j: int|
                    0 <= j < cs.len() ==> {
                        &&& #[trigger] cmds@[j]@ == cs[j]
                        &&& offsets@[j] == encode_log(cs.take(j)).len()
                        &&& lengths@[j] == encode_command(cs[j]).len()
                    },
                i <= cs.len(),
                self.state.files@ == before.files@.push(file_number),
                self.state.log@ == before.log@.insert(file_number, cs.take(i as int)),
                self.state.contents() == apply_log(before.contents(), cs.take(i as int)),
                (self.state.index@, self.state.uncompacted) == replay_index(
                    before.index@,
                    before.uncompacted,
                    file_number,
                    cs.take(i as int),
                ),
            decreases cs.len() - i,
        {
            proof {
                let next = cs.take(i + 1);
                assert(next.drop_last() =~= cs.take(i as int));
                assert(cs.take(i as int).push(cs[i as int]) =~= next);
                lemma_encode_log_push(cs.take(i as int), cs[i as int]);
                lemma_encode_log_append(next, cs.skip(i + 1));
                assert(next + cs.skip(i + 1) =~= cs);
                assert(self.state.files@.last() == file_number);
                assert(self.state.log@[file_number] == cs.take(i as int));
                assert(self.state.bytes(file_number) == encode_log(cs.take(i as int)));
                assert(cmds@[i as int]@ == cs[i as int]);
                assert(offsets@[i as int] == encode_log(cs.take(i as int)).len());
            }
            self.state.push_record(&cmds[i], offsets[i], lengths[i]);
            assert(self.state.log@ =~= before.log@.insert(file_number, cs.take(i + 1)));
            i = i + 1;
        }
        proof {
            assert(cs.take(cs.len() as int) =~= cs);
            assert(self.disk() =~= old(self).disk().insert(file_number, d)) by {
                assert forall|id: u64| #[trigger] before.files@.contains(id) implies self.state.bytes(id)
                    == before.bytes(id) by {
                    assert(id != file_number);
                }
                assert(self.state.files@.contains(file_number)) by {
                    assert(self.state.files@[before.files@.len() as int] == file_number);
                }
                assert forall|id: u64| #[trigger] self.state.files@.contains(id) implies (before.files@.contains(id) || id == file_number) by {
                    let k = choose|k: int| 0 <= k < self.state.files@.len() && self.state.files@[k] == id;
                    if k < before.files@.len() {
                        assert(before.files@[k] == id);
                    }
                }
                assert forall|id: u64| #[trigger] before.files@.contains(id) implies self.state.files@.contains(id) by {
                    let k = choose|k: int| 0 <= k < before.files@.len() && before.files@[k] == id;
                    assert(self.state.files@[k] == id);
                }
            }
            self.state.lemma_recovered();
        }
        Ok(())
    }

    /// Ends recovery: opens the empty active segment after the last one loaded.
    /// Fails with `Overflow` when the last segment number is `u64::MAX`.
    pub fn finish(self) -> (r: Result<KVStore, KVStoreError>)
        requires
            self.wf(),
        ensures
            next_segment_id(self.segment_ids()) > u64::MAX ==> r == Err::<KVStore, KVStoreError>(
                KVStoreError::Overflow,
            ),
            next_segment_id(self.segment_ids()) <= u64::MAX ==> (r matches Ok(s) && {
                let a = next_segment_id(self.segment_ids()) as u64;
                &&& s.wf()
                &&& s@ == self@
                &&& s.active() == a
                &&& s.segment_ids() == self.segment_ids().push(a)
                &&& s.disk() == self.disk().insert(a, Seq::<u8>::empty())
                &&& s.locations() == self.locations()
                &&& s.stale() == self.stale()
                &&& s.pending().len() == 0
            }),
    {
        let a: u64 = if self.state.files.len() == 0 {
            1
        } else {
            let last = self.state.files[self.state.files.len() - 1];
            if last == u64::MAX {
                return Err(KVStoreError::Overflow);
            }
            last + 1
        };
        let ghost before = self.state;
        let mut state = self.state;
        state.start_segment(a);
        let s = KVStore { state, current_file_number: a, writer: BufferWriterWithPosition::new(0) };
        proof {
            assert(s.state.bytes(a) == encode_log(Seq::<CommandView>::empty()));
            assert(s.state.bytes(a).subrange(0, 0) =~= s.writer.spec_pending());
            assert(s.disk() =~= before.disk().insert(a, Seq::<u8>::empty())) by {
                assert forall|id: u64| #[trigger] before.files@.contains(id) implies s.state.bytes(id)
                    == before.bytes(id) by {
                    if before.files@.len() > 0 {
                        let k = choose|k: int| 0 <= k < before.files@.len() && before.files@[k] == id;
                        assert(before.files@[k] <= before.files@.last());
                    }
                }
                assert(s.state.files@.contains(a)) by {
                    assert(s.state.files@[before.files@.len() as int] == a);
                }
                assert forall|id: u64| #[trigger] s.state.files@.contains(id) implies (before.files@.contains(id) || id == a) by {
                    let k = choose|k: int| 0 <= k < s.state.files@.len() && s.state.files@[k] == id;
                    if k < before.files@.len() {
                        assert(before.files@[k] == id);
                    }
                }
                assert forall|id: u64| #[trigger] before.files@.contains(id) implies s.state.files@.contains(id) by {
                    let k = choose|k: int| 0 <= k < before.files@.len() && before.files@[k] == id;
                    assert(s.state.files@[k] == id);
                }
            }
        }
        Ok(s)
    }
}

/// Reads agree with the contents: what the log holds at a key's location is
/// the key's current value, and a key without a value has no location.
pub proof fn lemma_stored_value(s: &KVStore, k: Seq<char>)
    requires
        s.wf(),
    ensures
        s.stored_value(k) == (if s@.contains_key(k) {
            Some(s@[k])
        } else {
            None
        }),
{
    s.lemma_locations(k);
}

/// A read right after `set(k, v)` gives `v`.
pub proof fn lemma_set_then_get(before: &KVStore, after: &KVStore, k: Seq<char>, v: Seq<char>)
    requires
        before.wf(),
        after.wf(),
        after@ == before@.insert(k, v),
    ensures
        after.stored_value(k) == Some(v),
{
    lemma_stored_value(after, k);
}

/// After a successful `remove(k)`, a read of `k` gives nothing and a second
/// `remove(k)` finds no key.
pub proof fn lemma_remove_then_get(before: &KVStore, after: &KVStore, k: Seq<char>)
    requires
        before.wf(),
        after.wf(),
        after@ == before@.remove(k),
    ensures
        after.stored_value(k) is None,
        !after@.contains_key(k),
{
    lemma_stored_value(after, k);
}

/// Of two writes to the same key, the later one is what a read gives.
pub proof fn lemma_overwrite(
    first: &KVStore,
    second: &KVStore,
    third: &KVStore,
    k: Seq<char>,
    v1: Seq<char>,
    v2: Seq<char>,
)
    requires
        first.wf(),
        second.wf(),
        third.wf(),
        second@ == first@.insert(k, v1),
        third@ == second@.insert(k, v2),
    ensures
        third.stored_value(k) == Some(v2),
{
    lemma_stored_value(third, k);
}

/// Replaying the segment files of a store, oldest first, gives back its
/// contents: closing the store and recovering from its files loses nothing.
pub proof fn lemma_recovery_fidelity(s: &KVStore)
    requires
        s.wf(),
    ensures
        recovered(s.segment_ids(), s.disk()) == s@,
        forall|i: int|
            0 <= i < s.segment_ids().len() ==> parse_log(
                #[trigger] s.disk()[s.segment_ids()[i]],
            ) is Some,
{
    s.state.lemma_recovered();
    assert forall|i: int| 0 <= i < s.segment_ids().len() implies parse_log(
        #[trigger] s.disk()[s.segment_ids()[i]],
    ) is Some by {
        let id = s.segment_ids()[i];
        assert(s.state.files@.contains(id));
        assert forall|j: int| 0 <= j < s.state.log@[id].len() implies encodable(
            #[trigger] s.state.log@[id][j],
        ) by {
            assert(encodable(s.state.log@[s.state.files@[i]][j]));
        }
        lemma_parse_log_encode(s.state.log@[id]);
    }
}

/// Two stores with the same contents give the same read for every key; so
/// compaction, which keeps the contents, changes no read.
pub proof fn lemma_same_contents_same_reads(a: &KVStore, b: &KVStore)
    requires
        a.wf(),
        b.wf(),
        a@ == b@,
    ensures
        forall|k: Seq<char>| #[trigger] a.stored_value(k) == b.stored_value(k),
{
    assert forall|k: Seq<char>| #[trigger] a.stored_value(k) == b.stored_value(k) by {
        lemma_stored_value(a, k);
        lemma_stored_value(b, k);
    }
}

/// The value held by the bytes of one record: the value of a `SetValue`
/// record, `UnexpectedCommandType` for a `Remove` record, and
/// `Serialization` for bytes that are not exactly one record.
pub fn read_value(record: &[u8]) -> (r: Result<String, KVStoreError>)
    ensures
        match parse_exact(record@) {
            Some(CommandView::SetValue(_, v)) => r matches Ok(s) && s@ == v,
            Some(CommandView::Remove(_)) => r == Err::<String, KVStoreError>(
                KVStoreError::UnexpectedCommandType,
            ),
            None => r == Err::<String, KVStoreError>(KVStoreError::Serialization),
        },
{
    let mut reader = BufferReaderWithPosition::new(slice_to_vec(record));
    assert(reader.rest() =~= record@);
    match reader.read_command() {
        Ok(cmd) => {
            if !reader.is_at_end() {
                return Err(KVStoreError::Serialization);
            }
            match cmd {
                Command::SetValue(_, v) => Ok(v),
                Command::Remove(_) => Err(KVStoreError::UnexpectedCommandType),
            }
        },
        Err(e) => Err(e),
    }
}

} // verus!
