//! The state of a store that its segments determine, and how writes,
//! removals, recovery and compaction change it.

use crate::error::KvsError;
use crate::index::{
    index_entries, index_get, key_before, index_insert, index_len, index_new, index_remove, index_snapshot,
    KeyIndex,
};
use crate::record::{apply, last_value, lemma_replay_last_value, replay, Command, CommandPos, Op};
use vstd::prelude::*;
use vstd::string::StringExecFns;

verus! {

/// A record read back from a segment, with the offset just past its last byte.
pub struct LogEntry {
    pub command: Command,
    pub end: u64,
}

/// One live record that compaction copies: the key, where its record lies,
/// and where the copy goes.
pub struct Move {
    pub key: String,
    pub from: CommandPos,
    pub to: CommandPos,
}

/// What a compaction asks of the segment files: copy each record of `moves`
/// into segment `target`, append from now on to segment `active`, and drop
/// every segment below `target`. `size` is the length of `target` once the
/// copies are made.
pub struct Compaction {
    pub target: u64,
    pub active: u64,
    pub moves: Vec<Move>,
    pub size: u64,
}

/// `a + b`, held at `u64::MAX` when it would go past it.
pub open spec fn sat_add(a: u64, b: u64) -> u64 {
    if a + b > u64::MAX {
        u64::MAX
    } else {
        (a + b) as u64
    }
}

/// The state of a store that the log on disk determines: the key index, the
/// active segment and its next append offset, and the count of bytes that
/// compaction could reclaim.
///
/// Besides these it carries, as ghost state, the sequence of all records on
/// disk in order, which record starts at each (segment, offset), how many
/// bytes its segments hold, and its history: every write and removal it was
/// asked to make, or read back, in order, which compaction does not rewrite.
pub struct StoreState {
    index: KeyIndex,
    log_id: u64,
    pos: u64,
    uncompacted: u64,
    threshold: u64,
    log: Ghost<Seq<Op>>,
    records: Ghost<Map<(u64, u64), Op>>,
    disk: Ghost<nat>,
    history: Ghost<Seq<Op>>,
}

impl StoreState {
    /// The key index: key to (segment, offset, length).
    pub closed spec fn index(&self) -> Map<Seq<char>, (u64, u64, u64)> {
        index_entries(self.index)
    }

    /// Every record on disk, segments in ascending order.
    pub closed spec fn log(&self) -> Seq<Op> {
        self.log@
    }

    /// The record that starts at `pos` of segment `log_id`.
    pub closed spec fn record_at(&self, log_id: u64, pos: u64) -> Op {
        self.records@[(log_id, pos)]
    }

    /// Every write and removal the store made or read back, in order.
    pub closed spec fn history(&self) -> Seq<Op> {
        self.history@
    }

    /// The bytes that the store's segments hold.
    pub closed spec fn disk(&self) -> nat {
        self.disk@
    }

    /// The active segment, where records are appended.
    pub closed spec fn active(&self) -> u64 {
        self.log_id
    }

    /// The offset in the active segment at which the next record goes.
    pub closed spec fn next_pos(&self) -> u64 {
        self.pos
    }

    /// The bytes on disk that compaction could reclaim.
    pub closed spec fn unc(&self) -> u64 {
        self.uncompacted
    }

    /// The reclaimable bytes past which compaction is due.
    pub closed spec fn limit(&self) -> u64 {
        self.threshold
    }

    /// The key/value mapping that the store holds: what its log describes.
    pub open spec fn contents(&self) -> Map<Seq<char>, Seq<char>> {
        replay(self.log())
    }

    /// The index covers exactly the keys of the mapping; each locator lies in
    /// a sealed segment or in the written part of the active one, and points
    /// at the write of the key's current value.
    pub closed spec fn wf(&self) -> bool {
        let idx = index_entries(self.index);
        let d = replay(self.log@);
        &&& idx.dom() == d.dom()
        &&& idx.dom().finite()
        &&& map_sum(idx) <= self.disk@
        &&& replay(self.history@) == d
        &&& forall|k: Seq<char>| #[trigger]
            idx.contains_key(k) ==> {
                let loc = idx[k];
                &&& loc.2 > 0
                &&& (loc.0 < self.log_id || (loc.0 == self.log_id && loc.1 + loc.2
                    <= self.pos))
                &&& self.records@[(loc.0, loc.1)] == Op::Write(k, d[k])
            }
    }

    /// An empty store whose active segment is 0, compacting once more than
    /// `threshold` bytes are reclaimable.
    pub fn new(threshold: u64) -> (r: StoreState)
        ensures
            r.wf(),
            r.log() == Seq::<Op>::empty(),
            r.history() == Seq::<Op>::empty(),
            r.index().dom() == Set::<Seq<char>>::empty(),
            r.active() == 0,
            r.next_pos() == 0,
            r.unc() == 0,
            r.limit() == threshold,
            r.disk() == 0,
    {
        let r = StoreState {
            index: index_new(),
            log_id: 0,
            pos: 0,
            uncompacted: 0,
            threshold,
            log: Ghost(Seq::empty()),
            records: Ghost(Map::empty()),
            disk: Ghost(0),
            history: Ghost(Seq::empty()),
        };
        assert(r.index().dom() =~= replay(r.log@).dom());
        assert(r.index().dom() =~= Set::<Seq<char>>::empty());
        r
    }

    /// The active segment, where records are appended.
    pub fn active_log_id(&self) -> (r: u64)
        ensures
            r == self.active(),
    {
        self.log_id
    }

    /// The offset in the active segment at which the next record goes.
    pub fn write_pos(&self) -> (r: u64)
        ensures
            r == self.next_pos(),
    {
        self.pos
    }

    /// The bytes on disk that compaction could reclaim.
    pub fn uncompacted(&self) -> (r: u64)
        ensures
            r == self.unc(),
    {
        self.uncompacted
    }

    /// The number of keys the store holds.
    pub fn len(&self) -> (r: usize)
        requires
            self.wf(),
        ensures
            r as nat == self.index().len(),
    {
        index_len(&self.index)
    }

    /// Where the current value of `key` lies, if the store holds the key.
    pub fn locate(&self, key: &String) -> (r: Option<CommandPos>)
        requires
            self.wf(),
        ensures
            r is None <==> !self.contents().contains_key(key@),
            r matches Some(p) ==> {
                &&& p.triple() == self.index()[key@]
                &&& self.record_at(p.log_id, p.pos) == Op::Write(key@, self.contents()[key@])
            },
    {
        match index_get(&self.index, key) {
            Some(t) => {
                assert(self.index().contains_key(key@));
                Some(CommandPos { log_id: t.0, pos: t.1, len: t.2 })
            },
            None => {
                assert(!self.index().dom().contains(key@));
                None
            },
        }
    }

    /// Whether `key` can be removed: `KeyNotFound` exactly when the store
    /// does not hold it.
    pub fn check_remove(&self, key: &String) -> (r: Result<(), KvsError>)
        requires
            self.wf(),
        ensures
            r is Ok <==> self.contents().contains_key(key@),
            r is Err ==> r == Err::<(), KvsError>(KvsError::KeyNotFound),
    {
        match index_get(&self.index, key) {
            Some(_) => Ok(()),
            None => {
                assert(!self.index().dom().contains(key@));
                Err(KvsError::KeyNotFound)
            },
        }
    }

    /// Accounts for a write of `key` appended at the write position, `len`
    /// bytes long: the index points the key at it, a value it replaces counts
    /// as reclaimable, and the result says whether compaction is due.
    pub fn record_set(&mut self, key: String, value: &String, len: u64) -> (compact: bool)
        requires
            old(self).wf(),
            len > 0,
            old(self).next_pos() + len <= u64::MAX,
        ensures
            final(self).wf(),
            final(self).log() == old(self).log().push(Op::Write(key@, value@)),
            final(self).history() == old(self).history().push(Op::Write(key@, value@)),
            final(self).contents() == old(self).contents().insert(key@, value@),
            final(self).index() == old(self).index().insert(
                key@,
                (old(self).active(), old(self).next_pos(), len),
            ),
            final(self).active() == old(self).active(),
            final(self).next_pos() == old(self).next_pos() + len,
            final(self).limit() == old(self).limit(),
            final(self).unc() == (if old(self).index().contains_key(key@) {
                sat_add(old(self).unc(), old(self).index()[key@].2)
            } else {
                old(self).unc()
            }),
            compact == (final(self).unc() > final(self).limit()),
            final(self).disk() == old(self).disk() + len,
    {
        let prev = index_get(&self.index, &key);
        if let Some(p) = prev {
            self.uncompacted = self.uncompacted.saturating_add(p.2);
        }
        let here = self.pos;
        let ghost op = Op::Write(key@, value@);
        let ghost old_idx = index_entries(self.index);
        let ghost old_log = self.log@;
        proof {
            lemma_replay_push(old_log, op);
            lemma_replay_push(self.history@, op);
        }
        self.log = Ghost(self.log@.push(op));
        self.history = Ghost(self.history@.push(op));
        self.records = Ghost(self.records@.insert((self.log_id, here), op));
        let ghost k0 = key@;
        index_insert(&mut self.index, key, (self.log_id, here, len));
        self.pos = here + len;
        self.disk = Ghost((self.disk@ + len) as nat);
        proof {
            lemma_map_sum_insert(old_idx, k0, (self.log_id, here, len));
            let idx = index_entries(self.index);
            let d = replay(self.log@);
            assert(idx.dom() =~= d.dom());
            assert forall|k: Seq<char>| #[trigger] idx.contains_key(k) implies {
                let loc = idx[k];
                &&& loc.2 > 0
                &&& (loc.0 < self.log_id || (loc.0 == self.log_id && loc.1 + loc.2
                    <= self.pos))
                &&& self.records@[(loc.0, loc.1)] == Op::Write(k, d[k])
            } by {
                if k != k0 {
                    assert(old_idx.contains_key(k));
                }
            }
        }
        self.uncompacted > self.threshold
    }

    /// Accounts for a removal of `key` appended at the write position, `len`
    /// bytes long: the key leaves the index, and the value it had together
    /// with the removal record itself count as reclaimable.
    fn note_remove(&mut self, key: &String, len: u64)
        requires
            old(self).wf(),
            len > 0,
            old(self).next_pos() + len <= u64::MAX,
        ensures
            final(self).wf(),
            final(self).log() == old(self).log().push(Op::Erase(key@)),
            final(self).history() == old(self).history().push(Op::Erase(key@)),
            final(self).contents() == old(self).contents().remove(key@),
            final(self).index() == old(self).index().remove(key@),
            final(self).active() == old(self).active(),
            final(self).next_pos() == old(self).next_pos() + len,
            final(self).limit() == old(self).limit(),
            final(self).unc() == sat_add(
                (if old(self).index().contains_key(key@) {
                    sat_add(old(self).unc(), old(self).index()[key@].2)
                } else {
                    old(self).unc()
                }),
                len,
            ),
            final(self).disk() == old(self).disk() + len,
    {
        let prev = index_get(&self.index, key);
        if let Some(p) = prev {
            self.uncompacted = self.uncompacted.saturating_add(p.2);
        }
        self.uncompacted = self.uncompacted.saturating_add(len);
        let here = self.pos;
        let ghost op = Op::Erase(key@);
        let ghost old_idx = index_entries(self.index);
        let ghost old_log = self.log@;
        proof {
            lemma_replay_push(old_log, op);
            lemma_replay_push(self.history@, op);
        }
        self.log = Ghost(self.log@.push(op));
        self.history = Ghost(self.history@.push(op));
        self.records = Ghost(self.records@.insert((self.log_id, here), op));
        index_remove(&mut self.index, key);
        self.pos = here + len;
        self.disk = Ghost((self.disk@ + len) as nat);
        proof {
            lemma_map_sum_remove_le(old_idx, key@);
            let idx = index_entries(self.index);
            let d = replay(self.log@);
            assert(idx.dom() =~= d.dom());
            assert forall|k: Seq<char>| #[trigger] idx.contains_key(k) implies {
                let loc = idx[k];
                &&& loc.2 > 0
                &&& (loc.0 < self.log_id || (loc.0 == self.log_id && loc.1 + loc.2
                    <= self.pos))
                &&& self.records@[(loc.0, loc.1)] == Op::Write(k, d[k])
            } by {
                assert(old_idx.contains_key(k));
            }
        }
    }

    /// Accounts for a removal of `key`, which the store holds, appended at the
    /// write position, `len` bytes long; the result says whether compaction
    /// is due.
    pub fn record_remove(&mut self, key: &String, len: u64) -> (compact: bool)
        requires
            old(self).wf(),
            old(self).contents().contains_key(key@),
            len > 0,
            old(self).next_pos() + len <= u64::MAX,
        ensures
            final(self).wf(),
            final(self).log() == old(self).log().push(Op::Erase(key@)),
            final(self).history() == old(self).history().push(Op::Erase(key@)),
            final(self).contents() == old(self).contents().remove(key@),
            final(self).index() == old(self).index().remove(key@),
            final(self).active() == old(self).active(),
            final(self).next_pos() == old(self).next_pos() + len,
            final(self).limit() == old(self).limit(),
            final(self).unc() == sat_add(
                sat_add(old(self).unc(), old(self).index()[key@].2),
                len,
            ),
            compact == (final(self).unc() > final(self).limit()),
            final(self).disk() == old(self).disk() + len,
    {
        self.note_remove(key, len);
        self.uncompacted > self.threshold
    }

    /// Applies one record read back from the active segment, `len` bytes
    /// long at the write position.
    fn replay_entry(&mut self, command: &Command, len: u64)
        requires
            old(self).wf(),
            len > 0,
            old(self).next_pos() + len <= u64::MAX,
        ensures
            final(self).wf(),
            final(self).log() == old(self).log().push(command.op()),
            final(self).history() == old(self).history().push(command.op()),
            final(self).active() == old(self).active(),
            final(self).next_pos() == old(self).next_pos() + len,
            final(self).limit() == old(self).limit(),
            (final(self).index(), final(self).unc()) == step(
                old(self).index(),
                old(self).unc(),
                command.op(),
                old(self).active(),
                old(self).next_pos(),
                len,
            ),
            final(self).disk() == old(self).disk() + len,
    {
        match command {
            Command::Put { key, value } => {
                self.record_set(key.clone(), value, len);
            },
            Command::Remove { key } => {
                self.note_remove(key, len);
            },
        }
    }

    /// Replays the records of segment `log_id`, read back with the offset
    /// past each one, into the store, as live writes and removals would have
    /// changed it; the segment then becomes the active one, `size` bytes
    /// long. Refused, with nothing changed, when the segment does not come
    /// after those already loaded or the offsets do not frame records within
    /// `size` bytes.
    pub fn load_log(&mut self, log_id: u64, entries: &Vec<LogEntry>, size: u64) -> (r: Result<
        (),
        KvsError,
    >)
        requires
            old(self).wf(),
        ensures
            r is Ok <==> (segment_follows(old(self).active(), old(self).next_pos(), log_id)
                && frames_records(entries@, size)),
            r is Err ==> {
                &&& final(self).index() == old(self).index()
                &&& final(self).log() == old(self).log()
                &&& final(self).history() == old(self).history()
                &&& final(self).active() == old(self).active()
                &&& final(self).next_pos() == old(self).next_pos()
                &&& final(self).unc() == old(self).unc()
                &&& final(self).disk() == old(self).disk()
                &&& final(self).wf()
            },
            r is Ok ==> {
                &&& final(self).wf()
                &&& final(self).log() == old(self).log() + ops_of(entries@)
                &&& final(self).history() == old(self).history() + ops_of(entries@)
                &&& final(self).contents() == replay(old(self).log() + ops_of(entries@))
                &&& final(self).active() == log_id
                &&& final(self).next_pos() == size
                &&& final(self).disk() == old(self).disk() + size
                &&& (final(self).index(), final(self).unc()) == replayed(
                    old(self).index(),
                    old(self).unc(),
                    log_id,
                    entries@,
                    entries@.len() as int,
                )
            },
            final(self).limit() == old(self).limit(),
    {
        if !(log_id > self.log_id || (log_id == self.log_id && self.pos == 0)) {
            return Err(KvsError::OtherError(String::from_str("log segments out of order")));
        }
        if !frames_ok(entries, size) {
            return Err(KvsError::OtherError(String::from_str("corrupt log segment")));
        }
        let mut i: usize = 0;
        assert(frames_records(entries@, size));
        let ghost log0 = self.log@;
        let ghost hist0 = self.history@;
        let ghost unc0 = self.uncompacted;
        let ghost idx0 = index_entries(self.index);
        let ghost disk0 = self.disk@;
        self.log_id = log_id;
        self.pos = 0;
        proof {
            let idx = index_entries(self.index);
            assert forall|k: Seq<char>| #[trigger] idx.contains_key(k) implies {
                let loc = idx[k];
                loc.0 < self.log_id || (loc.0 == self.log_id && loc.1 + loc.2 <= self.pos)
            } by {}
        }
        while i < entries.len()
            invariant
                i <= entries@.len(),
                frames_records(entries@, size),
                self.wf(),
                self.log@ == log0 + ops_of(entries@.take(i as int)),
                self.history@ == hist0 + ops_of(entries@.take(i as int)),
                self.log_id == log_id,
                self.pos == start_of(entries@, i as int),
                self.disk@ == disk0 + start_of(entries@, i as int),
                self.threshold == old(self).threshold,
                (index_entries(self.index), self.uncompacted) == replayed(
                    idx0,
                    unc0,
                    log_id,
                    entries@,
                    i as int,
                ),
            decreases entries@.len() - i,
        {
            let end = entries[i].end;
            assert(start_of(entries@, i as int) < entries@[i as int].end);
            let len = end - self.pos;
            self.replay_entry(&entries[i].command, len);
            proof {
                lemma_ops_take_push(entries@, i as int);
                assert(self.log@ =~= log0 + ops_of(entries@.take(i + 1)));
                assert(self.history@ =~= hist0 + ops_of(entries@.take(i + 1)));
            }
            i = i + 1;
        }
        assert(entries@.take(entries@.len() as int) =~= entries@);
        if entries.len() > 0 {
            assert(start_of(entries@, entries@.len() - 1) < entries@[entries@.len() - 1].end);
        }
        assert(self.pos <= size);
        self.disk = Ghost(self.disk@ + (size - self.pos) as nat);
        self.pos = size;
        proof {
            let idx = index_entries(self.index);
            assert forall|k: Seq<char>| #[trigger] idx.contains_key(k) implies {
                let loc = idx[k];
                loc.0 < self.log_id || (loc.0 == self.log_id && loc.1 + loc.2 <= self.pos)
            } by {}
        }
        Ok(())
    }

    /// Compacts the store: every live record gets a place in a fresh segment
    /// `target`, one after another from offset 0 in ascending order of keys; appends go to the segment after it, and nothing counts as
    /// reclaimable any more. The mapping the store holds does not change.
    /// Refused, with nothing changed, exactly when segment ids or the offsets
    /// of the copies would pass `u64::MAX`. The new segment is as long as the
    /// live records together, no longer than all the segments were.
    pub fn compact(&mut self) -> (r: Result<Compaction, KvsError>)
        requires
            old(self).wf(),
        ensures
            final(self).wf(),
            final(self).contents() == old(self).contents(),
            final(self).history() == old(self).history(),
            final(self).limit() == old(self).limit(),
            r is Err ==> {
                &&& final(self).index() == old(self).index()
                &&& final(self).log() == old(self).log()
                &&& final(self).history() == old(self).history()
                &&& final(self).active() == old(self).active()
                &&& final(self).next_pos() == old(self).next_pos()
                &&& final(self).unc() == old(self).unc()
                &&& final(self).disk() == old(self).disk()
            },
            r is Err <==> (old(self).active() + 2 > u64::MAX || map_sum(old(self).index())
                > u64::MAX),
            r matches Ok(c) ==> {
                &&& c.target == old(self).active() + 1
                &&& c.active == old(self).active() + 2
                &&& final(self).active() == c.active
                &&& final(self).next_pos() == 0
                &&& final(self).unc() == 0
                &&& final(self).index().dom() == old(self).index().dom()
                &&& moves_cover(c.moves@, old(self).index())
                &&& forall|i: int, j: int|
                    0 <= i < j < c.moves@.len() ==> key_before(
                        (#[trigger] c.moves@[i]).key@,
                        (#[trigger] c.moves@[j]).key@,
                    )
                &&& forall|i: int|
                    0 <= i < c.moves@.len() ==> {
                        let m = #[trigger] c.moves@[i];
                        &&& m.from.triple() == old(self).index()[m.key@]
                        &&& m.to.triple() == final(self).index()[m.key@]
                        &&& m.to.log_id == c.target
                        &&& m.to.len == m.from.len
                        &&& m.to.pos == move_start(c.moves@, i)
                        &&& final(self).log()[i] == Op::Write(m.key@, old(self).contents()[m.key@])
                    }
                &&& final(self).log().len() == c.moves@.len()
                &&& c.size == move_start(c.moves@, c.moves@.len() as int)
                &&& c.size == map_sum(old(self).index())
                &&& c.size <= old(self).disk()
                &&& final(self).disk() == c.size
            },
    {
        let snap = index_snapshot(&self.index);
        let ghost ks = keyed(snap@);
        let ghost idx0 = index_entries(self.index);
        let ghost d = replay(self.log@);
        proof {
            assert(lists(ks, idx0)) by {
                assert forall|k: Seq<char>| #[trigger] idx0.contains_key(k) implies exists|i: int|
                    0 <= i < ks.len() && ks[i].0 == k by {
                    let i = choose|i: int| 0 <= i < snap@.len() && (#[trigger] snap@[i]).0@ == k;
                    assert(ks[i].0 == k);
                }
            }
        }
        if self.log_id > u64::MAX - 2 {
            return Err(KvsError::OtherError(String::from_str("segment ids exhausted")));
        }
        let target = self.log_id + 1;
        let active = self.log_id + 2;
        proof {
            assert forall|i: int| 0 <= i < ks.len() implies (#[trigger] ks[i]).1.2 > 0 by {
                assert(idx0.contains_key(ks[i].0));
            }
        }
        let moves = match plan_moves(&snap, target) {
            Some(moves) => moves,
            None => {
                proof {
                    lemma_lists_total(ks, idx0);
                }
                return Err(KvsError::OtherError(String::from_str("compacted segment too large")));
            },
        };
        proof {
            lemma_lists_total(ks, idx0);
        }
        assert(move_start(moves@, moves@.len() as int) <= u64::MAX);
        let cur = if moves.len() == 0 {
            0
        } else {
            moves[moves.len() - 1].to.pos + moves[moves.len() - 1].to.len
        };
        proof {
            assert forall|a: int| 0 <= a < moves@.len() implies (#[trigger] moves@[a]).to.pos + moves@[a].to.len <= cur by {
                lemma_move_start_mono(moves@, a + 1, moves@.len() as int);
            }
        }
        proof {
            assert forall|a: int, b: int| 0 <= a < b < moves@.len() implies key_before(
                (#[trigger] moves@[a]).key@,
                (#[trigger] moves@[b]).key@,
            ) by {
                assert(snap@[a].0@ == ks[a].0);
                assert(snap@[b].0@ == ks[b].0);
            }
        }
        let ghost keys = moves@.map_values(|m: Move| m.key@);
        let mut j: usize = 0;
        while j < moves.len()
            invariant
                j <= moves@.len(),
                moves@.len() == snap@.len(),
                ks == keyed(snap@),
                lists(ks, idx0),
                d == replay(self.log@),
                idx0.dom() == d.dom(),
                self.log_id == old(self).log_id,
                self.pos == old(self).pos,
                self.uncompacted == old(self).uncompacted,
                self.threshold == old(self).threshold,
                self.log@ == old(self).log@,
                self.history@ == old(self).history@,
                replay(self.history@) == d,
                target == self.log_id + 1,
                cur == move_start(moves@, moves@.len() as int),
                forall|a: int|
                    0 <= a < moves@.len() ==> {
                        let m = #[trigger] moves@[a];
                        &&& m.key@ == ks[a].0
                        &&& m.from.triple() == ks[a].1
                        &&& m.to.log_id == target
                        &&& m.to.len == m.from.len
                        &&& m.to.len > 0
                        &&& m.to.pos == move_start(moves@, a)
                        &&& m.to.pos + m.to.len <= cur
                    },
                index_entries(self.index).dom() == idx0.dom(),
                forall|a: int|
                    0 <= a < j ==> index_entries(self.index)[(#[trigger] moves@[a]).key@]
                        == moves@[a].to.triple(),
                forall|a: int|
                    0 <= a < j ==> self.records@[(target, (#[trigger] moves@[a]).to.pos)]
                        == Op::Write(moves@[a].key@, d[moves@[a].key@]),
            decreases moves@.len() - j,
        {
            let key = moves[j].key.clone();
            let to = moves[j].to;
            proof {
                assert(idx0.contains_key(ks[j as int].0));
                assert forall|a: int| 0 <= a < j implies (#[trigger] moves@[a]).key@ != moves@[j as int].key@ by {
                    assert(ks[a].0 != ks[j as int].0);
                }
                assert forall|a: int| 0 <= a < j implies (#[trigger] moves@[a]).to.pos < moves@[j as int].to.pos by {
                    lemma_move_start_mono(moves@, a + 1, j as int);
                }
            }
            let ghost k = moves@[j as int].key@;
            index_insert(&mut self.index, key, (target, to.pos, to.len));
            self.records = Ghost(self.records@.insert((target, to.pos), Op::Write(k, d[k])));
            assert(index_entries(self.index).dom() =~= idx0.dom());
            j = j + 1;
        }
        let ghost new_log = writes(keys, d);
        proof {
            assert forall|a: int, b: int| 0 <= a < b < keys.len() implies keys[a] != keys[b] by {
                assert(ks[a].0 != ks[b].0);
            }
            assert forall|a: int| 0 <= a < keys.len() implies d.contains_key(#[trigger] keys[a]) by {
                assert(idx0.contains_key(ks[a].0));
            }
            lemma_replay_writes(keys, d);
            assert(keys.to_set() =~= d.dom()) by {
                assert forall|k: Seq<char>| d.dom().contains(k) implies keys.to_set().contains(k) by {
                    assert(idx0.contains_key(k));
                    let a = choose|a: int| 0 <= a < ks.len() && ks[a].0 == k;
                    assert(keys[a] == k);
                }
            }
            assert(d.restrict(d.dom()) =~= d);
            let idx = index_entries(self.index);
            let ns = Seq::new(moves@.len(), |a: int| (moves@[a].key@, moves@[a].to.triple()));
            assert(lists(ns, idx)) by {
                assert forall|a: int, b: int| 0 <= a < b < ns.len() implies ns[a].0 != ns[b].0 by {
                    assert(ks[a].0 != ks[b].0);
                }
                assert forall|a: int| 0 <= a < ns.len() implies idx.contains_key(#[trigger] ns[a].0)
                    && idx[ns[a].0] == ns[a].1 by {
                    assert(idx0.contains_key(ks[a].0));
                }
                assert forall|k: Seq<char>| #[trigger] idx.contains_key(k) implies exists|a: int|
                    0 <= a < ns.len() && ns[a].0 == k by {
                    assert(idx0.contains_key(k));
                    let a = choose|a: int| 0 <= a < ks.len() && ks[a].0 == k;
                    assert(ns[a].0 == k);
                }
            }
            lemma_lists_total(ns, idx);
            lemma_lists_total(ks, idx0);
            lemma_total_len_same_lens(ns, ks);
        }
        self.disk = Ghost(cur as nat);
        self.log = Ghost(new_log);
        self.log_id = active;
        self.pos = 0;
        self.uncompacted = 0;
        proof {
            let idx = index_entries(self.index);
            assert(idx.dom() =~= replay(self.log@).dom());
            assert forall|k: Seq<char>| #[trigger] idx.contains_key(k) implies {
                let loc = idx[k];
                &&& loc.2 > 0
                &&& (loc.0 < self.log_id || (loc.0 == self.log_id && loc.1 + loc.2
                    <= self.pos))
                &&& self.records@[(loc.0, loc.1)] == Op::Write(k, replay(self.log@)[k])
            } by {
                assert(idx0.contains_key(k));
                let a = choose|a: int| 0 <= a < ks.len() && ks[a].0 == k;
                assert(moves@[a].key@ == k);
            }
            assert forall|k: Seq<char>| #[trigger] idx0.contains_key(k) implies exists|a: int|
                0 <= a < moves@.len() && (#[trigger] moves@[a]).key@ == k by {
                let a = choose|a: int| 0 <= a < ks.len() && ks[a].0 == k;
                assert(moves@[a].key@ == k);
            }
        }
        Ok(Compaction { target, active, moves, size: cur })
    }
}

/// Where each live record goes in segment `target`: one after another
/// from offset 0, in the order of `snap`. `None` when the offsets would pass
/// `u64::MAX`.
fn plan_moves(snap: &Vec<(String, (u64, u64, u64))>, target: u64) -> (r: Option<Vec<Move>>)
    requires
        forall|i: int| 0 <= i < keyed(snap@).len() ==> (#[trigger] keyed(snap@)[i]).1.2 > 0,
    ensures
        r is None <==> total_len(keyed(snap@)) > u64::MAX,
        r matches Some(moves) ==> {
            &&& moves@.len() == snap@.len()
            &&& move_start(moves@, moves@.len() as int) == total_len(keyed(snap@))
            &&& forall|j: int|
                0 <= j < moves@.len() ==> {
                    let m = #[trigger] moves@[j];
                    &&& m.key@ == keyed(snap@)[j].0
                    &&& m.from.triple() == keyed(snap@)[j].1
                    &&& m.to.log_id == target
                    &&& m.to.len == m.from.len
                    &&& m.to.len > 0
                    &&& m.to.pos == move_start(moves@, j)
                }
        },
{
    let ghost ks = keyed(snap@);
    let mut moves: Vec<Move> = Vec::new();
    let mut cur: u64 = 0;
    let mut i: usize = 0;
    while i < snap.len()
        invariant
            ks == keyed(snap@),
            forall|i: int| 0 <= i < ks.len() ==> (#[trigger] ks[i]).1.2 > 0,
            i <= snap@.len(),
            moves@.len() == i,
            cur == total_len(ks.take(i as int)),
            cur == move_start(moves@, i as int),
            forall|j: int|
                0 <= j < i ==> {
                    let m = #[trigger] moves@[j];
                    &&& m.key@ == ks[j].0
                    &&& m.from.triple() == ks[j].1
                    &&& m.to.log_id == target
                    &&& m.to.len == m.from.len
                    &&& m.to.len > 0
                    &&& m.to.pos == move_start(moves@, j)
                },
        decreases snap@.len() - i,
    {
        let key = snap[i].0.clone();
        let t = snap[i].1;
        proof {
            assert(ks[i as int].0 == snap@[i as int].0@);
            assert(ks[i as int].1 == t);
            assert(ks.take(i + 1).drop_last() =~= ks.take(i as int));
        }
        match cur.checked_add(t.2) {
            None => {
                proof {
                    lemma_total_len_prefix(ks, i + 1);
                }
                return None;
            },
            Some(next) => {
                let ghost before = moves@;
                moves.push(
                    Move {
                        key,
                        from: CommandPos { log_id: t.0, pos: t.1, len: t.2 },
                        to: CommandPos { log_id: target, pos: cur, len: t.2 },
                    },
                );
                proof {
                    assert forall|j: int| 0 <= j < i implies #[trigger] moves@[j] == before[j] by {}
                    assert forall|j: int| 0 <= j <= i implies move_start(moves@, j) == move_start(before, j) || j == i by {}
                }
                cur = next;
            },
        }
        i = i + 1;
    }
    assert(ks.take(i as int) =~= ks);
    Some(moves)
}

/// Pairs of key and locator as mathematical values.
pub open spec fn keyed(s: Seq<(String, (u64, u64, u64))>) -> Seq<(Seq<char>, (u64, u64, u64))> {
    s.map_values(|p: (String, (u64, u64, u64))| (p.0@, p.1))
}

/// `s` lists the entries of `m`, each exactly once, in some order.
pub open spec fn lists(s: Seq<(Seq<char>, (u64, u64, u64))>, m: Map<Seq<char>, (u64, u64, u64)>) -> bool {
    &&& forall|i: int, j: int| 0 <= i < j < s.len() ==> s[i].0 != s[j].0
    &&& forall|i: int| 0 <= i < s.len() ==> m.contains_key(#[trigger] s[i].0) && m[s[i].0] == s[i].1
    &&& forall|k: Seq<char>| #[trigger] m.contains_key(k) ==> exists|i: int| 0 <= i < s.len() && s[i].0 == k
}

/// The sum of the lengths in a listing of locators.
pub open spec fn total_len(s: Seq<(Seq<char>, (u64, u64, u64))>) -> nat
    decreases s.len(),
{
    if s.len() == 0 {
        0
    } else {
        (total_len(s.drop_last()) + s.last().1.2) as nat
    }
}

/// The moves name every key of `m` exactly once.
pub open spec fn moves_cover(moves: Seq<Move>, m: Map<Seq<char>, (u64, u64, u64)>) -> bool {
    &&& forall|i: int, j: int| 0 <= i < j < moves.len() ==> moves[i].key@ != moves[j].key@
    &&& forall|i: int| 0 <= i < moves.len() ==> m.contains_key((#[trigger] moves[i]).key@)
    &&& forall|k: Seq<char>| #[trigger] m.contains_key(k) ==> exists|i: int|
        0 <= i < moves.len() && (#[trigger] moves[i]).key@ == k
}

/// Where copy `i` of a compaction starts: where the one before it ends.
pub open spec fn move_start(moves: Seq<Move>, i: int) -> int {
    if i <= 0 {
        0
    } else {
        moves[i - 1].to.pos + moves[i - 1].to.len
    }
}

/// A write of each key, in order, with its value in `d`.
pub open spec fn writes(keys: Seq<Seq<char>>, d: Map<Seq<char>, Seq<char>>) -> Seq<Op> {
    keys.map_values(|k: Seq<char>| Op::Write(k, d[k]))
}

proof fn lemma_total_len_prefix(s: Seq<(Seq<char>, (u64, u64, u64))>, i: int)
    requires
        0 <= i <= s.len(),
    ensures
        total_len(s.take(i)) <= total_len(s),
    decreases s.len() - i,
{
    if i < s.len() {
        lemma_total_len_prefix(s, i + 1);
        assert(s.take(i + 1).drop_last() =~= s.take(i));
    } else {
        assert(s.take(i) =~= s);
    }
}

proof fn lemma_move_start_mono(moves: Seq<Move>, a: int, b: int)
    requires
        0 <= a <= b <= moves.len(),
        forall|j: int| 0 <= j < moves.len() ==> (#[trigger] moves[j]).to.pos == move_start(moves, j),
    ensures
        move_start(moves, a) <= move_start(moves, b),
    decreases b - a,
{
    if a < b {
        lemma_move_start_mono(moves, a, b - 1);
        assert(moves[b - 1].to.pos == move_start(moves, b - 1));
    }
}

/// The bytes of the live records: the sum of the lengths of the locators in
/// an index.
pub open spec fn map_sum(m: Map<Seq<char>, (u64, u64, u64)>) -> nat
    decreases m.dom().len(),
{
    if m.dom().finite() && m.dom().len() > 0 {
        let k = m.dom().choose();
        (m[k].2 + map_sum(m.remove(k))) as nat
    } else {
        0
    }
}

proof fn lemma_map_sum_remove(m: Map<Seq<char>, (u64, u64, u64)>, k: Seq<char>)
    requires
        m.dom().finite(),
        m.contains_key(k),
    ensures
        map_sum(m) == m[k].2 + map_sum(m.remove(k)),
    decreases m.dom().len(),
{
    let c = m.dom().choose();
    if c != k {
        lemma_map_sum_remove(m.remove(c), k);
        lemma_map_sum_remove(m.remove(k), c);
        assert(m.remove(c).remove(k) =~= m.remove(k).remove(c));
    }
}

proof fn lemma_map_sum_remove_le(m: Map<Seq<char>, (u64, u64, u64)>, k: Seq<char>)
    requires
        m.dom().finite(),
    ensures
        map_sum(m.remove(k)) <= map_sum(m),
{
    if m.contains_key(k) {
        lemma_map_sum_remove(m, k);
    } else {
        assert(m.remove(k) =~= m);
    }
}

proof fn lemma_map_sum_insert(m: Map<Seq<char>, (u64, u64, u64)>, k: Seq<char>, v: (u64, u64, u64))
    requires
        m.dom().finite(),
    ensures
        map_sum(m.insert(k, v)) <= map_sum(m) + v.2,
{
    lemma_map_sum_remove(m.insert(k, v), k);
    assert(m.insert(k, v).remove(k) =~= m.remove(k));
    lemma_map_sum_remove_le(m, k);
}

proof fn lemma_lists_total(s: Seq<(Seq<char>, (u64, u64, u64))>, m: Map<Seq<char>, (u64, u64, u64)>)
    requires
        lists(s, m),
        m.dom().finite(),
    ensures
        total_len(s) == map_sum(m),
    decreases s.len(),
{
    if s.len() == 0 {
        assert(m.dom() =~= Set::<Seq<char>>::empty()) by {
            assert forall|k: Seq<char>| !m.dom().contains(k) by {
                if m.contains_key(k) {
                    let i = choose|i: int| 0 <= i < s.len() && s[i].0 == k;
                }
            }
        }
    } else {
        let p = s.drop_last();
        let k = s.last().0;
        let m2 = m.remove(k);
        assert(m.contains_key(s[s.len() - 1].0));
        assert(lists(p, m2)) by {
            assert forall|i: int| 0 <= i < p.len() implies m2.contains_key(#[trigger] p[i].0)
                && m2[p[i].0] == p[i].1 by {
                assert(s[i] == p[i]);
                assert(s[i].0 != s[s.len() - 1].0);
                assert(m.contains_key(s[i].0));
            }
            assert forall|k2: Seq<char>| #[trigger] m2.contains_key(k2) implies exists|i: int|
                0 <= i < p.len() && p[i].0 == k2 by {
                assert(m.contains_key(k2));
                let i = choose|i: int| 0 <= i < s.len() && s[i].0 == k2;
                assert(p[i].0 == k2);
            }
            assert forall|i: int, j: int| 0 <= i < j < p.len() implies p[i].0 != p[j].0 by {
                assert(s[i].0 != s[j].0);
            }
        }
        lemma_lists_total(p, m2);
        lemma_map_sum_remove(m, k);
    }
}

proof fn lemma_total_len_same_lens(a: Seq<(Seq<char>, (u64, u64, u64))>, b: Seq<(Seq<char>, (u64, u64, u64))>)
    requires
        a.len() == b.len(),
        forall|i: int| 0 <= i < a.len() ==> (#[trigger] a[i]).1.2 == b[i].1.2,
    ensures
        total_len(a) == total_len(b),
    decreases a.len(),
{
    if a.len() > 0 {
        lemma_total_len_same_lens(a.drop_last(), b.drop_last());
    }
}

/// The store is a dictionary: whatever writes, removals, compactions and
/// recoveries it went through, it holds what a plain in-memory map holds
/// after the same writes and removals (its history) — each write installing
/// the value, each removal dropping the key. So for each key it holds the
/// value of the last write, and no value when the last operation on the key
/// is a removal or there is none.
pub proof fn lemma_store_is_naive_dictionary(s: StoreState, k: Seq<char>)
    requires
        s.wf(),
    ensures
        s.contents() == replay(s.history()),
        s.contents().contains_key(k) <==> last_value(s.history(), k) is Some,
        s.contents().contains_key(k) ==> last_value(s.history(), k) == Some(s.contents()[k]),
{
    lemma_replay_last_value(s.history(), k);
}

/// A log may be replaced by any log that describes the same mapping, as
/// compaction and reopening do, at any point: the records that follow then
/// lead to the same mapping.
pub proof fn lemma_replay_prefix_swap(a: Seq<Op>, a2: Seq<Op>, b: Seq<Op>)
    requires
        replay(a) == replay(a2),
    ensures
        replay(a + b) == replay(a2 + b),
    decreases b.len(),
{
    if b.len() > 0 {
        lemma_replay_prefix_swap(a, a2, b.drop_last());
        assert((a + b).drop_last() =~= a + b.drop_last());
        assert((a2 + b).drop_last() =~= a2 + b.drop_last());
    }
}

/// Durability over one restart: a store opened afresh from the segments a
/// live store left — its history is then their records, in order — holds
/// what the live store held: for each key the value of the last write the
/// live store was asked to make, and no value after a removal.
pub proof fn lemma_reopened_holds_last_values(live: StoreState, reopened: StoreState, k: Seq<char>)
    requires
        live.wf(),
        reopened.wf(),
        reopened.history() == live.log(),
    ensures
        reopened.contents() == live.contents(),
        reopened.contents().contains_key(k) <==> last_value(live.history(), k) is Some,
        reopened.contents().contains_key(k) ==> last_value(live.history(), k) == Some(
            reopened.contents()[k],
        ),
{
    lemma_replay_last_value(live.history(), k);
}

/// Durability over any number of restarts: if a store was opened from
/// segments whose records (`loaded`, the start of its history) describe the
/// mapping of everything asked before (`earlier`), then it holds, for each
/// key, the value of the last write in `earlier` followed by what it was
/// asked since, and no value when the last operation on the key is a removal
/// or there is none.
pub proof fn lemma_durable_across_restarts(
    s: StoreState,
    loaded: Seq<Op>,
    earlier: Seq<Op>,
    k: Seq<char>,
)
    requires
        s.wf(),
        loaded.len() <= s.history().len(),
        s.history().take(loaded.len() as int) == loaded,
        replay(loaded) == replay(earlier),
    ensures
        ({
            let whole = earlier + s.history().skip(loaded.len() as int);
            &&& s.contents() == replay(whole)
            &&& s.contents().contains_key(k) <==> last_value(whole, k) is Some
            &&& s.contents().contains_key(k) ==> last_value(whole, k) == Some(s.contents()[k])
        }),
{
    let rest = s.history().skip(loaded.len() as int);
    assert(s.history() =~= loaded + rest);
    lemma_replay_prefix_swap(loaded, earlier, rest);
    lemma_replay_last_value(earlier + rest, k);
}

/// Removal: once a removal of `k` is in a store's history, the store lacks
/// `k` and every other key keeps its value; a removal of a key the store
/// lacks changes nothing. (A store refuses such a removal with
/// `KeyNotFound` before writing anything: `check_remove`.)
pub proof fn lemma_remove_semantics(before: StoreState, after: StoreState, k: Seq<char>, k2: Seq<char>)
    requires
        before.wf(),
        after.wf(),
        after.history() == before.history().push(Op::Erase(k)),
    ensures
        !after.contents().contains_key(k),
        k2 != k ==> (after.contents().contains_key(k2) == before.contents().contains_key(k2)),
        k2 != k && before.contents().contains_key(k2) ==> after.contents()[k2]
            == before.contents()[k2],
        !before.contents().contains_key(k) ==> after.contents() == before.contents(),
{
    lemma_replay_push(before.history(), Op::Erase(k));
    if !before.contents().contains_key(k) {
        assert(before.contents().remove(k) =~= before.contents());
    }
}

/// Writing distinct keys, each with its value in `d`, yields `d` restricted
/// to those keys.
pub proof fn lemma_replay_writes(keys: Seq<Seq<char>>, d: Map<Seq<char>, Seq<char>>)
    requires
        forall|a: int, b: int| 0 <= a < b < keys.len() ==> keys[a] != keys[b],
        forall|a: int| 0 <= a < keys.len() ==> d.contains_key(#[trigger] keys[a]),
    ensures
        replay(writes(keys, d)) == d.restrict(keys.to_set()),
    decreases keys.len(),
{
    if keys.len() == 0 {
        assert(keys.to_set() =~= Set::empty());
        assert(d.restrict(keys.to_set()) =~= Map::empty());
    } else {
        let p = keys.drop_last();
        let last = keys.last();
        lemma_replay_writes(p, d);
        assert(writes(keys, d).drop_last() =~= writes(p, d));
        assert(keys =~= p.push(last));
        p.lemma_push_to_set_commute(last);
        assert(d.restrict(keys.to_set()) =~= d.restrict(p.to_set()).insert(last, d[last]));
    }
}

/// The index and the reclaimable count after one more record, `len` bytes
/// at offset `pos` of segment `log_id`, as a live write or removal leaves
/// them: a write points the key at the record, a removal drops the key; the
/// value either replaces counts as reclaimable, and so does a removal record.
pub open spec fn step(
    idx: Map<Seq<char>, (u64, u64, u64)>,
    unc: u64,
    op: Op,
    log_id: u64,
    pos: u64,
    len: u64,
) -> (Map<Seq<char>, (u64, u64, u64)>, u64) {
    match op {
        Op::Write(k, _) => (
            idx.insert(k, (log_id, pos, len)),
            if idx.contains_key(k) {
                sat_add(unc, idx[k].2)
            } else {
                unc
            },
        ),
        Op::Erase(k) => (
            idx.remove(k),
            sat_add(
                if idx.contains_key(k) {
                    sat_add(unc, idx[k].2)
                } else {
                    unc
                },
                len,
            ),
        ),
    }
}

/// The index and the reclaimable count after the first `i` records of
/// segment `log_id`.
pub open spec fn replayed(
    idx: Map<Seq<char>, (u64, u64, u64)>,
    unc: u64,
    log_id: u64,
    entries: Seq<LogEntry>,
    i: int,
) -> (Map<Seq<char>, (u64, u64, u64)>, u64)
    decreases i,
{
    if i <= 0 {
        (idx, unc)
    } else {
        let prev = replayed(idx, unc, log_id, entries, i - 1);
        step(
            prev.0,
            prev.1,
            entries[i - 1].command.op(),
            log_id,
            start_of(entries, i - 1) as u64,
            (entries[i - 1].end - start_of(entries, i - 1)) as u64,
        )
    }
}

/// Loading segment `log_id` may follow a store whose active segment is
/// `active` with `pos` bytes written: it comes later, or is that segment
/// while nothing is written yet.
pub open spec fn segment_follows(active: u64, pos: u64, log_id: u64) -> bool {
    log_id > active || (log_id == active && pos == 0)
}

/// Where record `i` of a segment starts: where the one before it ends.
pub open spec fn start_of(entries: Seq<LogEntry>, i: int) -> int {
    if i <= 0 {
        0
    } else {
        entries[i - 1].end as int
    }
}

/// The offsets frame non-empty records one after another within `size` bytes.
pub open spec fn frames_records(entries: Seq<LogEntry>, size: u64) -> bool {
    forall|j: int|
        0 <= j < entries.len() ==> #[trigger] start_of(entries, j) < entries[j].end <= size
}

/// The records of a segment as mathematical values.
pub open spec fn ops_of(entries: Seq<LogEntry>) -> Seq<Op> {
    entries.map_values(|e: LogEntry| e.command.op())
}

/// Whether the offsets frame non-empty records one after another within
/// `size` bytes.
pub fn frames_ok(entries: &Vec<LogEntry>, size: u64) -> (r: bool)
    ensures
        r == frames_records(entries@, size),
{
    let mut i: usize = 0;
    let mut cur: u64 = 0;
    while i < entries.len()
        invariant
            i <= entries@.len(),
            cur == start_of(entries@, i as int),
            forall|j: int|
                0 <= j < i ==> #[trigger] start_of(entries@, j) < entries@[j].end <= size,
        decreases entries@.len() - i,
    {
        let end = entries[i].end;
        if end <= cur || end > size {
            return false;
        }
        cur = end;
        i = i + 1;
    }
    true
}

proof fn lemma_ops_take_push(entries: Seq<LogEntry>, i: int)
    requires
        0 <= i < entries.len(),
    ensures
        ops_of(entries.take(i + 1)) == ops_of(entries.take(i)).push(entries[i].command.op()),
{
    assert(entries.take(i + 1) =~= entries.take(i).push(entries[i]));
    assert(ops_of(entries.take(i + 1)) =~= ops_of(entries.take(i)).push(entries[i].command.op()));
}

/// One more record at the end of a log changes its mapping as `apply` says.
pub proof fn lemma_replay_push(log: Seq<Op>, op: Op)
    ensures
        replay(log.push(op)) == apply(replay(log), op),
{
    assert(log.push(op).drop_last() =~= log);
}

} // verus!
