//! The decisions of the log-structured engine: where each record goes, what
//! the index holds, how many stale bytes the log carries, how a log is
//! replayed on open and how compaction rewrites it.
//!
//! `LogStore` does no I/O. Its caller appends the bytes that `prepare_put` and
//! `prepare_remove` hand out to the segment named by `writer_gen`, reads the
//! records that `lookup` locates, feeds segments to `replay` on open, and
//! copies the records of a `CompactionPlan`. The view of a `LogStore` records,
//! as ghost state, what each segment holds if the caller did so.
use vstd::prelude::*;

use crate::codec::{field_fits, Parse};
use crate::error::KvsError;
use crate::message::{
    decode_command, encode_command, lemma_command_end, lemma_command_round_trip,
    lemma_command_stable, parse_command, Command, CommandView,
};
use crate::store_proofs::{
    law_compaction_shrinks, lemma_append, lemma_bytes_through_grow, lemma_bytes_through_new,
    lemma_commit, lemma_commit_recovers, lemma_compact_recovers, lemma_copied_prefix,
    lemma_copied_step, lemma_index_in, lemma_open_recovers, lemma_relocated,
    lemma_replay_recovers, lemma_take_in, lemma_take_in_accounts,
};
use vstd::hash_map::StringHashMap;
use vstd::slice::slice_subrange;

verus! {

/// Once the stale bytes of the log exceed this count, the log is compacted.
pub const COMPACTION_THRESHOLD: u64 = 1048576;

/// The location of one encoded command: the generation of its segment, the
/// offset of its first byte and its length.
#[derive(Debug, Clone, Copy, PartialEq, Eq, Structural)]
pub struct CommandPos {
    pub gen: u64,
    pub pos: u64,
    pub len: u64,
}

/// The index and the count of stale bytes.
pub ghost struct IndexState {
    pub idx: Map<Seq<char>, CommandPos>,
    pub uncompacted: u64,
}

impl IndexState {
    pub open spec fn empty() -> IndexState {
        IndexState { idx: Map::empty(), uncompacted: 0 }
    }

    /// The length of the record that `key` points to, if any.
    pub open spec fn live_len(self, key: Seq<char>) -> int {
        if self.idx.contains_key(key) {
            self.idx[key].len as int
        } else {
            0
        }
    }

    /// The stale bytes once `cmd`, stored at `p`, is taken in: the record it
    /// supersedes, and a removal itself.
    pub open spec fn stale_after(self, cmd: CommandView, p: CommandPos) -> int {
        match cmd {
            CommandView::Put { key, .. } => self.uncompacted + self.live_len(key),
            CommandView::Remove { key } => self.uncompacted + self.live_len(key) + p.len,
        }
    }

    /// Takes in `cmd`, stored at `p`: a write points its key at `p`, a
    /// removal drops its key. `LogFull` where the count would pass 64 bits.
    pub open spec fn apply(self, cmd: CommandView, p: CommandPos) -> Result<IndexState, KvsError> {
        if self.stale_after(cmd, p) > u64::MAX {
            Err(KvsError::LogFull)
        } else {
            Ok(
                IndexState {
                    idx: match cmd {
                        CommandView::Put { key, .. } => self.idx.insert(key, p),
                        CommandView::Remove { key } => self.idx.remove(key),
                    },
                    uncompacted: self.stale_after(cmd, p) as u64,
                },
            )
        }
    }
}

/// Replays the commands of segment `g`, whose bytes are `b`, from offset
/// `off` on: each one is taken in at its own location, in order.
pub open spec fn replay_from(st: IndexState, g: u64, b: Seq<u8>, off: int) -> Result<
    IndexState,
    KvsError,
>
    decreases b.len() - off,
{
    if !(0 <= off < b.len()) {
        Ok(st)
    } else {
        match parse_command(b.skip(off)) {
            Parse::Done(cmd, n) => {
                if 0 < n && off + n <= b.len() {
                    match st.apply(cmd, CommandPos { gen: g, pos: off as u64, len: n as u64 }) {
                        Ok(next) => replay_from(next, g, b, off + n),
                        Err(e) => Err(e),
                    }
                } else {
                    Err(KvsError::Serialization)
                }
            },
            _ => Err(KvsError::Serialization),
        }
    }
}

/// Where `k` stands in `keys`, for a `k` that does.
pub open spec fn index_in(keys: Seq<Seq<char>>, k: Seq<char>) -> int {
    choose|i: int| 0 <= i < keys.len() && keys[i] == k
}

/// `keys` without its element at `i`, whose place the last one takes.
pub open spec fn swap_out(keys: Seq<Seq<char>>, i: int) -> Seq<Seq<char>> {
    keys.update(i, keys.last()).drop_last()
}

/// `slots` gives the place of each key of `keys`, and holds no other key.
pub open spec fn slots_match(slots: Map<Seq<char>, usize>, keys: Seq<Seq<char>>) -> bool {
    &&& forall|j: int|
        0 <= j < keys.len() ==> #[trigger] slots.contains_key(keys[j]) && slots[keys[j]] == j
    &&& forall|k: Seq<char>| #[trigger] slots.contains_key(k) ==> keys.contains(k)
}

/// The bytes at `p`.
pub open spec fn record_at(segs: Map<u64, Seq<u8>>, p: CommandPos) -> Seq<u8> {
    segs[p.gen].subrange(p.pos as int, p.pos + p.len)
}

/// What a store is: its live keys in index order, the index and stale count,
/// the contents of its segments, and the segment open for writing.
pub ghost struct LogView {
    pub keys: Seq<Seq<char>>,
    pub state: IndexState,
    pub segs: Map<u64, Seq<u8>>,
    pub gen: u64,
    pub writer_pos: u64,
}

impl LogView {
    /// `k` points to a whole record, in a segment that exists, that writes `k`.
    pub open spec fn entry_ok(self, k: Seq<char>) -> bool {
        let p = self.state.idx[k];
        &&& self.segs.contains_key(p.gen)
        &&& p.pos + p.len <= self.segs[p.gen].len()
        &&& parse_command(record_at(self.segs, p)) matches Parse::Done(
            CommandView::Put { key, .. },
            n,
        ) && key == k && n == p.len
    }

    pub open spec fn wf(self) -> bool {
        &&& self.segs.contains_key(self.gen)
        &&& self.segs[self.gen].len() == self.writer_pos
        &&& forall|g: u64| #[trigger] self.segs.contains_key(g) ==> g <= self.gen
        &&& forall|k: Seq<char>| #[trigger] self.state.idx.contains_key(k) ==> self.entry_ok(k)
        &&& self.keys.no_duplicates()
        &&& forall|k: Seq<char>| self.state.idx.contains_key(k) <==> self.keys.contains(k)
    }

    /// The value that the record of `k` writes.
    pub open spec fn value_of(self, k: Seq<char>) -> Seq<char> {
        match parse_command(record_at(self.segs, self.state.idx[k])) {
            Parse::Done(CommandView::Put { value, .. }, _) => value,
            _ => Seq::empty(),
        }
    }

    /// What the store holds: each live key with its latest value.
    pub open spec fn model(self) -> Map<Seq<char>, Seq<char>> {
        Map::new(|k: Seq<char>| self.state.idx.contains_key(k), |k: Seq<char>| self.value_of(k))
    }

    /// Where the next record, of `len` bytes, goes.
    pub open spec fn next_pos(self, len: int) -> CommandPos {
        CommandPos { gen: self.gen, pos: self.writer_pos, len: len as u64 }
    }

    /// Appending `rec`, the record of `cmd`, keeps positions and counts in 64 bits.
    pub open spec fn can_commit(self, cmd: CommandView, rec: Seq<u8>) -> bool {
        &&& self.writer_pos + rec.len() <= u64::MAX
        &&& self.state.apply(cmd, self.next_pos(rec.len() as int)) is Ok
    }

    /// The store once the record at `p`, which encodes `cmd`, is taken in:
    /// the index and the stale count as `apply` says, and the live keys with
    /// a new key last and a removed one replaced by the last.
    pub open spec fn take_in(self, cmd: CommandView, p: CommandPos) -> LogView {
        LogView {
            keys: match cmd {
                CommandView::Put { key, .. } => if self.keys.contains(key) {
                    self.keys
                } else {
                    self.keys.push(key)
                },
                CommandView::Remove { key } => if self.keys.contains(key) {
                    swap_out(self.keys, index_in(self.keys, key))
                } else {
                    self.keys
                },
            },
            state: self.state.apply(cmd, p)->Ok_0,
            ..self
        }
    }

    /// The store once `rec` has been appended to the segment open for writing.
    pub open spec fn append(self, rec: Seq<u8>) -> LogView {
        LogView {
            segs: self.segs.insert(self.gen, self.segs[self.gen] + rec),
            writer_pos: (self.writer_pos + rec.len()) as u64,
            ..self
        }
    }

    /// The store once `rec`, the record of `cmd`, has been appended to the
    /// segment open for writing and taken in.
    pub open spec fn commit(self, cmd: CommandView, rec: Seq<u8>) -> LogView {
        self.append(rec).take_in(cmd, self.next_pos(rec.len() as int))
    }

    /// The records of the first `n` live keys, in index order, back to back.
    pub open spec fn copied(self, n: int) -> Seq<u8>
        decreases n,
    {
        if n <= 0 {
            Seq::empty()
        } else {
            self.copied(n - 1) + record_at(self.segs, self.state.idx[self.keys[n - 1]])
        }
    }

    /// The locations of the live records, in index order.
    pub open spec fn live_positions(self) -> Seq<CommandPos> {
        self.keys.map_values(|k: Seq<char>| self.state.idx[k])
    }

    /// Compaction's generations and offsets stay within 64 bits.
    pub open spec fn can_compact(self) -> bool {
        &&& self.gen + 2 <= u64::MAX
        &&& self.copied(self.keys.len() as int).len() <= u64::MAX
    }
}

/// The store is empty: no key, no stale byte, and `g` is the segment open
/// for writing, still empty.
pub open spec fn fresh(g: u64) -> LogView {
    LogView {
        keys: Seq::empty(),
        state: IndexState::empty(),
        segs: Map::empty().insert(g, Seq::empty()),
        gen: g,
        writer_pos: 0,
    }
}

/// The record at `p` lies in a segment of the store and encodes exactly `cmd`.
pub open spec fn holds_record(s: LogView, cmd: CommandView, p: CommandPos) -> bool {
    &&& s.segs.contains_key(p.gen)
    &&& p.pos + p.len <= s.segs[p.gen].len()
    &&& parse_command(record_at(s.segs, p)) == Parse::Done(cmd, p.len as int)
}

/// A command prepared for appending: `record` is the encoding of `cmd`.
pub struct Pending {
    pub cmd: Command,
    pub record: Vec<u8>,
}

impl Pending {
    pub open spec fn wf(&self) -> bool {
        &&& self.cmd@.fits()
        &&& self.record@ == self.cmd@.bytes()
    }

    /// The bytes to append to the segment open for writing.
    pub fn record(&self) -> (r: &[u8])
        ensures
            r@ == self.record@,
    {
        self.record.as_slice()
    }
}

/// The engine's state: the index (live keys with the location of their
/// latest record), the segment open for writing and how far it is filled,
/// and the count of stale bytes in the log.
pub struct LogStore {
    keys: Vec<String>,
    positions: Vec<CommandPos>,
    slots: StringHashMap<usize>,
    gen: u64,
    writer_pos: u64,
    uncompacted: u64,
    idx: Ghost<Map<Seq<char>, CommandPos>>,
    segs: Ghost<Map<u64, Seq<u8>>>,
}

impl View for LogStore {
    type V = LogView;

    closed spec fn view(&self) -> LogView {
        LogView {
            keys: self.keys@.map_values(|s: String| s@),
            state: IndexState { idx: self.idx@, uncompacted: self.uncompacted },
            segs: self.segs@,
            gen: self.gen,
            writer_pos: self.writer_pos,
        }
    }
}

fn str_fits(s: &String)
    ensures
        field_fits(s@),
{
    let b = s.as_str().as_bytes();
    let n: usize = b.len();
    assert(b@.len() == n);
}

impl LogStore {
    closed spec fn inv(&self) -> bool {
        &&& self.positions@.len() == self.keys@.len()
        &&& forall|j: int|
            0 <= j < self.keys@.len() ==> self.idx@[#[trigger] self.keys@[j]@]
                == self.positions@[j]
        &&& slots_match(self.slots@, self@.keys)
    }

    /// The store is well formed: its index and its record of the segments agree.
    pub closed spec fn wf(&self) -> bool {
        self.inv() && self@.wf()
    }

    /// An empty store; no segment is open for writing yet (generation 0).
    pub fn new() -> (r: LogStore)
        ensures
            r.wf(),
            r@ == fresh(0),
            r@.recovers(),
            r@.accounts(),
    {
        let r = LogStore {
            keys: Vec::new(),
            positions: Vec::new(),
            slots: StringHashMap::new(),
            gen: 0,
            writer_pos: 0,
            uncompacted: 0,
            idx: Ghost(Map::empty()),
            segs: Ghost(Map::empty().insert(0, Seq::empty())),
        };
        assert(r@.keys =~= Seq::<Seq<char>>::empty());
        assert(replay_through(r@.segs, -1) == Ok::<IndexState, KvsError>(IndexState::empty()));
        assert(bytes_through(r@.segs, -1) == 0);
        assert(r@.segs.contains_key(0) && r@.segs[0].len() == 0);
        assert(bytes_through(r@.segs, 0) == 0);
        assert(lens_sum(r@.keys, r@.state.idx) == 0);
        assert(replay_from(IndexState::empty(), 0, Seq::empty(), 0) == Ok::<IndexState, KvsError>(
            IndexState::empty(),
        ));
        r
    }

    /// The generation of the segment open for writing.
    pub fn writer_gen(&self) -> (r: u64)
        ensures
            r == self@.gen,
    {
        self.gen
    }

    /// The count of stale bytes in the log.
    pub fn uncompacted(&self) -> (r: u64)
        ensures
            r == self@.state.uncompacted,
    {
        self.uncompacted
    }

    /// The number of live keys.
    pub fn len(&self) -> (r: usize)
        requires
            self.wf(),
        ensures
            r == self@.keys.len(),
    {
        self.keys.len()
    }

    /// Whether the stale bytes call for a compaction.
    pub fn needs_compaction(&self) -> (r: bool)
        ensures
            r == (self@.state.uncompacted > COMPACTION_THRESHOLD),
    {
        self.uncompacted > COMPACTION_THRESHOLD
    }

    fn find(&self, key: &String) -> (r: Option<usize>)
        requires
            self.inv(),
        ensures
            match r {
                Some(i) => i < self@.keys.len() && self@.keys[i as int] == key@,
                None => !self@.keys.contains(key@),
            },
    {
        match self.slots.get(key.as_str()) {
            Some(i) => {
                let i = *i;
                proof {
                    let j = choose|j: int| 0 <= j < self@.keys.len() && self@.keys[j] == key@;
                    assert(self.slots@[self@.keys[j]] == j);
                }
                Some(i)
            },
            None => {
                proof {
                    if self@.keys.contains(key@) {
                        let j = choose|j: int| 0 <= j < self@.keys.len() && self@.keys[j] == key@;
                        assert(self.slots@.contains_key(self@.keys[j]));
                    }
                }
                None
            },
        }
    }

    /// The location of the latest record of `key`, if the store holds it.
    pub fn lookup(&self, key: &String) -> (r: Option<CommandPos>)
        requires
            self.wf(),
        ensures
            r == (if self@.state.idx.contains_key(key@) {
                Some(self@.state.idx[key@])
            } else {
                None
            }),
    {
        match self.find(key) {
            Some(i) => {
                assert(self.keys@[i as int]@ == self@.keys[i as int]);
                assert(self@.keys.contains(key@));
                Some(self.positions[i])
            },
            None => {
                assert(!self@.state.idx.contains_key(key@));
                None
            },
        }
    }

    /// The length of the live record of `key`, 0 if there is none.
    fn live_len(&self, key: &String) -> (r: u64)
        requires
            self.wf(),
        ensures
            r == self@.state.live_len(key@),
    {
        match self.lookup(key) {
            Some(p) => p.len,
            None => 0,
        }
    }

    /// Whether taking in `cmd`, stored in `len` bytes, keeps the stale
    /// count within 64 bits.
    fn stale_fits(&self, cmd: &Command, len: u64) -> (r: bool)
        requires
            self.wf(),
        ensures
            forall|p: CommandPos| p.len == len ==> (r <==> self@.state.apply(cmd@, p) is Ok),
    {
        match cmd {
            Command::Put { key, .. } => self.live_len(key) <= u64::MAX - self.uncompacted,
            Command::Remove { key } => {
                let old_len = self.live_len(key);
                old_len <= u64::MAX - self.uncompacted && len <= u64::MAX - self.uncompacted
                    - old_len
            },
        }
    }

    /// Checks that `cmd`, encoded as `record`, can be appended.
    fn check_room(&self, cmd: &Command, record: &Vec<u8>) -> (r: bool)
        requires
            self.wf(),
        ensures
            r == self@.can_commit(cmd@, record@),
    {
        let len = record.len() as u64;
        self.writer_pos <= u64::MAX - len && self.stale_fits(cmd, len)
    }

    /// Prepares the write of `value` under `key`: the record to append.
    /// `LogFull` where the log's positions or counts would pass 64 bits.
    pub fn prepare_put(&self, key: String, value: String) -> (r: Result<Pending, KvsError>)
        requires
            self.wf(),
        ensures
            match r {
                Ok(p) => p.wf() && p.cmd@ == (CommandView::Put { key: key@, value: value@ })
                    && self@.can_commit(p.cmd@, p.record@),
                Err(e) => e == KvsError::LogFull && !self@.can_commit(
                    CommandView::Put { key: key@, value: value@ },
                    (CommandView::Put { key: key@, value: value@ }).bytes(),
                ),
            },
    {
        str_fits(&key);
        str_fits(&value);
        let cmd = Command::Put { key, value };
        let record = encode_command(&cmd);
        if self.check_room(&cmd, &record) {
            Ok(Pending { cmd, record })
        } else {
            Err(KvsError::LogFull)
        }
    }

    /// Prepares the removal of `key`: the record to append. `KeyNotFound`
    /// where the store does not hold `key`; `LogFull` as for `prepare_put`.
    pub fn prepare_remove(&self, key: String) -> (r: Result<Pending, KvsError>)
        requires
            self.wf(),
        ensures
            match r {
                Ok(p) => p.wf() && p.cmd@ == (CommandView::Remove { key: key@ })
                    && self@.state.idx.contains_key(key@) && self@.can_commit(p.cmd@, p.record@),
                Err(e) => if !self@.state.idx.contains_key(key@) {
                    e == KvsError::KeyNotFound
                } else {
                    e == KvsError::LogFull && !self@.can_commit(
                        CommandView::Remove { key: key@ },
                        (CommandView::Remove { key: key@ }).bytes(),
                    )
                },
            },
    {
        if self.lookup(&key).is_none() {
            return Err(KvsError::KeyNotFound);
        }
        str_fits(&key);
        let cmd = Command::Remove { key };
        let record = encode_command(&cmd);
        if self.check_room(&cmd, &record) {
            Ok(Pending { cmd, record })
        } else {
            Err(KvsError::LogFull)
        }
    }

    /// Takes `cmd`, stored at `p`, into the index and the stale count.
    fn take_in(&mut self, cmd: Command, p: CommandPos)
        requires
            old(self).wf(),
            holds_record(old(self)@, cmd@, p),
            old(self)@.state.apply(cmd@, p) is Ok,
        ensures
            final(self).wf(),
            final(self)@ == old(self)@.take_in(cmd@, p),
    {
        let ghost before = self@;
        let ghost cmd_view = cmd@;
        let ghost old_slots = self.slots@;
        proof {
            lemma_take_in(before, cmd_view, p);
            assert(slots_match(old_slots, before.keys));
        }
        match cmd {
            Command::Put { key, value } => {
                let ghost k = key@;
                match self.find(&key) {
                    Some(i) => {
                        let old_len = self.positions[i].len;
                        self.uncompacted = self.uncompacted + old_len;
                        self.positions.set(i, p);
                        assert(before.keys.contains(k));
                    },
                    None => {
                        let n = self.keys.len();
                        self.slots.insert(key.clone(), n);
                        self.keys.push(key);
                        self.positions.push(p);
                        proof {
                            let t = before.take_in(cmd_view, p);
                            assert(self@.keys =~= t.keys);
                            assert forall|j: int| 0 <= j < t.keys.len() implies #[trigger]
                                self.slots@.contains_key(t.keys[j]) && self.slots@[t.keys[j]]
                                == j by {
                                if j < n {
                                    assert(t.keys[j] == before.keys[j]);
                                    assert(before.keys[j] != k);
                                }
                            }
                            assert forall|x: Seq<char>| #[trigger]
                                self.slots@.contains_key(x) implies t.keys.contains(x) by {
                                if x == k {
                                    assert(t.keys[n as int] == x);
                                } else {
                                    assert(before.keys.contains(x));
                                    let j = choose|j: int|
                                        0 <= j < before.keys.len() && before.keys[j] == x;
                                    assert(t.keys[j] == x);
                                }
                            }
                        }
                    },
                }
                self.idx = Ghost(self.idx@.insert(k, p));
            },
            Command::Remove { key } => {
                let ghost k = key@;
                match self.find(&key) {
                    Some(i) => {
                        let old_len = self.positions[i].len;
                        self.uncompacted = self.uncompacted + old_len + p.len;
                        let last = self.keys.len() - 1;
                        self.keys.swap_remove(i);
                        self.positions.swap_remove(i);
                        self.slots.remove(key.as_str());
                        if i < last {
                            let moved = self.keys[i].clone();
                            self.slots.insert(moved, i);
                        }
                        proof {
                            lemma_index_in(before.keys, i as int);
                            let t = before.take_in(cmd_view, p);
                            assert(self@.keys =~= t.keys);
                            assert forall|j: int| 0 <= j < t.keys.len() implies #[trigger]
                                self.slots@.contains_key(t.keys[j]) && self.slots@[t.keys[j]]
                                == j by {
                                if j != i {
                                    assert(t.keys[j] == before.keys[j]);
                                    assert(before.keys[j] != k);
                                    assert(before.keys[j] != before.keys[last as int]);
                                    assert(old_slots.contains_key(before.keys[j]));
                                    assert(old_slots[before.keys[j]] == j);
                                } else {
                                    assert(i < last);
                                    assert(t.keys[j] == before.keys[last as int]);
                                }
                            }
                            assert forall|x: Seq<char>| #[trigger]
                                self.slots@.contains_key(x) implies t.keys.contains(x) by {
                                if i < last && x == before.keys[last as int] {
                                    assert(t.keys[i as int] == x);
                                } else {
                                    assert(old_slots.contains_key(x) && x != k);
                                    assert(before.keys.contains(x));
                                    assert(t.state.idx.contains_key(x));
                                }
                            }
                        }
                    },
                    None => {
                        self.uncompacted = self.uncompacted + p.len;
                    },
                }
                self.idx = Ghost(self.idx@.remove(k));
            },
        }
        let ghost after = before.take_in(cmd_view, p);
        assert(self@.keys =~= after.keys);
        assert(self@.state.idx =~= after.state.idx);
        assert(self.inv()) by {
            assert forall|j: int| 0 <= j < self.keys@.len() implies self.idx@[
                #[trigger] self.keys@[j]@] == self.positions@[j] by {
                assert(self@.keys[j] == self.keys@[j]@);
                assert(after.keys.no_duplicates());
            }
        }
    }

    /// Takes in a record once the caller has appended it to the segment
    /// open for writing. Returns whether a compaction is now due.
    pub fn commit(&mut self, p: Pending) -> (due: bool)
        requires
            old(self).wf(),
            p.wf(),
            old(self)@.can_commit(p.cmd@, p.record@),
        ensures
            final(self).wf(),
            final(self)@ == old(self)@.commit(p.cmd@, p.record@),
            final(self)@.model() == match p.cmd@ {
                CommandView::Put { key, value } => old(self)@.model().insert(key, value),
                CommandView::Remove { key } => old(self)@.model().remove(key),
            },
            due == (final(self)@.state.uncompacted > COMPACTION_THRESHOLD),
            old(self)@.recovers() ==> final(self)@.recovers(),
            old(self)@.accounts() ==> final(self)@.accounts(),
    {
        let ghost before = self@;
        let ghost rec = p.record@;
        proof {
            lemma_commit(before, p.cmd@, rec);
            lemma_append(before, rec);
            lemma_bytes_through_grow(before, before.segs[before.gen] + rec);
            lemma_take_in_accounts(
                before.append(rec),
                p.cmd@,
                before.next_pos(rec.len() as int),
            );
            if before.recovers() {
                lemma_commit_recovers(before, p.cmd@, rec);
            }
            lemma_append(before, rec);
            assert(rec + Seq::<u8>::empty() =~= rec);
            lemma_command_round_trip(p.cmd@, Seq::empty());
        }
        let len = p.record.len() as u64;
        let pos = CommandPos { gen: self.gen, pos: self.writer_pos, len };
        self.segs = Ghost(self.segs@.insert(self.gen, self.segs@[self.gen] + rec));
        self.writer_pos = self.writer_pos + len;
        assert(self@ == before.append(rec));
        self.take_in(p.cmd, pos);
        self.uncompacted > COMPACTION_THRESHOLD
    }

    /// Replays segment `gen`, whose bytes are `log`, into the index: every
    /// command in it is taken in at its own location, in order. Segments
    /// must come in ascending order of generation. Fails with
    /// `Serialization` on bytes that are not a sequence of whole commands,
    /// and with `LogFull` where the stale count would pass 64 bits.
    pub fn replay(&mut self, gen: u64, log: &[u8]) -> (r: Result<(), KvsError>)
        requires
            old(self).wf(),
            old(self)@.gen < gen,
        ensures
            final(self).wf(),
            match replay_from(old(self)@.state, gen, log@, 0) {
                Ok(st) => r is Ok && final(self)@.state == st && final(self)@.segs == old(
                    self,
                )@.segs.insert(gen, log@) && final(self)@.gen == gen && final(self)@.writer_pos
                    == log@.len() && (
                old(self)@.recovers() ==> final(self)@.recovers()) && (old(self)@.accounts()
                    ==> final(self)@.accounts()),
                Err(e) => r == Err::<(), KvsError>(e),
            },
    {
        let ghost before = self@;
        let n_log: usize = log.len();
        self.segs = Ghost(self.segs@.insert(gen, log@));
        self.gen = gen;
        self.writer_pos = n_log as u64;
        assert(self@.wf()) by {
            assert forall|k: Seq<char>| #[trigger] self@.state.idx.contains_key(k) implies self@.entry_ok(
                k,
            ) by {
                assert(before.entry_ok(k));
                assert(before.segs.contains_key(before.state.idx[k].gen));
            }
            assert forall|g: u64| #[trigger] self@.segs.contains_key(g) implies g <= self@.gen by {
                if g != gen {
                    assert(before.segs.contains_key(g));
                }
            }
        }
        let ghost target = replay_from(before.state, gen, log@, 0);
        let mut off: usize = 0;
        while off < log.len()
            invariant
                self.wf(),
                off <= log@.len(),
                self@.segs == before.segs.insert(gen, log@),
                self@.gen == gen,
                self@.writer_pos == log@.len(),
                replay_from(self@.state, gen, log@, off as int) == target,
                target == replay_from(old(self)@.state, gen, log@, 0),
                before == old(self)@,
                before.accounts() ==> self@.live_bytes() + self@.state.uncompacted
                    == before.total_bytes() + off,
            decreases log@.len() - off,
        {
            let rest = slice_subrange(log, off, log.len());
            assert(rest@ =~= log@.skip(off as int));
            match decode_command(rest) {
                Ok(Some((cmd, n))) => {
                    proof {
                        lemma_command_end(rest@);
                    }
                    let p = CommandPos { gen, pos: off as u64, len: n as u64 };
                    let ghost applied = self@.state.apply(cmd@, p);
                    if !self.stale_fits(&cmd, n as u64) {
                        assert(applied is Err);
                        assert(replay_from(self@.state, gen, log@, off as int) == applied);
                        assert(applied == Err::<IndexState, KvsError>(KvsError::LogFull));
                        assert(target == Err::<IndexState, KvsError>(KvsError::LogFull));
                        return Err(KvsError::LogFull);
                    }
                    proof {
                        lemma_take_in_accounts(self@, cmd@, p);
                        let record = record_at(self@.segs, p);
                        assert(record =~= rest@.take(n as int));
                        assert(record.take(n as int) =~= rest@.take(n as int));
                        lemma_command_stable(rest@, record);
                    }
                    self.take_in(cmd, p);
                    off = off + n;
                },
                Ok(None) => {
                    return Err(KvsError::Serialization);
                },
                Err(e) => {
                    assert(target == Err::<IndexState, KvsError>(KvsError::Serialization));
                    return Err(e);
                },
            }
        }
        proof {
            assert(self@.state == target->Ok_0);
            if before.recovers() {
                lemma_replay_recovers(before, gen, log@, self@.state);
            }
            lemma_bytes_through_new(before, gen, log@);
        }
        Ok(())
    }

    /// Opens the segment after the newest one for writing, empty, and
    /// returns its generation. `LogFull` where generations are exhausted.
    pub fn open_writer(&mut self) -> (r: Result<u64, KvsError>)
        requires
            old(self).wf(),
        ensures
            final(self).wf(),
            match r {
                Ok(g) => g == old(self)@.gen + 1 && final(self)@ == (LogView {
                    segs: old(self)@.segs.insert(g, Seq::empty()),
                    gen: g,
                    writer_pos: 0,
                    ..old(self)@
                }),
                Err(e) => e == KvsError::LogFull && old(self)@.gen == u64::MAX && final(self)@
                    == old(self)@,
            },
            old(self)@.recovers() ==> final(self)@.recovers(),
            old(self)@.accounts() ==> final(self)@.accounts(),
    {
        if self.gen == u64::MAX {
            return Err(KvsError::LogFull);
        }
        let ghost before = self@;
        let g = self.gen + 1;
        proof {
            if before.recovers() {
                lemma_open_recovers(before, g);
            }
            lemma_bytes_through_new(before, g, Seq::empty());
        }
        self.segs = Ghost(self.segs@.insert(g, Seq::empty()));
        self.gen = g;
        self.writer_pos = 0;
        assert(self@.wf()) by {
            assert forall|k: Seq<char>| #[trigger] self@.state.idx.contains_key(k) implies self@.entry_ok(
                k,
            ) by {
                assert(before.entry_ok(k));
                assert(before.segs.contains_key(before.state.idx[k].gen));
            }
            assert forall|x: u64| #[trigger] self@.segs.contains_key(x) implies x <= self@.gen by {
                if x != g {
                    assert(before.segs.contains_key(x));
                }
            }
        }
        Ok(g)
    }

    /// What a compaction copies: the generation of the segment that
    /// receives the live records (the one after the segment open for
    /// writing), and the locations of those records in index order.
    /// `LogFull` where generations or offsets would pass 64 bits.
    pub fn compaction_plan(&self) -> (r: Result<CompactionPlan, KvsError>)
        requires
            self.wf(),
        ensures
            match r {
                Ok(plan) => self@.can_compact() && plan.gen == self@.gen + 1 && plan.sources@
                    == self@.live_positions(),
                Err(e) => e == KvsError::LogFull && !self@.can_compact(),
            },
    {
        let ghost s = self@;
        let n = self.positions.len();
        let mut sources: Vec<CommandPos> = Vec::new();
        let mut total: u64 = 0;
        let mut fits = self.gen <= u64::MAX - 2;
        let mut i: usize = 0;
        while i < n
            invariant
                self.wf(),
                s == self@,
                n == self.positions@.len(),
                i <= n,
                sources@ == s.live_positions().take(i as int),
                fits ==> total == s.copied(i as int).len(),
                fits ==> self.gen <= u64::MAX - 2,
                !fits ==> !s.can_compact(),
            decreases n - i,
        {
            let p = self.positions[i];
            proof {
                assert(self.idx@[self.keys@[i as int]@] == p);
                assert(s.keys[i as int] == self.keys@[i as int]@);
                lemma_copied_step(s, i as int + 1);
                lemma_copied_prefix(s, i as int + 1, s.keys.len() as int);
            }
            if fits {
                if total <= u64::MAX - p.len {
                    total = total + p.len;
                } else {
                    fits = false;
                }
            }
            sources.push(p);
            assert(sources@ =~= s.live_positions().take(i as int + 1));
            i = i + 1;
        }
        assert(s.live_positions().take(n as int) =~= s.live_positions());
        if fits {
            Ok(CompactionPlan { gen: self.gen + 1, sources })
        } else {
            Err(KvsError::LogFull)
        }
    }

    /// Compacts the log once the caller has appended the records of
    /// `compaction_plan`, in order, to the new segment: every key now points
    /// into that segment, the segment after it is open for writing, the older
    /// segments may be deleted, and no byte is stale. What the store holds
    /// does not change.
    pub fn compact(&mut self)
        requires
            old(self).wf(),
            old(self)@.can_compact(),
        ensures
            final(self).wf(),
            final(self)@.model() == old(self)@.model(),
            final(self)@.keys == old(self)@.keys,
            final(self)@.gen == old(self)@.gen + 2,
            final(self)@.writer_pos == 0,
            final(self)@.state.uncompacted == 0,
            final(self)@.segs == Map::<u64, Seq<u8>>::empty().insert(
                (old(self)@.gen + 1) as u64,
                old(self)@.copied(old(self)@.keys.len() as int),
            ).insert((old(self)@.gen + 2) as u64, Seq::empty()),
            forall|k: Seq<char>| #[trigger]
                final(self)@.state.idx.contains_key(k) ==> final(self)@.state.idx[k].gen
                    == old(self)@.gen + 1,
            final(self)@.state.idx == relocated(
                old(self)@,
                (old(self)@.gen + 1) as u64,
                old(self)@.keys.len() as int,
            ),
            final(self)@.recovers(),
            old(self)@.accounts() ==> final(self)@.accounts() && final(self)@.total_bytes()
                == old(self)@.total_bytes() - old(self)@.state.uncompacted,
    {
        let ghost s = self@;
        let ghost olds = self.positions@;
        let ghost slots0 = self.slots@;
        let cg = self.gen + 1;
        let n = self.positions.len();
        let mut off: u64 = 0;
        let mut i: usize = 0;
        self.segs = Ghost(s.segs.insert(cg, Seq::empty()));
        proof {
            lemma_copied_prefix(s, 0, n as int);
        }
        while i < n
            invariant
                s.wf(),
                s.can_compact(),
                cg == s.gen + 1,
                n == s.keys.len(),
                self.keys@.map_values(|x: String| x@) == s.keys,
                self.slots@ == slots0,
                slots_match(slots0, s.keys),
                self.positions@.len() == n,
                olds.len() == n,
                i <= n,
                self.segs@ == s.segs.insert(cg, s.copied(i as int)),
                off == s.copied(i as int).len(),
                self.idx@.dom() == s.state.idx.dom(),
                forall|j: int| 0 <= j < n ==> olds[j] == s.state.idx[s.keys[j]],
                forall|j: int| 0 <= j < n ==> self.idx@[s.keys[j]] == #[trigger] self.positions@[j],
                forall|j: int| i <= j < n ==> #[trigger] self.positions@[j] == olds[j],
                forall|j: int| 0 <= j < i ==> #[trigger] self.positions@[j].pos == s.copied(j).len(),
                forall|j: int|
                    #![trigger self.positions@[j]]
                    0 <= j < i ==> self.positions@[j].gen == cg && self.positions@[j].len
                        == olds[j].len && self.positions@[j].pos + self.positions@[j].len
                        <= s.copied(i as int).len() && s.copied(i as int).subrange(
                        self.positions@[j].pos as int,
                        self.positions@[j].pos + self.positions@[j].len,
                    ) == record_at(s.segs, olds[j]),
                self.gen == s.gen,
            decreases n - i,
        {
            let p = self.positions[i];
            proof {
                lemma_copied_step(s, i as int + 1);
                lemma_copied_prefix(s, i as int + 1, n as int);
                assert(s.keys.contains(s.keys[i as int]));
                assert(s.entry_ok(s.keys[i as int]));
            }
            let np = CommandPos { gen: cg, pos: off, len: p.len };
            let ghost prev = s.copied(i as int);
            let ghost next = s.copied(i as int + 1);
            self.positions.set(i, np);
            self.idx = Ghost(self.idx@.insert(s.keys[i as int], np));
            off = off + p.len;
            self.segs = Ghost(s.segs.insert(cg, next));
            proof {
                assert forall|j: int|
                    #![trigger self.positions@[j]]
                    0 <= j < i + 1 implies self.positions@[j].gen == cg && self.positions@[j].len
                    == olds[j].len && self.positions@[j].pos + self.positions@[j].len
                    <= next.len() && next.subrange(
                    self.positions@[j].pos as int,
                    self.positions@[j].pos + self.positions@[j].len,
                ) == record_at(s.segs, olds[j]) by {
                    let q = self.positions@[j];
                    if j < i {
                        assert(next.subrange(q.pos as int, q.pos + q.len) =~= prev.subrange(
                            q.pos as int,
                            q.pos + q.len,
                        ));
                    } else {
                        assert(next.subrange(q.pos as int, q.pos + q.len) =~= record_at(
                            s.segs,
                            olds[j],
                        ));
                    }
                }
                assert forall|j: int| 0 <= j < n implies self.idx@[s.keys[j]]
                    == #[trigger] self.positions@[j] by {
                    if j != i {
                        assert(s.keys[j] != s.keys[i as int]);
                    }
                }
                assert(self.idx@.dom() =~= s.state.idx.dom());
            }
            i = i + 1;
        }
        let ghost all = s.copied(n as int);
        self.segs = Ghost(Map::empty().insert(cg, all).insert((cg + 1) as u64, Seq::empty()));
        self.gen = cg + 1;
        self.writer_pos = 0;
        self.uncompacted = 0;
        proof {
            let t = self@;
            assert(t.keys == s.keys);
            assert forall|k: Seq<char>| #[trigger] t.state.idx.contains_key(k) implies t.entry_ok(
                k,
            ) && t.state.idx[k].gen == cg && record_at(t.segs, t.state.idx[k]) == record_at(
                s.segs,
                s.state.idx[k],
            ) by {
                assert(s.keys.contains(k));
                let j = choose|j: int| 0 <= j < s.keys.len() && s.keys[j] == k;
                assert(self.idx@[s.keys[j]] == self.positions@[j]);
                assert(s.entry_ok(k));
            }
            assert forall|g: u64| #[trigger] t.segs.contains_key(g) implies g <= t.gen by {}
            assert forall|k: Seq<char>| #[trigger] t.model().contains_key(k) implies t.model()[k]
                == s.model()[k] by {}
            assert(t.model() =~= s.model());
            lemma_relocated(s, cg, n as int);
            assert forall|k: Seq<char>| #[trigger] t.state.idx.contains_key(k) implies t.state.idx[k]
                == relocated(s, cg, n as int)[k] && relocated(s, cg, n as int).contains_key(k) by {
                assert(s.keys.contains(k));
                let j = choose|j: int| 0 <= j < s.keys.len() && s.keys[j] == k;
                assert(0 <= j < n && s.keys[j] == k);
                assert(self.idx@[s.keys[j]] == self.positions@[j]);
                assert(relocated(s, cg, n as int)[s.keys[j]] == self.positions@[j]);
            }
            assert forall|k: Seq<char>| #[trigger] relocated(s, cg, n as int).contains_key(k)
                implies t.state.idx.contains_key(k) by {
                let j = choose|j: int| 0 <= j < n && s.keys[j] == k;
                assert(s.keys.contains(k));
            }
            assert(t.state.idx =~= relocated(s, cg, n as int));
            lemma_compact_recovers(s);
            if s.accounts() {
                law_compaction_shrinks(s);
            }
        }
    }
}

/// The records to copy in a compaction, and the segment that receives them.
pub struct CompactionPlan {
    pub gen: u64,
    pub sources: Vec<CommandPos>,
}

/// Decodes the record that `lookup` located: the value that it writes.
/// `UnexpectedCommandType` for a removal; `Serialization` for bytes that are
/// not exactly one command.
pub fn read_value(record: &[u8]) -> (r: Result<String, KvsError>)
    ensures
        match parse_command(record@) {
            Parse::Done(CommandView::Put { value, .. }, n) => if n == record@.len() {
                r matches Ok(v) && v@ == value
            } else {
                r == Err::<String, KvsError>(KvsError::Serialization)
            },
            Parse::Done(CommandView::Remove { .. }, _) => r == Err::<String, KvsError>(
                KvsError::UnexpectedCommandType,
            ),
            _ => r == Err::<String, KvsError>(KvsError::Serialization),
        },
{
    match decode_command(record) {
        Ok(Some((Command::Put { value, .. }, n))) => {
            if n == record.len() {
                Ok(value)
            } else {
                Err(KvsError::Serialization)
            }
        },
        Ok(Some((Command::Remove { .. }, _))) => Err(KvsError::UnexpectedCommandType),
        Ok(None) => Err(KvsError::Serialization),
        Err(e) => Err(e),
    }
}


/// The bytes of the segments of `segs` with generations 0 to `hi`.
pub open spec fn bytes_through(segs: Map<u64, Seq<u8>>, hi: int) -> int
    decreases hi + 1,
{
    if hi < 0 {
        0
    } else {
        bytes_through(segs, hi - 1) + if segs.contains_key(hi as u64) {
            segs[hi as u64].len() as int
        } else {
            0
        }
    }
}

/// The total length of the records that `idx` locates for `keys`.
pub open spec fn lens_sum(keys: Seq<Seq<char>>, idx: Map<Seq<char>, CommandPos>) -> int
    decreases keys.len(),
{
    if keys.len() == 0 {
        0
    } else {
        lens_sum(keys.drop_last(), idx) + idx[keys.last()].len
    }
}

/// Replays, from an empty index, the segments of `segs` with generations
/// 0 to `hi`, in ascending order of generation.
pub open spec fn replay_through(segs: Map<u64, Seq<u8>>, hi: int) -> Result<IndexState, KvsError>
    decreases hi + 1,
{
    if hi < 0 {
        Ok(IndexState::empty())
    } else {
        match replay_through(segs, hi - 1) {
            Ok(st) => if segs.contains_key(hi as u64) {
                replay_from(st, hi as u64, segs[hi as u64], 0)
            } else {
                Ok(st)
            },
            Err(e) => Err(e),
        }
    }
}

impl LogView {
    /// The bytes of the live records.
    pub open spec fn live_bytes(self) -> int {
        lens_sum(self.keys, self.state.idx)
    }

    /// The bytes of the segments.
    pub open spec fn total_bytes(self) -> int {
        bytes_through(self.segs, self.gen as int)
    }

    /// Every byte of the segments belongs to a live record or is counted
    /// as stale.
    pub open spec fn accounts(self) -> bool {
        self.live_bytes() + self.state.uncompacted == self.total_bytes()
    }

    /// Replaying the store's segments in ascending order of generation, from
    /// an empty index, gives back its index and its count of stale bytes.
    pub open spec fn recovers(self) -> bool {
        replay_through(self.segs, self.gen as int) == Ok::<IndexState, KvsError>(self.state)
    }
}

/// The index that a compaction into segment `cg` leaves for the first `i`
/// live keys: each at its offset in the new segment, with its length.
pub open spec fn relocated(s: LogView, cg: u64, i: int) -> Map<Seq<char>, CommandPos>
    decreases i,
{
    if i <= 0 {
        Map::empty()
    } else {
        relocated(s, cg, i - 1).insert(
            s.keys[i - 1],
            CommandPos {
                gen: cg,
                pos: s.copied(i - 1).len() as u64,
                len: s.state.idx[s.keys[i - 1]].len,
            },
        )
    }
}

} // verus!
