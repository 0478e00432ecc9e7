//! What the store's operations do to its view, proved once: each keeps the
//! store well formed and recoverable from its segments, and reading after
//! writing, removing or reopening gives what one expects.
use vstd::prelude::*;

use crate::codec::Parse;
use crate::error::KvsError;
use crate::message::{
    lemma_command_end, lemma_command_round_trip, lemma_command_stable, parse_command, CommandView,
};
use crate::store::{
    bytes_through, fresh, holds_record, index_in, lens_sum, record_at, relocated, replay_from,
    replay_through, swap_out, CommandPos, IndexState, LogView,
};

verus! {

pub(crate) proof fn lemma_index_in(keys: Seq<Seq<char>>, i: int)
    requires
        keys.no_duplicates(),
        0 <= i < keys.len(),
    ensures
        index_in(keys, keys[i]) == i,
{
    let j = index_in(keys, keys[i]);
    assert(0 <= j < keys.len() && keys[j] == keys[i]);
}

/// Taking in a record keeps the store well formed, and the store then holds
/// what the command says: a write sets its key, a removal drops it.
pub proof fn lemma_take_in(s: LogView, cmd: CommandView, p: CommandPos)
    requires
        s.wf(),
        holds_record(s, cmd, p),
        s.state.apply(cmd, p) is Ok,
    ensures
        s.take_in(cmd, p).wf(),
        s.take_in(cmd, p).model() == match cmd {
            CommandView::Put { key, value } => s.model().insert(key, value),
            CommandView::Remove { key } => s.model().remove(key),
        },
{
    let t = s.take_in(cmd, p);
    let key = cmd.key();
    assert forall|k: Seq<char>| #[trigger] t.state.idx.contains_key(k) implies t.entry_ok(k) by {
        if k != key {
            assert(s.entry_ok(k));
        }
    }
    match cmd {
        CommandView::Put { key, value } => {
            if !s.keys.contains(key) {
                assert forall|x: Seq<char>| t.state.idx.contains_key(x) <==> t.keys.contains(x) by {
                    if x == key {
                        assert(t.keys[s.keys.len() as int] == key);
                    } else if s.keys.contains(x) {
                        let i = choose|i: int| 0 <= i < s.keys.len() && s.keys[i] == x;
                        assert(t.keys[i] == x);
                    } else if t.keys.contains(x) {
                        let i = choose|i: int| 0 <= i < t.keys.len() && t.keys[i] == x;
                        assert(i < s.keys.len());
                    }
                }
            }
            assert(t.keys.no_duplicates());
            let m = s.model().insert(key, value);
            assert forall|k: Seq<char>| #[trigger] t.model().contains_key(k) implies t.model()[k]
                == m[k] by {
            }
            assert(t.model() =~= m);
        },
        CommandView::Remove { key } => {
            if s.keys.contains(key) {
                let i = index_in(s.keys, key);
                assert(0 <= i < s.keys.len() && s.keys[i] == key);
                let last = s.keys.len() - 1;
                assert forall|j: int| 0 <= j < t.keys.len() implies #[trigger] t.keys[j] == s.keys[
                    if j == i {
                        last
                    } else {
                        j
                    }] by {}
                assert forall|x: Seq<char>| t.state.idx.contains_key(x) <==> t.keys.contains(x) by {
                    if s.keys.contains(x) && x != key {
                        let j = choose|j: int| 0 <= j < s.keys.len() && s.keys[j] == x;
                        if j == last {
                            assert(t.keys[i] == x);
                        } else {
                            assert(t.keys[j] == x);
                        }
                    }
                    if t.keys.contains(x) {
                        let j = choose|j: int| 0 <= j < t.keys.len() && t.keys[j] == x;
                        let j2 = if j == i {
                            last
                        } else {
                            j
                        };
                        assert(s.keys[j2] == x);
                        assert(j2 != i);
                    }
                }
                assert forall|a: int, b: int|
                    0 <= a < t.keys.len() && 0 <= b < t.keys.len() && a != b implies t.keys[a]
                    != t.keys[b] by {
                    let a2 = if a == i {
                        last
                    } else {
                        a
                    };
                    let b2 = if b == i {
                        last
                    } else {
                        b
                    };
                    assert(t.keys[a] == s.keys[a2] && t.keys[b] == s.keys[b2]);
                }
            }
            let m = s.model().remove(key);
            assert(t.model() =~= m);
        },
    }
}

/// Appending bytes to the segment open for writing moves no record.
pub proof fn lemma_append(s: LogView, rec: Seq<u8>)
    requires
        s.wf(),
        s.writer_pos + rec.len() <= u64::MAX,
    ensures
        s.append(rec).wf(),
        s.append(rec).model() == s.model(),
        s.append(rec).segs[s.gen].subrange(s.writer_pos as int, s.writer_pos + rec.len()) == rec,
        forall|p: CommandPos|
            s.segs.contains_key(p.gen) && p.pos + p.len <= s.segs[p.gen].len() ==> record_at(
                s.append(rec).segs,
                p,
            ) == record_at(s.segs, p),
{
    let t = s.append(rec);
    assert forall|p: CommandPos|
        s.segs.contains_key(p.gen) && p.pos + p.len <= s.segs[p.gen].len() implies record_at(
        t.segs,
        p,
    ) == record_at(s.segs, p) by {
        if p.gen == s.gen {
            assert(record_at(t.segs, p) =~= record_at(s.segs, p));
        }
    }
    assert forall|k: Seq<char>| #[trigger] t.state.idx.contains_key(k) implies t.entry_ok(k) by {
        assert(s.entry_ok(k));
    }
    assert forall|g: u64| #[trigger] t.segs.contains_key(g) implies g <= t.gen by {
        if g != s.gen {
            assert(s.segs.contains_key(g));
        }
    }
    assert(t.segs[s.gen].subrange(s.writer_pos as int, s.writer_pos + rec.len()) =~= rec);
    assert forall|k: Seq<char>| #[trigger] t.model().contains_key(k) implies t.model()[k]
        == s.model()[k] by {
        assert(s.entry_ok(k));
    }
    assert(t.model() =~= s.model());
}

/// Appending the record of a command and taking it in keeps the store well
/// formed, and the store then holds what the command says.
pub proof fn lemma_commit(s: LogView, cmd: CommandView, rec: Seq<u8>)
    requires
        s.wf(),
        cmd.fits(),
        rec == cmd.bytes(),
        s.can_commit(cmd, rec),
    ensures
        s.commit(cmd, rec).wf(),
        s.commit(cmd, rec).model() == match cmd {
            CommandView::Put { key, value } => s.model().insert(key, value),
            CommandView::Remove { key } => s.model().remove(key),
        },
{
    let a = s.append(rec);
    let p = s.next_pos(rec.len() as int);
    lemma_append(s, rec);
    assert(record_at(a.segs, p) == rec);
    assert(rec + Seq::<u8>::empty() =~= rec);
    lemma_command_round_trip(cmd, Seq::empty());
    lemma_take_in(a, cmd, p);
}

pub(crate) proof fn lemma_copied_step(s: LogView, i: int)
    requires
        s.wf(),
        1 <= i <= s.keys.len(),
    ensures
        s.copied(i) == s.copied(i - 1) + record_at(s.segs, s.state.idx[s.keys[i - 1]]),
        s.copied(i).len() == s.copied(i - 1).len() + s.state.idx[s.keys[i - 1]].len,
{
    assert(s.keys.contains(s.keys[i - 1]));
    assert(s.entry_ok(s.keys[i - 1]));
}

pub(crate) proof fn lemma_copied_prefix(s: LogView, i: int, n: int)
    requires
        s.wf(),
        0 <= i <= n <= s.keys.len(),
    ensures
        s.copied(i).len() <= s.copied(n).len(),
        s.copied(n).subrange(0, s.copied(i).len() as int) == s.copied(i),
    decreases n - i,
{
    if i < n {
        lemma_copied_prefix(s, i, n - 1);
        lemma_copied_step(s, n);
        assert(s.copied(n).subrange(0, s.copied(i).len() as int) =~= s.copied(n - 1).subrange(
            0,
            s.copied(i).len() as int,
        ));
    } else {
        assert(s.copied(n).subrange(0, s.copied(n).len() as int) =~= s.copied(n));
    }
}

/// The record that the index holds for a live key decodes, as a whole, to
/// the write of that key's value in the store.
pub proof fn law_lookup_reads_value(s: LogView, key: Seq<char>)
    requires
        s.wf(),
        s.state.idx.contains_key(key),
    ensures
        s.model().contains_key(key),
        record_at(s.segs, s.state.idx[key]).len() == s.state.idx[key].len,
        parse_command(record_at(s.segs, s.state.idx[key])) == Parse::Done(
            CommandView::Put { key, value: s.model()[key] },
            s.state.idx[key].len as int,
        ),
{
    assert(s.entry_ok(key));
}

/// Writing `value` under `key` and then reading `key` gives `value`.
pub proof fn law_put_then_get(s: LogView, key: Seq<char>, value: Seq<char>)
    requires
        s.wf(),
        (CommandView::Put { key, value }).fits(),
        s.can_commit(CommandView::Put { key, value }, (CommandView::Put { key, value }).bytes()),
    ensures
        ({
            let t = s.commit(
                CommandView::Put { key, value },
                (CommandView::Put { key, value }).bytes(),
            );
            &&& t.wf()
            &&& t.model().contains_key(key)
            &&& t.model()[key] == value
            &&& parse_command(record_at(t.segs, t.state.idx[key])) == Parse::Done(
                CommandView::Put { key, value },
                t.state.idx[key].len as int,
            )
        }),
{
    let cmd = CommandView::Put { key, value };
    let t = s.commit(cmd, cmd.bytes());
    lemma_commit(s, cmd, cmd.bytes());
    law_lookup_reads_value(t, key);
}

/// Removing a key that the store holds and then reading it finds nothing.
pub proof fn law_remove_then_get(s: LogView, key: Seq<char>)
    requires
        s.wf(),
        s.state.idx.contains_key(key),
        (CommandView::Remove { key }).fits(),
        s.can_commit(CommandView::Remove { key }, (CommandView::Remove { key }).bytes()),
    ensures
        ({
            let t = s.commit(CommandView::Remove { key }, (CommandView::Remove { key }).bytes());
            &&& t.wf()
            &&& !t.model().contains_key(key)
            &&& !t.state.idx.contains_key(key)
            &&& t.model() == s.model().remove(key)
        }),
{
    let cmd = CommandView::Remove { key };
    lemma_commit(s, cmd, cmd.bytes());
}

/// Of two writes to one key, the later one is what a read gives.
pub proof fn law_last_write_wins(s: LogView, key: Seq<char>, v1: Seq<char>, v2: Seq<char>)
    requires
        s.wf(),
        (CommandView::Put { key, value: v1 }).fits(),
        (CommandView::Put { key, value: v2 }).fits(),
        s.can_commit(
            CommandView::Put { key, value: v1 },
            (CommandView::Put { key, value: v1 }).bytes(),
        ),
        s.commit(
            CommandView::Put { key, value: v1 },
            (CommandView::Put { key, value: v1 }).bytes(),
        ).can_commit(
            CommandView::Put { key, value: v2 },
            (CommandView::Put { key, value: v2 }).bytes(),
        ),
    ensures
        ({
            let t = s.commit(
                CommandView::Put { key, value: v1 },
                (CommandView::Put { key, value: v1 }).bytes(),
            ).commit(
                CommandView::Put { key, value: v2 },
                (CommandView::Put { key, value: v2 }).bytes(),
            );
            t.model().contains_key(key) && t.model()[key] == v2
        }),
{
    let c1 = CommandView::Put { key, value: v1 };
    law_put_then_get(s, key, v1);
    law_put_then_get(s.commit(c1, c1.bytes()), key, v2);
}

/// The commands `cmds`, encoded one after the other.
pub open spec fn log_bytes(cmds: Seq<CommandView>) -> Seq<u8>
    decreases cmds.len(),
{
    if cmds.len() == 0 {
        Seq::empty()
    } else {
        cmds[0].bytes() + log_bytes(cmds.drop_first())
    }
}

/// Each command of `cmds`, in order, can be appended and taken in.
pub open spec fn can_commit_all(s: LogView, cmds: Seq<CommandView>) -> bool
    decreases cmds.len(),
{
    cmds.len() == 0 || (s.can_commit(cmds[0], cmds[0].bytes()) && can_commit_all(
        s.commit(cmds[0], cmds[0].bytes()),
        cmds.drop_first(),
    ))
}

/// The store once each command of `cmds`, in order, is appended and taken in.
pub open spec fn commit_all(s: LogView, cmds: Seq<CommandView>) -> LogView
    decreases cmds.len(),
{
    if cmds.len() == 0 {
        s
    } else {
        commit_all(s.commit(cmds[0], cmds[0].bytes()), cmds.drop_first())
    }
}

pub(crate) proof fn lemma_commit_all_appends(s: LogView, cmds: Seq<CommandView>)
    requires
        s.segs.contains_key(s.gen),
        can_commit_all(s, cmds),
    ensures
        commit_all(s, cmds).gen == s.gen,
        commit_all(s, cmds).segs.contains_key(s.gen),
        commit_all(s, cmds).segs[s.gen] == s.segs[s.gen] + log_bytes(cmds),
    decreases cmds.len(),
{
    if cmds.len() == 0 {
        assert(s.segs[s.gen] + Seq::<u8>::empty() =~= s.segs[s.gen]);
    } else {
        let s1 = s.commit(cmds[0], cmds[0].bytes());
        lemma_commit_all_appends(s1, cmds.drop_first());
        assert(s.segs[s.gen] + log_bytes(cmds) =~= s.segs[s.gen] + cmds[0].bytes() + log_bytes(
            cmds.drop_first(),
        ));
    }
}

pub(crate) proof fn lemma_replay_commits(s: LogView, cmds: Seq<CommandView>)
    requires
        s.segs.contains_key(s.gen),
        s.segs[s.gen].len() == s.writer_pos,
        forall|i: int| 0 <= i < cmds.len() ==> (#[trigger] cmds[i]).fits(),
        can_commit_all(s, cmds),
    ensures
        replay_from(s.state, s.gen, commit_all(s, cmds).segs[s.gen], s.writer_pos as int) == Ok::<
            IndexState,
            KvsError,
        >(commit_all(s, cmds).state),
    decreases cmds.len(),
{
    lemma_commit_all_appends(s, cmds);
    let b = commit_all(s, cmds).segs[s.gen];
    if cmds.len() > 0 {
        let c0 = cmds[0];
        let tail = cmds.drop_first();
        let s1 = s.commit(c0, c0.bytes());
        assert(forall|i: int| 0 <= i < tail.len() ==> #[trigger] tail[i] == cmds[i + 1]);
        lemma_replay_commits(s1, tail);
        assert(cmds[0].fits());
        let off = s.writer_pos as int;
        assert(b.skip(off) =~= c0.bytes() + log_bytes(tail));
        lemma_command_round_trip(c0, log_bytes(tail));
        assert(commit_all(s1, tail) == commit_all(s, cmds));
        assert(s1.segs[s.gen] == s.segs[s.gen] + c0.bytes());
    } else {
        assert(b =~= s.segs[s.gen]);
    }
}

/// Recovery rebuilds what was written: when a run of writes and removals
/// fills segment `g` from empty, starting from an empty store, replaying
/// that segment into an empty index gives the same index and the same count
/// of stale bytes, hence the same contents.
pub proof fn law_recovery(g: u64, cmds: Seq<CommandView>)
    requires
        forall|i: int| 0 <= i < cmds.len() ==> (#[trigger] cmds[i]).fits(),
        can_commit_all(fresh(g), cmds),
    ensures
        commit_all(fresh(g), cmds).segs[g] == log_bytes(cmds),
        replay_from(IndexState::empty(), g, log_bytes(cmds), 0) == Ok::<IndexState, KvsError>(
            commit_all(fresh(g), cmds).state,
        ),
{
    lemma_commit_all_appends(fresh(g), cmds);
    assert(Seq::<u8>::empty() + log_bytes(cmds) =~= log_bytes(cmds));
    lemma_replay_commits(fresh(g), cmds);
}


/// Replay up to `hi` reads no segment past `hi`.
pub(crate) proof fn lemma_replay_through_agree(a: Map<u64, Seq<u8>>, b: Map<u64, Seq<u8>>, hi: int)
    requires
        hi <= u64::MAX,
        forall|g: u64|
            #![trigger a.contains_key(g)]
            #![trigger b.contains_key(g)]
            g <= hi ==> (a.contains_key(g) == b.contains_key(g) && (a.contains_key(g) ==> a[g]
                == b[g])),
    ensures
        replay_through(a, hi) == replay_through(b, hi),
    decreases hi + 1,
{
    if hi >= 0 {
        assert forall|g: u64| g <= hi - 1 implies (a.contains_key(g) == b.contains_key(g) && (
        a.contains_key(g) ==> a[g] == b[g])) by {
            assert(g <= hi);
        }
        lemma_replay_through_agree(a, b, hi - 1);
        assert(a.contains_key(hi as u64) == b.contains_key(hi as u64));
    }
}

/// Generations that hold no segment change nothing in a replay.
pub(crate) proof fn lemma_replay_through_gap(m: Map<u64, Seq<u8>>, lo: int, hi: int)
    requires
        -1 <= lo <= hi <= u64::MAX,
        forall|g: u64| lo < g <= hi ==> !#[trigger] m.contains_key(g),
    ensures
        replay_through(m, hi) == replay_through(m, lo),
    decreases hi - lo,
{
    if lo < hi {
        lemma_replay_through_gap(m, lo, hi - 1);
        assert(!m.contains_key(hi as u64));
    }
}

/// Replaying a segment that grew by one whole record takes that record in
/// after what the segment held before.
pub(crate) proof fn lemma_replay_extend(
    st: IndexState,
    g: u64,
    b: Seq<u8>,
    r: Seq<u8>,
    c: CommandView,
    off: int,
    st1: IndexState,
)
    requires
        0 <= off <= b.len(),
        b.len() + r.len() <= u64::MAX,
        r.len() > 0,
        parse_command(r) == Parse::Done(c, r.len() as int),
        replay_from(st, g, b, off) == Ok::<IndexState, KvsError>(st1),
    ensures
        replay_from(st, g, b + r, off) == st1.apply(
            c,
            CommandPos { gen: g, pos: b.len() as u64, len: r.len() as u64 },
        ),
    decreases b.len() - off,
{
    let br = b + r;
    let p = CommandPos { gen: g, pos: b.len() as u64, len: r.len() as u64 };
    if off == b.len() {
        assert(br.skip(off) =~= r);
        assert(st == st1);
        match st1.apply(c, p) {
            Ok(st2) => {
                assert(replay_from(st2, g, br, off + r.len()) == Ok::<IndexState, KvsError>(st2));
            },
            Err(_) => {},
        }
    } else {
        let n = parse_command(b.skip(off))->Done_1;
        let cmd = parse_command(b.skip(off))->Done_0;
        assert(parse_command(b.skip(off)) is Done);
        assert(br.skip(off).take(n) =~= b.skip(off).take(n));
        lemma_command_stable(b.skip(off), br.skip(off));
        let q = CommandPos { gen: g, pos: off as u64, len: n as u64 };
        let next = st.apply(cmd, q)->Ok_0;
        lemma_replay_extend(next, g, b, r, c, off + n, st1);
    }
}

pub(crate) proof fn lemma_relocated(s: LogView, cg: u64, i: int)
    requires
        s.wf(),
        0 <= i <= s.keys.len(),
    ensures
        forall|k: Seq<char>|
            #[trigger] relocated(s, cg, i).contains_key(k) <==> exists|j: int|
                0 <= j < i && s.keys[j] == k,
        forall|j: int|
            0 <= j < i ==> #[trigger] relocated(s, cg, i)[s.keys[j]] == (CommandPos {
                gen: cg,
                pos: s.copied(j).len() as u64,
                len: s.state.idx[s.keys[j]].len,
            }),
    decreases i,
{
    if i > 0 {
        lemma_relocated(s, cg, i - 1);
        let m = relocated(s, cg, i);
        assert forall|k: Seq<char>| #[trigger] m.contains_key(k) <==> exists|j: int|
            0 <= j < i && s.keys[j] == k by {
            if m.contains_key(k) && k != s.keys[i - 1] {
                assert(relocated(s, cg, i - 1).contains_key(k));
                let j = choose|j: int| 0 <= j < i - 1 && s.keys[j] == k;
                assert(0 <= j < i && s.keys[j] == k);
            }
            if exists|j: int| 0 <= j < i && s.keys[j] == k {
                let j = choose|j: int| 0 <= j < i && s.keys[j] == k;
                if j < i - 1 {
                    assert(relocated(s, cg, i - 1).contains_key(k));
                }
            }
        }
        assert forall|j: int| 0 <= j < i implies #[trigger] m[s.keys[j]] == (CommandPos {
            gen: cg,
            pos: s.copied(j).len() as u64,
            len: s.state.idx[s.keys[j]].len,
        }) by {
            if j < i - 1 {
                assert(s.keys[j] != s.keys[i - 1]);
                assert(m[s.keys[j]] == relocated(s, cg, i - 1)[s.keys[j]]);
            }
        }
    }
}

/// Replaying the records that a compaction copies, from the first `i` on,
/// after the index that the first `i` give, ends with the index of all.
pub(crate) proof fn lemma_replay_copied(s: LogView, cg: u64, i: int)
    requires
        s.wf(),
        0 <= i <= s.keys.len(),
        s.copied(s.keys.len() as int).len() <= u64::MAX,
    ensures
        replay_from(
            IndexState { idx: relocated(s, cg, i), uncompacted: 0 },
            cg,
            s.copied(s.keys.len() as int),
            s.copied(i).len() as int,
        ) == Ok::<IndexState, KvsError>(
            IndexState { idx: relocated(s, cg, s.keys.len() as int), uncompacted: 0 },
        ),
    decreases s.keys.len() - i,
{
    let n = s.keys.len() as int;
    let all = s.copied(n);
    lemma_copied_prefix(s, i, n);
    if i < n {
        let k = s.keys[i];
        let p = s.state.idx[k];
        let rec = record_at(s.segs, p);
        let off = s.copied(i).len() as int;
        lemma_copied_step(s, i + 1);
        lemma_copied_prefix(s, i + 1, n);
        assert(s.keys.contains(k));
        assert(s.entry_ok(k));
        assert(all.skip(off).take(p.len as int) =~= rec.take(p.len as int)) by {
            assert forall|m: int| 0 <= m < p.len implies #[trigger] all.skip(off).take(
                p.len as int,
            )[m] == rec.take(p.len as int)[m] by {
                assert(all[off + m] == s.copied(i + 1)[off + m]);
            }
        }
        lemma_command_stable(rec, all.skip(off));
        lemma_relocated(s, cg, i);
        assert(!relocated(s, cg, i).contains_key(k)) by {
            if relocated(s, cg, i).contains_key(k) {
                let j = choose|j: int| 0 <= j < i && s.keys[j] == k;
                assert(s.keys[j] == s.keys[i]);
            }
        }
        lemma_replay_copied(s, cg, i + 1);
    } else {
        assert(s.copied(i).len() == all.len());
    }
}


pub(crate) proof fn lemma_replay_through_last(m: Map<u64, Seq<u8>>, g: u64, st: IndexState)
    requires
        m.contains_key(g),
        replay_through(m, g as int) == Ok::<IndexState, KvsError>(st),
    ensures
        replay_through(m, g - 1) is Ok,
        replay_from(replay_through(m, g - 1)->Ok_0, g, m[g], 0) == Ok::<IndexState, KvsError>(st),
{
}

/// Appending a record keeps the store recoverable from its segments.
pub proof fn lemma_commit_recovers(s: LogView, cmd: CommandView, rec: Seq<u8>)
    requires
        s.wf(),
        s.recovers(),
        cmd.fits(),
        rec == cmd.bytes(),
        s.can_commit(cmd, rec),
    ensures
        s.commit(cmd, rec).recovers(),
{
    let t = s.commit(cmd, rec);
    let g = s.gen;
    lemma_replay_through_last(s.segs, g, s.state);
    lemma_replay_through_agree(t.segs, s.segs, g - 1);
    let st0 = replay_through(s.segs, g - 1)->Ok_0;
    assert(rec + Seq::<u8>::empty() =~= rec);
    lemma_command_round_trip(cmd, Seq::empty());
    lemma_replay_extend(st0, g, s.segs[g], rec, cmd, 0, s.state);
}

/// Opening an empty segment keeps the store recoverable.
pub proof fn lemma_open_recovers(s: LogView, g: u64)
    requires
        s.wf(),
        s.recovers(),
        g == s.gen + 1,
    ensures
        (LogView { segs: s.segs.insert(g, Seq::empty()), gen: g, writer_pos: 0, ..s }).recovers(),
{
    let t = LogView { segs: s.segs.insert(g, Seq::empty()), gen: g, writer_pos: 0, ..s };
    lemma_replay_through_agree(t.segs, s.segs, s.gen as int);
}

/// A store that takes in a whole segment `gen`, newer than all it has, is
/// recoverable once it holds what replaying that segment gives.
pub proof fn lemma_replay_recovers(s: LogView, gen: u64, log: Seq<u8>, st: IndexState)
    requires
        s.wf(),
        s.recovers(),
        s.gen < gen,
        replay_from(s.state, gen, log, 0) == Ok::<IndexState, KvsError>(st),
    ensures
        (LogView { state: st, segs: s.segs.insert(gen, log), gen, writer_pos: log.len() as u64, ..s }).recovers(),
{
    let m = s.segs.insert(gen, log);
    assert forall|g: u64| s.gen < g <= gen - 1 implies !#[trigger] m.contains_key(g) by {
        if s.segs.contains_key(g) {
            assert(g <= s.gen);
        }
    }
    lemma_replay_through_gap(m, s.gen as int, gen - 1);
    lemma_replay_through_agree(m, s.segs, s.gen as int);
}

/// The store that a compaction leaves is recoverable: replaying the
/// compacted segment, then the empty one after it, gives its index.
pub proof fn lemma_compact_recovers(s: LogView)
    requires
        s.wf(),
        s.can_compact(),
    ensures
        ({
            let cg = (s.gen + 1) as u64;
            let n = s.keys.len() as int;
            LogView {
                keys: s.keys,
                state: IndexState { idx: relocated(s, cg, n), uncompacted: 0 },
                segs: Map::<u64, Seq<u8>>::empty().insert(cg, s.copied(n)).insert(
                    (cg + 1) as u64,
                    Seq::empty(),
                ),
                gen: (cg + 1) as u64,
                writer_pos: 0,
            }.recovers()
        }),
{
    let cg = (s.gen + 1) as u64;
    let n = s.keys.len() as int;
    let m = Map::<u64, Seq<u8>>::empty().insert(cg, s.copied(n)).insert(
        (cg + 1) as u64,
        Seq::empty(),
    );
    lemma_replay_through_gap(m, -1, cg - 1);
    assert(relocated(s, cg, 0) == Map::<Seq<char>, CommandPos>::empty());
    lemma_replay_copied(s, cg, 0);
    let fin = IndexState { idx: relocated(s, cg, n), uncompacted: 0 };
    assert(IndexState::empty() == IndexState { idx: relocated(s, cg, 0), uncompacted: 0 });
    assert(s.copied(0).len() == 0);
    assert(replay_through(m, cg - 1) == Ok::<IndexState, KvsError>(IndexState::empty()));
    assert(m.contains_key(cg) && m[cg] == s.copied(n));
    assert(replay_through(m, cg as int) == Ok::<IndexState, KvsError>(fin));
    assert(m.contains_key((cg + 1) as u64) && m[(cg + 1) as u64] == Seq::<u8>::empty());
    assert(replay_from(fin, (cg + 1) as u64, Seq::<u8>::empty(), 0) == Ok::<IndexState, KvsError>(
        fin,
    ));
    assert(replay_through(m, cg + 1) == Ok::<IndexState, KvsError>(fin));
}


/// The two maps hold the same non-empty segments.
pub open spec fn same_log(a: Map<u64, Seq<u8>>, b: Map<u64, Seq<u8>>) -> bool {
    &&& forall|g: u64|
        #![trigger a.contains_key(g)]
        #![trigger b.contains_key(g)]
        (a.contains_key(g) && a[g].len() > 0) == (b.contains_key(g) && b[g].len() > 0)
    &&& forall|g: u64| #[trigger] a.contains_key(g) && a[g].len() > 0 ==> a[g] == b[g]
}

pub(crate) proof fn lemma_replay_through_same_log(a: Map<u64, Seq<u8>>, b: Map<u64, Seq<u8>>, hi: int)
    requires
        hi <= u64::MAX,
        same_log(a, b),
    ensures
        replay_through(a, hi) == replay_through(b, hi),
    decreases hi + 1,
{
    if hi >= 0 {
        lemma_replay_through_same_log(a, b, hi - 1);
        let g = hi as u64;
        if a.contains_key(g) && a[g].len() > 0 {
            assert(a[g] == b[g]);
        }
    }
}

/// Reopening rebuilds the store. Every store that `LogStore` hands out is
/// recoverable; two such stores whose segments hold the same bytes (empty
/// segments aside) have the same index, the same count of stale bytes and
/// the same contents. So the store that replays the files a store left
/// behind holds what that store held.
pub proof fn law_reopen(s: LogView, t: LogView)
    requires
        s.wf(),
        t.wf(),
        s.recovers(),
        t.recovers(),
        same_log(s.segs, t.segs),
    ensures
        t.state == s.state,
        t.model() == s.model(),
{
    let hi: int = if s.gen >= t.gen {
        s.gen as int
    } else {
        t.gen as int
    };
    assert forall|g: u64| s.gen < g <= hi implies !#[trigger] s.segs.contains_key(g) by {
        if s.segs.contains_key(g) {
            assert(g <= s.gen);
        }
    }
    assert forall|g: u64| t.gen < g <= hi implies !#[trigger] t.segs.contains_key(g) by {
        if t.segs.contains_key(g) {
            assert(g <= t.gen);
        }
    }
    lemma_replay_through_gap(s.segs, s.gen as int, hi);
    lemma_replay_through_gap(t.segs, t.gen as int, hi);
    lemma_replay_through_same_log(s.segs, t.segs, hi);
    assert forall|k: Seq<char>| #[trigger] t.model().contains_key(k) implies t.model()[k]
        == s.model()[k] by {
        let p = s.state.idx[k];
        assert(s.entry_ok(k));
        lemma_command_end(record_at(s.segs, p));
        assert(s.segs.contains_key(p.gen) && s.segs[p.gen].len() > 0);
    }
    assert(t.model() =~= s.model());
}

/// The sum reads `idx` only at `keys`.
pub(crate) proof fn lemma_lens_sum_agree(
    keys: Seq<Seq<char>>,
    a: Map<Seq<char>, CommandPos>,
    b: Map<Seq<char>, CommandPos>,
)
    requires
        forall|i: int| 0 <= i < keys.len() ==> a[#[trigger] keys[i]].len == b[keys[i]].len,
    ensures
        lens_sum(keys, a) == lens_sum(keys, b),
    decreases keys.len(),
{
    if keys.len() > 0 {
        let d = keys.drop_last();
        assert forall|i: int| 0 <= i < d.len() implies a[#[trigger] d[i]].len == b[d[i]].len by {
            assert(d[i] == keys[i]);
        }
        lemma_lens_sum_agree(d, a, b);
        assert(a[keys.last()].len == b[keys[keys.len() - 1]].len);
    }
}

/// Pointing key `k`, which `keys` holds once, at a record of another length
/// changes the sum by the difference.
pub(crate) proof fn lemma_lens_sum_update(
    keys: Seq<Seq<char>>,
    idx: Map<Seq<char>, CommandPos>,
    k: Seq<char>,
    p: CommandPos,
)
    requires
        keys.no_duplicates(),
        keys.contains(k),
    ensures
        lens_sum(keys, idx.insert(k, p)) == lens_sum(keys, idx) - idx[k].len + p.len,
    decreases keys.len(),
{
    let d = keys.drop_last();
    let m = idx.insert(k, p);
    if keys.last() == k {
        assert(!d.contains(k)) by {
            if d.contains(k) {
                let j = choose|j: int| 0 <= j < d.len() && d[j] == k;
                assert(keys[j] == keys[keys.len() - 1]);
            }
        }
        assert forall|i: int| 0 <= i < d.len() implies m[#[trigger] d[i]].len == idx[d[i]].len by {
            assert(d[i] != k);
        }
        lemma_lens_sum_agree(d, m, idx);
    } else {
        let j = choose|j: int| 0 <= j < keys.len() && keys[j] == k;
        assert(j < keys.len() - 1);
        assert(d[j] == k);
        lemma_lens_sum_update(d, idx, k, p);
    }
}

/// Putting `x` at place `i` changes the sum by the difference of lengths.
pub(crate) proof fn lemma_lens_sum_set(
    keys: Seq<Seq<char>>,
    idx: Map<Seq<char>, CommandPos>,
    i: int,
    x: Seq<char>,
)
    requires
        0 <= i < keys.len(),
    ensures
        lens_sum(keys.update(i, x), idx) == lens_sum(keys, idx) - idx[keys[i]].len + idx[x].len,
    decreases keys.len(),
{
    let u = keys.update(i, x);
    if i == keys.len() - 1 {
        assert(u.drop_last() =~= keys.drop_last());
    } else {
        lemma_lens_sum_set(keys.drop_last(), idx, i, x);
        assert(u.drop_last() =~= keys.drop_last().update(i, x));
    }
}

/// Dropping key `k`, at place `i` of `keys`, from both takes its length off.
pub(crate) proof fn lemma_lens_sum_swap_out(
    keys: Seq<Seq<char>>,
    idx: Map<Seq<char>, CommandPos>,
    i: int,
)
    requires
        keys.no_duplicates(),
        0 <= i < keys.len(),
    ensures
        lens_sum(swap_out(keys, i), idx.remove(keys[i])) == lens_sum(keys, idx) - idx[keys[i]].len,
{
    let k = keys[i];
    let d = keys.drop_last();
    let r = swap_out(keys, i);
    let m = idx.remove(k);
    let last = keys.len() - 1;
    assert forall|j: int| 0 <= j < r.len() implies m[#[trigger] r[j]].len == idx[r[j]].len by {
        let j2 = if j == i {
            last
        } else {
            j
        };
        assert(r[j] == keys[j2]);
        assert(j2 != i);
    }
    lemma_lens_sum_agree(r, m, idx);
    if i == last {
        assert(r =~= d);
    } else {
        assert(r =~= d.update(i, keys[last]));
        lemma_lens_sum_set(d, idx, i, keys[last]);
    }
}

/// Taking in a record adds its length to the live bytes plus the stale count.
pub(crate) proof fn lemma_take_in_accounts(s: LogView, cmd: CommandView, p: CommandPos)
    requires
        s.wf(),
        s.state.apply(cmd, p) is Ok,
    ensures
        s.take_in(cmd, p).live_bytes() + s.take_in(cmd, p).state.uncompacted == s.live_bytes()
            + s.state.uncompacted + p.len,
{
    let t = s.take_in(cmd, p);
    let key = cmd.key();
    match cmd {
        CommandView::Put { .. } => {
            if s.keys.contains(key) {
                lemma_lens_sum_update(s.keys, s.state.idx, key, p);
            } else {
                let m = s.state.idx.insert(key, p);
                assert(t.keys.drop_last() =~= s.keys);
                assert forall|i: int| 0 <= i < s.keys.len() implies m[#[trigger] s.keys[i]].len
                    == s.state.idx[s.keys[i]].len by {
                    assert(s.keys[i] != key);
                }
                lemma_lens_sum_agree(s.keys, m, s.state.idx);
            }
        },
        CommandView::Remove { .. } => {
            if s.keys.contains(key) {
                let i = index_in(s.keys, key);
                assert(0 <= i < s.keys.len() && s.keys[i] == key);
                lemma_lens_sum_swap_out(s.keys, s.state.idx, i);
            } else {
                assert(!s.state.idx.contains_key(key));
                assert(s.state.idx.remove(key) =~= s.state.idx);
            }
        },
    }
}

/// Replacing the newest segment by a longer one adds the difference.
pub(crate) proof fn lemma_bytes_through_grow(s: LogView, seg: Seq<u8>)
    requires
        s.wf(),
    ensures
        bytes_through(s.segs.insert(s.gen, seg), s.gen as int) == s.total_bytes() - s.segs[s.gen].len()
            + seg.len(),
{
    lemma_bytes_through_agree(s.segs.insert(s.gen, seg), s.segs, s.gen - 1);
}

pub(crate) proof fn lemma_bytes_through_agree(a: Map<u64, Seq<u8>>, b: Map<u64, Seq<u8>>, hi: int)
    requires
        hi <= u64::MAX,
        forall|g: u64|
            #![trigger a.contains_key(g)]
            #![trigger b.contains_key(g)]
            g <= hi ==> (a.contains_key(g) == b.contains_key(g) && (a.contains_key(g) ==> a[g]
                == b[g])),
    ensures
        bytes_through(a, hi) == bytes_through(b, hi),
    decreases hi + 1,
{
    if hi >= 0 {
        assert forall|g: u64| g <= hi - 1 implies (a.contains_key(g) == b.contains_key(g) && (
        a.contains_key(g) ==> a[g] == b[g])) by {
            assert(g <= hi);
        }
        lemma_bytes_through_agree(a, b, hi - 1);
        assert(a.contains_key(hi as u64) == b.contains_key(hi as u64));
    }
}

pub(crate) proof fn lemma_bytes_through_gap(m: Map<u64, Seq<u8>>, lo: int, hi: int)
    requires
        -1 <= lo <= hi <= u64::MAX,
        forall|g: u64| lo < g <= hi ==> !#[trigger] m.contains_key(g),
    ensures
        bytes_through(m, hi) == bytes_through(m, lo),
    decreases hi - lo,
{
    if lo < hi {
        lemma_bytes_through_gap(m, lo, hi - 1);
        assert(!m.contains_key(hi as u64));
    }
}

/// Adding segment `gen`, newer than all, adds its bytes.
pub(crate) proof fn lemma_bytes_through_new(s: LogView, gen: u64, seg: Seq<u8>)
    requires
        s.wf(),
        s.gen < gen,
    ensures
        bytes_through(s.segs.insert(gen, seg), gen as int) == s.total_bytes() + seg.len(),
{
    let m = s.segs.insert(gen, seg);
    assert forall|g: u64| s.gen < g <= gen - 1 implies !#[trigger] m.contains_key(g) by {
        if s.segs.contains_key(g) {
            assert(g <= s.gen);
        }
    }
    lemma_bytes_through_gap(m, s.gen as int, gen - 1);
    lemma_bytes_through_agree(m, s.segs, s.gen as int);
}

/// The records of the first `i` live keys take as many bytes as their lengths add up to.
pub(crate) proof fn lemma_copied_lens(s: LogView, i: int)
    requires
        s.wf(),
        0 <= i <= s.keys.len(),
    ensures
        s.copied(i).len() == lens_sum(s.keys.take(i), s.state.idx),
    decreases i,
{
    if i > 0 {
        lemma_copied_lens(s, i - 1);
        lemma_copied_step(s, i);
        assert(s.keys.take(i).drop_last() =~= s.keys.take(i - 1));
    } else {
        assert(s.keys.take(0).len() == 0);
    }
}

/// Compaction leaves the segments holding the live records and nothing
/// else: their bytes drop by the stale count, so strictly whenever any byte
/// was stale; and every read gives what it gave before.
pub proof fn law_compaction_shrinks(s: LogView)
    requires
        s.wf(),
        s.accounts(),
        s.can_compact(),
    ensures
        ({
            let cg = (s.gen + 1) as u64;
            let n = s.keys.len() as int;
            let t = LogView {
                keys: s.keys,
                state: IndexState { idx: relocated(s, cg, n), uncompacted: 0 },
                segs: Map::<u64, Seq<u8>>::empty().insert(cg, s.copied(n)).insert(
                    (cg + 1) as u64,
                    Seq::empty(),
                ),
                gen: (cg + 1) as u64,
                writer_pos: 0,
            };
            &&& t.accounts()
            &&& t.total_bytes() == s.total_bytes() - s.state.uncompacted
            &&& s.state.uncompacted > 0 ==> t.total_bytes() < s.total_bytes()
        }),
{
    let cg = (s.gen + 1) as u64;
    let n = s.keys.len() as int;
    let m = Map::<u64, Seq<u8>>::empty().insert(cg, s.copied(n)).insert((cg + 1) as u64, Seq::empty());
    let r = relocated(s, cg, n);
    lemma_bytes_through_gap(m, -1, cg - 1);
    assert(bytes_through(m, cg - 1) == 0);
    assert(m.contains_key(cg) && m[cg] == s.copied(n));
    assert(bytes_through(m, cg as int) == s.copied(n).len());
    assert(m.contains_key((cg + 1) as u64) && m[(cg + 1) as u64].len() == 0);
    assert(bytes_through(m, cg + 1) == s.copied(n).len());
    lemma_copied_lens(s, n);
    assert(s.keys.take(n) =~= s.keys);
    lemma_relocated(s, cg, n);
    assert forall|i: int| 0 <= i < s.keys.len() implies r[#[trigger] s.keys[i]].len
        == s.state.idx[s.keys[i]].len by {}
    lemma_lens_sum_agree(s.keys, r, s.state.idx);
}

} // verus!
