use vstd::prelude::*;
use crate::codec::{
    encode, framable, lemma_record_at, lemma_record_canonical, read_record,
    model_key, record_at, record_bytes, record_len, Command, CommandModel, HEADER_SIZE,
};
use crate::error::{KvsError, Result};
use crate::index::{Index, MemoryData};

verus! {

/// The effect of one command on the key-value map.
pub open spec fn apply(m: Map<Seq<char>, Seq<char>>, c: CommandModel) -> Map<Seq<char>, Seq<char>> {
    match c {
        CommandModel::Put { key, value } => m.insert(key, value),
        CommandModel::Remove { key } => m.remove(key),
    }
}

/// The key-value map that applying `cs` in order to an empty map produces.
pub open spec fn apply_all(cs: Seq<CommandModel>) -> Map<Seq<char>, Seq<char>>
    decreases cs.len(),
{
    if cs.len() == 0 {
        Map::empty()
    } else {
        apply(apply_all(cs.drop_last()), cs.last())
    }
}

/// The log that appending the records of `cs` in order to an empty log
/// produces.
pub open spec fn log_of(cs: Seq<CommandModel>) -> Seq<u8>
    decreases cs.len(),
{
    if cs.len() == 0 {
        Seq::empty()
    } else {
        let prev = log_of(cs.drop_last());
        prev + record_bytes(prev.len() as int, cs.last())
    }
}

/// Every command of `cs` can be framed.
pub open spec fn all_framable(cs: Seq<CommandModel>) -> bool {
    forall|i: int| 0 <= i < cs.len() ==> framable(#[trigger] cs[i])
}

/// Replays a log from byte `pos`: the commands of the consecutive
/// well-formed records found there, and the offset at which they end.
pub open spec fn replay_from(b: Seq<u8>, pos: int) -> (Seq<CommandModel>, int)
    decreases b.len() - pos,
{
    if 0 <= pos <= b.len() {
        match record_at(b, pos) {
            Some((c, n)) => {
                if n > 0 {
                    let rest = replay_from(b, pos + n);
                    (seq![c] + rest.0, rest.1)
                } else {
                    (Seq::empty(), pos)
                }
            },
            None => (Seq::empty(), pos),
        }
    } else {
        (Seq::empty(), pos)
    }
}

/// The index entry of key `k` locates, in `log`, the record of the command
/// that set `k` to `v`.
pub open spec fn entry_ok(log: Seq<u8>, k: Seq<char>, l: MemoryData, v: Seq<char>) -> bool {
    let c = CommandModel::Put { key: k, value: v };
    &&& framable(c)
    &&& l.len == record_len(c)
    &&& l.offset + l.len <= log.len()
    &&& log.subrange(l.offset as int, l.offset + l.len) == record_bytes(l.offset as int, c)
}

/// The effect of one record, of command `c` at location `l`, on the index.
pub open spec fn apply_loc(
    m: Map<Seq<char>, MemoryData>,
    c: CommandModel,
    l: MemoryData,
) -> Map<Seq<char>, MemoryData> {
    match c {
        CommandModel::Put { key, .. } => m.insert(key, l),
        CommandModel::Remove { key } => m.remove(key),
    }
}

/// The index that replaying the records of `cs`, laid back to back from
/// offset 0, builds: each `Put` points its key at its record's offset and
/// total length, each `Remove` drops its key.
pub open spec fn locations_of(cs: Seq<CommandModel>) -> Map<Seq<char>, MemoryData>
    decreases cs.len(),
{
    if cs.len() == 0 {
        Map::empty()
    } else {
        apply_loc(
            locations_of(cs.drop_last()),
            cs.last(),
            MemoryData {
                offset: log_of(cs.drop_last()).len() as usize,
                len: record_len(cs.last()) as usize,
            },
        )
    }
}

/// The log holds the records of `cmds`, and the index holds, for each key
/// that `cmds` leave live, the location of a record that sets it to its value.
pub open spec fn consistent(log: Seq<u8>, index: Index, cmds: Seq<CommandModel>) -> bool {
    &&& index.wf()
    &&& log == log_of(cmds)
    &&& log.len() <= u64::MAX
    &&& all_framable(cmds)
    &&& index@.dom() == apply_all(cmds).dom()
    &&& index@ == locations_of(cmds)
    &&& forall|k: Seq<char>|
        #[trigger] index@.contains_key(k) ==> entry_ok(log, k, index@[k], apply_all(cmds)[k])
}

proof fn lemma_push_unfold(cs: Seq<CommandModel>, c: CommandModel)
    ensures
        log_of(cs.push(c)) == log_of(cs) + record_bytes(log_of(cs).len() as int, c),
        apply_all(cs.push(c)) == apply(apply_all(cs), c),
        locations_of(cs.push(c)) == apply_loc(
            locations_of(cs),
            c,
            MemoryData { offset: log_of(cs).len() as usize, len: record_len(c) as usize },
        ),
{
    assert(cs.push(c).drop_last() =~= cs);
}

/// Brings the index up to date with the record of `cmd`, just appended at
/// `loc` to a log that held `log`.
fn apply_record(
    index: &mut Index,
    cmd: Command,
    loc: MemoryData,
    Ghost(log): Ghost<Seq<u8>>,
    Ghost(cmds): Ghost<Seq<CommandModel>>,
    Ghost(new_log): Ghost<Seq<u8>>,
)
    requires
        consistent(log, *old(index), cmds),
        framable(cmd@),
        loc.offset == log.len(),
        loc.len == record_len(cmd@),
        new_log == log + record_bytes(log.len() as int, cmd@),
        new_log.len() <= u64::MAX,
    ensures
        consistent(new_log, *final(index), cmds.push(cmd@)),
        final(index)@ == apply_loc(old(index)@, cmd@, loc),
{
    let ghost c = cmd@;
    let ghost m = apply_all(cmds);
    proof {
        lemma_push_unfold(cmds, c);
    }
    let ghost m2 = apply_all(cmds.push(c));
    match cmd {
        Command::Put { key, value } => {
            index.upsert(key, loc);
        },
        Command::Remove { key } => {
            index.delete(&key);
        },
    }
    proof {
        assert(all_framable(cmds.push(c))) by {
            assert forall|i: int| 0 <= i < cmds.push(c).len() implies framable(
                #[trigger] cmds.push(c)[i],
            ) by {
                if i < cmds.len() {
                    assert(cmds.push(c)[i] == cmds[i]);
                }
            }
        }
        assert(index@.dom() =~= m2.dom());
        assert forall|k: Seq<char>| #[trigger] index@.contains_key(k) implies entry_ok(
            new_log,
            k,
            index@[k],
            m2[k],
        ) by {
            let l = index@[k];
            if k == model_key(c) {
                assert(new_log.subrange(l.offset as int, l.offset + l.len) =~= record_bytes(
                    l.offset as int,
                    c,
                ));
            } else {
                assert(old(index)@.contains_key(k));
                assert(entry_ok(log, k, l, m[k]));
                assert(new_log.subrange(l.offset as int, l.offset + l.len) =~= log.subrange(
                    l.offset as int,
                    l.offset + l.len,
                ));
            }
        }
    }
}

proof fn lemma_log_prefix(cs: Seq<CommandModel>, m: int)
    requires
        0 <= m <= cs.len(),
    ensures
        log_of(cs.take(m)).len() <= log_of(cs).len(),
        log_of(cs).subrange(0, log_of(cs.take(m)).len() as int) == log_of(cs.take(m)),
    decreases cs.len(),
{
    if m == cs.len() {
        assert(cs.take(m) =~= cs);
        assert(log_of(cs).subrange(0, log_of(cs).len() as int) =~= log_of(cs));
    } else {
        lemma_log_prefix(cs.drop_last(), m);
        assert(cs.drop_last().take(m) =~= cs.take(m));
        let l = log_of(cs.take(m)).len() as int;
        assert(log_of(cs).subrange(0, l) =~= log_of(cs.drop_last()).subrange(0, l));
    }
}

#[verifier::rlimit(40)]
proof fn lemma_replay_log(cs: Seq<CommandModel>, j: int)
    requires
        all_framable(cs),
        log_of(cs).len() <= u64::MAX,
        0 <= j <= cs.len(),
    ensures
        replay_from(log_of(cs), log_of(cs.take(j)).len() as int) == (
            cs.skip(j),
            log_of(cs).len() as int,
        ),
    decreases cs.len() - j,
{
    let b = log_of(cs);
    let pos = log_of(cs.take(j)).len() as int;
    lemma_log_prefix(cs, j);
    if j == cs.len() {
        assert(cs.take(j) =~= cs);
        assert(cs.skip(j) =~= Seq::<CommandModel>::empty());
    } else {
        let c = cs[j];
        assert(framable(c));
        lemma_log_prefix(cs, j + 1);
        assert(cs.take(j + 1).drop_last() =~= cs.take(j));
        let q = log_of(cs.take(j + 1));
        assert(q == log_of(cs.take(j)) + record_bytes(pos, c));
        assert(b.subrange(pos, pos + record_len(c)) =~= q.subrange(pos, q.len() as int));
        assert(q.subrange(pos, q.len() as int) =~= record_bytes(pos, c));
        lemma_record_at(b, pos, c);
        lemma_replay_log(cs, j + 1);
        assert(cs.skip(j) =~= seq![c] + cs.skip(j + 1));
    }
}

/// Recovery: replaying the log of a store, from offset 0, finds exactly
/// the commands that produced it and stops at the end of the log; so the
/// first record of a non-empty log is well-formed.
pub proof fn lemma_recovery(s: &KvStore)
    requires
        s.wf(),
    ensures
        replay_from(s.log_view(), 0) == (s.commands(), s.log_view().len() as int),
        s.log_view().len() > 0 ==> record_at(s.log_view(), 0) is Some,
{
    let cs = s.commands();
    assert(cs.take(0) =~= Seq::<CommandModel>::empty());
    lemma_replay_log(cs, 0);
    assert(cs.skip(0) =~= cs);
}

/// Closing and reopening: a store rebuilt by replaying the log of another
/// holds the same map and the same log.
pub proof fn lemma_reopen(s: &KvStore, t: &KvStore)
    requires
        s.wf(),
        t.wf(),
        t.commands() == replay_from(s.log_view(), 0).0,
        t.log_view() == s.log_view().subrange(0, replay_from(s.log_view(), 0).1),
    ensures
        t@ == s@,
        t.log_view() == s.log_view(),
        t.locations() == s.locations(),
        t.commands() == s.commands(),
{
    lemma_recovery(s);
    assert(s.log_view().subrange(0, s.log_view().len() as int) =~= s.log_view());
}

/// Write-then-read: when the command at `i` is the last one of `cs` about
/// key `k`, after `cs` the key holds that command's value if it is a `Put`,
/// and is absent if it is a `Remove`.
pub proof fn lemma_last_write(cs: Seq<CommandModel>, k: Seq<char>, i: int)
    requires
        0 <= i < cs.len(),
        model_key(cs[i]) == k,
        forall|j: int| i < j < cs.len() ==> model_key(#[trigger] cs[j]) != k,
    ensures
        match cs[i] {
            CommandModel::Put { value, .. } => apply_all(cs).contains_key(k) && apply_all(cs)[k]
                == value,
            CommandModel::Remove { .. } => !apply_all(cs).contains_key(k),
        },
    decreases cs.len(),
{
    let p = cs.drop_last();
    if i < cs.len() - 1 {
        assert(model_key(cs[cs.len() - 1]) != k);
        assert forall|j: int| i < j < p.len() implies model_key(#[trigger] p[j]) != k by {
            assert(p[j] == cs[j]);
        }
        lemma_last_write(p, k, i);
    }
}

/// Write-then-read: a key that no command of `cs` is about is absent after
/// `cs`.
pub proof fn lemma_never_written(cs: Seq<CommandModel>, k: Seq<char>)
    requires
        forall|i: int| 0 <= i < cs.len() ==> model_key(#[trigger] cs[i]) != k,
    ensures
        !apply_all(cs).contains_key(k),
    decreases cs.len(),
{
    if cs.len() > 0 {
        let p = cs.drop_last();
        assert(model_key(cs[cs.len() - 1]) != k);
        assert forall|i: int| 0 <= i < p.len() implies model_key(#[trigger] p[i]) != k by {
            assert(p[i] == cs[i]);
        }
        lemma_never_written(p, k);
    }
}

proof fn lemma_log_len_remove(ds: Seq<CommandModel>, i: int)
    requires
        0 <= i < ds.len(),
    ensures
        log_of(ds).len() == log_of(ds.remove(i)).len() + record_len(ds[i]),
    decreases ds.len(),
{
    let p = ds.drop_last();
    if i == ds.len() - 1 {
        assert(ds.remove(i) =~= p);
    } else {
        lemma_log_len_remove(p, i);
        let r = ds.remove(i);
        assert(r.drop_last() =~= p.remove(i));
        assert(r.last() == ds.last());
    }
}

/// No command of `cs` is a `Remove` and no two are about the same key: no
/// record of their log is obsolete.
pub open spec fn no_overwrite(cs: Seq<CommandModel>) -> bool {
    &&& forall|i: int| 0 <= i < cs.len() ==> #[trigger] cs[i] is Put
    &&& forall|i: int, j: int|
        0 <= i < j < cs.len() ==> model_key(#[trigger] cs[i]) != model_key(#[trigger] cs[j])
}

/// Some command of `ds` is about key `k`.
pub open spec fn mentions(ds: Seq<CommandModel>, k: Seq<char>) -> bool {
    exists|m: int| 0 <= m < ds.len() && model_key(#[trigger] ds[m]) == k
}

/// Puts of distinct live keys, each with the value that the key holds after
/// `cs`, are no more records than `cs`, and take no more log space: at least
/// a header's worth less for each record fewer. As many as `cs` only when no
/// command of `cs` was overwritten or removed.
pub proof fn lemma_live_records_fit(cs: Seq<CommandModel>, ds: Seq<CommandModel>)
    requires
        forall|j: int|
            0 <= j < ds.len() ==> {
                let d = #[trigger] ds[j];
                &&& apply_all(cs).contains_key(model_key(d))
                &&& d == CommandModel::Put { key: model_key(d), value: apply_all(cs)[model_key(d)] }
            },
        forall|i: int, j: int|
            0 <= i < j < ds.len() ==> model_key(#[trigger] ds[i]) != model_key(#[trigger] ds[j]),
    ensures
        ds.len() <= cs.len(),
        log_of(ds).len() + HEADER_SIZE * (cs.len() - ds.len()) <= log_of(cs).len(),
        ds.len() == cs.len() ==> no_overwrite(cs),
        ds.len() == cs.len() ==> forall|j: int|
            0 <= j < cs.len() ==> #[trigger] mentions(ds, model_key(cs[j])),
    decreases cs.len(),
{
    if cs.len() == 0 {
        if ds.len() > 0 {
            assert(apply_all(cs).contains_key(model_key(ds[0])));
        }
    } else {
        let c = cs.last();
        let p = cs.drop_last();
        let k = model_key(c);
        if exists|i: int| 0 <= i < ds.len() && model_key(#[trigger] ds[i]) == k {
            let i = choose|i: int| 0 <= i < ds.len() && model_key(#[trigger] ds[i]) == k;
            let r = ds.remove(i);
            lemma_log_len_remove(ds, i);
            assert(apply_all(cs).contains_key(k));
            assert(ds[i] == c);
            assert forall|j: int| 0 <= j < r.len() implies {
                let d = #[trigger] r[j];
                &&& apply_all(p).contains_key(model_key(d))
                &&& d == CommandModel::Put { key: model_key(d), value: apply_all(p)[model_key(d)] }
            } by {
                let jj = if j < i { j } else { j + 1 };
                assert(r[j] == ds[jj]);
                assert(model_key(ds[jj]) != k);
            }
            assert forall|a: int, b: int| 0 <= a < b < r.len() implies model_key(#[trigger] r[a])
                != model_key(#[trigger] r[b]) by {
                let aa = if a < i { a } else { a + 1 };
                let bb = if b < i { b } else { b + 1 };
                assert(r[a] == ds[aa]);
                assert(r[b] == ds[bb]);
            }
            lemma_live_records_fit(p, r);
            if ds.len() == cs.len() {
                assert forall|j: int| 0 <= j < p.len() implies model_key(#[trigger] p[j]) != k by {
                    assert(mentions(r, model_key(p[j])));
                    let m = choose|m: int| 0 <= m < r.len() && model_key(#[trigger] r[m]) == model_key(p[j]);
                    let mm = if m < i { m } else { m + 1 };
                    assert(r[m] == ds[mm]);
                    if mm < i {
                        assert(model_key(ds[mm]) != model_key(ds[i]));
                    } else {
                        assert(model_key(ds[i]) != model_key(ds[mm]));
                    }
                }
                assert forall|a: int| 0 <= a < cs.len() implies #[trigger] cs[a] is Put by {
                    if a < p.len() {
                        assert(cs[a] == p[a]);
                    }
                }
                assert forall|a: int, b: int| 0 <= a < b < cs.len() implies model_key(
                    #[trigger] cs[a],
                ) != model_key(#[trigger] cs[b]) by {
                    assert(cs[a] == p[a]);
                    if b < p.len() {
                        assert(cs[b] == p[b]);
                    }
                }
                assert forall|j: int| 0 <= j < cs.len() implies #[trigger] mentions(
                    ds,
                    model_key(cs[j]),
                ) by {
                    if j < p.len() {
                        assert(cs[j] == p[j]);
                        assert(mentions(r, model_key(p[j])));
                        let m = choose|m: int| 0 <= m < r.len() && model_key(#[trigger] r[m]) == model_key(p[j]);
                        let mm = if m < i { m } else { m + 1 };
                        assert(r[m] == ds[mm]);
                    } else {
                        assert(model_key(ds[i]) == model_key(cs[j]));
                    }
                }
            }
        } else {
            assert forall|j: int| 0 <= j < ds.len() implies {
                let d = #[trigger] ds[j];
                &&& apply_all(p).contains_key(model_key(d))
                &&& d == CommandModel::Put { key: model_key(d), value: apply_all(p)[model_key(d)] }
            } by {
                assert(model_key(ds[j]) != k);
            }
            lemma_live_records_fit(p, ds);
        }
    }
}

proof fn lemma_same_records(cs: Seq<CommandModel>, ds: Seq<CommandModel>)
    requires
        forall|i: int, j: int|
            0 <= i < j < cs.len() ==> model_key(#[trigger] cs[i]) != model_key(#[trigger] cs[j]),
        forall|i: int, j: int|
            0 <= i < j < ds.len() ==> model_key(#[trigger] ds[i]) != model_key(#[trigger] ds[j]),
        forall|j: int| 0 <= j < cs.len() ==> ds.contains(#[trigger] cs[j]),
        forall|m: int| 0 <= m < ds.len() ==> cs.contains(#[trigger] ds[m]),
    ensures
        log_of(ds).len() == log_of(cs).len(),
    decreases cs.len(),
{
    if cs.len() == 0 {
        if ds.len() > 0 {
            assert(cs.contains(ds[0]));
        }
    } else {
        let n = cs.len() - 1;
        let c = cs[n];
        let p = cs.drop_last();
        assert(ds.contains(cs[n]));
        let i = choose|i: int| 0 <= i < ds.len() && ds[i] == c;
        let r = ds.remove(i);
        lemma_log_len_remove(ds, i);
        assert forall|j: int| 0 <= j < p.len() implies r.contains(#[trigger] p[j]) by {
            assert(p[j] == cs[j]);
            assert(ds.contains(cs[j]));
            let m = choose|m: int| 0 <= m < ds.len() && ds[m] == cs[j];
            assert(model_key(cs[j]) != model_key(cs[n]));
            if m < i {
                assert(r[m] == ds[m]);
            } else {
                assert(r[m - 1] == ds[m]);
            }
        }
        assert forall|a: int| 0 <= a < r.len() implies p.contains(#[trigger] r[a]) by {
            let aa = if a < i { a } else { a + 1 };
            assert(r[a] == ds[aa]);
            assert(cs.contains(ds[aa]));
            let j = choose|j: int| 0 <= j < cs.len() && cs[j] == ds[aa];
            if aa < i {
                assert(model_key(ds[aa]) != model_key(ds[i]));
            } else {
                assert(model_key(ds[i]) != model_key(ds[aa]));
            }
            assert(j != n);
            assert(p[j] == cs[j]);
        }
        assert forall|a: int, b: int| 0 <= a < b < r.len() implies model_key(#[trigger] r[a])
            != model_key(#[trigger] r[b]) by {
            let aa = if a < i { a } else { a + 1 };
            let bb = if b < i { b } else { b + 1 };
            assert(r[a] == ds[aa]);
            assert(r[b] == ds[bb]);
        }
        assert forall|a: int, b: int| 0 <= a < b < p.len() implies model_key(#[trigger] p[a])
            != model_key(#[trigger] p[b]) by {
            assert(p[a] == cs[a]);
            assert(p[b] == cs[b]);
        }
        lemma_same_records(p, r);
    }
}

/// Compacting a log in which no record is obsolete keeps its length: Puts
/// of every live key with its value, each key once, take exactly as much
/// log space as commands none of which was overwritten or removed.
pub proof fn lemma_compaction_keeps_size(cs: Seq<CommandModel>, ds: Seq<CommandModel>)
    requires
        no_overwrite(cs),
        forall|j: int|
            0 <= j < ds.len() ==> {
                let d = #[trigger] ds[j];
                &&& apply_all(cs).contains_key(model_key(d))
                &&& d == CommandModel::Put { key: model_key(d), value: apply_all(cs)[model_key(d)] }
            },
        forall|i: int, j: int|
            0 <= i < j < ds.len() ==> model_key(#[trigger] ds[i]) != model_key(#[trigger] ds[j]),
        forall|k: Seq<char>| apply_all(cs).contains_key(k) ==> #[trigger] mentions(ds, k),
    ensures
        log_of(ds).len() == log_of(cs).len(),
{
    let m = apply_all(cs);
    assert forall|j: int| 0 <= j < cs.len() implies #[trigger] cs[j] == (CommandModel::Put {
        key: model_key(cs[j]),
        value: m[model_key(cs[j])],
    }) && m.contains_key(model_key(cs[j])) by {
        let k = model_key(cs[j]);
        assert(cs[j] is Put);
        assert forall|jj: int| j < jj < cs.len() implies model_key(#[trigger] cs[jj]) != k by {
            assert(model_key(cs[j]) != model_key(cs[jj]));
        }
        lemma_last_write(cs, k, j);
    }
    assert forall|j: int| 0 <= j < cs.len() implies ds.contains(#[trigger] cs[j]) by {
        let k = model_key(cs[j]);
        assert(m.contains_key(k));
        assert(mentions(ds, k));
        let mm = choose|mm: int| 0 <= mm < ds.len() && model_key(#[trigger] ds[mm]) == k;
        assert(ds[mm] == cs[j]);
    }
    assert forall|a: int| 0 <= a < ds.len() implies cs.contains(#[trigger] ds[a]) by {
        let k = model_key(ds[a]);
        if forall|j: int| 0 <= j < cs.len() ==> model_key(#[trigger] cs[j]) != k {
            lemma_never_written(cs, k);
        }
        let j = choose|j: int| 0 <= j < cs.len() && model_key(#[trigger] cs[j]) == k;
        assert(cs[j] == ds[a]);
    }
    lemma_same_records(cs, ds);
}

/// A log-structured key-value store over an in-memory log.
pub struct KvStore {
    log: Vec<u8>,
    index: Index,
    cmds: Ghost<Seq<CommandModel>>,
}

impl View for KvStore {
    type V = Map<Seq<char>, Seq<char>>;

    closed spec fn view(&self) -> Map<Seq<char>, Seq<char>> {
        apply_all(self.cmds@)
    }
}

impl KvStore {
    /// The commands whose records make up the log, in order.
    pub closed spec fn commands(&self) -> Seq<CommandModel> {
        self.cmds@
    }

    /// The bytes of the log.
    pub closed spec fn log_view(&self) -> Seq<u8> {
        self.log@
    }

    /// The index: for each live key, the offset and total length of its
    /// latest record.
    pub closed spec fn locations(&self) -> Map<Seq<char>, MemoryData> {
        self.index@
    }

    /// What a well-formed store is: its map is the net effect of its
    /// commands, its log their records back to back from offset 0, and its
    /// index the locations that replaying those records builds.
    pub proof fn lemma_view(&self)
        requires
            self.wf(),
        ensures
            self@ == apply_all(self.commands()),
            self.log_view() == log_of(self.commands()),
            self.locations() == locations_of(self.commands()),
            self.locations().dom() == self@.dom(),
            all_framable(self.commands()),
    {
    }

    /// The log holds the records of the commands, the map is their net
    /// effect, and the index locates each live key's latest record.
    pub closed spec fn wf(&self) -> bool {
        consistent(self.log@, self.index, self.cmds@)
    }

    /// An empty store with an empty log.
    pub fn new() -> (r: Self)
        ensures
            r.wf(),
            r@ == Map::<Seq<char>, Seq<char>>::empty(),
            r.commands() == Seq::<CommandModel>::empty(),
            r.log_view() == Seq::<u8>::empty(),
    {
        let r = KvStore { log: Vec::new(), index: Index::new(), cmds: Ghost(Seq::empty()) };
        assert(r.index@.dom() =~= apply_all(r.cmds@).dom());
        r
    }

    /// The bytes of the log, for writing to durable storage.
    pub fn log(&self) -> (r: &Vec<u8>)
        ensures
            r@ == self.log_view(),
    {
        &self.log
    }

    /// The value of `key`, read from the record that the index locates.
    pub fn get(&self, key: String) -> (r: Option<String>)
        requires
            self.wf(),
        ensures
            match r {
                Some(v) => self@.contains_key(key@) && v@ == self@[key@],
                None => !self@.contains_key(key@),
            },
    {
        match self.index.lookup(&key) {
            None => None,
            Some(loc) => {
                proof {
                    let c = CommandModel::Put { key: key@, value: self@[key@] };
                    assert(self.index@.contains_key(key@));
                    lemma_record_at(self.log@, loc.offset as int, c);
                }
                match read_record(self.log.as_slice(), loc.offset) {
                    Some((Command::Put { value, .. }, _)) => Some(value),
                    _ => None,
                }
            },
        }
    }

    /// Rebuilds a store by replaying a log from offset 0: records are read
    /// while they are well-formed, and the log is cut where they stop.
    /// Fails with `CorruptRecord` when the log is not empty and its first
    /// record is not well-formed.
    pub fn open(log: Vec<u8>) -> (r: Result<KvStore>)
        ensures
            match r {
                Ok(s) => s.wf() && !(log@.len() > 0 && record_at(log@, 0) is None) && s.commands()
                    == replay_from(log@, 0).0 && s@ == apply_all(replay_from(log@, 0).0)
                    && s.locations() == locations_of(replay_from(log@, 0).0)
                    && s.log_view() == log@.subrange(
                    0,
                    replay_from(log@, 0).1,
                ),
                Err(e) => log@.len() > 0 && record_at(log@, 0) is None && e
                    == KvsError::CorruptRecord,
            },
    {
        if log.len() > 0 && read_record(log.as_slice(), 0).is_none() {
            return Err(KvsError::CorruptRecord);
        }
        let mut index = Index::new();
        let ghost mut cmds: Seq<CommandModel> = Seq::empty();
        let mut pos: usize = 0;
        let total = log.len();
        proof {
            assert(log@.subrange(0, 0) =~= log_of(cmds));
            assert(index@.dom() =~= apply_all(cmds).dom());
            assert(cmds + replay_from(log@, 0).0 =~= replay_from(log@, 0).0);
        }
        loop
            invariant
                pos <= log@.len(),
                total == log@.len(),
                consistent(log@.subrange(0, pos as int), index, cmds),
                replay_from(log@, 0) == (cmds + replay_from(log@, pos as int).0, replay_from(
                    log@,
                    pos as int,
                ).1),
            ensures
                pos <= log@.len(),
                record_at(log@, pos as int) is None,
            decreases log@.len() - pos,
        {
            match read_record(log.as_slice(), pos) {
                None => break,
                Some((cmd, n)) => {
                    let ghost c = cmd@;
                    let ghost prefix = log@.subrange(0, pos as int);
                    proof {
                        lemma_record_canonical(log@, pos as int);
                        assert(log@.subrange(0, pos + n) =~= prefix + log@.subrange(
                            pos as int,
                            pos + n,
                        ));
                        let rest = replay_from(log@, pos + n);
                        assert(cmds.push(c) + rest.0 =~= cmds + (seq![c] + rest.0));
                    }
                    apply_record(
                        &mut index,
                        cmd,
                        MemoryData { offset: pos, len: n },
                        Ghost(prefix),
                        Ghost(cmds),
                        Ghost(log@.subrange(0, pos + n)),
                    );
                    proof {
                        cmds = cmds.push(c);
                    }
                    pos = pos + n;
                },
            }
        }
        proof {
            assert(cmds + replay_from(log@, pos as int).0 =~= cmds);
        }
        let mut log = log;
        log.truncate(pos);
        Ok(KvStore { log, index, cmds: Ghost(cmds) })
    }

    /// Rewrites the log so that it holds one `Put` record per live key,
    /// taken from the index, and swaps in a matching index. The map is
    /// unchanged.
    #[verifier::rlimit(60)]
    pub fn compact(&mut self)
        requires
            old(self).wf(),
        ensures
            final(self).wf(),
            final(self)@ == old(self)@,
            final(self).commands().len() <= old(self).commands().len(),
            final(self).log_view().len() + HEADER_SIZE * (old(self).commands().len()
                - final(self).commands().len()) <= old(self).log_view().len(),
            final(self).log_view().len() == old(self).log_view().len() <==> no_overwrite(
                old(self).commands(),
            ),
            forall|k: Seq<char>|
                old(self)@.contains_key(k) ==> #[trigger] mentions(final(self).commands(), k),
            forall|j: int|
                0 <= j < final(self).commands().len() ==> {
                    let c = #[trigger] final(self).commands()[j];
                    &&& c is Put
                    &&& old(self)@.contains_key(model_key(c))
                    &&& c == CommandModel::Put { key: model_key(c), value: old(self)@[model_key(c)] }
                },
            forall|i: int, j: int|
                0 <= i < j < final(self).commands().len() ==> model_key(
                    #[trigger] final(self).commands()[i],
                ) != model_key(#[trigger] final(self).commands()[j]),
    {
        let mut new_log: Vec<u8> = Vec::new();
        let mut new_index = Index::new();
        let ghost mut new_cmds: Seq<CommandModel> = Seq::empty();
        let n = self.index.len();
        let mut i: usize = 0;
        proof {
            self.index.lemma_keys();
            assert(new_index@.dom() =~= apply_all(new_cmds).dom());
        }
        while i < n
            invariant
                self.wf(),
                self.index.wf(),
                n == self.index.size(),
                i <= n,
                consistent(new_log@, new_index, new_cmds),
                new_cmds.len() == i,
                forall|j: int|
                    0 <= j < i ==> #[trigger] new_cmds[j] == (CommandModel::Put {
                        key: self.index.key_at(j),
                        value: self@[self.index.key_at(j)],
                    }),
                forall|k: Seq<char>|
                    apply_all(new_cmds).contains_key(k) <==> exists|j: int|
                        0 <= j < i && #[trigger] self.index.key_at(j) == k,
                forall|k: Seq<char>|
                    #[trigger] apply_all(new_cmds).contains_key(k) ==> self@.contains_key(k)
                        && apply_all(new_cmds)[k] == self@[k],
            decreases n - i,
        {
            let (key, loc) = self.index.entry(i);
            let ghost k = key@;
            let ghost c = CommandModel::Put { key: k, value: self@[k] };
            proof {
                assert(entry_ok(self.log@, k, loc, self@[k]));
                lemma_record_at(self.log@, loc.offset as int, c);
            }
            let offset = new_log.len();
            match read_record(self.log.as_slice(), loc.offset) {
                Some((cmd, _)) => {
                    match encode(&cmd, offset) {
                        Ok(rec) => {
                            let ghost prev = new_log@;
                            new_log.extend_from_slice(rec.as_slice());
                            assert(new_log@ =~= prev + rec@);
                            let len = new_log.len() - offset;
                            apply_record(
                                &mut new_index,
                                cmd,
                                MemoryData { offset, len },
                                Ghost(prev),
                                Ghost(new_cmds),
                                Ghost(new_log@),
                            );
                            proof {
                                lemma_push_unfold(new_cmds, c);
                                assert forall|j: int| 0 <= j < i + 1 implies #[trigger] new_cmds.push(c)[j]
                                    == (CommandModel::Put {
                                    key: self.index.key_at(j),
                                    value: self@[self.index.key_at(j)],
                                }) by {
                                    if j < i {
                                        assert(new_cmds.push(c)[j] == new_cmds[j]);
                                    }
                                }
                                assert forall|k2: Seq<char>|
                                    apply_all(new_cmds.push(c)).contains_key(k2) implies exists|j: int|
                                    0 <= j < i + 1 && #[trigger] self.index.key_at(j) == k2 by {
                                    if k2 == k {
                                        assert(self.index.key_at(i as int) == k2);
                                    } else {
                                        assert(apply_all(new_cmds).contains_key(k2));
                                    }
                                }
                                assert forall|k2: Seq<char>|
                                    (exists|j: int| 0 <= j < i + 1 && #[trigger] self.index.key_at(j) == k2)
                                    implies apply_all(new_cmds.push(c)).contains_key(k2) by {
                                    let j = choose|j: int| 0 <= j < i + 1 && #[trigger] self.index.key_at(j) == k2;
                                    if j < i {
                                        assert(apply_all(new_cmds).contains_key(k2));
                                    }
                                }
                                new_cmds = new_cmds.push(c);
                            }
                        },
                        Err(_) => {},
                    }
                },
                None => {},
            }
            i = i + 1;
        }
        proof {
            self.index.lemma_keys();
            assert forall|k: Seq<char>| self@.contains_key(k) implies apply_all(new_cmds).contains_key(k) by {
                let j = choose|j: int| 0 <= j < self.index.size() && #[trigger] self.index.key_at(j) == k;
                assert(self.index.key_at(j) == k);
            }
            assert(apply_all(new_cmds) =~= self@);
            assert forall|a: int, b: int| 0 <= a < b < new_cmds.len() implies model_key(
                #[trigger] new_cmds[a],
            ) != model_key(#[trigger] new_cmds[b]) by {
                assert(self.index.key_at(a) != self.index.key_at(b));
            }
            lemma_live_records_fit(self.cmds@, new_cmds);
            assert forall|k: Seq<char>| self@.contains_key(k) implies #[trigger] mentions(new_cmds, k) by {
                let j = choose|j: int| 0 <= j < self.index.size() && #[trigger] self.index.key_at(j) == k;
                assert(model_key(new_cmds[j]) == k);
            }
            if no_overwrite(self.cmds@) {
                lemma_compaction_keeps_size(self.cmds@, new_cmds);
            }
        }
        self.log = new_log;
        self.index = new_index;
        self.cmds = Ghost(new_cmds);
    }

    /// Appends the record of `cmd` and brings the index up to date.
    fn append(&mut self, cmd: Command) -> (r: Result<()>)
        requires
            old(self).wf(),
        ensures
            final(self).wf(),
            match r {
                Ok(()) => framable(cmd@) && final(self).commands() == old(self).commands().push(cmd@)
                    && final(self).locations() == apply_loc(
                    old(self).locations(),
                    cmd@,
                    MemoryData {
                        offset: old(self).log_view().len() as usize,
                        len: record_len(cmd@) as usize,
                    },
                ),
                Err(e) => !framable(cmd@) && e == KvsError::Encode && *final(self) == *old(self),
            },
    {
        let offset = self.log.len();
        match encode(&cmd, offset) {
            Err(e) => Err(e),
            Ok(rec) => {
                let ghost log = self.log@;
                let ghost cmds = self.cmds@;
                self.log.extend_from_slice(rec.as_slice());
                assert(self.log@ =~= log + rec@);
                let len = self.log.len() - offset;
                self.cmds = Ghost(cmds.push(cmd@));
                apply_record(
                    &mut self.index,
                    cmd,
                    MemoryData { offset, len },
                    Ghost(log),
                    Ghost(cmds),
                    Ghost(self.log@),
                );
                Ok(())
            },
        }
    }

    /// Sets `key` to `value`: appends a `Put` record, then indexes it.
    /// Fails with `Encode`, changing nothing, when the record is too large.
    pub fn set(&mut self, key: String, value: String) -> (r: Result<()>)
        requires
            old(self).wf(),
        ensures
            final(self).wf(),
            match r {
                Ok(()) => framable(CommandModel::Put { key: key@, value: value@ })
                    && final(self)@ == old(self)@.insert(key@, value@)
                    && final(self).commands() == old(self).commands().push(
                    CommandModel::Put { key: key@, value: value@ },
                ) && final(self).log_view() == old(self).log_view() + record_bytes(
                    old(self).log_view().len() as int,
                    CommandModel::Put { key: key@, value: value@ },
                ) && final(self).locations() == old(self).locations().insert(
                    key@,
                    MemoryData {
                        offset: old(self).log_view().len() as usize,
                        len: record_len(CommandModel::Put { key: key@, value: value@ }) as usize,
                    },
                ),
                Err(e) => !framable(CommandModel::Put { key: key@, value: value@ })
                    && e == KvsError::Encode && *final(self) == *old(self),
            },
    {
        let r = self.append(Command::Put { key, value });
        proof {
            if r is Ok {
                lemma_push_unfold(old(self).cmds@, CommandModel::Put { key: key@, value: value@ });
            }
        }
        r
    }

    /// Removes `key`: appends a `Remove` record, then drops its index entry.
    /// Fails with `KeyNotFound`, changing nothing, when `key` has no live entry.
    pub fn remove(&mut self, key: String) -> (r: Result<()>)
        requires
            old(self).wf(),
        ensures
            final(self).wf(),
            old(self)@.contains_key(key@) ==> r is Ok && final(self)@ == old(self)@.remove(key@)
                && final(self).commands() == old(self).commands().push(
                CommandModel::Remove { key: key@ },
            ) && final(self).log_view() == old(self).log_view() + record_bytes(
                old(self).log_view().len() as int,
                CommandModel::Remove { key: key@ },
            ) && final(self).locations() == old(self).locations().remove(key@),
            !old(self)@.contains_key(key@) ==> r == Err::<(), KvsError>(KvsError::KeyNotFound)
                && *final(self) == *old(self),
    {
        if self.index.lookup(&key).is_none() {
            return Err(KvsError::KeyNotFound);
        }
        proof {
            assert(self.index@.contains_key(key@));
            assert(entry_ok(self.log@, key@, self.index@[key@], self@[key@]));
            assert(framable(CommandModel::Remove { key: key@ }));
        }
        let r = self.append(Command::Remove { key });
        proof {
            lemma_push_unfold(old(self).cmds@, CommandModel::Remove { key: key@ });
        }
        r
    }
}

/// Write-then-read on a store: when the command at `i` is the last one about
/// `k` among those that built `s` (its sets and removes, in order), `k`
/// holds that command's value if it is a `Put` and is absent if it is a
/// `Remove`.
pub proof fn lemma_store_last_write(s: &KvStore, k: Seq<char>, i: int)
    requires
        s.wf(),
        0 <= i < s.commands().len(),
        model_key(s.commands()[i]) == k,
        forall|j: int| i < j < s.commands().len() ==> model_key(#[trigger] s.commands()[j]) != k,
    ensures
        match s.commands()[i] {
            CommandModel::Put { value, .. } => s@.contains_key(k) && s@[k] == value,
            CommandModel::Remove { .. } => !s@.contains_key(k),
        },
{
    lemma_last_write(s.commands(), k, i);
}

/// Write-then-read on a store: a key that none of the commands that built
/// `s` is about is absent.
pub proof fn lemma_store_never_written(s: &KvStore, k: Seq<char>)
    requires
        s.wf(),
        forall|i: int| 0 <= i < s.commands().len() ==> model_key(#[trigger] s.commands()[i]) != k,
    ensures
        !s@.contains_key(k),
{
    lemma_never_written(s.commands(), k);
}

} // verus!
