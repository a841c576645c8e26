//! The store: segments of command records, the index over them, and the
//! operations that keep the two in step.

use vstd::prelude::*;
use vstd::slice::slice_subrange;
use crate::command::{
    append_bytes, command_of, encoding, json_record, next_record, CommandView, Commend, NextRecord,
};
use crate::error::{KvError, Result};
use crate::index::{lemma_packed_same, packed_start, superseded, CommandPos, Index};

verus! {

/// Compaction runs once more than this many bytes of the log are garbage.
pub const COMPACTION_THRESHOLD: u64 = 1048576;

/// One generation-numbered log: the bytes of its records, back to back.
#[derive(Debug, Clone)]
pub struct Segment {
    pub gen: u64,
    pub data: Vec<u8>,
}

/// Generations strictly increase along the list.
pub open spec fn ascending(segs: Seq<Segment>) -> bool {
    forall|i: int, j: int| 0 <= i < j < segs.len() ==> (#[trigger] segs[i]).gen < (#[trigger] segs[j]).gen
}

/// Some segment of the list has this generation.
pub open spec fn has_gen(segs: Seq<Segment>, gen: u64) -> bool {
    exists|s: int| 0 <= s < segs.len() && (#[trigger] segs[s]).gen == gen
}

/// The bytes of the segment of generation `gen`.
pub open spec fn data_of(segs: Seq<Segment>, gen: u64) -> Seq<u8> {
    segs[choose|s: int| 0 <= s < segs.len() && (#[trigger] segs[s]).gen == gen].data@
}

/// The position lies within a segment of the list.
pub open spec fn in_log(segs: Seq<Segment>, p: CommandPos) -> bool {
    has_gen(segs, p.gen) && p.pos + p.len <= data_of(segs, p.gen).len()
}

/// The bytes that a position covers.
pub open spec fn record_at(segs: Seq<Segment>, p: CommandPos) -> Seq<u8> {
    data_of(segs, p.gen).subrange(p.pos as int, p.pos + p.len)
}

/// The generations and contents of a list of segments.
pub open spec fn log_of(segs: Seq<Segment>) -> Seq<(u64, Seq<u8>)> {
    Seq::new(segs.len(), |i: int| (segs[i].gen, segs[i].data@))
}

/// The bytes decode, as one whole record, to a `Set` of `key`.
pub open spec fn is_put_record(bytes: Seq<u8>, key: Seq<char>) -> bool {
    match json_record(bytes) {
        Some(e) => match command_of(e) {
            Some(CommandView::Put { key: k, value: _ }) => k == key,
            _ => false,
        },
        None => false,
    }
}

/// The value of the `Set` that the bytes decode to.
pub open spec fn value_in(bytes: Seq<u8>) -> Seq<char> {
    match json_record(bytes) {
        Some(e) => match command_of(e) {
            Some(CommandView::Put { key: _, value }) => value,
            _ => Seq::empty(),
        },
        None => Seq::empty(),
    }
}

/// Addition that stops at the largest `u64`.
pub open spec fn sat_add(a: u64, b: u64) -> u64 {
    if a + b > u64::MAX {
        u64::MAX
    } else {
        (a + b) as u64
    }
}

/// Adds two counts of bytes, stopping at the largest `u64`.
pub fn saturating_sum(a: u64, b: u64) -> (c: u64)
    ensures
        c == sat_add(a, b),
{
    if b > u64::MAX - a {
        u64::MAX
    } else {
        a + b
    }
}

/// In an ascending list each generation names one segment.
pub proof fn lemma_data_of(segs: Seq<Segment>, s: int)
    requires
        ascending(segs),
        0 <= s < segs.len(),
    ensures
        has_gen(segs, segs[s].gen),
        data_of(segs, segs[s].gen) == segs[s].data@,
{
    let gen = segs[s].gen;
    let c = choose|c: int| 0 <= c < segs.len() && (#[trigger] segs[c]).gen == gen;
    if c < s {
        assert(segs[c].gen < segs[s].gen);
    } else if s < c {
        assert(segs[s].gen < segs[c].gen);
    }
}

/// Appending to the last segment moves no record that the list held.
pub proof fn lemma_append_keeps(before: Seq<Segment>, after: Seq<Segment>, p: CommandPos)
    requires
        ascending(before),
        before.len() > 0,
        after.len() == before.len(),
        forall|s: int| 0 <= s < before.len() ==> (#[trigger] after[s]).gen == before[s].gen,
        forall|s: int| 0 <= s < before.len() - 1 ==> (#[trigger] after[s]).data@ == before[s].data@,
        before.last().data@.is_prefix_of(after.last().data@),
        in_log(before, p),
    ensures
        in_log(after, p),
        record_at(after, p) == record_at(before, p),
{
    let s = choose|s: int| 0 <= s < before.len() && (#[trigger] before[s]).gen == p.gen;
    assert(ascending(after)) by {
        assert forall|i: int, j: int| 0 <= i < j < after.len() implies (#[trigger] after[i]).gen < (
        #[trigger] after[j]).gen by {
            assert(before[i].gen < before[j].gen);
        }
    }
    lemma_data_of(before, s);
    lemma_data_of(after, s);
    assert(after[s].gen == p.gen);
    if s < before.len() - 1 {
    } else {
        let a = before.last().data@;
        let b = after.last().data@;
        assert(a.len() <= b.len());
        assert(a =~= b.subrange(0, a.len() as int));
        assert(b.subrange(p.pos as int, p.pos + p.len) =~= a.subrange(p.pos as int, p.pos + p.len));
    }
}

/// The log after `bytes` were appended to its last segment.
pub open spec fn appended(log: Seq<(u64, Seq<u8>)>, bytes: Seq<u8>) -> Seq<(u64, Seq<u8>)> {
    log.update(log.len() - 1, (log.last().0, log.last().1 + bytes))
}

/// The record that `set` writes for a key and a value.
pub open spec fn put_record(key: Seq<char>, value: Seq<char>) -> Option<Seq<u8>> {
    encoding(CommandView::Put { key, value })
}

/// The record that `remove` writes for a key.
pub open spec fn remove_record(key: Seq<char>) -> Option<Seq<u8>> {
    encoding(CommandView::Remove { key })
}

/// The record decodes to a `Set` of this key to this value.
pub open spec fn reads_back(record: Seq<u8>, key: Seq<char>, value: Seq<char>) -> bool {
    is_put_record(record, key) && value_in(record) == value
}

/// Why a log cannot be replayed.
pub enum Fault {
    /// The JSON reader reported an error.
    Malformed,
    /// A record does not read back as the command that the log's stream
    /// gave.
    WrongCommand,
}

/// The command that the bytes decode to as one whole record, if any.
pub open spec fn decodes(bytes: Seq<u8>) -> Option<CommandView> {
    match json_record(bytes) {
        Some(e) => command_of(e),
        None => None,
    }
}

/// What keeps a record from being indexed under `key`, if anything does.
pub open spec fn read_back_fault(record: Seq<u8>, key: Seq<char>) -> Option<Fault> {
    if is_put_record(record, key) {
        None
    } else if decodes(record) is None {
        Some(Fault::Malformed)
    } else {
        Some(Fault::WrongCommand)
    }
}

/// The index and the garbage counter after one command, whose record lies
/// at `p`: a `Set` supersedes the key's earlier record; a `Remove` does so
/// too and is garbage itself.
pub open spec fn apply(
    command: CommandView,
    p: CommandPos,
    index: Map<Seq<char>, CommandPos>,
    garbage: u64,
) -> (Map<Seq<char>, CommandPos>, u64) {
    match command {
        CommandView::Put { key, value } => (
            index.insert(key, p),
            sat_add(garbage, superseded(index, key)),
        ),
        CommandView::Remove { key } => (
            index.remove(key),
            sat_add(sat_add(garbage, superseded(index, key)), p.len),
        ),
    }
}

/// Replays the records of one segment from offset `pos` on, one after the
/// other, each starting where the one before ended. Gives the index, the
/// garbage counter and the offset at which the last record ended.
pub open spec fn replay(
    data: Seq<u8>,
    gen: u64,
    pos: int,
    index: Map<Seq<char>, CommandPos>,
    garbage: u64,
) -> std::result::Result<(Map<Seq<char>, CommandPos>, u64, int), Fault>
    decreases data.len() - pos,
{
    if pos < 0 || pos > data.len() {
        Err(Fault::Malformed)
    } else {
        match next_record(data.subrange(pos, data.len() as int)) {
            NextRecord::End => Ok((index, garbage, pos)),
            NextRecord::Malformed => Err(Fault::Malformed),
            NextRecord::Record { command, read } => {
                if read <= 0 || pos + read > data.len() {
                    Err(Fault::Malformed)
                } else {
                    let p = CommandPos { gen, pos: pos as u64, len: read as u64 };
                    let fault = match command {
                        CommandView::Put { key, value } => read_back_fault(
                            data.subrange(pos, pos + read),
                            key,
                        ),
                        CommandView::Remove { key } => None,
                    };
                    match fault {
                        Some(f) => Err(f),
                        None => {
                            let next = apply(command, p, index, garbage);
                            replay(data, gen, pos + read, next.0, next.1)
                        },
                    }
                }
            },
        }
    }
}

/// Replays the first `n` segments in turn, from an empty index. Gives the
/// index, the garbage counter, and whether every segment was read to its
/// last byte.
pub open spec fn replay_all(logs: Seq<Segment>, n: int) -> std::result::Result<
    (Map<Seq<char>, CommandPos>, u64, bool),
    Fault,
>
    decreases n,
{
    if n <= 0 {
        Ok((Map::empty(), 0u64, true))
    } else {
        match replay_all(logs, n - 1) {
            Err(f) => Err(f),
            Ok((index, garbage, whole)) => match replay(
                logs[n - 1].data@,
                logs[n - 1].gen,
                0,
                index,
                0,
            ) {
                Err(f) => Err(f),
                Ok((next, more, end)) => Ok(
                    (next, sat_add(garbage, more), whole && end == logs[n - 1].data@.len()),
                ),
            },
        }
    }
}

/// The generation of the active segment that `open` creates.
pub open spec fn next_gen(logs: Seq<Segment>) -> int {
    if logs.len() == 0 {
        1
    } else {
        logs.last().gen + 1
    }
}

/// The error that stands for a fault.
pub open spec fn is_fault(e: KvError, f: Fault) -> bool {
    match f {
        Fault::Malformed => e is SerdeErr,
        Fault::WrongCommand => e is UnexpectedCommandType,
    }
}

/// Once the replay of a prefix of the segments has failed, so has that of
/// every longer prefix, with the same fault.
pub proof fn lemma_fault_stays(logs: Seq<Segment>, m: int, n: int)
    requires
        0 <= m <= n,
        replay_all(logs, m) is Err,
    ensures
        replay_all(logs, n) == replay_all(logs, m),
    decreases n - m,
{
    if m < n {
        lemma_fault_stays(logs, m, n - 1);
    }
}

/// The bytes of all segments of a log, added up.
pub open spec fn total_bytes(log: Seq<(u64, Seq<u8>)>) -> int
    decreases log.len(),
{
    if log.len() == 0 {
        0
    } else {
        total_bytes(log.drop_last()) + log.last().1.len()
    }
}

/// A count of bytes as the garbage counter holds it: one too large for the
/// counter is held as the largest `u64`.
pub open spec fn clip(n: int) -> u64 {
    if n > u64::MAX {
        u64::MAX
    } else if n < 0 {
        0
    } else {
        n as u64
    }
}

/// The total of a log with an empty segment added is that of the log.
pub proof fn lemma_total_pushed_empty(log: Seq<(u64, Seq<u8>)>, gen: u64)
    ensures
        total_bytes(log.push((gen, Seq::<u8>::empty()))) == total_bytes(log),
{
    assert(log.push((gen, Seq::<u8>::empty())).drop_last() =~= log);
}

/// The total of a log of one segment is the length of that segment.
pub proof fn lemma_total_single(log: Seq<(u64, Seq<u8>)>)
    requires
        log.len() == 1,
    ensures
        total_bytes(log) == log[0].1.len(),
{
    assert(total_bytes(log.drop_last()) == 0);
}

/// Appending to the last segment adds to the total.
pub proof fn lemma_total_appended(log: Seq<(u64, Seq<u8>)>, bytes: Seq<u8>)
    requires
        log.len() > 0,
    ensures
        total_bytes(appended(log, bytes)) == total_bytes(log) + bytes.len(),
{
    assert(appended(log, bytes).drop_last() =~= log.drop_last());
}

/// A key-value store over an append-only log of commands.
#[derive(Debug)]
pub struct KvStore {
    segments: Vec<Segment>,
    index: Index,
    current_gen: u64,
    uncompaction: u64,
}

impl View for KvStore {
    type V = Map<Seq<char>, Seq<char>>;

    /// The value of each live key.
    closed spec fn view(&self) -> Map<Seq<char>, Seq<char>> {
        Map::new(
            |k: Seq<char>| self.index@.dom().contains(k),
            |k: Seq<char>| value_in(record_at(self.segments@, self.index@[k])),
        )
    }
}

/// What a lookup of `key` gives: the key's value, or nothing where the
/// store holds none.
pub open spec fn found(store: KvStore, key: Seq<char>, r: Option<String>) -> bool {
    match r {
        Some(value) => store@.dom().contains(key) && value@ == store@[key],
        None => !store@.dom().contains(key),
    }
}

/// What writing the record of a `set` makes of a store, before any
/// compaction: the record ends the active segment, the index points at it,
/// and the record that it supersedes is garbage.
pub open spec fn was_written(before: KvStore, after: KvStore, key: Seq<char>, value: Seq<char>) -> bool {
    &&& put_record(key, value) is Some
    &&& reads_back(put_record(key, value)->Some_0, key, value)
    &&& after.wf()
    &&& after@ == before@.insert(key, value)
    &&& after.records() == before.records().insert(key, put_record(key, value)->Some_0)
    &&& before.accounted() ==> after.accounted()
    &&& after.garbage() == sat_add(before.garbage(), superseded(before.positions(), key))
    &&& after.active_gen() == before.active_gen()
    &&& after.log() == appended(before.log(), put_record(key, value)->Some_0)
    &&& after.positions() == before.positions().insert(
        key,
        CommandPos {
            gen: before.active_gen(),
            pos: before.log().last().1.len() as u64,
            len: put_record(key, value)->Some_0.len() as u64,
        },
    )
}

/// A `set` of `key` runs compaction: the garbage, with the record that the
/// key has now, exceeds the threshold.
pub open spec fn compacts_on_set(before: KvStore, key: Seq<char>) -> bool {
    sat_add(before.garbage(), superseded(before.positions(), key)) > COMPACTION_THRESHOLD
}

/// What a successful `set` of `key` to `value` makes of a store: the record
/// is written, and where the garbage then exceeds the threshold, the store
/// is compacted.
pub open spec fn was_set(before: KvStore, after: KvStore, key: Seq<char>, value: Seq<char>) -> bool {
    if compacts_on_set(before, key) {
        exists|written: KvStore| #[trigger]
            was_written(before, written, key, value) && was_compacted(written, after)
    } else {
        was_written(before, after, key, value)
    }
}

/// The garbage counter after a `remove` of `key` has written its record:
/// the record that the key had and the new record are both garbage.
pub open spec fn garbage_after_remove(before: KvStore, key: Seq<char>) -> u64 {
    sat_add(
        sat_add(before.garbage(), before.positions()[key].len),
        remove_record(key)->Some_0.len() as u64,
    )
}

/// What a successful `remove` of `key` makes of a store: the record is
/// written and the key dropped, and where the garbage then exceeds the
/// threshold, the store is compacted.
pub open spec fn was_removed(before: KvStore, after: KvStore, key: Seq<char>) -> bool {
    if garbage_after_remove(before, key) > COMPACTION_THRESHOLD {
        exists|erased: KvStore| #[trigger]
            was_erased(before, erased, key) && was_compacted(erased, after)
    } else {
        was_erased(before, after, key)
    }
}

/// What writing the record of a `remove` makes of a store, before any
/// compaction: the record ends the active segment, the key has left the
/// index, and both its old record and the new one are garbage.
pub open spec fn was_erased(before: KvStore, after: KvStore, key: Seq<char>) -> bool {
    &&& before@.dom().contains(key)
    &&& remove_record(key) is Some
    &&& after.wf()
    &&& after@ == before@.remove(key)
    &&& after.records() == before.records().remove(key)
    &&& after.positions() == before.positions().remove(key)
    &&& before.accounted() ==> after.accounted()
    &&& after.log() == appended(before.log(), remove_record(key)->Some_0)
    &&& after.active_gen() == before.active_gen()
    &&& after.garbage() == garbage_after_remove(before, key)
}

/// What compaction makes of a store: the same keys with the same records,
/// all of them in one segment of the generation after the old active one,
/// followed by an empty active segment; no garbage.
pub open spec fn was_compacted(before: KvStore, after: KvStore) -> bool {
    &&& after.wf()
    &&& after@ == before@
    &&& after.records() == before.records()
    &&& after.garbage() == 0
    &&& after.accounted()
    &&& after.active_gen() == before.active_gen() + 2
    &&& after.log().len() == 2
    &&& after.log()[0].0 == before.active_gen() + 1
    &&& after.log()[1] == (after.active_gen(), Seq::<u8>::empty())
    &&& forall|k: Seq<char>| #[trigger]
        after.positions().dom().contains(k) ==> after.positions()[k].gen == before.active_gen() + 1
            && after.positions()[k].len == before.positions()[k].len
    &&& after.key_order() == before.key_order()
    &&& forall|i: int|
        0 <= i < after.key_order().len() ==> after.positions()[#[trigger] after.key_order()[i]].pos
            == packed_start(after.key_order(), after.positions(), i)
    &&& after.log()[0].1.len() == packed_start(
        after.key_order(),
        after.positions(),
        after.key_order().len() as int,
    )
}

impl KvStore {
    /// The segments ascend and end in the active one, and every indexed
    /// position covers, within a segment, a record that decodes to a `Set`
    /// of its key.
    pub closed spec fn wf(&self) -> bool {
        &&& self.segments@.len() > 0
        &&& ascending(self.segments@)
        &&& self.segments@.last().gen == self.current_gen
        &&& self.index.wf()
        &&& forall|k: Seq<char>| #[trigger]
            self.index@.dom().contains(k) ==> in_log(self.segments@, self.index@[k])
                && is_put_record(record_at(self.segments@, self.index@[k]), k)
    }

    /// The record of each live key.
    pub closed spec fn records(&self) -> Map<Seq<char>, Seq<u8>> {
        Map::new(
            |k: Seq<char>| self.index@.dom().contains(k),
            |k: Seq<char>| record_at(self.segments@, self.index@[k]),
        )
    }

    /// Where the record of each live key lies.
    pub closed spec fn positions(&self) -> Map<Seq<char>, CommandPos> {
        self.index@
    }

    /// The live keys in ascending order, which is the order in which
    /// compaction copies their records.
    pub closed spec fn key_order(&self) -> Seq<Seq<char>> {
        self.index.key_order()
    }

    /// The segments, oldest first: generation and contents.
    pub closed spec fn log(&self) -> Seq<(u64, Seq<u8>)> {
        log_of(self.segments@)
    }

    /// The generation that receives writes.
    pub closed spec fn active_gen(&self) -> u64 {
        self.current_gen
    }

    /// The garbage counter: bytes of the log that no live key needs.
    pub closed spec fn garbage(&self) -> u64 {
        self.uncompaction
    }

    /// The lengths of the records of all live keys, added up.
    pub closed spec fn live_bytes(&self) -> int {
        self.index.live_bytes()
    }

    /// The books balance: the live records and the garbage together are
    /// all the bytes of the log.
    pub open spec fn accounted(&self) -> bool {
        0 <= self.live_bytes() <= total_bytes(self.log()) && self.garbage() == clip(
            total_bytes(self.log()) - self.live_bytes(),
        )
    }

    /// The live bytes are what the records of the live keys take when they
    /// lie end to end.
    pub proof fn lemma_live_bytes(&self)
        requires
            self.wf(),
        ensures
            self.live_bytes() == packed_start(
                self.key_order(),
                self.positions(),
                self.key_order().len() as int,
            ),
    {
        self.index.lemma_live_is_packed();
    }

    /// What a store answers rests on its log and its index alone: a store
    /// over the same segments, with one empty segment more, whose index
    /// holds the same positions, gives the same value for every key.
    pub proof fn lemma_reopened_same_index(&self, reopened: KvStore, gen: u64)
        requires
            self.wf(),
            reopened.wf(),
            reopened.positions() == self.positions(),
            reopened.log() == self.log().push((gen, Seq::<u8>::empty())),
        ensures
            reopened@ == self@,
            reopened.records() == self.records(),
    {
        let here = self.segments@;
        let there = reopened.segments@;
        assert(reopened.log().len() == there.len());
        assert(self.log().len() == here.len());
        assert(there.len() == here.len() + 1);
        assert forall|k: Seq<char>| #[trigger] self.index@.dom().contains(k) implies record_at(
            there,
            reopened.index@[k],
        ) == record_at(here, self.index@[k]) by {
            let p = self.index@[k];
            assert(in_log(here, p));
            let s = choose|s: int| 0 <= s < here.len() && (#[trigger] here[s]).gen == p.gen;
            assert(reopened.log()[s] == self.log()[s]);
            assert(there[s].gen == here[s].gen && there[s].data@ == here[s].data@);
            lemma_data_of(here, s);
            lemma_data_of(there, s);
        }
        assert(reopened.records() =~= self.records());
        assert(reopened@ =~= self@);
    }

    /// The view holds what the records decode to, key by key.
    pub proof fn lemma_view_of_records(&self)
        requires
            self.wf(),
        ensures
            self@.dom() == self.records().dom(),
            self@.dom() == self.positions().dom(),
            forall|k: Seq<char>| #[trigger]
                self@.dom().contains(k) ==> self@[k] == value_in(self.records()[k]) && is_put_record(
                    self.records()[k],
                    k,
                ),
            self.log().len() > 0,
            self.log().last().0 == self.active_gen(),
            forall|i: int, j: int|
                0 <= i < j < self.log().len() ==> (#[trigger] self.log()[i]).0 < (
                #[trigger] self.log()[j]).0,
            forall|i: int, j: int|
                0 <= i < j < self.key_order().len() ==> crate::index::text_before(
                    #[trigger] self.key_order()[i],
                    #[trigger] self.key_order()[j],
                ),
            forall|k: Seq<char>| self@.dom().contains(k) <==> self.key_order().contains(k),
    {
        assert forall|i: int, j: int| 0 <= i < j < self.key_order().len() implies crate::index::text_before(
            #[trigger] self.key_order()[i],
            #[trigger] self.key_order()[j],
        ) by {
            self.index.lemma_ascending(i, j);
        }
        assert forall|k: Seq<char>| self@.dom().contains(k) implies self.key_order().contains(k) by {
            let i = self.index.lemma_key_has_place(k);
            assert(self.key_order()[i] == k);
        }
        assert forall|k: Seq<char>| self.key_order().contains(k) implies self@.dom().contains(k) by {
            let i = choose|i: int| 0 <= i < self.key_order().len() && self.key_order()[i] == k;
            self.index.lemma_place(i);
        }
        assert(self@.dom() =~= self.records().dom());
        assert(self@.dom() =~= self.positions().dom());
        assert forall|i: int, j: int| 0 <= i < j < self.log().len() implies (#[trigger] self.log()[i]).0
            < (#[trigger] self.log()[j]).0 by {
            assert(self.segments@[i].gen < self.segments@[j].gen);
        }
    }

    /// The place of the segment of generation `gen`.
    fn find_segment(&self, gen: u64) -> (slot: Option<usize>)
        ensures
            match slot {
                Some(s) => s < self.segments@.len() && self.segments@[s as int].gen == gen,
                None => !has_gen(self.segments@, gen),
            },
    {
        let mut s: usize = 0;
        while s < self.segments.len()
            invariant
                s <= self.segments@.len(),
                forall|t: int| 0 <= t < s ==> (#[trigger] self.segments@[t]).gen != gen,
            decreases self.segments@.len() - s,
        {
            if self.segments[s].gen == gen {
                return Some(s);
            }
            s += 1;
        }
        None
    }

    /// The segments, oldest first; the last is the active one.
    pub fn segments(&self) -> (segs: &Vec<Segment>)
        ensures
            log_of(segs@) == self.log(),
    {
        &self.segments
    }

    /// The generation of the active segment.
    pub fn current_gen(&self) -> (gen: u64)
        ensures
            gen == self.active_gen(),
    {
        self.current_gen
    }

    /// The garbage counter: the bytes that a compaction would reclaim.
    pub fn uncompaction(&self) -> (bytes: u64)
        ensures
            bytes == self.garbage(),
    {
        self.uncompaction
    }

    /// Appends a record to the active segment and says where it lies.
    fn append(&mut self, bytes: &Vec<u8>) -> (p: CommandPos)
        requires
            old(self).wf(),
        ensures
            final(self).wf(),
            final(self).index == old(self).index,
            final(self).current_gen == old(self).current_gen,
            final(self).uncompaction == old(self).uncompaction,
            final(self).records() == old(self).records(),
            final(self)@ == old(self)@,
            final(self).log() == appended(old(self).log(), bytes@),
            total_bytes(final(self).log()) == total_bytes(old(self).log()) + bytes@.len(),
            p.gen == old(self).current_gen,
            p.pos == old(self).log().last().1.len(),
            p.len == bytes@.len(),
            in_log(final(self).segments@, p),
            record_at(final(self).segments@, p) == bytes@,
    {
        let ghost before = self.segments@;
        let mut active = match self.segments.pop() {
            Some(active) => active,
            None => {
                assert(false);
                return CommandPos::new(0, 0, 0);
            },
        };
        let start = active.data.len();
        append_bytes(&mut active.data, bytes.as_slice());
        let end = active.data.len();
        self.segments.push(active);
        let p = CommandPos::new(self.current_gen, start as u64, end as u64);
        proof {
            let after = self.segments@;
            let last = before.len() - 1;
            assert(before.last().data@.is_prefix_of(after.last().data@));
            assert forall|i: int, j: int| 0 <= i < j < after.len() implies (#[trigger] after[i]).gen < (
            #[trigger] after[j]).gen by {
                assert(before[i].gen < before[j].gen);
            }
            assert forall|k: Seq<char>| #[trigger] self.index@.dom().contains(k) implies in_log(
                after,
                self.index@[k],
            ) && record_at(after, self.index@[k]) == record_at(before, self.index@[k]) by {
                lemma_append_keeps(before, after, self.index@[k]);
            }
            lemma_data_of(after, last);
            assert(record_at(after, p) =~= bytes@);
            assert(self.records() =~= old(self).records());
            assert(self@ =~= old(self)@);
            assert(self.log() =~= appended(old(self).log(), bytes@));
            lemma_total_appended(old(self).log(), bytes@);
        }
        p
    }

    /// The bytes of the active segment from offset `written` on: what a
    /// mirror of the log that holds the first `written` bytes still lacks.
    pub fn active_tail(&self, written: usize) -> (tail: &[u8])
        requires
            self.wf(),
            written <= self.log().last().1.len(),
        ensures
            tail@ == self.log().last().1.subrange(written as int, self.log().last().1.len() as int),
    {
        let last = self.segments.len() - 1;
        let data = &self.segments[last].data;
        slice_subrange(data.as_slice(), written, data.len())
    }

    /// Whether a `set` of `key` would run compaction.
    pub fn set_compacts(&self, key: &String) -> (yes: bool)
        requires
            self.wf(),
        ensures
            yes == compacts_on_set(*self, key@),
    {
        let before = match self.index.get(key) {
            Some(p) => p.len,
            None => 0,
        };
        saturating_sum(self.uncompaction, before) > COMPACTION_THRESHOLD
    }

    /// Whether the store holds `key`.
    pub fn contains_key(&self, key: &String) -> (yes: bool)
        requires
            self.wf(),
        ensures
            yes == self@.dom().contains(key@),
            yes == self.positions().dom().contains(key@),
    {
        self.index.get(key).is_some()
    }

    /// The value that a decoded record holds for a reader: a `Set` gives its
    /// value, a `Remove` is an `UnexpectedCommandType`, and an error stays.
    pub fn value_of(decoded: Result<Commend>) -> (r: Result<Option<String>>)
        ensures
            match decoded {
                Ok(Commend::Put { key, value }) => r == Ok::<Option<String>, KvError>(Some(value)),
                Ok(Commend::Remove { key }) => r is Err && r->Err_0 is UnexpectedCommandType,
                Err(e) => r == Err::<Option<String>, KvError>(e),
            },
    {
        match decoded {
            Ok(Commend::Put { key, value }) => Ok(Some(value)),
            Ok(Commend::Remove { key }) => Err(KvError::UnexpectedCommandType),
            Err(e) => Err(e),
        }
    }

    /// The value of `key`, or `None` where the store holds none. The store
    /// does not change.
    pub fn get(&mut self, key: String) -> (r: Result<Option<String>>)
        requires
            old(self).wf(),
        ensures
            *final(self) == *old(self),
            r is Ok,
            found(*old(self), key@, r->Ok_0),
    {
        let p = match self.index.get(&key) {
            Some(p) => p,
            None => {
                return Ok(None);
            },
        };
        assert(self.index@.dom().contains(key@));
        let s = match self.find_segment(p.gen) {
            Some(s) => s,
            None => {
                assert(false);
                return Ok(None);
            },
        };
        proof {
            lemma_data_of(self.segments@, s as int);
        }
        let data = &self.segments[s].data;
        // the record lies within the segment, whose length fits a `usize`
        let size = data.len();
        assert(p.pos + p.len <= size);
        let record = slice_subrange(data.as_slice(), p.pos as usize, (p.pos + p.len) as usize);
        assert(record@ == record_at(self.segments@, p));
        KvStore::value_of(Commend::decode(record))
    }

    /// Gives `key` the value `value`: appends the record to the active
    /// segment, points the index at it, counts the record it supersedes as
    /// garbage, and compacts once the garbage exceeds the threshold.
    ///
    /// The record is read back before it is written: one that does not
    /// decode to this key and value is refused and the store stays as it was.
    pub fn set(&mut self, key: String, value: String) -> (r: Result<()>)
        requires
            old(self).wf(),
            compacts_on_set(*old(self), key@) ==> old(self).active_gen() <= u64::MAX - 2,
        ensures
            match r {
                Ok(_) => was_set(*old(self), *final(self), key@, value@),
                Err(e) => {
                    &&& *final(self) == *old(self)
                    &&& match put_record(key@, value@) {
                        None => e is SerdeErr,
                        Some(record) => !reads_back(record, key@, value@) && if decodes(record)
                            is None {
                            e is SerdeErr
                        } else {
                            e is UnexpectedCommandType
                        },
                    }
                },
            },
    {
        let k = key.clone();
        let v = value.clone();
        let commend = Commend::set(key, value);
        let bytes = match commend.encode() {
            Ok(bytes) => bytes,
            Err(e) => {
                return Err(e);
            },
        };
        match Commend::decode(bytes.as_slice()) {
            Ok(Commend::Put { key: read_key, value: read_value }) => {
                if !(read_key == k && read_value == v) {
                    return Err(KvError::UnexpectedCommandType);
                }
            },
            Ok(Commend::Remove { key: _ }) => {
                return Err(KvError::UnexpectedCommandType);
            },
            Err(e) => {
                return Err(e);
            },
        }
        let p = self.append(&bytes);
        let ghost mid = *self;
        let ghost kk = k@;
        if let Some(before) = self.index.insert(k, p) {
            self.uncompaction = saturating_sum(self.uncompaction, before.len);
        }
        proof {
            let segs = self.segments@;
            assert forall|q: Seq<char>| #[trigger] self.index@.dom().contains(q) implies in_log(
                segs,
                self.index@[q],
            ) && is_put_record(record_at(segs, self.index@[q]), q) by {
                if q != kk {
                    assert(mid.index@.dom().contains(q));
                }
            }
            assert(self.records() =~= old(self).records().insert(kk, bytes@)) by {
                assert forall|q: Seq<char>| #[trigger] self.records().dom().contains(q) implies self.records()[q]
                    == old(self).records().insert(kk, bytes@)[q] by {
                    if q != kk {
                        assert(mid.records()[q] == old(self).records()[q]);
                    }
                }
            }
            assert(self@ =~= old(self)@.insert(kk, value@)) by {
                assert forall|q: Seq<char>| #[trigger] self@.dom().contains(q) implies self@[q] == old(
                    self,
                )@.insert(kk, value@)[q] by {
                    if q != kk {
                        assert(mid.records()[q] == old(self).records()[q]);
                    }
                }
            }
        }
        proof {
            self.index.lemma_live_not_negative();
        }
        let ghost written = *self;
        assert(was_written(*old(self), written, kk, value@));
        if self.uncompaction > COMPACTION_THRESHOLD {
            match self.compaction() {
                Ok(_) => {},
                Err(e) => {
                    return Err(e);
                },
            }
        }
        Ok(())
    }

    /// Removes `key`: appends the record to the active segment, drops the
    /// key's entry, counts both the record it had and the new record as
    /// garbage, and compacts once the garbage exceeds the threshold. Where
    /// the store holds no such key it fails with `KeyNotFound` and nothing
    /// is written.
    pub fn remove(&mut self, key: String) -> (r: Result<()>)
        requires
            old(self).wf(),
            old(self).positions().dom().contains(key@) ==> old(self).active_gen() <= u64::MAX - 2,
        ensures
            match r {
                Ok(_) => was_removed(*old(self), *final(self), key@),
                Err(e) => {
                    &&& *final(self) == *old(self)
                    &&& if old(self)@.dom().contains(key@) {
                        remove_record(key@) is None && e is SerdeErr
                    } else {
                        e is KeyNotFound
                    }
                },
            },
    {
        if self.index.get(&key).is_none() {
            return Err(KvError::KeyNotFound);
        }
        let k = key.clone();
        let commend = Commend::remove(key);
        let bytes = match commend.encode() {
            Ok(bytes) => bytes,
            Err(e) => {
                return Err(e);
            },
        };
        let p = self.append(&bytes);
        let ghost mid = *self;
        if let Some(before) = self.index.remove(&k) {
            self.uncompaction = saturating_sum(self.uncompaction, before.len);
        }
        self.uncompaction = saturating_sum(self.uncompaction, p.len);
        proof {
            let segs = self.segments@;
            assert forall|q: Seq<char>| #[trigger] self.index@.dom().contains(q) implies in_log(
                segs,
                self.index@[q],
            ) && is_put_record(record_at(segs, self.index@[q]), q) by {
                assert(mid.index@.dom().contains(q));
            }
            assert(self.records() =~= old(self).records().remove(k@)) by {
                assert forall|q: Seq<char>| #[trigger] self.records().dom().contains(q) implies self.records()[q]
                    == old(self).records().remove(k@)[q] by {
                    assert(mid.records()[q] == old(self).records()[q]);
                }
            }
            assert(self@ =~= old(self)@.remove(k@)) by {
                assert forall|q: Seq<char>| #[trigger] self@.dom().contains(q) implies self@[q] == old(
                    self,
                )@.remove(k@)[q] by {
                    assert(mid.records()[q] == old(self).records()[q]);
                }
            }
        }
        proof {
            self.index.lemma_live_not_negative();
        }
        let ghost erased = *self;
        assert(was_erased(*old(self), erased, k@));
        if self.uncompaction > COMPACTION_THRESHOLD {
            match self.compaction() {
                Ok(_) => {},
                Err(e) => {
                    return Err(e);
                },
            }
        }
        Ok(())
    }

    /// Replays one segment into the index and returns the bytes of garbage
    /// found in it. Each `Set` is read back from its own bytes before it is
    /// indexed.
    pub fn load(gen: u64, data: &Vec<u8>, index: &mut Index) -> (r: Result<u64>)
        requires
            old(index).wf(),
        ensures
            final(index).wf(),
            match replay(data@, gen, 0, old(index)@, 0) {
                Ok((map, garbage, end)) => {
                    &&& r == Ok::<u64, KvError>(garbage)
                    &&& final(index)@ == map
                    &&& 0 <= final(index).live_bytes() <= old(index).live_bytes() + end
                    &&& garbage == clip(old(index).live_bytes() + end - final(index).live_bytes())
                },
                Err(f) => r is Err && is_fault(r->Err_0, f),
            },
            forall|k: Seq<char>| #[trigger]
                final(index)@.dom().contains(k) ==> (old(index)@.dom().contains(k) && final(index)@[k]
                    == old(index)@[k]) || (final(index)@[k].gen == gen && final(index)@[k].pos
                    + final(index)@[k].len <= data@.len() && is_put_record(
                    data@.subrange(
                        final(index)@[k].pos as int,
                        final(index)@[k].pos + final(index)@[k].len,
                    ),
                    k,
                )),
    {
        let size = data.len();
        let mut pos: usize = 0;
        let mut garbage: u64 = 0;
        proof {
            index.lemma_live_not_negative();
        }
        loop
            invariant
                size == data@.len(),
                pos <= size,
                index.wf(),
                replay(data@, gen, 0, old(index)@, 0) == replay(data@, gen, pos as int, index@, garbage),
                0 <= index.live_bytes() <= old(index).live_bytes() + pos,
                garbage == clip(old(index).live_bytes() + pos - index.live_bytes()),
                forall|k: Seq<char>| #[trigger]
                    index@.dom().contains(k) ==> (old(index)@.dom().contains(k) && index@[k] == old(
                        index,
                    )@[k]) || (index@[k].gen == gen && index@[k].pos + index@[k].len <= data@.len()
                        && is_put_record(
                        data@.subrange(index@[k].pos as int, index@[k].pos + index@[k].len),
                        k,
                    )),
            decreases size - pos,
        {
            let rest = slice_subrange(data.as_slice(), pos, size);
            let (commend, read) = match Commend::decode_next(rest) {
                None => {
                    return Ok(garbage);
                },
                Some(Err(e)) => {
                    return Err(e);
                },
                Some(Ok(found)) => found,
            };
            let end = pos + read;
            let p = CommandPos::new(gen, pos as u64, end as u64);
            let ghost before = index@;
            match commend {
                Commend::Put { key, value } => {
                    let record = slice_subrange(data.as_slice(), pos, end);
                    match Commend::decode(record) {
                        Ok(Commend::Put { key: read_key, value: _ }) => {
                            if !(read_key == key) {
                                return Err(KvError::UnexpectedCommandType);
                            }
                        },
                        Ok(Commend::Remove { key: _ }) => {
                            return Err(KvError::UnexpectedCommandType);
                        },
                        Err(e) => {
                            return Err(e);
                        },
                    }
                    if let Some(old_pos) = index.insert(key, p) {
                        garbage = saturating_sum(garbage, old_pos.len);
                    }
                },
                Commend::Remove { key } => {
                    if let Some(old_pos) = index.remove(&key) {
                        garbage = saturating_sum(garbage, old_pos.len);
                    }
                    garbage = saturating_sum(garbage, p.len);
                },
            }
            pos = end;
            proof {
                index.lemma_live_not_negative();
            }
        }
    }

    /// Opens a store over the segments that a directory held, oldest first:
    /// replays them in turn to rebuild the index and the garbage counter,
    /// then adds an empty active segment one generation above the last (the
    /// first generation is 1).
    pub fn open(logs: Vec<Segment>) -> (r: Result<KvStore>)
        requires
            ascending(logs@),
            logs@.len() > 0 ==> logs@.last().gen < u64::MAX,
        ensures
            match replay_all(logs@, logs@.len() as int) {
                Ok((index, garbage, whole)) => {
                    &&& r is Ok
                    &&& r->Ok_0.wf()
                    &&& r->Ok_0.positions() == index
                    &&& r->Ok_0@.dom() == index.dom()
                    &&& whole ==> r->Ok_0.accounted()
                    &&& r->Ok_0.garbage() == garbage
                    &&& r->Ok_0.active_gen() == next_gen(logs@)
                    &&& r->Ok_0.log() == log_of(logs@).push(
                        (r->Ok_0.active_gen(), Seq::<u8>::empty()),
                    )
                },
                Err(f) => r is Err && is_fault(r->Err_0, f),
            },
    {
        let mut index = Index::new();
        let mut uncompaction: u64 = 0;
        let ghost mut whole = true;
        let n = logs.len();
        let mut i: usize = 0;
        assert(log_of(logs@.subrange(0, 0)) =~= Seq::<(u64, Seq<u8>)>::empty());
        while i < n
            invariant
                n == logs@.len(),
                i <= n,
                index.wf(),
                replay_all(logs@, i as int) == Ok::<(Map<Seq<char>, CommandPos>, u64, bool), Fault>(
                    (index@, uncompaction, whole),
                ),
                whole ==> index.live_bytes() <= total_bytes(log_of(logs@.subrange(0, i as int)))
                    && uncompaction == clip(
                    total_bytes(log_of(logs@.subrange(0, i as int))) - index.live_bytes(),
                ),
                forall|k: Seq<char>| #[trigger]
                    index@.dom().contains(k) ==> exists|s: int|
                        0 <= s < i && (#[trigger] logs@[s]).gen == index@[k].gen && index@[k].pos
                            + index@[k].len <= logs@[s].data@.len() && is_put_record(
                            logs@[s].data@.subrange(
                                index@[k].pos as int,
                                index@[k].pos + index@[k].len,
                            ),
                            k,
                        ),
            decreases n - i,
        {
            let ghost before = index@;
            let found = match KvStore::load(logs[i].gen, &logs[i].data, &mut index) {
                Ok(found) => found,
                Err(e) => {
                    assert(replay_all(logs@, i + 1) is Err);
                    proof {
                        lemma_fault_stays(logs@, i + 1, n as int);
                    }
                    return Err(e);
                },
            };
            uncompaction = saturating_sum(uncompaction, found);
            proof {
                let upto = log_of(logs@.subrange(0, i + 1));
                assert(upto.drop_last() =~= log_of(logs@.subrange(0, i as int)));
                assert(upto.last().1 == logs@[i as int].data@);
                whole = whole && replay(logs@[i as int].data@, logs@[i as int].gen, 0, before, 0)->Ok_0.2
                    == logs@[i as int].data@.len();
                assert forall|k: Seq<char>| #[trigger] index@.dom().contains(k) implies exists|s: int|
                    0 <= s < i + 1 && (#[trigger] logs@[s]).gen == index@[k].gen && index@[k].pos
                        + index@[k].len <= logs@[s].data@.len() && is_put_record(
                        logs@[s].data@.subrange(index@[k].pos as int, index@[k].pos + index@[k].len),
                        k,
                    ) by {
                    if before.dom().contains(k) && index@[k] == before[k] {
                        let s = choose|s: int|
                            0 <= s < i && (#[trigger] logs@[s]).gen == before[k].gen && before[k].pos
                                + before[k].len <= logs@[s].data@.len() && is_put_record(
                                logs@[s].data@.subrange(
                                    before[k].pos as int,
                                    before[k].pos + before[k].len,
                                ),
                                k,
                            );
                        assert(0 <= s < i + 1 && logs@[s].gen == index@[k].gen);
                    } else {
                        assert(logs@[i as int].gen == index@[k].gen);
                    }
                }
            }
            i += 1;
        }
        let current_gen: u64 = if n == 0 {
            1
        } else {
            logs[n - 1].gen + 1
        };
        let ghost given = logs@;
        let mut segments = logs;
        segments.push(Segment { gen: current_gen, data: Vec::new() });
        let store = KvStore { segments, index, current_gen, uncompaction };
        proof {
            let segs = store.segments@;
            assert forall|a: int, b: int| 0 <= a < b < segs.len() implies (#[trigger] segs[a]).gen < (
            #[trigger] segs[b]).gen by {
                if b < n {
                    assert(given[a].gen < given[b].gen);
                } else if a < n - 1 {
                    assert(given[a].gen < given[n - 1].gen);
                }
            }
            assert forall|k: Seq<char>| #[trigger] store.index@.dom().contains(k) implies in_log(
                segs,
                store.index@[k],
            ) && is_put_record(record_at(segs, store.index@[k]), k) by {
                let q = store.index@[k];
                let s = choose|s: int|
                    0 <= s < n && (#[trigger] given[s]).gen == q.gen && q.pos + q.len
                        <= given[s].data@.len() && is_put_record(
                        given[s].data@.subrange(q.pos as int, q.pos + q.len),
                        k,
                    );
                assert(segs[s] == given[s]);
                lemma_data_of(segs, s);
            }
            assert(store.log() =~= log_of(given).push((current_gen, Seq::<u8>::empty())));
            assert(store@.dom() =~= store.index@.dom());
            lemma_total_pushed_empty(log_of(given), current_gen);
            store.index.lemma_live_not_negative();
            assert(given.subrange(0, n as int) =~= given);
        }
        Ok(store)
    }

    /// Rewrites the live records, in the order of the index, into a fresh
    /// segment of the generation after the active one, opens an empty active
    /// segment one generation further, and drops every older segment. No
    /// key changes its record.
    pub fn compaction(&mut self) -> (r: Result<()>)
        requires
            old(self).wf(),
            old(self).active_gen() <= u64::MAX - 2,
        ensures
            r is Ok,
            was_compacted(*old(self), *final(self)),
    {
        let compaction_gen = self.current_gen + 1;
        let mut out: Vec<u8> = Vec::new();
        let mut fresh = Index::new();
        let n = self.index.len();
        let mut i: usize = 0;
        while i < n
            invariant
                *self == *old(self),
                self.wf(),
                n == self.index.spec_len(),
                i <= n,
                compaction_gen == self.current_gen + 1,
                fresh.wf(),
                fresh.spec_len() == i,
                forall|a: int| 0 <= a < i ==> #[trigger] fresh.spec_key(a) == self.index.spec_key(a),
                forall|a: int|
                    0 <= a < i ==> (#[trigger] fresh.spec_pos(a)).pos == packed_start(
                        fresh.key_order(),
                        fresh@,
                        a,
                    ),
                out@.len() == packed_start(fresh.key_order(), fresh@, i as int),
                forall|k: Seq<char>| #[trigger]
                    fresh@.dom().contains(k) <==> exists|j: int|
                        0 <= j < i && #[trigger] self.index.spec_key(j) == k,
                forall|k: Seq<char>| #[trigger]
                    fresh@.dom().contains(k) ==> self.index@.dom().contains(k) && fresh@[k].gen
                        == compaction_gen && fresh@[k].pos + fresh@[k].len <= out@.len()
                        && fresh@[k].len == self.index@[k].len && out@.subrange(
                        fresh@[k].pos as int,
                        fresh@[k].pos + fresh@[k].len,
                    ) == record_at(self.segments@, self.index@[k]),
            decreases n - i,
        {
            let key = self.index.key_at(i);
            let p = self.index.pos_at(i);
            proof {
                self.index.lemma_place(i as int);
                assert(self.index@.dom().contains(key@));
            }
            let s = match self.find_segment(p.gen) {
                Some(s) => s,
                None => {
                    assert(false);
                    return Ok(());
                },
            };
            proof {
                lemma_data_of(self.segments@, s as int);
            }
            let data = &self.segments[s].data;
            // the record lies within the segment, whose length fits a `usize`
            let size = data.len();
            assert(p.pos + p.len <= size);
            let ghost before = out@;
            let ghost fresh_before = fresh@;
            let ghost was = fresh;
            let start = out.len();
            let record = slice_subrange(data.as_slice(), p.pos as usize, (p.pos + p.len) as usize);
            append_bytes(&mut out, record);
            let place = CommandPos::new(compaction_gen, start as u64, out.len() as u64);
            proof {
                assert forall|a: int| 0 <= a < fresh.spec_len() implies crate::index::text_before(
                    #[trigger] fresh.spec_key(a),
                    key@,
                ) by {
                    self.index.lemma_ascending(a, i as int);
                }
            }
            fresh.insert(key.clone(), place);
            proof {
                assert forall|a: int| 0 <= a <= i implies packed_start(fresh.key_order(), fresh@, a)
                    == packed_start(was.key_order(), was@, a) by {
                    assert forall|b: int| 0 <= b < a implies fresh.key_order()[b] == was.key_order()[b]
                        && fresh@[fresh.key_order()[b]].len == was@[was.key_order()[b]].len by {
                        fresh.lemma_place(b);
                        was.lemma_place(b);
                    }
                    lemma_packed_same(fresh.key_order(), fresh@, was.key_order(), was@, a);
                }
                assert(packed_start(fresh.key_order(), fresh@, i as int) == packed_start(
                    was.key_order(),
                    was@,
                    i as int,
                ));
                assert(fresh.key_order()[i as int] == key@);
                assert forall|a: int| 0 <= a < i + 1 implies (#[trigger] fresh.spec_pos(a)).pos
                    == packed_start(fresh.key_order(), fresh@, a) by {
                    if a < i {
                        assert(fresh.spec_key(a) == was.spec_key(a));
                        assert(fresh.spec_pos(a) == was.spec_pos(a));
                    }
                }
                assert(out@.subrange(start as int, out@.len() as int) =~= record@);
                assert forall|k: Seq<char>| #[trigger] fresh@.dom().contains(k) implies exists|j: int|
                    0 <= j < i + 1 && #[trigger] self.index.spec_key(j) == k by {
                    if k == key@ {
                        assert(self.index.spec_key(i as int) == k);
                    } else {
                        assert(fresh_before.dom().contains(k));
                        let j = choose|j: int| 0 <= j < i && #[trigger] self.index.spec_key(j) == k;
                        assert(0 <= j < i + 1 && self.index.spec_key(j) == k);
                    }
                }
                assert forall|k: Seq<char>|
                    (exists|j: int| 0 <= j < i + 1 && #[trigger] self.index.spec_key(j) == k) implies #[trigger]
                    fresh@.dom().contains(k) by {
                    let j = choose|j: int| 0 <= j < i + 1 && #[trigger] self.index.spec_key(j) == k;
                    if j < i {
                        assert(fresh_before.dom().contains(k));
                    }
                }
                assert forall|k: Seq<char>| #[trigger] fresh@.dom().contains(k) implies self.index@.dom().contains(
                    k,
                ) && fresh@[k].gen == compaction_gen && fresh@[k].pos + fresh@[k].len <= out@.len()
                    && fresh@[k].len == self.index@[k].len && out@.subrange(
                    fresh@[k].pos as int,
                    fresh@[k].pos + fresh@[k].len,
                ) == record_at(self.segments@, self.index@[k]) by {
                    if k == key@ {
                    } else {
                        assert(fresh_before.dom().contains(k));
                        let q = fresh_before[k];
                        assert(out@.subrange(q.pos as int, q.pos + q.len) =~= before.subrange(
                            q.pos as int,
                            q.pos + q.len,
                        ));
                    }
                }
            }
            i += 1;
        }
        let ghost prev = *self;
        self.current_gen = self.current_gen + 2;
        let mut segments: Vec<Segment> = Vec::new();
        segments.push(Segment { gen: compaction_gen, data: out });
        segments.push(Segment { gen: self.current_gen, data: Vec::new() });
        self.segments = segments;
        self.index = fresh;
        self.uncompaction = 0;
        proof {
            let segs = self.segments@;
            assert(ascending(segs));
            lemma_data_of(segs, 0);
            assert forall|k: Seq<char>| prev.index@.dom().contains(k) implies #[trigger]
                self.index@.dom().contains(k) by {
                let j = prev.index.lemma_key_has_place(k);
                assert(prev.index.spec_key(j) == k);
            }
            assert forall|k: Seq<char>| #[trigger] self.index@.dom().contains(k) implies prev.index@.dom().contains(
                k,
            ) && record_at(segs, self.index@[k]) == record_at(prev.segments@, prev.index@[k])
                && in_log(segs, self.index@[k]) by {
                let j = choose|j: int| 0 <= j < n && #[trigger] prev.index.spec_key(j) == k;
                prev.index.lemma_place(j);
            }
            assert(self.records() =~= prev.records());
            assert(self@ =~= prev@);
            assert(self.log()[1].1 =~= Seq::<u8>::empty());
            assert(self.key_order() =~= prev.key_order());
            self.index.lemma_live_is_packed();
            self.index.lemma_live_not_negative();
            let first = seq![self.log()[0]];
            assert(self.log() =~= first.push((self.current_gen, Seq::<u8>::empty())));
            lemma_total_pushed_empty(first, self.current_gen);
            lemma_total_single(first);
            assert forall|a: int| 0 <= a < self.key_order().len() implies self.positions()[#[trigger] self.key_order()[a]].pos
                == packed_start(self.key_order(), self.positions(), a) by {
                self.index.lemma_place(a);
            }
        }
        Ok(())
    }
}

} // verus!
