//! The in-memory index: where the latest command of each key lies.

use vstd::prelude::*;

verus! {

/// The byte range of one record within one segment.
#[derive(Clone, Copy, Debug, PartialEq, Eq, Structural)]
pub struct CommandPos {
    pub gen: u64,
    pub pos: u64,
    pub len: u64,
}

impl CommandPos {
    /// The position of the record that fills `start..end` of segment `gen`.
    pub fn new(gen: u64, start: u64, end: u64) -> (p: CommandPos)
        requires
            start <= end,
        ensures
            p == (CommandPos { gen, pos: start, len: (end - start) as u64 }),
    {
        CommandPos { gen, pos: start, len: end - start }
    }
}

/// One key with the position of its record.
#[derive(Debug)]
pub struct IndexEntry {
    pub key: String,
    pub pos: CommandPos,
}

/// A map from keys to positions, held as a list in ascending order of the
/// keys.
#[derive(Debug)]
pub struct Index {
    entries: Vec<IndexEntry>,
}

/// Some entry of the list has this key.
pub open spec fn holds_key(entries: Seq<IndexEntry>, k: Seq<char>) -> bool {
    exists|i: int| 0 <= i < entries.len() && (#[trigger] entries[i]).key@ == k
}

/// A place of the list that has this key.
pub open spec fn slot_of(entries: Seq<IndexEntry>, k: Seq<char>) -> int {
    choose|i: int| 0 <= i < entries.len() && (#[trigger] entries[i]).key@ == k
}

/// No key occurs twice in the list.
pub open spec fn distinct_keys(entries: Seq<IndexEntry>) -> bool {
    forall|i: int, j: int|
        0 <= i < j < entries.len() ==> (#[trigger] entries[i]).key@ != (#[trigger] entries[j]).key@
}

/// The map that a list of entries stands for.
pub open spec fn as_map(entries: Seq<IndexEntry>) -> Map<Seq<char>, CommandPos> {
    Map::new(|k: Seq<char>| holds_key(entries, k), |k: Seq<char>| entries[slot_of(entries, k)].pos)
}

/// In a list without repeated keys, each entry is the one its key leads to.
pub proof fn lemma_entry_in_map(entries: Seq<IndexEntry>, i: int)
    requires
        distinct_keys(entries),
        0 <= i < entries.len(),
    ensures
        as_map(entries).dom().contains(entries[i].key@),
        as_map(entries)[entries[i].key@] == entries[i].pos,
        slot_of(entries, entries[i].key@) == i,
{
    let k = entries[i].key@;
    assert(holds_key(entries, k));
    let j = slot_of(entries, k);
    assert(0 <= j < entries.len() && entries[j].key@ == k);
    if j < i {
        assert(entries[j].key@ != entries[i].key@);
    } else if i < j {
        assert(entries[i].key@ != entries[j].key@);
    }
}

/// The order of keys: by the first character in which two texts differ; a
/// text comes after each of its proper prefixes.
pub open spec fn text_before(a: Seq<char>, b: Seq<char>) -> bool
    decreases a.len(),
{
    if b.len() == 0 {
        false
    } else if a.len() == 0 {
        true
    } else if a[0] != b[0] {
        (a[0] as u32) < (b[0] as u32)
    } else {
        text_before(a.skip(1), b.skip(1))
    }
}

/// Compares two strings with `<`, which std defines on `str` as the
/// lexicographic order of their bytes; for UTF-8 that is the order of their
/// characters.
#[verifier::external_body]
fn key_before(a: &str, b: &str) -> (before: bool)
    ensures
        before == text_before(a@, b@),
{
    a < b
}

/// No text orders before itself.
pub proof fn lemma_before_irreflexive(a: Seq<char>)
    ensures
        !text_before(a, a),
    decreases a.len(),
{
    if a.len() > 0 {
        lemma_before_irreflexive(a.skip(1));
    }
}

/// Of two different texts one orders before the other.
pub proof fn lemma_before_total(a: Seq<char>, b: Seq<char>)
    requires
        a != b,
    ensures
        text_before(a, b) || text_before(b, a),
    decreases a.len(),
{
    if a.len() > 0 && b.len() > 0 && a[0] == b[0] {
        if a.skip(1) == b.skip(1) {
            assert(a =~= seq![a[0]] + a.skip(1));
            assert(b =~= seq![b[0]] + b.skip(1));
        }
        lemma_before_total(a.skip(1), b.skip(1));
    } else if a.len() == 0 && b.len() == 0 {
        assert(a =~= b);
    } else if a.len() > 0 && b.len() > 0 {
        assert(a[0] != b[0]);
        vstd::utf8::char_u32_cast(a[0], a[0] as u32);
        vstd::utf8::char_u32_cast(b[0], b[0] as u32);
    }
}

/// The order of texts is transitive.
pub proof fn lemma_before_transitive(a: Seq<char>, b: Seq<char>, c: Seq<char>)
    requires
        text_before(a, b),
        text_before(b, c),
    ensures
        text_before(a, c),
    decreases a.len(),
{
    if a.len() > 0 && a[0] == b[0] && b[0] == c[0] {
        lemma_before_transitive(a.skip(1), b.skip(1), c.skip(1));
    }
}

/// The keys stand in ascending order.
pub open spec fn ascending_keys(entries: Seq<IndexEntry>) -> bool {
    forall|i: int, j: int|
        0 <= i < j < entries.len() ==> text_before(
            (#[trigger] entries[i]).key@,
            (#[trigger] entries[j]).key@,
        )
}

/// In an ascending list no key occurs twice.
pub proof fn lemma_ascending_distinct(entries: Seq<IndexEntry>)
    requires
        ascending_keys(entries),
    ensures
        distinct_keys(entries),
{
    assert forall|i: int, j: int| 0 <= i < j < entries.len() implies (#[trigger] entries[i]).key@ != (
    #[trigger] entries[j]).key@ by {
        lemma_before_irreflexive(entries[i].key@);
    }
}

/// The offset at which the record of the `i`-th key starts when the records
/// of the keys before it lie end to end from offset 0.
pub open spec fn packed_start(
    order: Seq<Seq<char>>,
    positions: Map<Seq<char>, CommandPos>,
    i: int,
) -> int
    decreases i,
{
    if i <= 0 {
        0
    } else {
        packed_start(order, positions, i - 1) + positions[order[i - 1]].len
    }
}

/// The offsets depend only on the keys before and the lengths of their
/// records.
pub proof fn lemma_packed_same(
    o1: Seq<Seq<char>>,
    m1: Map<Seq<char>, CommandPos>,
    o2: Seq<Seq<char>>,
    m2: Map<Seq<char>, CommandPos>,
    n: int,
)
    requires
        forall|b: int| 0 <= b < n ==> o1[b] == o2[b] && m1[o1[b]].len == m2[o2[b]].len,
    ensures
        packed_start(o1, m1, n) == packed_start(o2, m2, n),
    decreases n,
{
    if n > 0 {
        lemma_packed_same(o1, m1, o2, m2, n - 1);
    }
}

/// The lengths of the first `n` records of a list, added up.
pub open spec fn sum_upto(entries: Seq<IndexEntry>, n: int) -> int
    decreases n,
{
    if n <= 0 {
        0
    } else {
        sum_upto(entries, n - 1) + entries[n - 1].pos.len
    }
}

/// A sum of lengths is not negative.
pub proof fn lemma_sum_not_negative(entries: Seq<IndexEntry>, n: int)
    ensures
        sum_upto(entries, n) >= 0,
    decreases n,
{
    if n > 0 {
        lemma_sum_not_negative(entries, n - 1);
    }
}

/// Replacing the entry at place `i` changes the sum by the difference of
/// the two lengths.
pub proof fn lemma_sum_update(entries: Seq<IndexEntry>, i: int, e: IndexEntry, n: int)
    requires
        0 <= i < entries.len(),
        0 <= n <= entries.len(),
    ensures
        sum_upto(entries.update(i, e), n) == if n <= i {
            sum_upto(entries, n)
        } else {
            sum_upto(entries, n) - entries[i].pos.len + e.pos.len
        },
    decreases n,
{
    if n > 0 {
        lemma_sum_update(entries, i, e, n - 1);
    }
}

/// Inserting an entry at place `j` adds its length to the sums beyond it.
pub proof fn lemma_sum_insert(entries: Seq<IndexEntry>, j: int, e: IndexEntry, n: int)
    requires
        0 <= j <= entries.len(),
        0 <= n <= entries.len() + 1,
    ensures
        sum_upto(entries.insert(j, e), n) == if n <= j {
            sum_upto(entries, n)
        } else {
            sum_upto(entries, n - 1) + e.pos.len
        },
    decreases n,
{
    if n > 0 {
        lemma_sum_insert(entries, j, e, n - 1);
        let after = entries.insert(j, e);
        if n - 1 < j {
            assert(after[n - 1] == entries[n - 1]);
        } else if n - 1 == j {
            assert(after[n - 1] == e);
        } else {
            assert(after[n - 1] == entries[n - 2]);
        }
    }
}

/// Removing the entry at place `i` takes its length off the sums beyond it.
pub proof fn lemma_sum_remove(entries: Seq<IndexEntry>, i: int, n: int)
    requires
        0 <= i < entries.len(),
        0 <= n <= entries.len() - 1,
    ensures
        sum_upto(entries.remove(i), n) == if n <= i {
            sum_upto(entries, n)
        } else {
            sum_upto(entries, n + 1) - entries[i].pos.len
        },
    decreases n,
{
    if n > 0 {
        lemma_sum_remove(entries, i, n - 1);
        let after = entries.remove(i);
        if n - 1 < i {
            assert(after[n - 1] == entries[n - 1]);
        } else {
            assert(after[n - 1] == entries[n]);
        }
    }
}

/// The length of the record that a key's entry covers; 0 without an entry.
pub open spec fn superseded(positions: Map<Seq<char>, CommandPos>, key: Seq<char>) -> u64 {
    if positions.dom().contains(key) {
        positions[key].len
    } else {
        0
    }
}

impl View for Index {
    type V = Map<Seq<char>, CommandPos>;

    closed spec fn view(&self) -> Map<Seq<char>, CommandPos> {
        as_map(self.entries@)
    }
}

impl Index {
    /// The keys ascend, so no key occurs twice.
    pub closed spec fn wf(&self) -> bool {
        ascending_keys(self.entries@) && distinct_keys(self.entries@)
    }

    /// The keys at the places ascend.
    pub proof fn lemma_ascending(&self, i: int, j: int)
        requires
            self.wf(),
            0 <= i < j < self.spec_len(),
        ensures
            text_before(self.spec_key(i), self.spec_key(j)),
    {
    }

    /// The number of entries.
    pub closed spec fn spec_len(&self) -> nat {
        self.entries@.len()
    }

    /// The key of the entry at place `i`.
    pub closed spec fn spec_key(&self, i: int) -> Seq<char> {
        self.entries@[i].key@
    }

    /// The position held by the entry at place `i`.
    pub closed spec fn spec_pos(&self, i: int) -> CommandPos {
        self.entries@[i].pos
    }

    /// The lengths of all indexed records, added up.
    pub closed spec fn live_bytes(&self) -> int {
        sum_upto(self.entries@, self.entries@.len() as int)
    }

    /// The live bytes are not negative.
    pub proof fn lemma_live_not_negative(&self)
        ensures
            self.live_bytes() >= 0,
    {
        lemma_sum_not_negative(self.entries@, self.entries@.len() as int);
    }

    /// The live bytes are what the records take when they lie end to end.
    pub proof fn lemma_live_is_packed(&self)
        requires
            self.wf(),
        ensures
            self.live_bytes() == packed_start(self.key_order(), self@, self.spec_len() as int),
    {
        self.lemma_sum_is_packed(self.spec_len() as int);
    }

    proof fn lemma_sum_is_packed(&self, n: int)
        requires
            self.wf(),
            0 <= n <= self.spec_len(),
        ensures
            sum_upto(self.entries@, n) == packed_start(self.key_order(), self@, n),
        decreases n,
    {
        if n > 0 {
            self.lemma_sum_is_packed(n - 1);
            lemma_entry_in_map(self.entries@, n - 1);
        }
    }

    /// The keys, in the order of their places.
    pub open spec fn key_order(&self) -> Seq<Seq<char>> {
        Seq::new(self.spec_len(), |i: int| self.spec_key(i))
    }

    /// Every place holds a key of the map with its position, and no two
    /// places hold the same key.
    pub proof fn lemma_place(&self, i: int)
        requires
            self.wf(),
            0 <= i < self.spec_len(),
        ensures
            self@.dom().contains(self.spec_key(i)),
            self@[self.spec_key(i)] == self.spec_pos(i),
            forall|j: int| 0 <= j < self.spec_len() && j != i ==> self.spec_key(j) != self.spec_key(i),
    {
        lemma_entry_in_map(self.entries@, i);
        assert forall|j: int| 0 <= j < self.spec_len() && j != i implies self.spec_key(j)
            != self.spec_key(i) by {
            lemma_entry_in_map(self.entries@, j);
        }
    }

    /// Every key of the map is held at some place.
    pub proof fn lemma_key_has_place(&self, k: Seq<char>) -> (i: int)
        requires
            self@.dom().contains(k),
        ensures
            0 <= i < self.spec_len(),
            self.spec_key(i) == k,
    {
        slot_of(self.entries@, k)
    }

    /// The empty index.
    pub fn new() -> (index: Index)
        ensures
            index.wf(),
            index@ == Map::<Seq<char>, CommandPos>::empty(),
            index.spec_len() == 0,
            index.live_bytes() == 0,
    {
        let index = Index { entries: Vec::new() };
        assert(index@ =~= Map::<Seq<char>, CommandPos>::empty());
        index
    }

    /// The number of keys.
    pub fn len(&self) -> (n: usize)
        ensures
            n == self.spec_len(),
    {
        self.entries.len()
    }

    /// The key at place `i`.
    pub fn key_at(&self, i: usize) -> (key: &String)
        requires
            i < self.spec_len(),
        ensures
            key@ == self.spec_key(i as int),
    {
        &self.entries[i].key
    }

    /// The position at place `i`.
    pub fn pos_at(&self, i: usize) -> (pos: CommandPos)
        requires
            i < self.spec_len(),
        ensures
            pos == self.spec_pos(i as int),
    {
        self.entries[i].pos
    }

    fn find(&self, key: &String) -> (place: Option<usize>)
        ensures
            match place {
                Some(i) => i < self.entries@.len() && self.entries@[i as int].key@ == key@,
                None => !holds_key(self.entries@, key@),
            },
    {
        let mut i: usize = 0;
        while i < self.entries.len()
            invariant
                i <= self.entries@.len(),
                forall|j: int| 0 <= j < i ==> (#[trigger] self.entries@[j]).key@ != key@,
            decreases self.entries@.len() - i,
        {
            if self.entries[i].key == *key {
                return Some(i);
            }
            i += 1;
        }
        None
    }

    /// The first place whose key does not order before `key`.
    fn place_for(&self, key: &String) -> (place: usize)
        ensures
            place <= self.entries@.len(),
            forall|a: int| 0 <= a < place ==> text_before((#[trigger] self.entries@[a]).key@, key@),
            place < self.entries@.len() ==> !text_before(self.entries@[place as int].key@, key@),
    {
        let mut j: usize = 0;
        while j < self.entries.len() && key_before(self.entries[j].key.as_str(), key.as_str())
            invariant
                j <= self.entries@.len(),
                forall|a: int| 0 <= a < j ==> text_before((#[trigger] self.entries@[a]).key@, key@),
            decreases self.entries@.len() - j,
        {
            j += 1;
        }
        j
    }

    /// The position of `key`, if the index holds it.
    pub fn get(&self, key: &String) -> (pos: Option<CommandPos>)
        requires
            self.wf(),
        ensures
            pos == (if self@.dom().contains(key@) {
                Some(self@[key@])
            } else {
                None
            }),
    {
        match self.find(key) {
            Some(i) => {
                proof {
                    lemma_entry_in_map(self.entries@, i as int);
                }
                Some(self.entries[i].pos)
            },
            None => None,
        }
    }

    /// Maps `key` to `pos` and returns the position it had before.
    pub fn insert(&mut self, key: String, pos: CommandPos) -> (before: Option<CommandPos>)
        requires
            old(self).wf(),
        ensures
            final(self).wf(),
            final(self)@ == old(self)@.insert(key@, pos),
            before == (if old(self)@.dom().contains(key@) {
                Some(old(self)@[key@])
            } else {
                None
            }),
            final(self).live_bytes() == old(self).live_bytes() - superseded(old(self)@, key@) + pos.len,
            (forall|a: int| 0 <= a < old(self).spec_len() ==> text_before(#[trigger] old(self).spec_key(a), key@))
                ==> {
                &&& final(self).spec_len() == old(self).spec_len() + 1
                &&& final(self).spec_key(old(self).spec_len() as int) == key@
                &&& final(self).spec_pos(old(self).spec_len() as int) == pos
                &&& forall|a: int|
                    0 <= a < old(self).spec_len() ==> #[trigger] final(self).spec_key(a) == old(
                        self,
                    ).spec_key(a) && final(self).spec_pos(a) == old(self).spec_pos(a)
            },
    {
        let ghost k = key@;
        let ghost prev = self.entries@;
        match self.find(&key) {
            Some(i) => {
                let before = self.entries[i].pos;
                self.entries.set(i, IndexEntry { key, pos });
                proof {
                    let next = self.entries@;
                    lemma_entry_in_map(prev, i as int);
                    lemma_before_irreflexive(k);
                    assert(old(self).spec_key(i as int) == k);
                    lemma_sum_update(prev, i as int, next[i as int], prev.len() as int);
                    assert(next =~= prev.update(i as int, next[i as int]));
                    assert forall|a: int, b: int| 0 <= a < b < next.len() implies text_before(
                        (#[trigger] next[a]).key@,
                        (#[trigger] next[b]).key@,
                    ) by {
                        assert(text_before(prev[a].key@, prev[b].key@));
                    }
                    lemma_ascending_distinct(next);
                    assert forall|q: Seq<char>| #[trigger]
                        as_map(next).dom().contains(q) == as_map(prev).insert(k, pos).dom().contains(
                            q,
                        ) by {
                        if holds_key(next, q) {
                            let j = slot_of(next, q);
                            assert(prev[j].key@ == q);
                        }
                        if holds_key(prev, q) {
                            let j = slot_of(prev, q);
                            assert(next[j].key@ == q);
                        }
                        if q == k {
                            assert(next[i as int].key@ == q);
                        }
                    }
                    assert forall|q: Seq<char>| #[trigger] as_map(next).dom().contains(q) implies as_map(
                        next,
                    )[q] == as_map(prev).insert(k, pos)[q] by {
                        let j = slot_of(next, q);
                        lemma_entry_in_map(next, j);
                        lemma_entry_in_map(prev, j);
                    }
                    assert(as_map(next) =~= as_map(prev).insert(k, pos));
                }
                Some(before)
            },
            None => {
                let j = self.place_for(&key);
                self.entries.insert(j, IndexEntry { key, pos });
                proof {
                    let next = self.entries@;
                    assert(next[j as int].key@ == k);
                    lemma_sum_insert(prev, j as int, next[j as int], next.len() as int);
                    assert(next =~= prev.insert(j as int, next[j as int]));
                    assert forall|a: int| 0 <= a < next.len() && a != j implies #[trigger] next[a]
                        == prev[if a < j {
                        a
                    } else {
                        a - 1
                    }] by {}
                    assert forall|a: int, b: int| 0 <= a < b < next.len() implies text_before(
                        (#[trigger] next[a]).key@,
                        (#[trigger] next[b]).key@,
                    ) by {
                        let pa = if a < j { a } else { a - 1 };
                        let pb = if b < j { b } else { b - 1 };
                        if a == j {
                            assert(prev[j as int].key@ != k);
                            lemma_before_total(prev[j as int].key@, k);
                            if pb > j {
                                assert(text_before(prev[j as int].key@, prev[pb].key@));
                                lemma_before_transitive(k, prev[j as int].key@, prev[pb].key@);
                            }
                        } else if b == j {
                            assert(text_before(prev[pa].key@, k));
                        } else {
                            assert(text_before(prev[pa].key@, prev[pb].key@));
                        }
                    }
                    lemma_ascending_distinct(next);
                    if forall|a: int| 0 <= a < prev.len() ==> text_before(#[trigger] old(self).spec_key(a), k) {
                        if j < prev.len() {
                            assert(text_before(old(self).spec_key(j as int), k));
                        }
                    }
                    assert forall|q: Seq<char>| #[trigger]
                        as_map(next).dom().contains(q) == as_map(prev).insert(k, pos).dom().contains(
                            q,
                        ) by {
                        if holds_key(next, q) {
                            let a = slot_of(next, q);
                            if a != j {
                                let pa = if a < j { a } else { a - 1 };
                                assert(prev[pa].key@ == q);
                            }
                        }
                        if holds_key(prev, q) {
                            let a = slot_of(prev, q);
                            let na = if a < j { a } else { a + 1 };
                            assert(next[na].key@ == q);
                        }
                        if q == k {
                            assert(next[j as int].key@ == q);
                        }
                    }
                    assert forall|q: Seq<char>| #[trigger] as_map(next).dom().contains(q) implies as_map(
                        next,
                    )[q] == as_map(prev).insert(k, pos)[q] by {
                        let a = slot_of(next, q);
                        lemma_entry_in_map(next, a);
                        if a != j {
                            let pa = if a < j { a } else { a - 1 };
                            lemma_entry_in_map(prev, pa);
                        }
                    }
                    assert(as_map(next) =~= as_map(prev).insert(k, pos));
                }
                None
            },
        }
    }

    /// Drops `key` and returns the position it had.
    pub fn remove(&mut self, key: &String) -> (before: Option<CommandPos>)
        requires
            old(self).wf(),
        ensures
            final(self).wf(),
            final(self)@ == old(self)@.remove(key@),
            before == (if old(self)@.dom().contains(key@) {
                Some(old(self)@[key@])
            } else {
                None
            }),
            final(self).live_bytes() == old(self).live_bytes() - superseded(old(self)@, key@),
    {
        let ghost k = key@;
        let ghost prev = self.entries@;
        match self.find(key) {
            Some(i) => {
                let gone = self.entries.remove(i);
                proof {
                    let next = self.entries@;
                    lemma_entry_in_map(prev, i as int);
                    lemma_sum_remove(prev, i as int, next.len() as int);
                    assert(next =~= prev.remove(i as int));
                    assert forall|a: int| 0 <= a < next.len() implies #[trigger] next[a] == prev[if a
                        < i {
                        a
                    } else {
                        a + 1
                    }] by {}
                    assert forall|a: int, b: int| 0 <= a < b < next.len() implies text_before(
                        (#[trigger] next[a]).key@,
                        (#[trigger] next[b]).key@,
                    ) by {
                        let pa = if a < i { a } else { a + 1 };
                        let pb = if b < i { b } else { b + 1 };
                        assert(text_before(prev[pa].key@, prev[pb].key@));
                    }
                    lemma_ascending_distinct(next);
                    assert forall|q: Seq<char>| #[trigger]
                        as_map(next).dom().contains(q) == as_map(prev).remove(k).dom().contains(
                            q,
                        ) by {
                        if holds_key(next, q) {
                            let j = slot_of(next, q);
                            let pj = if j < i { j } else { j + 1 };
                            assert(prev[pj].key@ == q);
                            lemma_entry_in_map(prev, pj);
                        }
                        if holds_key(prev, q) && q != k {
                            let j = slot_of(prev, q);
                            let nj = if j < i { j } else { j - 1 };
                            assert(next[nj].key@ == q);
                        }
                    }
                    assert forall|q: Seq<char>| #[trigger] as_map(next).dom().contains(q) implies as_map(
                        next,
                    )[q] == as_map(prev).remove(k)[q] by {
                        let j = slot_of(next, q);
                        let pj = if j < i { j } else { j + 1 };
                        lemma_entry_in_map(next, j);
                        lemma_entry_in_map(prev, pj);
                    }
                    assert(as_map(next) =~= as_map(prev).remove(k));
                }
                Some(gone.pos)
            },
            None => {
                proof {
                    assert(as_map(prev) =~= as_map(prev).remove(k));
                }
                None
            },
        }
    }
}

} // verus!
