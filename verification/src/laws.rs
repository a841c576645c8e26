//! What holds of the store's operations taken together.

use vstd::prelude::*;
use crate::store::{
    found, garbage_after_remove, was_compacted, was_removed, was_set, KvStore,
    COMPACTION_THRESHOLD,
};

verus! {

/// A lookup after a `set` of the same key gives the value that was set.
pub proof fn law_round_trip(
    before: KvStore,
    after: KvStore,
    key: Seq<char>,
    value: Seq<char>,
    got: Option<String>,
)
    requires
        was_set(before, after, key, value),
        found(after, key, got),
    ensures
        got is Some,
        got->Some_0@ == value,
{
}

/// After two `set`s of one key a lookup gives the second value.
pub proof fn law_overwrite(
    start: KvStore,
    once: KvStore,
    twice: KvStore,
    key: Seq<char>,
    first: Seq<char>,
    second: Seq<char>,
    got: Option<String>,
)
    requires
        was_set(start, once, key, first),
        was_set(once, twice, key, second),
        found(twice, key, got),
    ensures
        got is Some,
        got->Some_0@ == second,
{
}

/// A `set` changes the value of no other key.
pub proof fn law_set_keeps_others(
    before: KvStore,
    after: KvStore,
    key: Seq<char>,
    value: Seq<char>,
    other: Seq<char>,
)
    requires
        was_set(before, after, key, value),
        other != key,
    ensures
        after@.dom().contains(other) == before@.dom().contains(other),
        after@.dom().contains(other) ==> after@[other] == before@[other],
{
}

/// A lookup after a `set` and a `remove` of the same key gives nothing.
pub proof fn law_remove(
    start: KvStore,
    set: KvStore,
    removed: KvStore,
    key: Seq<char>,
    value: Seq<char>,
    got: Option<String>,
)
    requires
        was_set(start, set, key, value),
        was_removed(set, removed, key),
        found(removed, key, got),
    ensures
        got is None,
{
}

/// Compaction changes what no lookup gives, and where more than two
/// segments stood before it, fewer stand after it.
pub proof fn law_compaction_transparent(
    before: KvStore,
    after: KvStore,
    key: Seq<char>,
    got_before: Option<String>,
    got_after: Option<String>,
)
    requires
        was_compacted(before, after),
        found(before, key, got_before),
        found(after, key, got_after),
    ensures
        got_before is Some <==> got_after is Some,
        got_before is Some ==> got_before->Some_0@ == got_after->Some_0@,
        before.log().len() > 2 ==> after.log().len() < before.log().len(),
{
}

/// A `set` that runs compaction gives the same lookups as one that does not.
pub proof fn law_set_through_compaction(
    before: KvStore,
    after: KvStore,
    key: Seq<char>,
    value: Seq<char>,
    other: Seq<char>,
    got: Option<String>,
)
    requires
        was_set(before, after, key, value),
        found(after, other, got),
    ensures
        other == key ==> got is Some && got->Some_0@ == value,
        other != key ==> found(before, other, got),
{
}

/// Reopening gives back every value wherever the replay of the log gives
/// back the index: a store over the old segments and a new, empty active
/// one, with the same positions, answers every lookup as the old store did.
pub proof fn law_reopen_with_same_index(
    before: KvStore,
    reopened: KvStore,
    gen: u64,
    key: Seq<char>,
    got_before: Option<String>,
    got_after: Option<String>,
)
    requires
        before.wf(),
        reopened.wf(),
        reopened.positions() == before.positions(),
        reopened.log() == before.log().push((gen, Seq::<u8>::empty())),
        found(before, key, got_before),
        found(reopened, key, got_after),
    ensures
        got_before is Some <==> got_after is Some,
        got_before is Some ==> got_before->Some_0@ == got_after->Some_0@,
{
    before.lemma_reopened_same_index(reopened, gen);
}

/// The books stay balanced: where the live records and the garbage counter
/// together made up all bytes of the log before a `set` or a `remove`, they
/// do so after it; after a compaction they always do.
pub proof fn law_accounting(
    before: KvStore,
    after: KvStore,
    key: Seq<char>,
    value: Seq<char>,
)
    requires
        was_set(before, after, key, value) && before.accounted() || was_removed(before, after, key)
            && before.accounted() || was_compacted(before, after),
    ensures
        after.accounted(),
{
}

/// A `remove` that runs compaction ends with no garbage, two generations
/// further, and with no segment older than the compacted one.
pub proof fn law_remove_compacts(before: KvStore, after: KvStore, key: Seq<char>)
    requires
        was_removed(before, after, key),
        garbage_after_remove(before, key) > COMPACTION_THRESHOLD,
    ensures
        after.garbage() == 0,
        after.active_gen() == before.active_gen() + 2,
        after.log().len() == 2,
        after.log()[0].0 == before.active_gen() + 1,
{
}

/// A `remove` leaves the value of every other key as it was.
pub proof fn law_remove_keeps_others(
    before: KvStore,
    after: KvStore,
    key: Seq<char>,
    other: Seq<char>,
)
    requires
        was_removed(before, after, key),
        other != key,
    ensures
        after@.dom().contains(other) == before@.dom().contains(other),
        after@.dom().contains(other) ==> after@[other] == before@[other],
{
}

} // verus!
