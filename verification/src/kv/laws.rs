//! What holds of the store as a whole, stated over the models that the
//! contracts of the operations use, and proved.
use vstd::prelude::*;
use super::entry::{
    spec_encodable, spec_encode, spec_record_size, Decoded, State, ENTRY_HEAD_LEN,
};
use super::index::{lemma_entry_in_map, lemma_map_has_entry};
use super::log::{
    lemma_record_appended, lemma_record_stays, lemma_replay_appended, record_at, recovered,
    replay,
};
use super::storage::{spec_get, spec_remove, spec_set, spec_stale_after_set, BitcaskStorage};

verus! {

/// The store after the values of `values` were set for `key`, one after the
/// other.
pub open spec fn spec_set_all(
    store: Map<Seq<char>, Seq<char>>,
    key: Seq<char>,
    values: Seq<Seq<char>>,
) -> Map<Seq<char>, Seq<char>>
    decreases values.len(),
{
    if values.len() == 0 {
        store
    } else {
        spec_set(spec_set_all(store, key, values.drop_last()), key, values.last())
    }
}

/// The last write wins: after any number of values were set for a key, one
/// after the other, a lookup of the key gives the last of them.
pub proof fn lemma_last_write_wins(
    store: Map<Seq<char>, Seq<char>>,
    key: Seq<char>,
    values: Seq<Seq<char>>,
)
    requires
        values.len() > 0,
    ensures
        spec_get(spec_set_all(store, key, values), key) == Some(values.last()),
{
}

/// A removed key is gone, and comes back when it is set again: after the
/// removal of a live key a lookup finds nothing, and after a later `set` it
/// finds the value that was set.
pub proof fn lemma_tombstone_hides(
    store: Map<Seq<char>, Seq<char>>,
    key: Seq<char>,
    value: Seq<char>,
)
    requires
        store.contains_key(key),
    ensures
        spec_get(spec_remove(store, key), key) is None,
        spec_get(spec_set(spec_remove(store, key), key, value), key) == Some(value),
{
}

/// Neither a `set` nor a removal touches another key.
pub proof fn lemma_other_keys_stay(
    store: Map<Seq<char>, Seq<char>>,
    key: Seq<char>,
    value: Seq<char>,
    other: Seq<char>,
)
    requires
        other != key,
    ensures
        spec_get(spec_set(store, key, value), other) == spec_get(store, other),
        spec_get(spec_remove(store, key), other) == spec_get(store, other),
{
}

/// Recovery: a store that is opened on the data file of an engine holds
/// what the engine held, each key with the same value and no other key.
pub proof fn lemma_recovery(storage: BitcaskStorage)
    requires
        storage.wf(),
    ensures
        recovered(storage.log_view()) == Ok::<Map<Seq<char>, Seq<char>>, Decoded>(storage@),
{
}

/// Overwriting or removing a live key makes the whole record of the key
/// stale: its header, its key and the value that it held.
pub proof fn lemma_live_record_goes_stale(storage: BitcaskStorage, key: Seq<char>)
    requires
        storage.wf(),
        storage@.contains_key(key),
    ensures
        storage.spec_superseded(key) == spec_record_size(key, storage@[key]),
        storage.spec_superseded(key) >= ENTRY_HEAD_LEN,
{
    let entries = storage.index_entries();
    let i = lemma_map_has_entry(entries, key);
    lemma_entry_in_map(entries, i);
}

/// The count of stale bytes under `set`: below the threshold it never goes
/// down, and it goes up with every overwrite; a compaction runs exactly when
/// the count reaches the threshold, and leaves no byte stale.
pub proof fn lemma_stale_count(stale: int, superseded: int, threshold: int)
    requires
        0 <= stale,
        0 <= superseded,
    ensures
        stale + superseded < threshold ==> spec_stale_after_set(stale, superseded, threshold)
            == stale + superseded,
        stale + superseded < threshold && superseded > 0 ==> spec_stale_after_set(
            stale,
            superseded,
            threshold,
        ) > stale,
        stale + superseded >= threshold ==> spec_stale_after_set(stale, superseded, threshold)
            == 0,
{
}

/// One record of a log, as the model sees it.
pub struct Record {
    pub state: State,
    pub key: Seq<char>,
    pub value: Seq<char>,
}

/// The log that holds the records, one directly after the other.
pub open spec fn spec_log_of(records: Seq<Record>) -> Seq<u8>
    decreases records.len(),
{
    if records.len() == 0 {
        Seq::empty()
    } else {
        spec_log_of(records.drop_last()) + spec_encode(
            records.last().state,
            records.last().key,
            records.last().value,
        )
    }
}

/// The offset at which record `i` starts in the log of the records.
pub open spec fn spec_start(records: Seq<Record>, i: int) -> int {
    spec_log_of(records.take(i)).len() as int
}

/// Whether record `i` is the last record of `key`.
pub open spec fn is_last_of(records: Seq<Record>, key: Seq<char>, i: int) -> bool {
    &&& 0 <= i < records.len()
    &&& records[i].key == key
    &&& forall|j: int| i < j < records.len() ==> (#[trigger] records[j]).key != key
}

/// Whether `key` has a record at all.
pub open spec fn occurs(records: Seq<Record>, key: Seq<char>) -> bool {
    exists|i: int| 0 <= i < records.len() && (#[trigger] records[i]).key == key
}

/// Whether each record can be written, and the log of them all has a length
/// that an offset can hold.
pub open spec fn writable(records: Seq<Record>) -> bool {
    &&& forall|i: int|
        0 <= i < records.len() ==> spec_encodable(
            (#[trigger] records[i]).key,
            records[i].value,
        )
    &&& spec_log_of(records).len() <= u64::MAX
}

/// The last record of a key decides. A log of records laid end to end can be
/// replayed, and each record is found at its start. The replay points a key
/// to the start of its last record where that record is a `PUT`, and the
/// store then holds the value of that record; it holds no key whose last
/// record is a `DEL`, and none that has no record.
pub proof fn lemma_last_record_wins(records: Seq<Record>)
    requires
        writable(records),
    ensures
        replay(spec_log_of(records)) is Ok,
        recovered(spec_log_of(records)) is Ok,
        forall|i: int|
            0 <= i < records.len() ==> record_at(
                spec_log_of(records),
                #[trigger] spec_start(records, i),
            ) == (Decoded::Record {
                state: records[i].state,
                key: records[i].key,
                value: records[i].value,
            }),
        forall|key: Seq<char>, i: int| #[trigger]
            is_last_of(records, key, i) ==> {
                let index = replay(spec_log_of(records))->Ok_0;
                let store = recovered(spec_log_of(records))->Ok_0;
                if records[i].state == State::PUT {
                    &&& index.contains_key(key)
                    &&& index[key] == spec_start(records, i)
                    &&& spec_get(store, key) == Some(records[i].value)
                } else {
                    &&& !index.contains_key(key)
                    &&& spec_get(store, key) is None
                }
            },
        forall|key: Seq<char>|
            !occurs(records, key) ==> !(#[trigger] replay(spec_log_of(records))->Ok_0.contains_key(
                key,
            )),
    decreases records.len(),
{
    let log = spec_log_of(records);
    if records.len() > 0 {
        let n = records.len() as int;
        let front = records.drop_last();
        let last = records.last();
        let head = spec_log_of(front);
        let tail = spec_encode(last.state, last.key, last.value);
        assert(last == records[n - 1]);
        assert forall|i: int| 0 <= i < front.len() implies spec_encodable(
            (#[trigger] front[i]).key,
            front[i].value,
        ) by {
            assert(front[i] == records[i]);
        }
        lemma_last_record_wins(front);
        lemma_replay_appended(head, 0, Map::empty(), last.state, last.key, last.value);
        lemma_record_appended(head, last.state, last.key, last.value);
        let before = replay(head)->Ok_0;
        let index = replay(log)->Ok_0;
        assert(records.take(n - 1) =~= front);
        assert(spec_start(records, n - 1) == head.len());
        assert forall|i: int| 0 <= i < n - 1 implies #[trigger] spec_start(records, i)
            == spec_start(front, i) by {
            assert(records.take(i) =~= front.take(i));
        }
        assert forall|i: int| 0 <= i < records.len() implies record_at(
            log,
            #[trigger] spec_start(records, i),
        ) == (Decoded::Record {
            state: records[i].state,
            key: records[i].key,
            value: records[i].value,
        }) by {
            if i < n - 1 {
                assert(front[i] == records[i]);
                assert(spec_start(records, i) == spec_start(front, i));
                lemma_record_stays(head, tail, spec_start(front, i));
            }
        }
        assert forall|key: Seq<char>, i: int| #[trigger] is_last_of(records, key, i) implies {
            let store = recovered(log)->Ok_0;
            if records[i].state == State::PUT {
                &&& index.contains_key(key)
                &&& index[key] == spec_start(records, i)
                &&& spec_get(store, key) == Some(records[i].value)
            } else {
                &&& !index.contains_key(key)
                &&& spec_get(store, key) is None
            }
        } by {
            if i < n - 1 {
                assert(records[n - 1].key != key);
                assert(front[i] == records[i]);
                assert(is_last_of(front, key, i)) by {
                    assert forall|j: int| i < j < front.len() implies (#[trigger] front[j]).key
                        != key by {
                        assert(front[j] == records[j]);
                    }
                }
                assert(spec_start(records, i) == spec_start(front, i));
            }
        }
        assert forall|key: Seq<char>| !occurs(records, key) implies !(#[trigger] index.contains_key(
            key,
        )) by {
            assert(records[n - 1].key != key);
            if occurs(front, key) {
                let i = choose|i: int| 0 <= i < front.len() && (#[trigger] front[i]).key == key;
                assert(front[i] == records[i]);
            }
        }
    }
}

} // verus!
