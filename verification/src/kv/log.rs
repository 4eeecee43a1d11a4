//! The model of the data file: what a sequence of bytes holds when it is
//! read as records laid end to end from offset 0, what a replay of it makes
//! of the index, and what a compaction writes.
use vstd::prelude::*;
use super::index::{
    entries_del, entries_map, entries_put, has_key, key_at, keys_distinct, lemma_del_removes,
    lemma_entry_in_map, lemma_map_has_entry, lemma_put_inserts, position_of,
};
use super::entry::{
    lemma_decode_encode, lemma_decode_prefix, spec_decode, spec_encodable, spec_encode,
    spec_record_size, Decoded, State, ENTRY_HEAD_LEN,
};

verus! {

/// What a read at offset `off` of the log finds: the record that starts
/// there, the end of the log, or the way in which the bytes there are no
/// record. At or behind the end there is nothing to read.
pub open spec fn record_at(log: Seq<u8>, off: int) -> Decoded {
    if 0 <= off < log.len() {
        spec_decode(log.subrange(off, log.len() as int))
    } else {
        Decoded::End
    }
}

/// The length in bytes of the record at `off`; 0 where there is none.
pub open spec fn size_at(log: Seq<u8>, off: int) -> int {
    match record_at(log, off) {
        Decoded::Record { key, value, .. } => spec_record_size(key, value),
        _ => 0,
    }
}

/// The value of the record at `off`; empty where there is none.
pub open spec fn value_at(log: Seq<u8>, off: int) -> Seq<char> {
    match record_at(log, off) {
        Decoded::Record { value, .. } => value,
        _ => Seq::empty(),
    }
}

/// Whether the record at `off` gives `key` a value.
pub open spec fn live_at(log: Seq<u8>, key: Seq<char>, off: int) -> bool {
    record_at(log, off) matches Decoded::Record { state, key: k, .. } && state == State::PUT && k
        == key
}

/// What one record at offset `off` makes of the index: a `PUT` points its
/// key to the record, a `DEL` takes its key out.
pub open spec fn apply(index: Map<Seq<char>, u64>, state: State, key: Seq<char>, off: int) -> Map<
    Seq<char>,
    u64,
> {
    match state {
        State::PUT => index.insert(key, off as u64),
        State::DEL => index.remove(key),
    }
}

/// The index after the records from `off` to the end of the log have been
/// applied to `index`, one after the other; or, where the bytes at the start
/// of one of them are no record, what was found there instead.
pub open spec fn replay_from(log: Seq<u8>, off: int, index: Map<Seq<char>, u64>) -> Result<
    Map<Seq<char>, u64>,
    Decoded,
>
    decreases log.len() - off,
    via replay_from_ends
{
    match record_at(log, off) {
        Decoded::End => Ok(index),
        Decoded::Record { state, key, value } => replay_from(
            log,
            off + spec_record_size(key, value),
            apply(index, state, key, off),
        ),
        d => Err(d),
    }
}

/// A replay ends: each record that it passes brings it nearer to the end of
/// the log, and none takes it behind the end.
#[via_fn]
proof fn replay_from_ends(log: Seq<u8>, off: int, index: Map<Seq<char>, u64>) {
    if record_at(log, off) is Record {
        lemma_record_fits(log, off);
    }
}

/// The index that a replay of the whole log gives: for each key, the offset
/// of the last record of the key, unless that record is a tombstone.
pub open spec fn replay(log: Seq<u8>) -> Result<Map<Seq<char>, u64>, Decoded> {
    replay_from(log, 0, Map::empty())
}

/// What the store holds: for each key of the index, the value of the record
/// that the index points to.
pub open spec fn contents(log: Seq<u8>, index: Map<Seq<char>, u64>) -> Map<Seq<char>, Seq<char>> {
    Map::new(
        |key: Seq<char>| index.contains_key(key),
        |key: Seq<char>| value_at(log, index[key] as int),
    )
}

/// What a store that is opened on the log holds, where the log can be
/// replayed.
pub open spec fn recovered(log: Seq<u8>) -> Result<Map<Seq<char>, Seq<char>>, Decoded> {
    match replay(log) {
        Ok(index) => Ok(contents(log, index)),
        Err(d) => Err(d),
    }
}

/// Every entry points to a record that gives its key a value.
pub open spec fn entries_live(log: Seq<u8>, entries: Seq<(Seq<char>, u64)>) -> bool {
    forall|i: int|
        0 <= i < entries.len() ==> live_at(log, (#[trigger] entries[i]).0, entries[i].1 as int)
}

/// The bytes that the records of the entries take up, together.
pub open spec fn live_bytes(log: Seq<u8>, entries: Seq<(Seq<char>, u64)>) -> int
    decreases entries.len(),
{
    if entries.len() == 0 {
        0
    } else {
        live_bytes(log, entries.drop_last()) + size_at(log, entries.last().1 as int)
    }
}

/// The bytes that go stale when `key` is written or removed: those of the
/// record that the entries point to for the key, none where the key is not
/// live.
pub open spec fn superseded(log: Seq<u8>, entries: Seq<(Seq<char>, u64)>, key: Seq<char>) -> int {
    if entries_map(entries).contains_key(key) {
        size_at(log, entries_map(entries)[key] as int)
    } else {
        0
    }
}

/// The log that a compaction writes: for each entry, in order, one `PUT`
/// record with the entry's key and the value that the entry points to.
pub open spec fn compacted(log: Seq<u8>, entries: Seq<(Seq<char>, u64)>) -> Seq<u8>
    decreases entries.len(),
{
    if entries.len() == 0 {
        Seq::empty()
    } else {
        compacted(log, entries.drop_last()) + spec_encode(
            State::PUT,
            entries.last().0,
            value_at(log, entries.last().1 as int),
        )
    }
}

/// The entries after a compaction: the same keys in the same order, each
/// with the offset of its record in the compacted log.
pub open spec fn compacted_entries(log: Seq<u8>, entries: Seq<(Seq<char>, u64)>) -> Seq<
    (Seq<char>, u64),
>
    decreases entries.len(),
{
    if entries.len() == 0 {
        Seq::empty()
    } else {
        compacted_entries(log, entries.drop_last()).push(
            (entries.last().0, compacted(log, entries.drop_last()).len() as u64),
        )
    }
}

/// A record spans no more than the log has, and at least a header.
pub proof fn lemma_record_fits(log: Seq<u8>, off: int)
    requires
        record_at(log, off) is Record,
    ensures
        ENTRY_HEAD_LEN <= size_at(log, off),
        0 <= off,
        off + size_at(log, off) <= log.len(),
{
    broadcast use vstd::utf8::group_utf8_lib;

}

/// A record of the log is still there, unchanged, when the log has grown.
pub proof fn lemma_record_stays(log: Seq<u8>, tail: Seq<u8>, off: int)
    requires
        record_at(log, off) is Record,
    ensures
        record_at(log + tail, off) == record_at(log, off),
{
    let long = log + tail;
    assert(long.subrange(off, long.len() as int) =~= log.subrange(off, log.len() as int) + tail);
    lemma_decode_prefix(log.subrange(off, log.len() as int), tail);
}

/// Entries that point to records of the log still do so, and their records
/// take up the same bytes, when the log has grown.
pub proof fn lemma_entries_stay(log: Seq<u8>, tail: Seq<u8>, entries: Seq<(Seq<char>, u64)>)
    requires
        entries_live(log, entries),
    ensures
        entries_live(log + tail, entries),
        live_bytes(log + tail, entries) == live_bytes(log, entries),
    decreases entries.len(),
{
    assert forall|i: int| 0 <= i < entries.len() implies live_at(
        log + tail,
        (#[trigger] entries[i]).0,
        entries[i].1 as int,
    ) by {
        lemma_record_stays(log, tail, entries[i].1 as int);
    }
    if entries.len() > 0 {
        let front = entries.drop_last();
        assert forall|i: int| 0 <= i < front.len() implies live_at(
            log,
            (#[trigger] front[i]).0,
            front[i].1 as int,
        ) by {
            assert(front[i] == entries[i]);
        }
        lemma_entries_stay(log, tail, front);
        assert(entries.last() == entries[entries.len() - 1]);
        lemma_record_stays(log, tail, entries.last().1 as int);
    }
}

/// The bytes of a record, appended to the log, are a record at the old end
/// of the log.
pub proof fn lemma_record_appended(log: Seq<u8>, state: State, key: Seq<char>, value: Seq<char>)
    requires
        spec_encodable(key, value),
    ensures
        record_at(log + spec_encode(state, key, value), log.len() as int) == (Decoded::Record {
            state,
            key,
            value,
        }),
        size_at(log + spec_encode(state, key, value), log.len() as int) == spec_encode(
            state,
            key,
            value,
        ).len(),
{
    let bytes = spec_encode(state, key, value);
    let long = log + bytes;
    lemma_decode_encode(state, key, value, Seq::empty());
    assert(bytes + Seq::<u8>::empty() =~= bytes);
    assert(long.subrange(log.len() as int, long.len() as int) =~= bytes);
}

/// Appending the bytes of a record to a log that can be replayed applies the
/// record, at the old end of the log, to what the replay gave.
pub proof fn lemma_replay_appended(
    log: Seq<u8>,
    off: int,
    index: Map<Seq<char>, u64>,
    state: State,
    key: Seq<char>,
    value: Seq<char>,
)
    requires
        0 <= off <= log.len(),
        replay_from(log, off, index) is Ok,
        spec_encodable(key, value),
    ensures
        replay_from(log + spec_encode(state, key, value), off, index) == Ok::<
            Map<Seq<char>, u64>,
            Decoded,
        >(apply(replay_from(log, off, index)->Ok_0, state, key, log.len() as int)),
    decreases log.len() - off,
{
    let bytes = spec_encode(state, key, value);
    let long = log + bytes;
    lemma_record_appended(log, state, key, value);
    if off == log.len() {
        let next = off + spec_record_size(key, value);
        lemma_decode_encode(state, key, value, Seq::empty());
        assert(next == long.len());
        assert(record_at(long, next) is End);
        assert(replay_from(long, next, apply(index, state, key, off)) == Ok::<
            Map<Seq<char>, u64>,
            Decoded,
        >(apply(index, state, key, off)));
    } else {
        assert(log.subrange(off, log.len() as int).len() > 0);
        assert(!(record_at(log, off) is End));
        match record_at(log, off) {
            Decoded::Record { state: s, key: k, value: v } => {
                lemma_record_fits(log, off);
                lemma_record_stays(log, bytes, off);
                let next = off + spec_record_size(k, v);
                lemma_replay_appended(log, next, apply(index, s, k, off), state, key, value);
            },
            _ => {},
        }
    }
}

/// The records of one more entry are those of the entries before it and its
/// own.
pub proof fn lemma_live_bytes_push(
    log: Seq<u8>,
    entries: Seq<(Seq<char>, u64)>,
    entry: (Seq<char>, u64),
)
    ensures
        live_bytes(log, entries.push(entry)) == live_bytes(log, entries) + size_at(
            log,
            entry.1 as int,
        ),
{
    assert(entries.push(entry).drop_last() =~= entries);
}

/// Pointing an entry elsewhere takes the bytes of its old record out of the
/// count and those of the new one in.
pub proof fn lemma_live_bytes_update(
    log: Seq<u8>,
    entries: Seq<(Seq<char>, u64)>,
    i: int,
    entry: (Seq<char>, u64),
)
    requires
        0 <= i < entries.len(),
    ensures
        live_bytes(log, entries.update(i, entry)) == live_bytes(log, entries) - size_at(
            log,
            entries[i].1 as int,
        ) + size_at(log, entry.1 as int),
    decreases entries.len(),
{
    let after = entries.update(i, entry);
    if i == entries.len() - 1 {
        assert(after.drop_last() =~= entries.drop_last());
    } else {
        assert(after.drop_last() =~= entries.drop_last().update(i, entry));
        lemma_live_bytes_update(log, entries.drop_last(), i, entry);
    }
}

/// Taking an entry out takes the bytes of its record out of the count.
pub proof fn lemma_live_bytes_remove(log: Seq<u8>, entries: Seq<(Seq<char>, u64)>, i: int)
    requires
        0 <= i < entries.len(),
    ensures
        live_bytes(log, entries.remove(i)) == live_bytes(log, entries) - size_at(
            log,
            entries[i].1 as int,
        ),
    decreases entries.len(),
{
    let after = entries.remove(i);
    if i == entries.len() - 1 {
        assert(after =~= entries.drop_last());
    } else {
        assert(after.drop_last() =~= entries.drop_last().remove(i));
        assert(after.last() == entries.last());
        lemma_live_bytes_remove(log, entries.drop_last(), i);
    }
}

/// No record has a negative length, and no count of live bytes is negative.
pub proof fn lemma_live_bytes_nonnegative(log: Seq<u8>, entries: Seq<(Seq<char>, u64)>)
    ensures
        0 <= live_bytes(log, entries),
    decreases entries.len(),
{
    if entries.len() > 0 {
        lemma_live_bytes_nonnegative(log, entries.drop_last());
    }
}

/// Giving a live key the offset of another live record of the key, or a new
/// key the offset of a live record, keeps every entry live; it counts the
/// bytes of the new record in and those of the record that the key pointed
/// to, if any, out.
pub proof fn lemma_put_live(
    log: Seq<u8>,
    entries: Seq<(Seq<char>, u64)>,
    key: Seq<char>,
    offset: u64,
)
    requires
        keys_distinct(entries),
        entries_live(log, entries),
        live_at(log, key, offset as int),
    ensures
        entries_live(log, entries_put(entries, key, offset)),
        live_bytes(log, entries_put(entries, key, offset)) == live_bytes(log, entries)
            - superseded(log, entries, key) + size_at(log, offset as int),
        0 <= superseded(log, entries, key) <= live_bytes(log, entries),
{
    let after = entries_put(entries, key, offset);
    if has_key(entries, key) {
        let i = position_of(entries, key);
        assert(key_at(entries, key, i));
        lemma_entry_in_map(entries, i);
        lemma_live_bytes_update(log, entries, i, (key, offset));
        lemma_live_bytes_remove(log, entries, i);
        lemma_live_bytes_nonnegative(log, entries.remove(i));
        assert forall|j: int| 0 <= j < after.len() implies live_at(
            log,
            (#[trigger] after[j]).0,
            after[j].1 as int,
        ) by {
            if j != i {
                assert(after[j] == entries[j]);
            }
        }
    } else {
        lemma_live_bytes_push(log, entries, (key, offset));
        lemma_live_bytes_nonnegative(log, entries);
        assert(!entries_map(entries).contains_key(key));
        assert forall|j: int| 0 <= j < after.len() implies live_at(
            log,
            (#[trigger] after[j]).0,
            after[j].1 as int,
        ) by {
            if j < entries.len() {
                assert(after[j] == entries[j]);
            }
        }
    }
}

/// Taking a key out keeps the other entries live, and counts the bytes of
/// the record that the key pointed to, if any, out.
pub proof fn lemma_del_live(log: Seq<u8>, entries: Seq<(Seq<char>, u64)>, key: Seq<char>)
    requires
        keys_distinct(entries),
        entries_live(log, entries),
    ensures
        entries_live(log, entries_del(entries, key)),
        live_bytes(log, entries_del(entries, key)) == live_bytes(log, entries) - superseded(
            log,
            entries,
            key,
        ),
        0 <= superseded(log, entries, key) <= live_bytes(log, entries),
{
    let after = entries_del(entries, key);
    if has_key(entries, key) {
        let i = position_of(entries, key);
        assert(key_at(entries, key, i));
        lemma_entry_in_map(entries, i);
        lemma_live_bytes_remove(log, entries, i);
        lemma_live_bytes_nonnegative(log, after);
        assert forall|j: int| 0 <= j < after.len() implies live_at(
            log,
            (#[trigger] after[j]).0,
            after[j].1 as int,
        ) by {
            if j < i {
                assert(after[j] == entries[j]);
            } else {
                assert(after[j] == entries[j + 1]);
            }
        }
    } else {
        lemma_live_bytes_nonnegative(log, entries);
        assert(!entries_map(entries).contains_key(key));
    }
}

/// After a `PUT` record for `key` was appended and the key was pointed to
/// it, the store holds what it held, with `value` for `key`.
pub proof fn lemma_contents_put(
    log: Seq<u8>,
    entries: Seq<(Seq<char>, u64)>,
    key: Seq<char>,
    value: Seq<char>,
)
    requires
        keys_distinct(entries),
        entries_live(log, entries),
        spec_encodable(key, value),
        log.len() <= u64::MAX,
    ensures
        contents(
            log + spec_encode(State::PUT, key, value),
            entries_map(entries_put(entries, key, log.len() as u64)),
        ) == contents(log, entries_map(entries)).insert(key, value),
{
    let tail = spec_encode(State::PUT, key, value);
    let long = log + tail;
    let before = entries_map(entries);
    let after = entries_map(entries_put(entries, key, log.len() as u64));
    lemma_put_inserts(entries, key, log.len() as u64);
    lemma_record_appended(log, State::PUT, key, value);
    assert forall|k: Seq<char>| #[trigger] before.contains_key(k) implies value_at(
        long,
        before[k] as int,
    ) == value_at(log, before[k] as int) by {
        let i = lemma_map_has_entry(entries, k);
        lemma_entry_in_map(entries, i);
        lemma_record_stays(log, tail, entries[i].1 as int);
    }
    assert(contents(long, after) =~= contents(log, before).insert(key, value));
}

/// After a record for `key` was appended and the key was taken out of the
/// index, the store holds what it held, without `key`.
pub proof fn lemma_contents_del(
    log: Seq<u8>,
    entries: Seq<(Seq<char>, u64)>,
    tail: Seq<u8>,
    key: Seq<char>,
)
    requires
        keys_distinct(entries),
        entries_live(log, entries),
    ensures
        contents(log + tail, entries_map(entries_del(entries, key))) == contents(
            log,
            entries_map(entries),
        ).remove(key),
{
    let long = log + tail;
    let before = entries_map(entries);
    let after = entries_map(entries_del(entries, key));
    lemma_del_removes(entries, key);
    assert forall|k: Seq<char>| #[trigger] before.contains_key(k) implies value_at(
        long,
        before[k] as int,
    ) == value_at(log, before[k] as int) by {
        let i = lemma_map_has_entry(entries, k);
        lemma_entry_in_map(entries, i);
        lemma_record_stays(log, tail, entries[i].1 as int);
    }
    assert(contents(long, after) =~= contents(log, before).remove(key));
}

/// Two lists of entries with the same keys in the same order, each entry of
/// one pointing in its log to the value that its partner points to in the
/// other log, stand for stores that hold the same.
pub proof fn lemma_contents_same(
    log: Seq<u8>,
    entries: Seq<(Seq<char>, u64)>,
    other_log: Seq<u8>,
    other: Seq<(Seq<char>, u64)>,
)
    requires
        keys_distinct(entries),
        keys_distinct(other),
        entries.len() == other.len(),
        forall|i: int|
            0 <= i < entries.len() ==> (#[trigger] entries[i]).0 == other[i].0 && value_at(
                log,
                entries[i].1 as int,
            ) == value_at(other_log, other[i].1 as int),
    ensures
        contents(log, entries_map(entries)) == contents(other_log, entries_map(other)),
{
    let a = contents(log, entries_map(entries));
    let b = contents(other_log, entries_map(other));
    assert forall|k: Seq<char>| a.contains_key(k) == b.contains_key(k) by {
        if a.contains_key(k) {
            let i = lemma_map_has_entry(entries, k);
            assert(entries[i].0 == other[i].0);
            assert(key_at(other, k, i));
        }
        if b.contains_key(k) {
            let i = lemma_map_has_entry(other, k);
            assert(entries[i].0 == other[i].0);
            assert(key_at(entries, k, i));
        }
    }
    assert forall|k: Seq<char>| a.contains_key(k) implies a[k] == b[k] by {
        let i = lemma_map_has_entry(entries, k);
        assert(entries[i].0 == other[i].0);
        lemma_entry_in_map(entries, i);
        lemma_entry_in_map(other, i);
    }
    assert(a =~= b);
}

/// The first entries of a list of live entries with distinct keys are live
/// and have distinct keys, and their records take up no more bytes than
/// those of all entries.
pub proof fn lemma_prefix_live(log: Seq<u8>, entries: Seq<(Seq<char>, u64)>, n: int)
    requires
        keys_distinct(entries),
        entries_live(log, entries),
        0 <= n <= entries.len(),
    ensures
        keys_distinct(entries.take(n)),
        entries_live(log, entries.take(n)),
        live_bytes(log, entries.take(n)) <= live_bytes(log, entries),
    decreases entries.len(),
{
    let first = entries.take(n);
    assert forall|i: int, j: int| 0 <= i < j < first.len() implies (#[trigger] first[i]).0 != (
    #[trigger] first[j]).0 by {
        assert(first[i] == entries[i] && first[j] == entries[j]);
    }
    assert forall|i: int| 0 <= i < first.len() implies live_at(
        log,
        (#[trigger] first[i]).0,
        first[i].1 as int,
    ) by {
        assert(first[i] == entries[i]);
    }
    if n == entries.len() {
        assert(first =~= entries);
    } else {
        let front = entries.drop_last();
        assert forall|i: int, j: int| 0 <= i < j < front.len() implies (#[trigger] front[i]).0 != (
        #[trigger] front[j]).0 by {
            assert(front[i] == entries[i] && front[j] == entries[j]);
        }
        assert forall|i: int| 0 <= i < front.len() implies live_at(
            log,
            (#[trigger] front[i]).0,
            front[i].1 as int,
        ) by {
            assert(front[i] == entries[i]);
        }
        lemma_prefix_live(log, front, n);
        assert(front.take(n) =~= first);
    }
}

/// A compaction keeps what the store holds. The compacted log has the bytes
/// of the live records and no others; it can be replayed, and the replay
/// gives the index that points each key, in the old order, to the record in
/// the new log that holds the key's value.
pub proof fn lemma_compaction(log: Seq<u8>, entries: Seq<(Seq<char>, u64)>)
    requires
        keys_distinct(entries),
        entries_live(log, entries),
        live_bytes(log, entries) <= u64::MAX,
    ensures
        compacted(log, entries).len() == live_bytes(log, entries),
        compacted_entries(log, entries).len() == entries.len(),
        keys_distinct(compacted_entries(log, entries)),
        entries_live(compacted(log, entries), compacted_entries(log, entries)),
        live_bytes(compacted(log, entries), compacted_entries(log, entries)) == compacted(
            log,
            entries,
        ).len(),
        replay(compacted(log, entries)) == Ok::<Map<Seq<char>, u64>, Decoded>(
            entries_map(compacted_entries(log, entries)),
        ),
        forall|i: int|
            0 <= i < entries.len() ==> (#[trigger] compacted_entries(log, entries)[i]).0
                == entries[i].0 && value_at(
                compacted(log, entries),
                compacted_entries(log, entries)[i].1 as int,
            ) == value_at(log, entries[i].1 as int),
        recovered(compacted(log, entries)) == Ok::<Map<Seq<char>, Seq<char>>, Decoded>(
            contents(log, entries_map(entries)),
        ),
    decreases entries.len(),
{
    broadcast use vstd::utf8::group_utf8_lib;

    let whole = compacted(log, entries);
    let moved = compacted_entries(log, entries);
    if entries.len() == 0 {
        assert(entries_map(moved) =~= Map::<Seq<char>, u64>::empty());
        assert(contents(log, entries_map(entries)) =~= contents(whole, entries_map(moved)));
    } else {
        let front = entries.drop_last();
        let key = entries.last().0;
        let off = entries.last().1;
        let value = value_at(log, off as int);
        let copied = compacted(log, front);
        let before = compacted_entries(log, front);
        let tail = spec_encode(State::PUT, key, value);
        let at = copied.len() as u64;
        assert(entries.last() == entries[entries.len() - 1]);
        assert(live_at(log, key, off as int));
        assert forall|i: int, j: int| 0 <= i < j < front.len() implies (#[trigger] front[i]).0 != (
        #[trigger] front[j]).0 by {
            assert(front[i] == entries[i] && front[j] == entries[j]);
        }
        assert forall|i: int| 0 <= i < front.len() implies live_at(
            log,
            (#[trigger] front[i]).0,
            front[i].1 as int,
        ) by {
            assert(front[i] == entries[i]);
        }
        lemma_live_bytes_nonnegative(log, front);
        lemma_compaction(log, front);
        assert(!has_key(before, key)) by {
            if has_key(before, key) {
                let j = choose|j: int| key_at(before, key, j);
                assert(before[j].0 == front[j].0);
                assert(front[j] == entries[j]);
                assert(entries[j].0 != entries[entries.len() - 1].0);
            }
        }
        assert(moved == entries_put(before, key, at));
        lemma_replay_appended(copied, 0, Map::empty(), State::PUT, key, value);
        lemma_record_appended(copied, State::PUT, key, value);
        lemma_entries_stay(copied, tail, before);
        lemma_put_live(whole, before, key, at);
        lemma_put_inserts(before, key, at);
        assert forall|i: int| 0 <= i < entries.len() implies (#[trigger] moved[i]).0 == entries[i].0
            && value_at(whole, moved[i].1 as int) == value_at(log, entries[i].1 as int) by {
            if i < front.len() {
                assert(moved[i] == before[i]);
                assert(front[i] == entries[i]);
                lemma_record_stays(copied, tail, before[i].1 as int);
            }
        }
        lemma_contents_same(whole, moved, log, entries);
    }
}

} // verus!
