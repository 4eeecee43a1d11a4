//! The storage engine: the data file, the index into it and the count of
//! stale bytes, with the three operations of the store, the replay that
//! rebuilds the index and the compaction that reclaims space.
use vstd::prelude::*;
use vstd::string::StringExecFns;
use super::entry::{
    header_array, spec_be_value, spec_encode, spec_reports, Decoded, Entry, State, ENTRY_HEAD_LEN,
};
use super::errors::XKVError;
use super::index::{
    entries_del, entries_map, entries_put, has_key, key_at, keys_distinct, lemma_del_removes,
    lemma_entry_in_map, lemma_map_has_entry, lemma_put_inserts, Index,
};
use super::log::{
    compacted, compacted_entries, contents, entries_live, lemma_compaction, lemma_contents_del,
    lemma_contents_put, lemma_del_live, lemma_entries_stay, lemma_prefix_live, lemma_put_live,
    lemma_record_appended, lemma_record_fits, lemma_record_stays, lemma_replay_appended,
    live_bytes, record_at, replay, replay_from, size_at, superseded,
};
use super::stream::{BufReaderWithPos, BufWriterWithPos};

verus! {

/// The fixed prefix of the name of the data file.
pub const STORAGE_FILE_PREFIX: &'static str = "xdb";

/// The stale bytes at which a compaction runs, unless another threshold is
/// set.
pub const COMPACTION_THRESHOLD: u64 = 65536;

/// The name of the data file inside the directory of a store: the fixed
/// prefix and the fixed extension.
pub fn data_file_name() -> (name: String)
    ensures
        name@ == STORAGE_FILE_PREFIX@ + ".data"@,
{
    String::from_str(STORAGE_FILE_PREFIX).concat(".data")
}

/// What a lookup of `key` in a store gives.
pub open spec fn spec_get(store: Map<Seq<char>, Seq<char>>, key: Seq<char>) -> Option<Seq<char>> {
    if store.contains_key(key) {
        Some(store[key])
    } else {
        None
    }
}

/// The store after `value` was set for `key`.
pub open spec fn spec_set(
    store: Map<Seq<char>, Seq<char>>,
    key: Seq<char>,
    value: Seq<char>,
) -> Map<Seq<char>, Seq<char>> {
    store.insert(key, value)
}

/// The store after `key` was removed.
pub open spec fn spec_remove(store: Map<Seq<char>, Seq<char>>, key: Seq<char>) -> Map<
    Seq<char>,
    Seq<char>,
> {
    store.remove(key)
}

/// The text that a lookup handed out, if any.
pub open spec fn spec_text(found: Option<String>) -> Option<Seq<char>> {
    match found {
        Some(text) => Some(text@),
        None => None,
    }
}

/// The stale bytes after a `set` that found `stale` bytes counted and made
/// `superseded` more of them stale: they are counted, unless the count
/// reaches `threshold`, in which case a compaction has reclaimed them all.
pub open spec fn spec_stale_after_set(stale: int, superseded: int, threshold: int) -> int {
    if stale + superseded >= threshold {
        0
    } else {
        stale + superseded
    }
}

/// The number of bytes that a read of the record at `off` takes in, and by
/// which it moves the read cursor on from `off`: none at the end of the log;
/// the header where its tag is unknown; all that is left where the header or
/// the body is cut short; and else the header and as many bytes as its two
/// lengths say.
pub open spec fn spec_consumed(log: Seq<u8>, off: int) -> int {
    match record_at(log, off) {
        Decoded::End => 0,
        Decoded::PartialHeader | Decoded::Truncated => log.len() - off,
        Decoded::BadTag(_) => ENTRY_HEAD_LEN as int,
        _ => ENTRY_HEAD_LEN + spec_be_value(log.subrange(off, off + 8)) + spec_be_value(
            log.subrange(off + 8, off + 16),
        ),
    }
}

/// A storage backend: what can get, set and remove.
///
/// A backend may fail for reasons of its own, so the interface promises what
/// holds of each answer, and success only of a backend that is
/// [`Storage::reliable`].
pub trait Storage {
    /// The invariant of the backend, which each operation needs and keeps.
    spec fn inv(&self) -> bool;

    /// What the store holds: each live key with its value.
    spec fn store(&self) -> Map<Seq<char>, Seq<char>>;

    /// Whether the backend fails in no other way than by `KeyNotFound` on the
    /// removal of a key that is not live.
    spec fn reliable(&self) -> bool;

    /// The value of `key`, or `None` where the key is not live, which is no
    /// error. The store is left as it was.
    fn get(&mut self, key: String) -> (r: Result<Option<String>, XKVError>)
        requires
            old(self).inv(),
        ensures
            final(self).inv(),
            final(self).reliable() == old(self).reliable(),
            final(self).store() == old(self).store(),
            old(self).reliable() ==> r is Ok,
            r matches Ok(found) ==> spec_text(found) == spec_get(old(self).store(), key@),
    ;

    /// Sets `val` for `key`. Where an error comes back, the value may have
    /// been set all the same.
    fn set(&mut self, key: String, val: String) -> (r: Result<(), XKVError>)
        requires
            old(self).inv(),
        ensures
            final(self).inv(),
            final(self).reliable() == old(self).reliable(),
            old(self).reliable() ==> r is Ok,
            r is Ok ==> final(self).store() == spec_set(old(self).store(), key@, val@),
            r is Err ==> final(self).store() == old(self).store() || final(self).store()
                == spec_set(old(self).store(), key@, val@),
    ;

    /// Removes `key`. A key that is not live is not removed: the answer is
    /// `KeyNotFound`, and the store is left as it was.
    fn remove(&mut self, key: String) -> (r: Result<(), XKVError>)
        requires
            old(self).inv(),
        ensures
            final(self).inv(),
            final(self).reliable() == old(self).reliable(),
            !old(self).store().contains_key(key@) ==> (r matches Err(e) && e is KeyNotFound),
            old(self).reliable() && old(self).store().contains_key(key@) ==> r is Ok,
            r is Ok ==> final(self).store() == spec_remove(old(self).store(), key@),
            (r matches Err(e) && e is KeyNotFound) ==> !old(self).store().contains_key(key@)
                && final(self).store() == old(self).store(),
            r is Err ==> final(self).store() == old(self).store() || final(self).store()
                == spec_remove(old(self).store(), key@),
    ;
}

/// The engine in the style of Bitcask: an append-only data file, of which it
/// holds the image, and an index in memory from each live key to the offset
/// of the record that holds the key's value.
#[derive(Debug)]
pub struct BitcaskStorage {
    data: Vec<u8>,
    reader: BufReaderWithPos,
    writer: BufWriterWithPos,
    index: Index,
    pending_compact: u64,
    threshold: u64,
}

impl BitcaskStorage {
    /// The bytes of the data file.
    pub closed spec fn log_view(&self) -> Seq<u8> {
        self.data@
    }

    /// The entries of the index, in index order.
    pub closed spec fn index_entries(&self) -> Seq<(Seq<char>, u64)> {
        self.index.entries()
    }

    /// The stale bytes counted since the engine was opened or last compacted.
    pub closed spec fn stale_bytes(&self) -> int {
        self.pending_compact as int
    }

    /// The stale bytes at which a compaction runs.
    pub closed spec fn spec_threshold(&self) -> int {
        self.threshold as int
    }

    /// The offset at which the next append lands.
    pub closed spec fn next_offset(&self) -> int {
        self.writer.pos as int
    }

    /// The offset at which the read cursor stands.
    pub closed spec fn read_offset(&self) -> int {
        self.reader.pos as int
    }

    /// What the store holds: each live key with its value.
    pub open spec fn view(&self) -> Map<Seq<char>, Seq<char>> {
        contents(self.log_view(), entries_map(self.index_entries()))
    }

    /// The invariant of the engine. The index is what a replay of the data
    /// file gives, with no key twice; each of its entries points to a record
    /// that gives the entry's key a value; the next append lands at the end
    /// of the data file; and the stale bytes and the bytes of the live
    /// records are all bytes of the data file, none counted twice.
    pub open spec fn wf(&self) -> bool {
        &&& keys_distinct(self.index_entries())
        &&& replay(self.log_view()) == Ok::<Map<Seq<char>, u64>, Decoded>(
            entries_map(self.index_entries()),
        )
        &&& entries_live(self.log_view(), self.index_entries())
        &&& self.next_offset() == self.log_view().len()
        &&& 0 <= self.stale_bytes()
        &&& self.stale_bytes() + live_bytes(self.log_view(), self.index_entries())
            <= self.log_view().len()
    }

    /// Reads the record at `offset`: the header first, then, with the lengths
    /// that the header gives, the key and the value. Where no byte is left at
    /// `offset` the log has ended, which `EOF` reports; where the bytes there
    /// are no record, the error tells in which way they are none. Nothing but
    /// the read cursor moves.
    pub fn read_at(&mut self, offset: u64) -> (r: Result<Entry, XKVError>)
        ensures
            final(self).log_view() == old(self).log_view(),
            final(self).index_entries() == old(self).index_entries(),
            final(self).next_offset() == old(self).next_offset(),
            final(self).stale_bytes() == old(self).stale_bytes(),
            final(self).spec_threshold() == old(self).spec_threshold(),
            final(self).read_offset() == offset + spec_consumed(
                old(self).log_view(),
                offset as int,
            ),
            match record_at(old(self).log_view(), offset as int) {
                Decoded::Record { state, key, value } => r matches Ok(entry) && entry.wf()
                    && entry.state == state && entry.key@ == key && entry.value@ == value,
                d => r matches Err(e) && spec_reports(e, d),
            },
    {
        broadcast use vstd::utf8::group_utf8_lib;

        let ghost log = self.data@;
        let ghost rest = log.subrange(
            if offset < log.len() {
                offset as int
            } else {
                log.len() as int
            },
            log.len() as int,
        );
        self.reader.seek(offset);
        let head = self.reader.read(self.data.as_slice(), ENTRY_HEAD_LEN);
        if head.len() == 0 {
            return Err(XKVError::EOF);
        }
        let header = match header_array(head.as_slice()) {
            Ok(header) => header,
            Err(e) => {
                return Err(XKVError::from(e));
            },
        };
        assert(header@ =~= rest.subrange(0, ENTRY_HEAD_LEN as int));
        assert(header@.subrange(0, 8) =~= rest.subrange(0, 8));
        assert(header@.subrange(8, 16) =~= rest.subrange(8, 16));
        assert(rest.subrange(0, 8) =~= log.subrange(offset as int, offset + 8));
        assert(rest.subrange(8, 16) =~= log.subrange(offset + 8, offset + 16));
        let entry = match Entry::decode(&header) {
            Ok(entry) => entry,
            Err(e) => {
                return Err(e);
            },
        };
        let need = entry.key_len.saturating_add(entry.value_len);
        let body = match self.reader.read_exact(self.data.as_slice(), need) {
            Ok(body) => body,
            Err(e) => {
                return Err(XKVError::from(e));
            },
        };
        assert(body@ =~= rest.subrange(
            ENTRY_HEAD_LEN as int,
            ENTRY_HEAD_LEN + entry.key_len + entry.value_len,
        ));
        assert(body@.subrange(0, entry.key_len as int) =~= rest.subrange(
            ENTRY_HEAD_LEN as int,
            ENTRY_HEAD_LEN + entry.key_len,
        ));
        assert(body@.subrange(entry.key_len as int, body@.len() as int) =~= rest.subrange(
            ENTRY_HEAD_LEN + entry.key_len,
            ENTRY_HEAD_LEN + entry.key_len + entry.value_len,
        ));
        entry.with_body(body.as_slice())
    }

    /// Rebuilds the index by a replay of the data file from offset 0: each
    /// `PUT` points its key to itself, each `DEL` takes its key out, so that
    /// the last record of a key decides. The replay ends well where the log
    /// ends, and the next append then lands there. Bytes that are no record
    /// end it with their error: nothing of a log that cannot be trusted is
    /// kept.
    fn load_index(&mut self) -> (r: Result<(), XKVError>)
        requires
            old(self).index.wf(),
            old(self).index.entries().len() == 0,
            old(self).pending_compact == 0,
        ensures
            final(self).data@ == old(self).data@,
            final(self).threshold == old(self).threshold,
            match replay(old(self).data@) {
                Ok(index) => r is Ok && final(self).wf() && final(self).index@ == index
                    && final(self).pending_compact == 0
                    && final(self).reader.pos == final(self).data@.len(),
                Err(d) => r matches Err(e) && spec_reports(e, d),
            },
    {
        let ghost log = self.data@;
        let total: usize = self.data.len();
        let mut position: u64 = 0;
        assert(self.index@ =~= Map::<Seq<char>, u64>::empty());
        loop
            invariant
                log == old(self).data@,
                log == self.data@,
                log.len() == total,
                self.threshold == old(self).threshold,
                self.pending_compact == 0,
                0 <= position <= log.len(),
                self.index.wf(),
                replay_from(log, position as int, self.index@) == replay(log),
                entries_live(log, self.index.entries()),
                live_bytes(log, self.index.entries()) <= position,
            decreases log.len() - position,
        {
            let ghost before = self.index.entries();
            match self.read_at(position) {
                Ok(entry) => {
                    proof {
                        lemma_record_fits(log, position as int);
                        assert(entry.spec_size() == size_at(log, position as int));
                    }
                    let size = entry.size() as u64;
                    match entry.state {
                        State::DEL => {
                            proof {
                                lemma_del_live(log, before, entry.key@);
                            }
                            self.index.remove(&entry.key);
                        },
                        State::PUT => {
                            proof {
                                lemma_put_live(log, before, entry.key@, position);
                            }
                            self.index.insert_or_update(entry.key, position);
                        },
                    }
                    position = position + size;
                },
                Err(XKVError::EOF) => {
                    self.writer.seek(position);
                    return Ok(());
                },
                Err(err) => {
                    return Err(err);
                },
            }
        }
    }

    /// Opens the engine on the image of the data file, with the default
    /// threshold. An empty image is a new store. The engine comes back only
    /// after the whole log was replayed, with both cursors at the end of the
    /// log; where the log is corrupt the error says how, and nothing is
    /// recovered.
    pub fn open(data: Vec<u8>) -> (r: Result<BitcaskStorage, XKVError>)
        ensures
            match replay(data@) {
                Ok(index) => r matches Ok(storage) && storage.wf() && storage.log_view() == data@
                    && storage@ == contents(data@, index) && storage.stale_bytes() == 0
                    && storage.spec_threshold() == COMPACTION_THRESHOLD && storage.read_offset()
                    == data@.len(),
                Err(d) => r matches Err(e) && spec_reports(e, d),
            },
    {
        Self::with_threshold(data, COMPACTION_THRESHOLD)
    }

    /// Opens the engine as [`BitcaskStorage::open`] does, with a compaction
    /// that runs at `threshold` stale bytes.
    pub fn with_threshold(data: Vec<u8>, threshold: u64) -> (r: Result<BitcaskStorage, XKVError>)
        ensures
            match replay(data@) {
                Ok(index) => r matches Ok(storage) && storage.wf() && storage.log_view() == data@
                    && storage@ == contents(data@, index) && storage.stale_bytes() == 0
                    && storage.spec_threshold() == threshold && storage.read_offset()
                    == data@.len(),
                Err(d) => r matches Err(e) && spec_reports(e, d),
            },
    {
        let mut instance = BitcaskStorage {
            data,
            reader: BufReaderWithPos::new(),
            writer: BufWriterWithPos::new(),
            index: Index::new(),
            pending_compact: 0,
            threshold,
        };
        match instance.load_index() {
            Ok(()) => Ok(instance),
            Err(e) => Err(e),
        }
    }

    /// The image of the data file, to be made durable by the caller.
    pub fn data(&self) -> (data: &Vec<u8>)
        ensures
            data@ == self.log_view(),
    {
        &self.data
    }

    /// The stale bytes counted since the engine was opened or last compacted.
    pub fn pending_compact(&self) -> (stale: u64)
        ensures
            stale == self.stale_bytes(),
    {
        self.pending_compact
    }

    /// The stale bytes at which a compaction runs.
    pub fn threshold(&self) -> (threshold: u64)
        ensures
            threshold == self.spec_threshold(),
    {
        self.threshold
    }

    /// The number of live keys.
    pub fn len(&self) -> (n: usize)
        ensures
            n == self.index_entries().len(),
    {
        self.index.len()
    }

    /// The bytes that go stale when `key` is written or removed.
    pub open spec fn spec_superseded(&self, key: Seq<char>) -> int {
        superseded(self.log_view(), self.index_entries(), key)
    }

    /// The offset to which the index points for `key`, where the key is live.
    pub open spec fn spec_offset(&self, key: Seq<char>) -> int {
        entries_map(self.index_entries())[key] as int
    }

    /// Where the read cursor stands after the record of `key` was read in a
    /// data file that holds `log`: behind that record, where the key is
    /// live; where it is not, nothing was read and the cursor has not moved.
    pub open spec fn spec_read_end(&self, log: Seq<u8>, key: Seq<char>) -> int {
        if self@.contains_key(key) {
            self.spec_offset(key) + spec_consumed(log, self.spec_offset(key))
        } else {
            self.read_offset()
        }
    }

    /// Appends the record of `entry` to the data file, hands it on, and only
    /// then lets the index follow: a `PUT` points its key to the new record,
    /// a `DEL` takes its key out. The bytes of the record that the key
    /// pointed to before, if any, are counted as stale.
    fn write(&mut self, entry: Entry) -> (r: Result<(), XKVError>)
        requires
            old(self).wf(),
            entry.wf(),
        ensures
            r is Ok,
            final(self).wf(),
            final(self).threshold == old(self).threshold,
            final(self).data@ == old(self).data@ + spec_encode(
                entry.state,
                entry.key@,
                entry.value@,
            ),
            final(self).index.entries() == match entry.state {
                State::PUT => entries_put(
                    old(self).index.entries(),
                    entry.key@,
                    old(self).data@.len() as u64,
                ),
                State::DEL => entries_del(old(self).index.entries(), entry.key@),
            },
            final(self).pending_compact == old(self).pending_compact
                + old(self).spec_superseded(entry.key@),
            final(self).reader.pos == old(self).spec_read_end(final(self).data@, entry.key@),
    {
        let ghost log = self.data@;
        let ghost before = self.index.entries();
        let ghost state = entry.state;
        let ghost key = entry.key@;
        let ghost value = entry.value@;
        let buf = entry.encode();
        let offset = self.writer.pos;
        self.writer.write(&mut self.data, buf.as_slice());
        self.writer.flush();
        let total: usize = self.data.len();
        proof {
            lemma_replay_appended(log, 0, Map::empty(), state, key, value);
            lemma_record_appended(log, state, key, value);
            lemma_entries_stay(log, buf@, before);
        }
        let previous = match entry.state {
            State::PUT => {
                proof {
                    lemma_put_live(self.data@, before, key, offset);
                    lemma_put_inserts(before, key, offset);
                }
                self.index.insert_or_update(entry.key, offset)
            },
            State::DEL => {
                proof {
                    lemma_del_live(self.data@, before, key);
                    lemma_del_removes(before, key);
                }
                self.index.remove(&entry.key)
            },
        };
        if let Some(stale_at) = previous {
            proof {
                let i = lemma_map_has_entry(before, key);
                lemma_entry_in_map(before, i);
                lemma_record_stays(log, buf@, stale_at as int);
                lemma_record_fits(self.data@, stale_at as int);
            }
            let stale = match self.read_at(stale_at) {
                Ok(stale) => stale,
                Err(e) => {
                    return Err(e);
                },
            };
            self.pending_compact = self.pending_compact + stale.size() as u64;
        }
        Ok(())
    }

    /// The record that the index points to for `key`, read with the read
    /// cursor, which then stands behind it; `KeyNotFound` where the key is
    /// not live, and then the cursor has not moved.
    fn read(&mut self, key: &String) -> (r: Result<Entry, XKVError>)
        requires
            old(self).wf(),
        ensures
            final(self).reader.pos == old(self).spec_read_end(old(self).data@, key@),
            final(self).data@ == old(self).data@,
            final(self).index.entries() == old(self).index.entries(),
            final(self).writer.pos == old(self).writer.pos,
            final(self).pending_compact == old(self).pending_compact,
            final(self).threshold == old(self).threshold,
            match spec_get(old(self)@, key@) {
                Some(value) => r matches Ok(entry) && entry.wf() && entry.state == State::PUT
                    && entry.key@ == key@ && entry.value@ == value,
                None => r matches Err(e) && e is KeyNotFound,
            },
    {
        if let Some(offset) = self.index.get(key) {
            proof {
                let i = lemma_map_has_entry(self.index.entries(), key@);
                lemma_entry_in_map(self.index.entries(), i);
            }
            return self.read_at(offset);
        }
        Err(XKVError::KeyNotFound)
    }

    /// The compaction. Rewrites the data file with the live records alone,
    /// one for each entry of the index and in index order, and swaps the new
    /// file in for the old one in one step. The index then points into the
    /// new file, and both cursors start over on it: the read cursor at its
    /// start, the append cursor at its end. No byte is stale any more, and
    /// the store holds what it held. `set` runs it when the stale bytes reach
    /// the threshold; it may be run at any other time too.
    pub fn merge(&mut self) -> (r: Result<(), XKVError>)
        requires
            old(self).wf(),
        ensures
            r is Ok,
            final(self).wf(),
            final(self)@ == old(self)@,
            final(self).spec_threshold() == old(self).spec_threshold(),
            final(self).stale_bytes() == 0,
            final(self).log_view() == compacted(old(self).log_view(), old(self).index_entries()),
            final(self).index_entries() == compacted_entries(
                old(self).log_view(),
                old(self).index_entries(),
            ),
            final(self).read_offset() == 0,
    {
        let ghost log = self.data@;
        let ghost entries = self.index.entries();
        let mut data: Vec<u8> = Vec::new();
        let mut writer = BufWriterWithPos::new();
        let mut index = Index::new();
        let count = self.index.len();
        let total: usize = self.data.len();
        let mut i: usize = 0;
        assert(entries.take(0) =~= Seq::<(Seq<char>, u64)>::empty());
        while i < count
            invariant
                self.threshold == old(self).threshold,
                log == self.data@,
                entries == self.index.entries(),
                keys_distinct(entries),
                entries_live(log, entries),
                live_bytes(log, entries) <= u64::MAX,
                count == entries.len(),
                i <= count,
                data@ == compacted(log, entries.take(i as int)),
                index.entries() == compacted_entries(log, entries.take(i as int)),
                index.wf(),
                writer.pos == data@.len(),
            decreases count - i,
        {
            let ghost moved = index.entries();
            let ghost key = entries[i as int].0;
            proof {
                lemma_prefix_live(log, entries, i as int);
                lemma_compaction(log, entries.take(i as int));
                lemma_prefix_live(log, entries, i + 1);
                lemma_compaction(log, entries.take(i + 1));
                assert(entries.take(i + 1).drop_last() =~= entries.take(i as int));
                assert(entries.take(i + 1).last() == entries[i as int]);
                assert(!has_key(moved, key)) by {
                    if has_key(moved, key) {
                        let j = choose|j: int| key_at(moved, key, j);
                        assert(moved[j].0 == entries.take(i as int)[j].0);
                        assert(entries[j].0 != entries[i as int].0);
                    }
                }
            }
            let offset = self.index.offset(i);
            let entry = match self.read_at(offset) {
                Ok(entry) => entry,
                Err(e) => {
                    return Err(e);
                },
            };
            let buf = entry.encode();
            let at = writer.pos;
            writer.write(&mut data, buf.as_slice());
            writer.flush();
            index.insert_or_update(entry.key, at);
            i += 1;
        }
        proof {
            assert(entries.take(count as int) =~= entries);
            lemma_compaction(log, entries);
        }
        self.data = data;
        self.index = index;
        self.reader = BufReaderWithPos::new();
        self.writer = writer;
        self.pending_compact = 0;
        Ok(())
    }
}

impl Storage for BitcaskStorage {
    open spec fn inv(&self) -> bool {
        self.wf()
    }

    open spec fn store(&self) -> Map<Seq<char>, Seq<char>> {
        self@
    }

    open spec fn reliable(&self) -> bool {
        true
    }

    /// The value of `key`, read from the record that the index points to;
    /// the read cursor then stands behind that record. A key that the index
    /// does not hold is not in the store, and for it the read cursor does not
    /// move; a tombstone is never seen, since the index forgot its key when
    /// it was written.
    fn get(&mut self, key: String) -> (r: Result<Option<String>, XKVError>)
        ensures
            r matches Ok(found) && spec_text(found) == spec_get(old(self)@, key@),
            final(self).read_offset() == old(self).spec_read_end(old(self).log_view(), key@),
            final(self).next_offset() == old(self).next_offset(),
            final(self).log_view() == old(self).log_view(),
            final(self).index_entries() == old(self).index_entries(),
            final(self).stale_bytes() == old(self).stale_bytes(),
            final(self).spec_threshold() == old(self).spec_threshold(),
    {
        match self.read(&key) {
            Ok(entry) => Ok(Some(entry.value)),
            Err(XKVError::KeyNotFound) => Ok(None),
            Err(err) => Err(err),
        }
    }

    /// Appends a `PUT` record for `key` and points the index to it. The
    /// record that the key pointed to before, if any, is read for its length,
    /// which leaves the read cursor behind it, and its bytes are counted as
    /// stale; where the count has reached the threshold, a compaction runs
    /// before the call returns.
    fn set(&mut self, key: String, val: String) -> (r: Result<(), XKVError>)
        ensures
            r is Ok,
            final(self)@ == spec_set(old(self)@, key@, val@),
            final(self).spec_threshold() == old(self).spec_threshold(),
            final(self).stale_bytes() == spec_stale_after_set(
                old(self).stale_bytes(),
                old(self).spec_superseded(key@),
                old(self).spec_threshold(),
            ),
            ({
                let log = old(self).log_view() + spec_encode(State::PUT, key@, val@);
                let entries = entries_put(
                    old(self).index_entries(),
                    key@,
                    old(self).log_view().len() as u64,
                );
                let stale = old(self).stale_bytes() + old(self).spec_superseded(key@);
                if stale >= old(self).spec_threshold() {
                    &&& final(self).log_view() == compacted(log, entries)
                    &&& final(self).index_entries() == compacted_entries(log, entries)
                    &&& final(self).read_offset() == 0
                } else {
                    &&& final(self).log_view() == log
                    &&& final(self).index_entries() == entries
                    &&& final(self).read_offset() == old(self).spec_read_end(log, key@)
                }
            }),
    {
        let total: usize = self.data.len();
        let entry = Entry::new(key, val, State::PUT);
        proof {
            lemma_contents_put(self.data@, self.index.entries(), key@, val@);
        }
        match self.write(entry) {
            Ok(()) => {},
            Err(e) => {
                return Err(e);
            },
        }
        if self.pending_compact >= self.threshold {
            match self.merge() {
                Ok(()) => {},
                Err(e) => {
                    return Err(e);
                },
            }
        }
        Ok(())
    }

    /// Appends a tombstone for `key` and takes the key out of the index. The
    /// record that the key pointed to is read for its length, which leaves
    /// the read cursor behind it, and its bytes are counted as stale. For a
    /// key that is not live nothing is written and no cursor moves.
    fn remove(&mut self, key: String) -> (r: Result<(), XKVError>)
        ensures
            final(self).spec_threshold() == old(self).spec_threshold(),
            final(self).read_offset() == old(self).spec_read_end(final(self).log_view(), key@),
            match spec_get(old(self)@, key@) {
                Some(_) => {
                    &&& r is Ok
                    &&& final(self)@ == spec_remove(old(self)@, key@)
                    &&& final(self).log_view() == old(self).log_view() + spec_encode(
                        State::DEL,
                        key@,
                        Seq::empty(),
                    )
                    &&& final(self).index_entries() == entries_del(
                        old(self).index_entries(),
                        key@,
                    )
                    &&& final(self).stale_bytes() == old(self).stale_bytes()
                        + old(self).spec_superseded(key@)
                },
                None => {
                    &&& r matches Err(e) && e is KeyNotFound
                    &&& final(self)@ == old(self)@
                    &&& final(self).log_view() == old(self).log_view()
                    &&& final(self).index_entries() == old(self).index_entries()
                    &&& final(self).stale_bytes() == old(self).stale_bytes()
                },
            },
    {
        if self.index.get(&key).is_none() {
            return Err(XKVError::KeyNotFound);
        }
        proof {
            lemma_contents_del(
                self.data@,
                self.index.entries(),
                spec_encode(State::DEL, key@, Seq::empty()),
                key@,
            );
        }
        let entry = Entry::new(key, String::new(), State::DEL);
        self.write(entry)
    }
}

} // verus!
