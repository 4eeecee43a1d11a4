//! The record codec: the layout of one record of the log, and the conversions
//! between a record in memory and its bytes.
//!
//! A record is a header of [`ENTRY_HEAD_LEN`] bytes followed by the bytes of
//! the key and then those of the value. The header holds, in this order, the
//! byte length of the key and the byte length of the value, each as
//! [`USIZE_LEN`] bytes in big-endian order, and one byte for the state.
use vstd::prelude::*;
use vstd::utf8::*;
use super::errors::XKVError;

verus! {

/// The width in bytes of a length field of the header, on every host.
pub const USIZE_LEN: usize = 8;

/// The length in bytes of the header.
pub const ENTRY_HEAD_LEN: usize = USIZE_LEN * 2 + 1;

/// The eight bytes of `x`, most significant first.
pub open spec fn spec_be_bytes(x: u64) -> Seq<u8> {
    seq![
        ((x >> 56) & 0xff) as u8,
        ((x >> 48) & 0xff) as u8,
        ((x >> 40) & 0xff) as u8,
        ((x >> 32) & 0xff) as u8,
        ((x >> 24) & 0xff) as u8,
        ((x >> 16) & 0xff) as u8,
        ((x >> 8) & 0xff) as u8,
        (x & 0xff) as u8,
    ]
}

/// The number that the first eight bytes of `s` stand for, most significant
/// first.
pub open spec fn spec_be_value(s: Seq<u8>) -> u64 {
    (s[0] as u64) << 56 | (s[1] as u64) << 48 | (s[2] as u64) << 40 | (s[3] as u64) << 32 | (
    s[4] as u64) << 24 | (s[5] as u64) << 16 | (s[6] as u64) << 8 | (s[7] as u64)
}

proof fn lemma_low_byte(x: u64, k: u64)
    by (bit_vector)
    requires
        k < 64,
    ensures
        (x >> k) & 0xff < 0x100,
{
}

proof fn lemma_join_split(x: u64)
    by (bit_vector)
    ensures
        ((x >> 56) & 0xff) << 56 | ((x >> 48) & 0xff) << 48 | ((x >> 40) & 0xff) << 40 | ((x >> 32)
            & 0xff) << 32 | ((x >> 24) & 0xff) << 24 | ((x >> 16) & 0xff) << 16 | ((x >> 8) & 0xff)
            << 8 | (x & 0xff) == x,
{
}

/// Reading back the bytes of a number gives the number.
pub proof fn lemma_be_value_of_bytes(x: u64)
    ensures
        spec_be_bytes(x).len() == 8,
        spec_be_value(spec_be_bytes(x)) == x,
{
    lemma_low_byte(x, 56);
    lemma_low_byte(x, 48);
    lemma_low_byte(x, 40);
    lemma_low_byte(x, 32);
    lemma_low_byte(x, 24);
    lemma_low_byte(x, 16);
    lemma_low_byte(x, 8);
    lemma_low_byte(x, 0);
    assert(x >> 0 == x) by (bit_vector);
    lemma_join_split(x);
}

/// The byte of `x` that lies `shift` bits above its lowest bit.
fn byte_at(x: u64, shift: u64) -> (b: u8)
    requires
        shift < 64,
    ensures
        b == ((x >> shift) & 0xff) as u8,
{
    let low: u64 = (x >> shift) & 0xff;
    proof {
        lemma_low_byte(x, shift);
    }
    low as u8
}

/// Appends the eight big-endian bytes of `x` to `buf`.
pub fn push_be_bytes(buf: &mut Vec<u8>, x: u64)
    ensures
        final(buf)@ == old(buf)@ + spec_be_bytes(x),
{
    let ghost before = buf@;
    buf.push(byte_at(x, 56));
    buf.push(byte_at(x, 48));
    buf.push(byte_at(x, 40));
    buf.push(byte_at(x, 32));
    buf.push(byte_at(x, 24));
    buf.push(byte_at(x, 16));
    buf.push(byte_at(x, 8));
    buf.push(byte_at(x, 0));
    assert(x >> 0 == x) by (bit_vector);
    assert(buf@ =~= before + spec_be_bytes(x));
}

/// The number that the eight bytes of `bytes` from `at` on stand for, most
/// significant first.
pub fn read_be_value(bytes: &[u8], at: usize) -> (x: u64)
    requires
        at + 8 <= bytes@.len(),
    ensures
        x == spec_be_value(bytes@.subrange(at as int, at + 8)),
{
    let ghost s = bytes@.subrange(at as int, at + 8);
    let b0: u64 = bytes[at] as u64;
    let b1: u64 = bytes[at + 1] as u64;
    let b2: u64 = bytes[at + 2] as u64;
    let b3: u64 = bytes[at + 3] as u64;
    let b4: u64 = bytes[at + 4] as u64;
    let b5: u64 = bytes[at + 5] as u64;
    let b6: u64 = bytes[at + 6] as u64;
    let b7: u64 = bytes[at + 7] as u64;
    assert(s[0] == bytes@[at as int] && s[1] == bytes@[at + 1] && s[2] == bytes@[at + 2] && s[3]
        == bytes@[at + 3] && s[4] == bytes@[at + 4] && s[5] == bytes@[at + 5] && s[6] == bytes@[at
        + 6] && s[7] == bytes@[at + 7]);
    b0 << 56 | b1 << 48 | b2 << 40 | b3 << 32 | b4 << 24 | b5 << 16 | b6 << 8 | b7
}

/// Whether a record sets its key or deletes it.
#[derive(Clone, Copy, Debug, PartialEq, Eq, Structural)]
pub enum State {
    /// The record gives its key a value.
    PUT,
    /// The record is a tombstone: it deletes its key.
    DEL,
}

impl State {
    /// The byte that stands for the state in a header.
    pub open spec fn spec_tag(self) -> u8 {
        match self {
            State::PUT => 1,
            State::DEL => 2,
        }
    }

    /// The state that a byte of a header stands for, if any.
    pub open spec fn spec_from_tag(tag: u8) -> Option<State> {
        if tag == 1 {
            Some(State::PUT)
        } else if tag == 2 {
            Some(State::DEL)
        } else {
            None
        }
    }

    /// The byte that stands for the state in a header.
    pub fn tag(self) -> (t: u8)
        ensures
            t == self.spec_tag(),
    {
        match self {
            State::PUT => 1,
            State::DEL => 2,
        }
    }

    /// The state that a byte of a header stands for, if any.
    pub fn from_tag(tag: u8) -> (s: Option<State>)
        ensures
            s == State::spec_from_tag(tag),
    {
        if tag == 1 {
            Some(State::PUT)
        } else if tag == 2 {
            Some(State::DEL)
        } else {
            None
        }
    }
}

/// The header of a record with the given lengths and state.
pub open spec fn spec_header(key_len: u64, value_len: u64, state: State) -> Seq<u8> {
    spec_be_bytes(key_len) + spec_be_bytes(value_len) + seq![state.spec_tag()]
}

/// The length in bytes of the record of a key and a value.
pub open spec fn spec_record_size(key: Seq<char>, value: Seq<char>) -> int {
    ENTRY_HEAD_LEN + encode_utf8(key).len() + encode_utf8(value).len()
}

/// Whether the record of a key and a value can be written: each length has
/// to fit its field of the header.
pub open spec fn spec_encodable(key: Seq<char>, value: Seq<char>) -> bool {
    encode_utf8(key).len() <= u64::MAX && encode_utf8(value).len() <= u64::MAX
}

/// The bytes of the record of a key and a value: the header, the key's bytes,
/// the value's bytes, and nothing between them.
pub open spec fn spec_encode(state: State, key: Seq<char>, value: Seq<char>) -> Seq<u8> {
    spec_header(encode_utf8(key).len() as u64, encode_utf8(value).len() as u64, state)
        + encode_utf8(key) + encode_utf8(value)
}

/// What the bytes at the start of a buffer hold.
pub enum Decoded {
    /// The buffer is empty.
    End,
    /// The buffer is shorter than a header.
    PartialHeader,
    /// The state tag of the header is this byte, which stands for no state.
    BadTag(u8),
    /// The buffer ends before the key and the value do.
    Truncated,
    /// The bytes of the key or of the value are not valid UTF-8.
    BadText,
    /// A whole record.
    Record { state: State, key: Seq<char>, value: Seq<char> },
}

/// Decodes the record at the start of `bytes`; what follows it is not read.
pub open spec fn spec_decode(bytes: Seq<u8>) -> Decoded {
    if bytes.len() == 0 {
        Decoded::End
    } else if bytes.len() < ENTRY_HEAD_LEN {
        Decoded::PartialHeader
    } else {
        let key_len = spec_be_value(bytes.subrange(0, 8)) as int;
        let value_len = spec_be_value(bytes.subrange(8, 16)) as int;
        let key = bytes.subrange(ENTRY_HEAD_LEN as int, ENTRY_HEAD_LEN + key_len);
        let value = bytes.subrange(
            ENTRY_HEAD_LEN + key_len,
            ENTRY_HEAD_LEN + key_len + value_len,
        );
        match State::spec_from_tag(bytes[16]) {
            None => Decoded::BadTag(bytes[16]),
            Some(state) => if ENTRY_HEAD_LEN + key_len + value_len > bytes.len() {
                Decoded::Truncated
            } else if !valid_utf8(key) || !valid_utf8(value) {
                Decoded::BadText
            } else {
                Decoded::Record { state, key: decode_utf8(key), value: decode_utf8(value) }
            },
        }
    }
}

/// Whether an error is the one that reports `d`, where `d` is no record.
pub open spec fn spec_reports(e: XKVError, d: Decoded) -> bool {
    match d {
        Decoded::End => e is EOF,
        Decoded::PartialHeader => e is SliceDecode,
        Decoded::BadTag(_) => e is ReprDecode,
        Decoded::Truncated => e is IO,
        Decoded::BadText => e is StringDecode,
        Decoded::Record { .. } => false,
    }
}

/// Encoding, then decoding gives the record back: the same two lengths and
/// the same state in the header, the same key and the same value, whatever
/// bytes follow the record. This holds of every key and value, the empty
/// ones too.
pub proof fn lemma_decode_encode(state: State, key: Seq<char>, value: Seq<char>, rest: Seq<u8>)
    requires
        spec_encodable(key, value),
    ensures
        spec_encode(state, key, value).len() == spec_record_size(key, value),
        spec_be_value(spec_encode(state, key, value).subrange(0, 8)) == encode_utf8(key).len(),
        spec_be_value(spec_encode(state, key, value).subrange(8, 16)) == encode_utf8(value).len(),
        State::spec_from_tag(spec_encode(state, key, value)[16]) == Some(state),
        spec_decode(spec_encode(state, key, value) + rest) == (Decoded::Record {
            state,
            key,
            value,
        }),
{
    broadcast use vstd::utf8::group_utf8_lib;

    let k = encode_utf8(key);
    let v = encode_utf8(value);
    let bytes = spec_encode(state, key, value) + rest;
    lemma_be_value_of_bytes(k.len() as u64);
    lemma_be_value_of_bytes(v.len() as u64);
    assert(bytes.subrange(0, 8) =~= spec_be_bytes(k.len() as u64));
    assert(bytes.subrange(8, 16) =~= spec_be_bytes(v.len() as u64));
    assert(spec_encode(state, key, value).subrange(0, 8) =~= spec_be_bytes(k.len() as u64));
    assert(spec_encode(state, key, value).subrange(8, 16) =~= spec_be_bytes(v.len() as u64));
    assert(bytes[16] == state.spec_tag());
    assert(bytes.subrange(ENTRY_HEAD_LEN as int, ENTRY_HEAD_LEN + k.len()) =~= k);
    assert(bytes.subrange(ENTRY_HEAD_LEN + k.len(), ENTRY_HEAD_LEN + k.len() + v.len()) =~= v);
}

/// A record decodes from the bytes it spans alone: bytes after them change
/// nothing.
pub proof fn lemma_decode_prefix(bytes: Seq<u8>, rest: Seq<u8>)
    requires
        spec_decode(bytes) is Record,
    ensures
        spec_decode(bytes + rest) == spec_decode(bytes),
{
    let long = bytes + rest;
    assert(long.subrange(0, 8) =~= bytes.subrange(0, 8));
    assert(long.subrange(8, 16) =~= bytes.subrange(8, 16));
    let key_len = spec_be_value(bytes.subrange(0, 8)) as int;
    let value_len = spec_be_value(bytes.subrange(8, 16)) as int;
    assert(long.subrange(ENTRY_HEAD_LEN as int, ENTRY_HEAD_LEN + key_len) =~= bytes.subrange(
        ENTRY_HEAD_LEN as int,
        ENTRY_HEAD_LEN + key_len,
    ));
    assert(long.subrange(ENTRY_HEAD_LEN + key_len, ENTRY_HEAD_LEN + key_len + value_len)
        =~= bytes.subrange(ENTRY_HEAD_LEN + key_len, ENTRY_HEAD_LEN + key_len + value_len));
}

/// `bincode::serialize` on one byte: with its default configuration it
/// writes an unsigned byte as that one byte, without limit on the size and
/// into a vector, so that it does not fail.
#[verifier::external_body]
fn serialize_tag(tag: u8) -> (r: Result<Vec<u8>, Box<bincode::ErrorKind>>)
    ensures
        r is Ok,
        r matches Ok(bytes) ==> bytes@ == seq![tag],
{
    bincode::serialize(&tag)
}

/// `bincode::deserialize` to one byte: with its default configuration it
/// reads an unsigned byte as the first byte of the slice, leaves what follows
/// it unread, and fails on the empty slice.
#[verifier::external_body]
fn deserialize_tag(bytes: &[u8]) -> (r: Result<u8, Box<bincode::ErrorKind>>)
    ensures
        r is Ok <==> bytes@.len() > 0,
        r matches Ok(tag) ==> tag == bytes@[0],
{
    bincode::deserialize::<u8>(bytes)
}

/// `serde::de::Error::custom` as bincode implements it: the error that
/// carries a message, here the one that names the byte `tag`, which stands
/// for no state, and the two bytes that stand for one. Nothing is claimed of
/// the error.
#[verifier::external_body]
fn unknown_tag(tag: u8, put: u8, del: u8) -> Box<bincode::ErrorKind> {
    serde::de::Error::custom(format!("invalid value: {}, expected {} or {}", tag, put, del))
}

/// `String::from_utf8`: the string that the bytes encode, where they are
/// valid UTF-8, and an error where they are not.
#[verifier::external_body]
fn string_from_utf8(bytes: Vec<u8>) -> (r: Result<String, std::string::FromUtf8Error>)
    ensures
        r is Ok <==> valid_utf8(bytes@),
        r matches Ok(text) ==> text@ == decode_utf8(bytes@),
{
    String::from_utf8(bytes)
}

/// `TryFrom<&[u8]>` for an array: the array that holds the bytes of the slice,
/// where the slice has the array's length, and an error where it has not.
#[verifier::external_body]
pub(crate) fn header_array(bytes: &[u8]) -> (r: Result<
    [u8; ENTRY_HEAD_LEN],
    std::array::TryFromSliceError,
>)
    ensures
        r is Ok <==> bytes@.len() == ENTRY_HEAD_LEN,
        r matches Ok(header) ==> header@ == bytes@,
{
    <[u8; ENTRY_HEAD_LEN]>::try_from(bytes)
}

/// One record of the log, in memory.
///
/// An entry is built just before it is encoded, or rebuilt just after it was
/// decoded. [`Entry::decode`] gives the entry of a header alone: its lengths
/// are those of the key and the value that are still to be read, see
/// [`Entry::with_body`].
#[derive(Debug)]
pub struct Entry {
    /// The length of the key in bytes.
    pub key_len: u64,
    /// The length of the value in bytes; 0 for a deletion.
    pub value_len: u64,
    /// The key.
    pub key: String,
    /// The value; empty for a deletion.
    pub value: String,
    /// Whether the record sets the key or deletes it.
    pub state: State,
}

impl Entry {
    /// The two lengths are the byte lengths of the key and of the value.
    pub open spec fn wf(&self) -> bool {
        &&& self.key_len == encode_utf8(self.key@).len()
        &&& self.value_len == encode_utf8(self.value@).len()
    }

    /// The length of the record in bytes.
    pub open spec fn spec_size(&self) -> int {
        ENTRY_HEAD_LEN + self.key_len + self.value_len
    }

    /// The entry of a key and a value.
    pub fn new(key: String, value: String, state: State) -> (entry: Self)
        ensures
            entry.wf(),
            entry.key == key,
            entry.value == value,
            entry.state == state,
    {
        Self {
            key_len: key.as_str().as_bytes().len() as u64,
            value_len: value.as_str().as_bytes().len() as u64,
            key,
            value,
            state,
        }
    }

    /// The length of the record in bytes: header, key and value.
    pub fn size(&self) -> (n: usize)
        requires
            self.spec_size() <= usize::MAX,
        ensures
            n == self.spec_size(),
    {
        ENTRY_HEAD_LEN + self.key_len as usize + self.value_len as usize
    }

    /// The bytes of the record: the header, then the key, then the value.
    pub fn encode(&self) -> (buf: Vec<u8>)
        requires
            self.wf(),
        ensures
            buf@ == spec_encode(self.state, self.key@, self.value@),
            buf@.len() == self.spec_size(),
    {
        let mut buf: Vec<u8> = Vec::new();
        push_be_bytes(&mut buf, self.key_len);
        push_be_bytes(&mut buf, self.value_len);
        match serialize_tag(self.state.tag()) {
            Ok(tag) => buf.extend_from_slice(tag.as_slice()),
            Err(_) => vstd::pervasive::unreached(),
        }
        buf.extend_from_slice(self.key.as_str().as_bytes());
        buf.extend_from_slice(self.value.as_str().as_bytes());
        assert(buf@ =~= spec_encode(self.state, self.key@, self.value@));
        buf
    }

    /// Decodes a header. The entry that comes back has the lengths and the
    /// state of the header, and an empty key and value. A tag that stands for
    /// no state is an error, never a state.
    pub fn decode(b: &[u8; ENTRY_HEAD_LEN]) -> (r: Result<Entry, XKVError>)
        ensures
            r is Ok <==> State::spec_from_tag(b@[16]) is Some,
            r matches Ok(entry) ==> {
                &&& entry.key_len == spec_be_value(b@.subrange(0, 8))
                &&& entry.value_len == spec_be_value(b@.subrange(8, 16))
                &&& Some(entry.state) == State::spec_from_tag(b@[16])
                &&& entry.key@ == Seq::<char>::empty()
                &&& entry.value@ == Seq::<char>::empty()
            },
            r matches Err(e) ==> e is ReprDecode,
    {
        let bytes = b.as_slice();
        let key_len = read_be_value(bytes, 0);
        let value_len = read_be_value(bytes, USIZE_LEN);
        let tag_bytes = vstd::slice::slice_subrange(bytes, USIZE_LEN * 2, ENTRY_HEAD_LEN);
        let tag = match deserialize_tag(tag_bytes) {
            Ok(tag) => tag,
            Err(e) => {
                return Err(XKVError::from(e));
            },
        };
        match State::from_tag(tag) {
            Some(state) => Ok(
                Entry { key_len, value_len, state, key: String::new(), value: String::new() },
            ),
            None => Err(
                XKVError::from(unknown_tag(tag, State::PUT.tag(), State::DEL.tag())),
            ),
        }
    }

    /// Completes the entry of a header with the bytes that follow the header:
    /// those of the key, then those of the value, each decoded as text.
    pub fn with_body(self, body: &[u8]) -> (r: Result<Entry, XKVError>)
        requires
            body@.len() == self.key_len + self.value_len,
        ensures
            r is Ok <==> valid_utf8(body@.subrange(0, self.key_len as int)) && valid_utf8(
                body@.subrange(self.key_len as int, body@.len() as int),
            ),
            r matches Ok(entry) ==> {
                &&& entry.wf()
                &&& entry.key_len == self.key_len
                &&& entry.value_len == self.value_len
                &&& entry.state == self.state
                &&& entry.key@ == decode_utf8(body@.subrange(0, self.key_len as int))
                &&& entry.value@ == decode_utf8(
                    body@.subrange(self.key_len as int, body@.len() as int),
                )
            },
            r matches Err(e) ==> e is StringDecode,
    {
        broadcast use vstd::utf8::group_utf8_lib;

        let split = self.key_len as usize;
        let key_bytes = vstd::slice::slice_to_vec(vstd::slice::slice_subrange(body, 0, split));
        let value_bytes = vstd::slice::slice_to_vec(
            vstd::slice::slice_subrange(body, split, body.len()),
        );
        let key = match string_from_utf8(key_bytes) {
            Ok(key) => key,
            Err(e) => {
                return Err(XKVError::from(e));
            },
        };
        let value = match string_from_utf8(value_bytes) {
            Ok(value) => value,
            Err(e) => {
                return Err(XKVError::from(e));
            },
        };
        Ok(
            Entry {
                key_len: self.key_len,
                value_len: self.value_len,
                state: self.state,
                key,
                value,
            },
        )
    }
}

} // verus!
