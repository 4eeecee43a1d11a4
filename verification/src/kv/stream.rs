//! Two cursors over the image of the data file: one that reads anywhere, one
//! that appends. Each keeps its own offset, moved on by the number of bytes
//! it transferred and reset by a seek, so that the engine knows where the
//! next append will land and where a read resumes without asking the file.
use vstd::prelude::*;

verus! {

/// `std::io::Error::from` on `ErrorKind::UnexpectedEof`: the error with
/// which `read_exact` reports that the source ended too early. Nothing is
/// claimed of the error.
#[verifier::external_body]
fn unexpected_eof() -> std::io::Error {
    std::io::Error::from(std::io::ErrorKind::UnexpectedEof)
}

/// The bytes that a read of at most `max` bytes at offset `pos` transfers:
/// those from `pos` on, as far as the data and `max` reach.
pub open spec fn spec_read(data: Seq<u8>, pos: int, max: int) -> Seq<u8> {
    if 0 <= pos < data.len() && 0 <= max {
        data.subrange(
            pos,
            if pos + max <= data.len() {
                pos + max
            } else {
                data.len() as int
            },
        )
    } else {
        Seq::empty()
    }
}

/// The read cursor.
#[derive(Debug)]
pub struct BufReaderWithPos {
    /// The offset at which the next read starts.
    pub pos: u64,
}

impl BufReaderWithPos {
    /// A cursor at the start of the data.
    pub fn new() -> (reader: Self)
        ensures
            reader.pos == 0,
    {
        BufReaderWithPos { pos: 0 }
    }

    /// Moves the cursor to `target`, which may lie behind the end of the
    /// data, and gives back the new offset.
    pub fn seek(&mut self, target: u64) -> (pos: u64)
        ensures
            pos == target,
            final(self).pos == target,
    {
        self.pos = target;
        self.pos
    }

    /// Reads at most `max` bytes at the cursor and moves the cursor behind
    /// them. The read transfers nothing exactly when `max` is 0 or the
    /// cursor is at or behind the end of the data.
    pub fn read(&mut self, data: &[u8], max: usize) -> (chunk: Vec<u8>)
        ensures
            chunk@ == spec_read(data@, old(self).pos as int, max as int),
            final(self).pos == old(self).pos + chunk@.len(),
    {
        if self.pos >= data.len() as u64 {
            return Vec::new();
        }
        let start = self.pos as usize;
        let end = if max <= data.len() - start {
            start + max
        } else {
            data.len()
        };
        let chunk = vstd::slice::slice_to_vec(vstd::slice::slice_subrange(data, start, end));
        self.pos = end as u64;
        chunk
    }

    /// Reads exactly `len` bytes at the cursor. Where the data ends before
    /// that, the read fails, and the cursor has moved behind what was there.
    pub fn read_exact(&mut self, data: &[u8], len: u64) -> (r: Result<Vec<u8>, std::io::Error>)
        ensures
            r is Ok <==> spec_read(data@, old(self).pos as int, len as int).len() == len,
            r matches Ok(chunk) ==> chunk@ == spec_read(data@, old(self).pos as int, len as int),
            final(self).pos == old(self).pos + spec_read(
                data@,
                old(self).pos as int,
                len as int,
            ).len(),
    {
        let max: usize = if len > usize::MAX as u64 {
            usize::MAX
        } else {
            len as usize
        };
        let total: usize = data.len();
        assert(spec_read(data@, self.pos as int, max as int) =~= spec_read(
            data@,
            self.pos as int,
            len as int,
        ));
        let chunk = self.read(data, max);
        if (chunk.len() as u64) < len {
            Err(unexpected_eof())
        } else {
            Ok(chunk)
        }
    }
}

/// The append cursor.
#[derive(Debug)]
pub struct BufWriterWithPos {
    /// The offset at which the next append lands.
    pub pos: u64,
}

impl BufWriterWithPos {
    /// A cursor at the start of the data.
    pub fn new() -> (writer: Self)
        ensures
            writer.pos == 0,
    {
        BufWriterWithPos { pos: 0 }
    }

    /// Moves the cursor to `target` and gives back the new offset.
    pub fn seek(&mut self, target: u64) -> (pos: u64)
        ensures
            pos == target,
            final(self).pos == target,
    {
        self.pos = target;
        self.pos
    }

    /// Appends `buf` to the data, whole, wherever the cursor stands, and
    /// moves the cursor on by its length. The new offset has to be a number
    /// that the machine can hold. It is one where the sum fits, and also
    /// where the cursor does not lie behind the end of the data, whose grown
    /// length then bounds it.
    pub fn write(&mut self, data: &mut Vec<u8>, buf: &[u8]) -> (n: usize)
        requires
            old(self).pos + buf@.len() <= u64::MAX || old(self).pos <= old(data)@.len(),
        ensures
            final(data)@ == old(data)@ + buf@,
            n == buf@.len(),
            final(self).pos == old(self).pos + buf@.len(),
    {
        data.extend_from_slice(buf);
        // The data holds the appended bytes, so its length is a number that
        // the machine can hold.
        let end: usize = data.len();
        self.pos = self.pos + buf.len() as u64;
        buf.len()
    }

    /// Hands what was written on to the data. The image in memory holds
    /// every byte as soon as it is written, so nothing is left to do, and
    /// the cursor stays.
    pub fn flush(&mut self)
        ensures
            final(self).pos == old(self).pos,
    {
    }
}

} // verus!
