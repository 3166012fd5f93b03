//! Byte buffers that know their position in the segment they belong to.
use vstd::prelude::*;

use crate::error::KVStoreError;
use crate::record::{decode_command, lemma_parse_canonical, parse_command, Command};

verus! {

/// Bytes written to a segment but not yet handed over to storage, and the
/// segment offset just past them.
pub struct BufferWriterWithPosition {
    pending: Vec<u8>,
    position: u64,
}

/// The same writer under the name the server-side engine gives it.
pub type BuffferWriterWithPosition = BufferWriterWithPosition;

impl BufferWriterWithPosition {
    /// The offset just past the last byte written.
    pub closed spec fn spec_position(&self) -> nat {
        self.position as nat
    }

    /// The bytes written since the last flush.
    pub closed spec fn spec_pending(&self) -> Seq<u8> {
        self.pending@
    }

    /// A writer for a segment that already holds `position` bytes.
    pub fn new(position: u64) -> (r: Self)
        ensures
            r.spec_position() == position,
            r.spec_pending() == Seq::<u8>::empty(),
    {
        BufferWriterWithPosition { pending: Vec::new(), position }
    }

    /// The offset at which the next byte will be written.
    pub fn position(&self) -> (r: u64)
        ensures
            r == self.spec_position(),
    {
        self.position
    }

    /// Appends `buf`.
    pub fn write(&mut self, buf: &[u8])
        requires
            old(self).spec_position() + buf@.len() <= u64::MAX,
        ensures
            final(self).spec_position() == old(self).spec_position() + buf@.len(),
            final(self).spec_pending() == old(self).spec_pending() + buf@,
    {
        let mut i: usize = 0;
        while i < buf.len()
            invariant
                i <= buf@.len(),
                self.position == old(self).position,
                self.pending@ == old(self).pending@ + buf@.subrange(0, i as int),
            decreases buf@.len() - i,
        {
            self.pending.push(buf[i]);
            i = i + 1;
            assert(self.pending@ =~= old(self).pending@ + buf@.subrange(0, i as int));
        }
        assert(buf@.subrange(0, i as int) =~= buf@);
        self.position = self.position + buf.len() as u64;
    }

    /// Hands over the bytes written since the last flush, to be appended to storage.
    pub fn flush(&mut self) -> (r: Vec<u8>)
        ensures
            r@ == old(self).spec_pending(),
            final(self).spec_pending() == Seq::<u8>::empty(),
            final(self).spec_position() == old(self).spec_position(),
    {
        let mut out: Vec<u8> = Vec::new();
        std::mem::swap(&mut out, &mut self.pending);
        out
    }
}

/// The bytes of a segment, read from its start, with a cursor.
pub struct BufferReaderWithPosition {
    data: Vec<u8>,
    position: usize,
}

impl BufferReaderWithPosition {
    pub closed spec fn spec_data(&self) -> Seq<u8> {
        self.data@
    }

    pub closed spec fn spec_position(&self) -> nat {
        self.position as nat
    }

    /// The bytes from the cursor to the end.
    pub open spec fn rest(&self) -> Seq<u8> {
        self.spec_data().subrange(self.spec_position() as int, self.spec_data().len() as int)
    }

    pub closed spec fn wf(&self) -> bool {
        self.position <= self.data@.len()
    }

    /// A reader over `data`, at its first byte.
    pub fn new(data: Vec<u8>) -> (r: Self)
        ensures
            r.wf(),
            r.spec_data() == data@,
            r.spec_position() == 0,
    {
        BufferReaderWithPosition { data, position: 0 }
    }

    /// The cursor.
    pub fn position(&self) -> (r: u64)
        ensures
            r == self.spec_position(),
    {
        self.position as u64
    }

    /// Whether the cursor is past the last byte.
    pub fn is_at_end(&self) -> (r: bool)
        requires
            self.wf(),
        ensures
            r == (self.spec_position() == self.spec_data().len()),
            self.spec_position() <= self.spec_data().len(),
    {
        self.position == self.data.len()
    }

    /// Moves the cursor to `pos`; returns the new cursor.
    pub fn seek(&mut self, pos: usize) -> (r: u64)
        requires
            old(self).wf(),
            pos <= old(self).spec_data().len(),
        ensures
            final(self).wf(),
            final(self).spec_data() == old(self).spec_data(),
            final(self).spec_position() == pos,
            r == pos,
    {
        self.position = pos;
        pos as u64
    }

    /// Decodes the record at the cursor and moves the cursor past it.
    /// On an error the cursor stays where it was.
    pub fn read_command(&mut self) -> (r: Result<Command, KVStoreError>)
        requires
            old(self).wf(),
        ensures
            final(self).wf(),
            final(self).spec_data() == old(self).spec_data(),
            match parse_command(old(self).rest()) {
                Some((c, n)) => r matches Ok(cmd) && cmd@ == c && final(self).spec_position()
                    == old(self).spec_position() + n,
                None => r == Err::<Command, KVStoreError>(KVStoreError::Serialization)
                    && final(self).spec_position() == old(self).spec_position(),
            },
    {
        match decode_command(self.data.as_slice(), self.position) {
            Ok((cmd, end)) => {
                proof {
                    lemma_parse_canonical(self.rest());
                }
                self.position = end;
                Ok(cmd)
            },
            Err(e) => Err(e),
        }
    }
}

} // verus!
