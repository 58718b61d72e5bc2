//! Bounded shared byte buffer with a bump allocator and a fixed-layout
//! message header: the checked core of a zero-copy host communication
//! channel. The host-facing layer owns the actual shared memory and
//! delegates every bounds decision and byte layout to this type.

use vstd::prelude::*;

verus! {

use vstd::bytes::{spec_u32_to_le_bytes, spec_u32_from_le_bytes, u32_to_le_bytes, u32_from_le_bytes};
use vstd::slice::slice_subrange;

/// Message header for structured communication: four little-endian
/// `u32` fields, sixteen bytes in all.
#[derive(Debug, Clone, Copy, PartialEq, Eq, Structural)]
pub struct MessageHeader {
    pub msg_type: u32,
    pub payload_offset: u32,
    pub payload_len: u32,
    pub sequence: u32,
}

/// Size of an encoded message header.
pub const MESSAGE_HEADER_SIZE: usize = 16;

impl MessageHeader {
    /// The sixteen bytes that encode this header.
    pub open spec fn spec_bytes(self) -> Seq<u8> {
        spec_u32_to_le_bytes(self.msg_type) + spec_u32_to_le_bytes(self.payload_offset)
            + spec_u32_to_le_bytes(self.payload_len) + spec_u32_to_le_bytes(self.sequence)
    }

    /// The header encoded at byte offset `at` of a buffer.
    pub open spec fn spec_decode(b: Seq<u8>, at: int) -> MessageHeader {
        MessageHeader {
            msg_type: spec_u32_from_le_bytes(b.subrange(at, at + 4)),
            payload_offset: spec_u32_from_le_bytes(b.subrange(at + 4, at + 8)),
            payload_len: spec_u32_from_le_bytes(b.subrange(at + 8, at + 12)),
            sequence: spec_u32_from_le_bytes(b.subrange(at + 12, at + 16)),
        }
    }

    /// The sixteen bytes of this header, as a fresh vector.
    pub fn to_bytes(&self) -> (r: Vec<u8>)
        ensures
            r@ == self.spec_bytes(),
            r@.len() == MESSAGE_HEADER_SIZE,
    {
        let mut bytes = u32_to_le_bytes(self.msg_type);
        let mut b1 = u32_to_le_bytes(self.payload_offset);
        let mut b2 = u32_to_le_bytes(self.payload_len);
        let mut b3 = u32_to_le_bytes(self.sequence);
        bytes.append(&mut b1);
        bytes.append(&mut b2);
        bytes.append(&mut b3);
        proof {
            vstd::bytes::lemma_auto_spec_u32_to_from_le_bytes();
        }
        bytes
    }

    /// Decoding is the inverse of encoding.
    pub proof fn lemma_decode_encode(self, b: Seq<u8>, at: int)
        requires
            0 <= at,
            at + 16 <= b.len(),
            b.subrange(at, at + 16) == self.spec_bytes(),
        ensures
            Self::spec_decode(b, at) == self,
    {
        vstd::bytes::lemma_auto_spec_u32_to_from_le_bytes();
        let sub = b.subrange(at, at + 16);
        assert(b.subrange(at, at + 4) =~= sub.subrange(0, 4));
        assert(b.subrange(at + 4, at + 8) =~= sub.subrange(4, 8));
        assert(b.subrange(at + 8, at + 12) =~= sub.subrange(8, 12));
        assert(b.subrange(at + 12, at + 16) =~= sub.subrange(12, 16));
        assert(sub.subrange(0, 4) =~= spec_u32_to_le_bytes(self.msg_type));
        assert(sub.subrange(4, 8) =~= spec_u32_to_le_bytes(self.payload_offset));
        assert(sub.subrange(8, 12) =~= spec_u32_to_le_bytes(self.payload_len));
        assert(sub.subrange(12, 16) =~= spec_u32_to_le_bytes(self.sequence));
    }
}

/// Fixed-capacity byte buffer with a bump allocator.
pub struct SharedBuffer {
    data: Vec<u8>,
    alloc_offset: usize,
}

impl SharedBuffer {
    /// The buffer's bytes.
    pub closed spec fn bytes(self) -> Seq<u8> {
        self.data@
    }

    /// How many bytes the bump allocator has handed out.
    pub closed spec fn spec_allocated(self) -> int {
        self.alloc_offset as int
    }

    /// The allocator never passes the end, and the capacity fits the
    /// 32-bit counters the host sees.
    pub closed spec fn wf(self) -> bool {
        self.alloc_offset <= self.data@.len() <= 0x7FFF_FFFF
    }

    /// A zeroed buffer of the given capacity.
    pub fn new(capacity: usize) -> (r: Self)
        requires
            capacity <= 0x7FFF_FFFF,
        ensures
            r.wf(),
            r.bytes() =~= Seq::new(capacity as nat, |i: int| 0u8),
            r.spec_allocated() == 0,
    {
        let data = vec![0u8; capacity];
        SharedBuffer { data, alloc_offset: 0 }
    }

    /// Current buffer length in bytes.
    pub fn len(&self) -> (r: usize)
        ensures
            r == self.bytes().len(),
    {
        self.data.len()
    }

    /// Copies `data` into the buffer at `offset`; rejects, changing
    /// nothing, exactly when it would run past the end.
    pub fn write_at(&mut self, offset: usize, data: &[u8]) -> (r: bool)
        requires
            old(self).wf(),
        ensures
            final(self).wf(),
            final(self).spec_allocated() == old(self).spec_allocated(),
            r == (offset + data@.len() <= old(self).bytes().len()),
            r ==> final(self).bytes() =~= old(self).bytes().take(offset as int) + data@ + old(
                self,
            ).bytes().skip(offset as int + data@.len() as int),
            !r ==> final(self).bytes() == old(self).bytes(),
    {
        let dlen = self.data.len();
        if data.len() > dlen || offset > dlen - data.len() {
            return false;
        }
        let mut i: usize = 0;
        while i < data.len()
            invariant
                i <= data@.len(),
                offset + data@.len() <= dlen,
                self.data@.len() == dlen,
                self.alloc_offset == old(self).alloc_offset,
                forall|j: int| 0 <= j < i ==> self.data@[offset + j] == data@[j],
                forall|j: int|
                    0 <= j < dlen && !(offset <= j < offset + i) ==> self.data@[j] == old(
                        self,
                    ).bytes()[j],
            decreases data@.len() - i,
        {
            self.data[offset + i] = data[i];
            i += 1;
        }
        proof {
            assert(self.data@ =~= old(self).bytes().take(offset as int) + data@ + old(
                self,
            ).bytes().skip(offset as int + data@.len() as int));
        }
        true
    }

    /// A view of `len` bytes at `offset`; nothing exactly when the range
    /// runs past the end.
    pub fn read_at(&self, offset: usize, len: usize) -> (r: Option<&[u8]>)
        ensures
            match r {
                Some(s) => offset + len <= self.bytes().len() && s@ == self.bytes().subrange(
                    offset as int,
                    offset as int + len as int,
                ),
                None => offset + len > self.bytes().len(),
            },
    {
        let dlen = self.data.len();
        if len > dlen || offset > dlen - len {
            return None;
        }
        Some(slice_subrange(self.data.as_slice(), offset, offset + len))
    }

    /// Encodes a message header at `offset`; rejects, changing nothing,
    /// exactly when sixteen bytes do not fit there.
    pub fn write_message_header(&mut self, offset: usize, header: MessageHeader) -> (r: bool)
        requires
            old(self).wf(),
        ensures
            final(self).wf(),
            final(self).spec_allocated() == old(self).spec_allocated(),
            r == (offset + MESSAGE_HEADER_SIZE <= old(self).bytes().len()),
            r ==> final(self).bytes() =~= old(self).bytes().take(offset as int)
                + header.spec_bytes() + old(self).bytes().skip(
                offset as int + MESSAGE_HEADER_SIZE as int,
            ),
            !r ==> final(self).bytes() == old(self).bytes(),
    {
        let bytes = header.to_bytes();
        self.write_at(offset, bytes.as_slice())
    }

    /// Decodes the message header at `offset`; nothing exactly when
    /// sixteen bytes are not available there.
    pub fn read_message_header(&self, offset: usize) -> (r: Option<MessageHeader>)
        ensures
            offset + MESSAGE_HEADER_SIZE <= self.bytes().len() ==> r == Some(
                MessageHeader::spec_decode(self.bytes(), offset as int),
            ),
            offset + MESSAGE_HEADER_SIZE > self.bytes().len() ==> r is None,
    {
        let dlen = self.data.len();
        if MESSAGE_HEADER_SIZE > dlen || offset > dlen - MESSAGE_HEADER_SIZE {
            return None;
        }
        let s = self.data.as_slice();
        let msg_type = u32_from_le_bytes(slice_subrange(s, offset, offset + 4));
        let payload_offset = u32_from_le_bytes(slice_subrange(s, offset + 4, offset + 8));
        let payload_len = u32_from_le_bytes(slice_subrange(s, offset + 8, offset + 12));
        let sequence = u32_from_le_bytes(slice_subrange(s, offset + 12, offset + 16));
        Some(MessageHeader { msg_type, payload_offset, payload_len, sequence })
    }

    /// Bump-allocates `size` bytes: hands back the old offset and moves
    /// it forward, or minus one when the request does not fit.
    pub fn allocate(&mut self, size: usize) -> (r: i32)
        requires
            old(self).wf(),
        ensures
            final(self).wf(),
            final(self).bytes() == old(self).bytes(),
            old(self).spec_allocated() + size > old(self).bytes().len() ==> {
                &&& r == -1
                &&& final(self).spec_allocated() == old(self).spec_allocated()
            },
            old(self).spec_allocated() + size <= old(self).bytes().len() ==> {
                &&& r == old(self).spec_allocated()
                &&& final(self).spec_allocated() == old(self).spec_allocated() + size
            },
    {
        let dlen = self.data.len();
        if size > dlen || self.alloc_offset > dlen - size {
            return -1;
        }
        let offset = self.alloc_offset;
        self.alloc_offset = self.alloc_offset + size;
        offset as i32
    }

    /// Resets the bump allocator; the bytes stay.
    pub fn reset_allocator(&mut self)
        ensures
            final(self).bytes() == old(self).bytes(),
            final(self).spec_allocated() == 0,
            old(self).wf() ==> final(self).wf(),
    {
        self.alloc_offset = 0;
    }

    /// Capacity, bytes handed out, and bytes left, as the host counts
    /// them.
    pub fn memory_stats(&self) -> (r: Vec<u32>)
        requires
            self.wf(),
        ensures
            r@.len() == 3,
            r@[0] == self.bytes().len(),
            r@[1] == self.spec_allocated(),
            r@[2] == self.bytes().len() - self.spec_allocated(),
    {
        let mut v: Vec<u32> = Vec::new();
        v.push(self.data.len() as u32);
        v.push(self.alloc_offset as u32);
        v.push((self.data.len() - self.alloc_offset) as u32);
        v
    }
}

} // verus!
