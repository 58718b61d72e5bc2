//! Compact binary representation of a graph node: id, type and an offset
//! into a separate properties buffer, twelve bytes per node, all fields
//! little-endian `u32`.

use vstd::prelude::*;

verus! {

use vstd::bytes::{spec_u32_to_le_bytes, spec_u32_from_le_bytes, u32_to_le_bytes, u32_from_le_bytes};
use vstd::slice::slice_subrange;
use vstd::slice::SliceAdditionalExecFns;

/// Size of a single node in binary format.
pub const NODE_BINARY_SIZE: usize = 12;

/// Compact binary representation of a graph node.
#[derive(Debug, Clone, Copy, PartialEq, Eq, Structural)]
pub struct NodeBinaryFormat {
    /// Unique identifier for the node.
    pub id: u32,
    /// Type identifier (index into a node type registry).
    pub node_type: u32,
    /// Offset into the properties buffer where this node's properties begin.
    pub props_offset: u32,
}

impl NodeBinaryFormat {
    /// The twelve bytes that encode this node.
    pub open spec fn spec_bytes(self) -> Seq<u8> {
        spec_u32_to_le_bytes(self.id) + spec_u32_to_le_bytes(self.node_type)
            + spec_u32_to_le_bytes(self.props_offset)
    }

    /// The node encoded at byte offset `at` of a buffer.
    pub open spec fn spec_decode(b: Seq<u8>, at: int) -> NodeBinaryFormat {
        NodeBinaryFormat {
            id: spec_u32_from_le_bytes(b.subrange(at, at + 4)),
            node_type: spec_u32_from_le_bytes(b.subrange(at + 4, at + 8)),
            props_offset: spec_u32_from_le_bytes(b.subrange(at + 8, at + 12)),
        }
    }

    /// Creates a new node binary format.
    pub fn new(id: u32, node_type: u32, props_offset: u32) -> (r: Self)
        ensures
            r == (NodeBinaryFormat { id, node_type, props_offset }),
    {
        Self { id, node_type, props_offset }
    }

    /// Serializes the node to its twelve bytes.
    pub fn to_bytes(&self) -> (r: Vec<u8>)
        ensures
            r@ == self.spec_bytes(),
            r@.len() == NODE_BINARY_SIZE,
    {
        let mut bytes = u32_to_le_bytes(self.id);
        let mut t = u32_to_le_bytes(self.node_type);
        let mut p = u32_to_le_bytes(self.props_offset);
        bytes.append(&mut t);
        bytes.append(&mut p);
        proof {
            vstd::bytes::lemma_auto_spec_u32_to_from_le_bytes();
        }
        bytes
    }

    /// Deserializes a node from a byte slice: succeeds exactly when the
    /// slice holds at least twelve bytes, and then returns the node those
    /// first twelve bytes encode.
    pub fn from_bytes(bytes: &[u8]) -> (r: Result<Self, &'static str>)
        ensures
            bytes@.len() >= NODE_BINARY_SIZE ==> r == Ok::<Self, &'static str>(
                Self::spec_decode(bytes@, 0),
            ),
            bytes@.len() < NODE_BINARY_SIZE ==> match r {
                Ok(_) => false,
                Err(m) => m@ == "Insufficient bytes for NodeBinaryFormat"@,
            },
    {
        if bytes.len() < NODE_BINARY_SIZE {
            return Err("Insufficient bytes for NodeBinaryFormat");
        }
        let id = u32_from_le_bytes(slice_subrange(bytes, 0, 4));
        let node_type = u32_from_le_bytes(slice_subrange(bytes, 4, 8));
        let props_offset = u32_from_le_bytes(slice_subrange(bytes, 8, 12));
        Ok(Self { id, node_type, props_offset })
    }

    /// Writes the node's twelve bytes at the start of the buffer, leaving
    /// the rest unchanged; fails exactly when the buffer is too small.
    pub fn write_to(&self, buffer: &mut [u8]) -> (r: Result<(), &'static str>)
        ensures
            old(buffer)@.len() >= NODE_BINARY_SIZE ==> r is Ok && final(buffer)@
                =~= self.spec_bytes() + old(buffer)@.skip(NODE_BINARY_SIZE as int),
            old(buffer)@.len() < NODE_BINARY_SIZE ==> match r {
                Ok(_) => false,
                Err(m) => m@ == "Buffer too small for NodeBinaryFormat"@ && final(buffer)@ == old(
                    buffer,
                )@,
            },
    {
        if buffer.len() < NODE_BINARY_SIZE {
            return Err("Buffer too small for NodeBinaryFormat");
        }
        let bytes = self.to_bytes();
        let mut i: usize = 0;
        while i < NODE_BINARY_SIZE
            invariant
                i <= NODE_BINARY_SIZE,
                bytes@ == self.spec_bytes(),
                bytes@.len() == NODE_BINARY_SIZE,
                buffer@.len() == old(buffer)@.len() >= NODE_BINARY_SIZE,
                forall|j: int| 0 <= j < i ==> buffer@[j] == bytes@[j],
                forall|j: int| i <= j < buffer@.len() ==> buffer@[j] == old(buffer)@[j],
            decreases NODE_BINARY_SIZE - i,
        {
            buffer[i] = bytes[i];
            i += 1;
        }
        proof {
            assert(buffer@ =~= self.spec_bytes() + old(buffer)@.skip(NODE_BINARY_SIZE as int));
        }
        Ok(())
    }
}

/// Buffer storing many nodes contiguously in the twelve-byte format.
pub struct NodeBuffer {
    buffer: Vec<u8>,
    count: usize,
}

impl NodeBuffer {
    /// The nodes currently stored, in order.
    pub closed spec fn entries(self) -> Seq<NodeBinaryFormat> {
        Seq::new(
            self.count as nat,
            |i: int| NodeBinaryFormat::spec_decode(self.buffer@, 12 * i),
        )
    }

    /// The raw bytes currently stored.
    pub closed spec fn bytes(self) -> Seq<u8> {
        self.buffer@
    }

    /// The byte buffer holds exactly the stored nodes.
    pub closed spec fn wf(self) -> bool {
        self.buffer@.len() == 12 * self.count
    }

    /// Creates a new node buffer with room reserved for `capacity` nodes.
    pub fn with_capacity(capacity: usize) -> (r: Self)
        ensures
            r.wf(),
            r.entries() =~= Seq::<NodeBinaryFormat>::empty(),
    {
        let reserve = if capacity <= usize::MAX / NODE_BINARY_SIZE {
            capacity * NODE_BINARY_SIZE
        } else {
            0
        };
        Self { buffer: Vec::with_capacity(reserve), count: 0 }
    }

    /// Appends a node to the buffer.
    pub fn push(&mut self, node: NodeBinaryFormat)
        requires
            old(self).wf(),
            12 * old(self).entries().len() + 12 <= usize::MAX,
        ensures
            final(self).wf(),
            final(self).entries() =~= old(self).entries().push(node),
            final(self).bytes() == old(self).bytes() + node.spec_bytes(),
    {
        let mut bytes = node.to_bytes();
        self.buffer.append(&mut bytes);
        self.count = self.count + 1;
        proof {
            vstd::bytes::lemma_auto_spec_u32_to_from_le_bytes();
            let pre = *old(self);
            assert forall|i: int| 0 <= i < self.count implies self.entries()[i] == pre.entries().push(
                node,
            )[i] by {
                if i < pre.count {
                    assert(self.buffer@.subrange(12 * i, 12 * i + 4) =~= pre.buffer@.subrange(
                        12 * i,
                        12 * i + 4,
                    ));
                    assert(self.buffer@.subrange(12 * i + 4, 12 * i + 8) =~= pre.buffer@.subrange(
                        12 * i + 4,
                        12 * i + 8,
                    ));
                    assert(self.buffer@.subrange(12 * i + 8, 12 * i + 12) =~= pre.buffer@.subrange(
                        12 * i + 8,
                        12 * i + 12,
                    ));
                } else {
                    assert(self.buffer@.subrange(12 * i, 12 * i + 4) =~= spec_u32_to_le_bytes(
                        node.id,
                    ));
                    assert(self.buffer@.subrange(12 * i + 4, 12 * i + 8) =~= spec_u32_to_le_bytes(
                        node.node_type,
                    ));
                    assert(self.buffer@.subrange(12 * i + 8, 12 * i + 12) =~= spec_u32_to_le_bytes(
                        node.props_offset,
                    ));
                }
            }
        }
    }

    /// Gets the node at `index`, if the index is in range.
    pub fn get(&self, index: usize) -> (r: Option<NodeBinaryFormat>)
        requires
            self.wf(),
        ensures
            index < self.entries().len() ==> r == Some(self.entries()[index as int]),
            index >= self.entries().len() ==> r is None,
    {
        if index >= self.count {
            return None;
        }
        let blen = self.buffer.len();
        proof {
            assert(12 * index + 12 <= blen);
        }
        let start = index * NODE_BINARY_SIZE;
        let node = match NodeBinaryFormat::from_bytes(slice_subrange(
            self.buffer.as_slice(),
            start,
            start + NODE_BINARY_SIZE,
        )) {
            Ok(n) => n,
            Err(_) => {
                proof {
                    assert(false);
                }
                NodeBinaryFormat { id: 0, node_type: 0, props_offset: 0 }
            },
        };
        proof {
            let sub = self.buffer@.subrange(12 * index, 12 * index + 12);
            assert(sub.subrange(0, 4) =~= self.buffer@.subrange(12 * index, 12 * index + 4));
            assert(sub.subrange(4, 8) =~= self.buffer@.subrange(12 * index + 4, 12 * index + 8));
            assert(sub.subrange(8, 12) =~= self.buffer@.subrange(12 * index + 8, 12 * index + 12));
        }
        Some(node)
    }

    /// Returns the number of nodes in the buffer.
    pub fn len(&self) -> (r: usize)
        ensures
            r == self.entries().len(),
    {
        self.count
    }

    /// Returns true if the buffer is empty.
    pub fn is_empty(&self) -> (r: bool)
        ensures
            r == (self.entries().len() == 0),
    {
        self.count == 0
    }

    /// Returns the raw byte buffer.
    pub fn as_bytes(&self) -> (r: &[u8])
        ensures
            r@ == self.bytes(),
    {
        self.buffer.as_slice()
    }

    /// Clears all nodes from the buffer.
    pub fn clear(&mut self)
        ensures
            final(self).wf(),
            final(self).entries() =~= Seq::<NodeBinaryFormat>::empty(),
            final(self).bytes() =~= Seq::<u8>::empty(),
    {
        self.buffer.clear();
        self.count = 0;
    }

    /// The stored nodes, decoded in order.
    pub fn iter(&self) -> (r: Vec<NodeBinaryFormat>)
        requires
            self.wf(),
        ensures
            r@ == self.entries(),
    {
        let mut out: Vec<NodeBinaryFormat> = Vec::new();
        let mut i: usize = 0;
        while i < self.count
            invariant
                self.wf(),
                i <= self.count,
                out@ =~= self.entries().take(i as int),
            decreases self.count - i,
        {
            let n = match self.get(i) {
                Some(n) => n,
                None => {
                    proof {
                        assert(false);
                    }
                    NodeBinaryFormat { id: 0, node_type: 0, props_offset: 0 }
                },
            };
            out.push(n);
            proof {
                assert(out@ =~= self.entries().take(i + 1));
            }
            i += 1;
        }
        proof {
            assert(self.entries().take(self.count as int) =~= self.entries());
        }
        out
    }
}

} // verus!
