//! Compact binary representation of a graph edge: source, target and edge
//! type, twelve bytes per edge, all fields little-endian `u32`.

use vstd::prelude::*;

verus! {

use vstd::bytes::{spec_u32_to_le_bytes, spec_u32_from_le_bytes, u32_to_le_bytes, u32_from_le_bytes};
use vstd::slice::slice_subrange;

/// Size of a single edge in bytes.
pub const EDGE_SIZE: usize = 12;

/// Compact binary representation of a graph edge.
#[derive(Debug, Clone, Copy, PartialEq, Eq, Structural)]
pub struct EdgeBinaryFormat {
    source: u32,
    target: u32,
    edge_type: u32,
}

impl EdgeBinaryFormat {
    /// Source node id.
    pub closed spec fn spec_source(self) -> u32 {
        self.source
    }

    /// Target node id.
    pub closed spec fn spec_target(self) -> u32 {
        self.target
    }

    /// Edge type id.
    pub closed spec fn spec_edge_type(self) -> u32 {
        self.edge_type
    }

    /// The twelve bytes that encode this edge.
    pub open spec fn spec_bytes(self) -> Seq<u8> {
        spec_u32_to_le_bytes(self.spec_source()) + spec_u32_to_le_bytes(self.spec_target())
            + spec_u32_to_le_bytes(self.spec_edge_type())
    }

    /// The edge encoded at byte offset `at` of a buffer.
    pub closed spec fn spec_decode(b: Seq<u8>, at: int) -> EdgeBinaryFormat {
        EdgeBinaryFormat {
            source: spec_u32_from_le_bytes(b.subrange(at, at + 4)),
            target: spec_u32_from_le_bytes(b.subrange(at + 4, at + 8)),
            edge_type: spec_u32_from_le_bytes(b.subrange(at + 8, at + 12)),
        }
    }

    /// Decoding is the inverse of encoding.
    pub proof fn lemma_decode_encode(self, b: Seq<u8>, at: int)
        requires
            0 <= at,
            at + 12 <= b.len(),
            b.subrange(at, at + 12) == self.spec_bytes(),
        ensures
            Self::spec_decode(b, at) == self,
    {
        vstd::bytes::lemma_auto_spec_u32_to_from_le_bytes();
        let sub = b.subrange(at, at + 12);
        assert(b.subrange(at, at + 4) =~= sub.subrange(0, 4));
        assert(b.subrange(at + 4, at + 8) =~= sub.subrange(4, 8));
        assert(b.subrange(at + 8, at + 12) =~= sub.subrange(8, 12));
        assert(sub.subrange(0, 4) =~= spec_u32_to_le_bytes(self.spec_source()));
        assert(sub.subrange(4, 8) =~= spec_u32_to_le_bytes(self.spec_target()));
        assert(sub.subrange(8, 12) =~= spec_u32_to_le_bytes(self.spec_edge_type()));
    }

    /// Creates a new edge with the given source, target, and type.
    pub fn new(source: u32, target: u32, edge_type: u32) -> (r: Self)
        ensures
            r.spec_source() == source,
            r.spec_target() == target,
            r.spec_edge_type() == edge_type,
    {
        Self { source, target, edge_type }
    }

    /// Gets the source node id.
    pub fn source(&self) -> (r: u32)
        ensures
            r == self.spec_source(),
    {
        self.source
    }

    /// Gets the target node id.
    pub fn target(&self) -> (r: u32)
        ensures
            r == self.spec_target(),
    {
        self.target
    }

    /// Gets the edge type id.
    pub fn edge_type(&self) -> (r: u32)
        ensures
            r == self.spec_edge_type(),
    {
        self.edge_type
    }

    /// The twelve bytes of this edge, as a fresh vector.
    fn bytes_vec(&self) -> (r: Vec<u8>)
        ensures
            r@ == self.spec_bytes(),
            r@.len() == EDGE_SIZE,
    {
        let mut bytes = u32_to_le_bytes(self.source);
        let mut t = u32_to_le_bytes(self.target);
        let mut e = u32_to_le_bytes(self.edge_type);
        bytes.append(&mut t);
        bytes.append(&mut e);
        proof {
            vstd::bytes::lemma_auto_spec_u32_to_from_le_bytes();
        }
        bytes
    }

    /// Serializes the edge into `buffer` at `offset`, leaving every other
    /// byte unchanged; fails exactly when the buffer is too small, and
    /// returns the number of bytes written otherwise.
    pub fn to_bytes(&self, buffer: &mut Vec<u8>, offset: usize) -> (r: Result<
        usize,
        &'static str,
    >)
        ensures
            offset + EDGE_SIZE <= old(buffer)@.len() ==> r == Ok::<usize, &'static str>(EDGE_SIZE)
                && final(buffer)@ =~= old(buffer)@.take(offset as int) + self.spec_bytes() + old(
                buffer,
            )@.skip(offset as int + EDGE_SIZE as int),
            offset + EDGE_SIZE > old(buffer)@.len() ==> match r {
                Ok(_) => false,
                Err(m) => m@ == "Buffer too small for edge serialization"@ && final(buffer)@
                    == old(buffer)@,
            },
    {
        if buffer.len() < EDGE_SIZE || offset > buffer.len() - EDGE_SIZE {
            return Err("Buffer too small for edge serialization");
        }
        let bytes = self.bytes_vec();
        let blen = buffer.len();
        let mut i: usize = 0;
        while i < EDGE_SIZE
            invariant
                i <= EDGE_SIZE,
                bytes@ == self.spec_bytes(),
                bytes@.len() == EDGE_SIZE,
                offset + EDGE_SIZE <= blen,
                buffer@.len() == blen,
                buffer@.len() == old(buffer)@.len(),
                forall|j: int| 0 <= j < i ==> buffer@[offset + j] == bytes@[j],
                forall|j: int|
                    0 <= j < buffer@.len() && !(offset <= j < offset + i) ==> buffer@[j] == old(
                        buffer,
                    )@[j],
            decreases EDGE_SIZE - i,
        {
            buffer[offset + i] = bytes[i];
            i += 1;
        }
        proof {
            assert(buffer@ =~= old(buffer)@.take(offset as int) + self.spec_bytes() + old(
                buffer,
            )@.skip(offset as int + EDGE_SIZE as int));
        }
        Ok(EDGE_SIZE)
    }

    /// Deserializes an edge from `buffer` at `offset`: succeeds exactly
    /// when twelve bytes are available there, and returns the edge those
    /// bytes encode.
    pub fn from_bytes(buffer: &[u8], offset: usize) -> (r: Result<EdgeBinaryFormat, &'static str>)
        ensures
            offset + EDGE_SIZE <= buffer@.len() ==> r == Ok::<EdgeBinaryFormat, &'static str>(
                Self::spec_decode(buffer@, offset as int),
            ),
            offset + EDGE_SIZE > buffer@.len() ==> match r {
                Ok(_) => false,
                Err(m) => m@ == "Buffer too small for edge deserialization"@,
            },
    {
        if buffer.len() < EDGE_SIZE || offset > buffer.len() - EDGE_SIZE {
            return Err("Buffer too small for edge deserialization");
        }
        let source = u32_from_le_bytes(slice_subrange(buffer, offset, offset + 4));
        let target = u32_from_le_bytes(slice_subrange(buffer, offset + 4, offset + 8));
        let edge_type = u32_from_le_bytes(slice_subrange(buffer, offset + 8, offset + 12));
        Ok(EdgeBinaryFormat { source, target, edge_type })
    }

    /// Checks if this edge connects the given nodes, in either direction.
    pub fn connects_nodes(&self, node_a: u32, node_b: u32) -> (r: bool)
        ensures
            r == ((self.spec_source() == node_a && self.spec_target() == node_b) || (
            self.spec_source() == node_b && self.spec_target() == node_a)),
    {
        (self.source == node_a && self.target == node_b) || (self.source == node_b && self.target
            == node_a)
    }

    /// Checks if this edge is a self-loop.
    pub fn is_self_loop(&self) -> (r: bool)
        ensures
            r == (self.spec_source() == self.spec_target()),
    {
        self.source == self.target
    }

    /// Reverses the direction of the edge (swaps source and target).
    pub fn reverse(&self) -> (r: EdgeBinaryFormat)
        ensures
            r.spec_source() == self.spec_target(),
            r.spec_target() == self.spec_source(),
            r.spec_edge_type() == self.spec_edge_type(),
    {
        EdgeBinaryFormat { source: self.target, target: self.source, edge_type: self.edge_type }
    }
}

/// Batch serialization of edges to one contiguous buffer: twelve bytes
/// per edge, in order.
pub fn serialize_edges(edges: &[EdgeBinaryFormat]) -> (r: Vec<u8>)
    requires
        edges@.len() * 12 <= usize::MAX,
    ensures
        r@.len() == edges@.len() * 12,
        forall|i: int|
            0 <= i < edges@.len() ==> r@.subrange(12 * i, 12 * i + 12) == (
            #[trigger] edges@[i]).spec_bytes(),
{
    let mut out: Vec<u8> = Vec::new();
    let mut i: usize = 0;
    while i < edges.len()
        invariant
            i <= edges@.len(),
            edges@.len() * 12 <= usize::MAX,
            out@.len() == 12 * i,
            forall|j: int|
                0 <= j < i ==> out@.subrange(12 * j, 12 * j + 12) == (
                #[trigger] edges@[j]).spec_bytes(),
        decreases edges@.len() - i,
    {
        let e = edges[i];
        let mut bytes = e.bytes_vec();
        let ghost pre = out@;
        out.append(&mut bytes);
        proof {
            assert forall|j: int| 0 <= j < i + 1 implies out@.subrange(12 * j, 12 * j + 12) == (
            #[trigger] edges@[j]).spec_bytes() by {
                if j < i {
                    assert(out@.subrange(12 * j, 12 * j + 12) =~= pre.subrange(
                        12 * j,
                        12 * j + 12,
                    ));
                } else {
                    assert(out@.subrange(12 * j, 12 * j + 12) =~= edges@[j].spec_bytes());
                }
            }
        }
        i += 1;
    }
    out
}

/// Batch deserialization of edges from one contiguous buffer: fails
/// exactly when the buffer's size is not a multiple of twelve, and
/// otherwise returns each twelve-byte group decoded in order.
pub fn deserialize_edges(buffer: &[u8]) -> (r: Result<Vec<EdgeBinaryFormat>, &'static str>)
    ensures
        buffer@.len() % 12 != 0 ==> match r {
            Ok(_) => false,
            Err(m) => m@ == "Buffer size must be multiple of EDGE_SIZE"@,
        },
        buffer@.len() % 12 == 0 ==> match r {
            Ok(v) => v@.len() == buffer@.len() / 12 && forall|i: int|
                0 <= i < v@.len() ==> #[trigger] v@[i] == EdgeBinaryFormat::spec_decode(
                    buffer@,
                    12 * i,
                ),
            Err(_) => false,
        },
{
    if buffer.len() % EDGE_SIZE != 0 {
        return Err("Buffer size must be multiple of EDGE_SIZE");
    }
    let blen = buffer.len();
    let edge_count = buffer.len() / EDGE_SIZE;
    let mut edges: Vec<EdgeBinaryFormat> = Vec::new();
    let mut i: usize = 0;
    while i < edge_count
        invariant
            i <= edge_count,
            buffer@.len() == blen,
            edge_count == buffer@.len() / 12,
            buffer@.len() % 12 == 0,
            edges@.len() == i,
            forall|j: int|
                0 <= j < i ==> #[trigger] edges@[j] == EdgeBinaryFormat::spec_decode(
                    buffer@,
                    12 * j,
                ),
        decreases edge_count - i,
    {
        proof {
            assert(12 * edge_count <= blen);
            assert(12 * i + 12 <= blen);
        }
        let offset = i * EDGE_SIZE;
        let e = match EdgeBinaryFormat::from_bytes(buffer, offset) {
            Ok(e) => e,
            Err(_) => {
                proof {
                    assert(false);
                }
                EdgeBinaryFormat::new(0, 0, 0)
            },
        };
        edges.push(e);
        i += 1;
    }
    Ok(edges)
}

} // verus!
