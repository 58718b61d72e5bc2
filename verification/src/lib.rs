//! Harmony design-system core: a verified quadtree spatial index together
//! with the graph schemas, lifecycle state machines and binary codecs that
//! surround it.

use vstd::prelude::*;

pub mod component_lifecycle;
pub mod component_ui_link;
pub mod component_ui_links;
pub mod edge_binary_format;
pub mod edge_types;
pub mod full_text;
pub mod implements_design;
pub mod lifecycle_states;
pub mod node_binary_format;
pub mod node_registry;
pub mod props_binary_format;
pub mod shared_buffer;
pub mod spatial;
pub mod template_node;
pub mod traversal;

verus! {

/// Largest coordinate magnitude the spatial index accepts; keeps every
/// distance computation inside `i128` range.
pub const MAX_COORD: i64 = 0x1000_0000_0000_0000;

/// True when a coordinate is small enough for overflow-free arithmetic.
pub open spec fn in_coord_range(v: i64) -> bool {
    -MAX_COORD <= v <= MAX_COORD
}

/// Runtime test of [`in_coord_range`], for callers that must screen
/// host-supplied coordinates before handing them to the index.
pub fn coord_in_range(v: i64) -> (r: bool)
    ensures
        r == in_coord_range(v),
{
    -MAX_COORD <= v && v <= MAX_COORD
}

} // verus!
