//! Edge type definitions for the design-system graph: the semantic
//! relationships between components, patterns, tokens and designs.

use vstd::prelude::*;

verus! {

use vstd::string::StringExecFns;

/// Edge types representing relationships in the design system graph.
#[derive(Debug, Clone, Copy, PartialEq, Eq, Hash, Structural)]
pub enum EdgeType {
    /// Component A is composed of component B (A contains B).
    ComposesOf,
    /// Component A inherits pattern from pattern B (A derives from B).
    InheritsPattern,
    /// Component A implements design B (A realizes B).
    ImplementsDesign,
    /// Component A uses token B (A depends on B).
    UsesToken,
    /// Component A is used by component B (reverse of `ComposesOf`).
    UsedBy,
}

impl EdgeType {
    /// The inverse edge type, where one is defined: composition and its
    /// reverse invert each other; the other types have no inverse.
    pub open spec fn spec_reverse(self) -> Option<EdgeType> {
        match self {
            EdgeType::ComposesOf => Some(EdgeType::UsedBy),
            EdgeType::UsedBy => Some(EdgeType::ComposesOf),
            _ => None,
        }
    }

    /// Returns the reverse edge type if applicable.
    pub fn reverse(&self) -> (r: Option<EdgeType>)
        ensures
            r == self.spec_reverse(),
    {
        match self {
            EdgeType::ComposesOf => Some(EdgeType::UsedBy),
            EdgeType::UsedBy => Some(EdgeType::ComposesOf),
            _ => None,
        }
    }

    /// Returns true if this edge type represents a dependency.
    pub fn is_dependency(&self) -> (r: bool)
        ensures
            r == (*self == EdgeType::UsesToken || *self == EdgeType::InheritsPattern),
    {
        matches!(self, EdgeType::UsesToken | EdgeType::InheritsPattern)
    }

    /// Returns true if this edge type represents composition.
    pub fn is_composition(&self) -> (r: bool)
        ensures
            r == (*self == EdgeType::ComposesOf || *self == EdgeType::UsedBy),
    {
        matches!(self, EdgeType::ComposesOf | EdgeType::UsedBy)
    }

    /// Returns a human-readable description of the edge type.
    pub fn description(&self) -> (r: &'static str)
        ensures
            r@ == match self {
                EdgeType::ComposesOf => "Component is composed of another component"@,
                EdgeType::InheritsPattern => "Component inherits from a pattern"@,
                EdgeType::ImplementsDesign => "Component implements a design specification"@,
                EdgeType::UsesToken => "Component uses a design token"@,
                EdgeType::UsedBy => "Component is used by another component"@,
            },
    {
        match self {
            EdgeType::ComposesOf => "Component is composed of another component",
            EdgeType::InheritsPattern => "Component inherits from a pattern",
            EdgeType::ImplementsDesign => "Component implements a design specification",
            EdgeType::UsesToken => "Component uses a design token",
            EdgeType::UsedBy => "Component is used by another component",
        }
    }
}

/// Law: reversing an edge type twice gives the type back, for every type
/// that has a reverse.
pub proof fn lemma_edge_type_reverse_involution(t: EdgeType)
    requires
        t.spec_reverse() is Some,
    ensures
        t.spec_reverse()->0.spec_reverse() == Some(t),
{
}

/// Metadata that can be attached to edges. The weight is kept in
/// thousandths (zero through one thousand), the free-form properties as
/// their textual form.
#[derive(Debug, Clone)]
pub struct EdgeMetadata {
    /// Weight or strength of the relationship, in thousandths.
    pub weight: Option<u32>,
    /// Optional label for display purposes.
    pub label: Option<String>,
    /// Additional custom properties, as text.
    pub properties: Option<String>,
}

/// Field-by-field copy of edge metadata, preserving every view.
fn clone_metadata(m: &EdgeMetadata) -> (r: EdgeMetadata)
    ensures
        r.weight == m.weight,
        match (r.label, m.label) {
            (Some(a), Some(b)) => a@ == b@,
            (None, None) => true,
            _ => false,
        },
        match (r.properties, m.properties) {
            (Some(a), Some(b)) => a@ == b@,
            (None, None) => true,
            _ => false,
        },
{
    EdgeMetadata {
        weight: m.weight,
        label: match &m.label {
            Some(l) => Some(l.clone()),
            None => None,
        },
        properties: match &m.properties {
            Some(p) => Some(p.clone()),
            None => None,
        },
    }
}

/// Edge data structure representing a relationship between two nodes.
#[derive(Debug, Clone)]
pub struct Edge {
    /// Unique identifier for this edge.
    pub id: String,
    /// Source node ID.
    pub from: String,
    /// Target node ID.
    pub to: String,
    /// Type of relationship.
    pub edge_type: EdgeType,
    /// Optional metadata about the relationship.
    pub metadata: Option<EdgeMetadata>,
}

impl Edge {
    /// Creates a new edge with the given parameters and no metadata.
    pub fn new(id: String, from: String, to: String, edge_type: EdgeType) -> (r: Self)
        ensures
            r.id == id,
            r.from == from,
            r.to == to,
            r.edge_type == edge_type,
            r.metadata is None,
    {
        Self { id, from, to, edge_type, metadata: None }
    }

    /// Creates a new edge with metadata.
    pub fn with_metadata(
        id: String,
        from: String,
        to: String,
        edge_type: EdgeType,
        metadata: EdgeMetadata,
    ) -> (r: Self)
        ensures
            r.id == id,
            r.from == from,
            r.to == to,
            r.edge_type == edge_type,
            r.metadata == Some(metadata),
    {
        Self { id, from, to, edge_type, metadata: Some(metadata) }
    }

    /// Returns the reverse edge if the edge type supports reversal: the
    /// endpoints swapped, the reversed type, the id suffixed, the
    /// metadata carried over.
    pub fn reverse(&self) -> (r: Option<Edge>)
        ensures
            self.edge_type.spec_reverse() is None ==> r is None,
            self.edge_type.spec_reverse() is Some ==> match r {
                Some(e) => {
                    &&& e.id@ == self.id@ + "_reverse"@
                    &&& e.from@ == self.to@
                    &&& e.to@ == self.from@
                    &&& e.edge_type == self.edge_type.spec_reverse()->0
                    &&& (e.metadata is Some <==> self.metadata is Some)
                },
                None => false,
            },
    {
        match self.edge_type.reverse() {
            Some(reversed_type) => {
                let id = self.id.clone().concat("_reverse");
                Some(
                    Edge {
                        id,
                        from: self.to.clone(),
                        to: self.from.clone(),
                        edge_type: reversed_type,
                        metadata: match &self.metadata {
                            Some(m) => Some(clone_metadata(m)),
                            None => None,
                        },
                    },
                )
            },
            None => None,
        }
    }
}

} // verus!
