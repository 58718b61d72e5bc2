use harmony::edge_types::{Edge, EdgeMetadata, EdgeType};

#[test]
fn test_edge_type_reverse() {
    assert_eq!(EdgeType::ComposesOf.reverse(), Some(EdgeType::UsedBy));
    assert_eq!(EdgeType::UsedBy.reverse(), Some(EdgeType::ComposesOf));
    assert_eq!(EdgeType::UsesToken.reverse(), None);
}

#[test]
fn test_edge_type_classification() {
    assert!(EdgeType::UsesToken.is_dependency());
    assert!(EdgeType::InheritsPattern.is_dependency());
    assert!(!EdgeType::ComposesOf.is_dependency());

    assert!(EdgeType::ComposesOf.is_composition());
    assert!(EdgeType::UsedBy.is_composition());
    assert!(!EdgeType::UsesToken.is_composition());
}

#[test]
fn edge_types_test_edge_creation() {
    let edge = Edge::new(
        "edge1".to_string(),
        "button".to_string(),
        "color-token".to_string(),
        EdgeType::UsesToken,
    );

    assert_eq!(edge.id, "edge1");
    assert_eq!(edge.from, "button");
    assert_eq!(edge.to, "color-token");
    assert_eq!(edge.edge_type, EdgeType::UsesToken);
    assert!(edge.metadata.is_none());
}

#[test]
fn test_edge_reverse() {
    let edge = Edge::new(
        "edge1".to_string(),
        "form".to_string(),
        "button".to_string(),
        EdgeType::ComposesOf,
    );

    let reversed = edge.reverse().unwrap();
    assert_eq!(reversed.from, "button");
    assert_eq!(reversed.to, "form");
    assert_eq!(reversed.edge_type, EdgeType::UsedBy);
}

#[test]
fn test_edge_type_workflow() {
    // Create a composition relationship
    let composes_edge = Edge::new(
        "form-button".to_string(),
        "form".to_string(),
        "button".to_string(),
        EdgeType::ComposesOf,
    );

    assert_eq!(composes_edge.edge_type, EdgeType::ComposesOf);
    assert!(composes_edge.edge_type.is_composition());

    // Create the reverse relationship
    let used_by_edge = composes_edge.reverse().unwrap();
    assert_eq!(used_by_edge.edge_type, EdgeType::UsedBy);
    assert_eq!(used_by_edge.from, "button");
    assert_eq!(used_by_edge.to, "form");
}

#[test]
fn test_token_usage_relationship() {
    let metadata = EdgeMetadata {
        weight: Some(1000),
        label: Some("Primary background color".to_string()),
        properties: None,
    };

    let edge = Edge::with_metadata(
        "button-color".to_string(),
        "button".to_string(),
        "color-primary".to_string(),
        EdgeType::UsesToken,
        metadata,
    );

    assert!(edge.edge_type.is_dependency());
    assert!(edge.metadata.is_some());

    // UsesToken doesn't have a reverse
    assert!(edge.reverse().is_none());
}

#[test]
fn test_pattern_inheritance() {
    let edge = Edge::new(
        "primary-base".to_string(),
        "primary-button".to_string(),
        "base-button".to_string(),
        EdgeType::InheritsPattern,
    );

    assert_eq!(edge.edge_type, EdgeType::InheritsPattern);
    assert!(edge.edge_type.is_dependency());
    assert!(!edge.edge_type.is_composition());
}

#[test]
fn test_design_implementation() {
    let edge = Edge::new(
        "impl-spec".to_string(),
        "button-component".to_string(),
        "button-design-spec".to_string(),
        EdgeType::ImplementsDesign,
    );

    assert_eq!(edge.edge_type, EdgeType::ImplementsDesign);
    assert_eq!(
        edge.edge_type.description(),
        "Component implements a design specification"
    );
}

#[test]
fn test_reverse_id_suffix_and_metadata_carry() {
    let metadata = EdgeMetadata { weight: Some(500), label: None, properties: None };
    let edge = Edge::with_metadata(
        "e1".to_string(),
        "form".to_string(),
        "button".to_string(),
        EdgeType::ComposesOf,
        metadata,
    );
    let reversed = edge.reverse().unwrap();
    assert_eq!(reversed.id, "e1_reverse");
    assert_eq!(reversed.metadata.as_ref().unwrap().weight, Some(500));
}
