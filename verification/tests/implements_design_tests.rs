use harmony::implements_design::{ImplementationNode, ImplementationQuery, ImplementsDesignEdge};

#[test]
fn test_implementation_node_creation() {
    let node = ImplementationNode::new("components/Button.tsx".to_string(), "Button".to_string());

    assert_eq!(node.language, "tsx");
    assert_eq!(node.component_name, "Button");
    assert!(node.validate().is_ok());
}

#[test]
fn test_edge_completeness_bounds() {
    // Completeness is kept in hundredths; values beyond one hundred are
    // clamped down to it.
    let edge = ImplementsDesignEdge::new("impl:Button.tsx".to_string(), "spec:button".to_string())
        .with_completeness(150);

    assert_eq!(edge.completeness, 100);
}

#[test]
fn test_edge_is_complete() {
    let complete = ImplementsDesignEdge::new(
        "impl:Button.tsx".to_string(),
        "spec:button".to_string(),
    )
    .with_completeness(100);

    assert!(complete.is_complete());

    let incomplete = complete.clone().with_deviation("Missing hover state".to_string());
    assert!(!incomplete.is_complete());
}

#[test]
fn test_node_id_and_languages() {
    let node = ImplementationNode::new("a/b.ts".to_string(), "B".to_string());
    assert_eq!(node.id, "impl:a/b.ts");
    assert_eq!(node.language, "ts");

    let js = ImplementationNode::new("c.js".to_string(), "C".to_string());
    assert_eq!(js.language, "js");

    let other = ImplementationNode::new("style.css".to_string(), "S".to_string());
    assert_eq!(other.language, "unknown");
    assert!(other.validate().is_err());
}

#[test]
fn test_mark_verified_sets_timestamp() {
    let edge = ImplementsDesignEdge::new("impl:A.tsx".to_string(), "spec:a".to_string())
        .mark_verified();
    let ts = edge.last_verified.unwrap();
    assert!(ts > 0);
}

#[test]
fn test_with_states_and_exports() {
    let edge = ImplementsDesignEdge::new("impl:A.tsx".to_string(), "spec:a".to_string())
        .with_states(vec!["hover".to_string(), "focus".to_string()])
        .with_variants(vec!["compact".to_string()]);
    assert_eq!(edge.implemented_states.len(), 2);
    assert_eq!(edge.implemented_variants, vec!["compact".to_string()]);
    assert!(edge.validate().is_ok());

    let node = ImplementationNode::new("x.tsx".to_string(), "X".to_string())
        .with_exports(vec!["X".to_string(), "XProps".to_string()]);
    assert_eq!(node.exports.len(), 2);
}

#[test]
fn test_find_incomplete() {
    let mut query = ImplementationQuery::new();

    let node = ImplementationNode::new("Button.tsx".to_string(), "Button".to_string());
    assert!(query.add_node(node));

    let edge = ImplementsDesignEdge::new("impl:Button.tsx".to_string(), "spec:button".to_string())
        .with_completeness(70);
    query.add_edge("spec:button".to_string(), edge);

    let incomplete = query.find_incomplete();
    assert_eq!(incomplete.len(), 1);
}

#[test]
fn test_query_lookups() {
    let mut query = ImplementationQuery::new();
    let node = ImplementationNode::new("Card.tsx".to_string(), "Card".to_string());
    let node_id = node.id.clone();
    query.add_node(node);
    query.add_edge(
        "spec:card".to_string(),
        ImplementsDesignEdge::new(node_id.clone(), "spec:card".to_string())
            .with_deviation("Missing focus ring".to_string()),
    );

    let impls = query.find_for_spec("spec:card");
    assert_eq!(impls.len(), 1);
    assert_eq!(impls[0].component_name, "Card");

    assert_eq!(query.find_spec_for_impl(&node_id), Some("spec:card".to_string()));
    assert_eq!(query.find_spec_for_impl("impl:Other.tsx"), None);

    let deviating = query.find_with_deviations();
    assert_eq!(deviating.len(), 1);

    let unimplemented = query.find_unimplemented_specs(&vec![
        "spec:card".to_string(),
        "spec:list".to_string(),
    ]);
    assert_eq!(unimplemented, vec!["spec:list".to_string()]);
}

#[test]
fn test_validate_error_messages() {
    let mut edge =
        ImplementsDesignEdge::new("impl:A.tsx".to_string(), "spec:a".to_string());
    edge.completeness = 250;
    assert_eq!(edge.validate().unwrap_err(), "Completeness must be between 0 and 100");

    let mut node = ImplementationNode::new("a.tsx".to_string(), "A".to_string());
    node.language = "rb".to_string();
    assert_eq!(node.validate().unwrap_err(), "Invalid language");

    let bad_ext = ImplementationNode {
        id: "impl:a.css".to_string(),
        file_path: "a.css".to_string(),
        language: "ts".to_string(),
        component_name: "A".to_string(),
        exports: Vec::new(),
    };
    assert_eq!(bad_ext.validate().unwrap_err(), "Invalid file extension");
}
