use harmony::component_lifecycle::{
    ComponentLifecycleBC, ComponentState, StateTransition, TransitionResult,
};

#[test]
fn test_forward_transitions() {
    assert!(ComponentState::Draft.can_transition_to(ComponentState::DesignComplete));
    assert!(ComponentState::DesignComplete.can_transition_to(ComponentState::InDevelopment));
    assert!(ComponentState::InDevelopment.can_transition_to(ComponentState::Implemented));
    assert!(ComponentState::Implemented.can_transition_to(ComponentState::Published));
}

#[test]
fn component_lifecycle_test_backward_transitions() {
    assert!(ComponentState::DesignComplete.can_transition_to(ComponentState::Draft));
    assert!(ComponentState::InDevelopment.can_transition_to(ComponentState::DesignComplete));
    assert!(ComponentState::Implemented.can_transition_to(ComponentState::InDevelopment));
    assert!(ComponentState::Published.can_transition_to(ComponentState::Implemented));
}

#[test]
fn component_lifecycle_test_invalid_transitions() {
    assert!(!ComponentState::Draft.can_transition_to(ComponentState::InDevelopment));
    assert!(!ComponentState::Draft.can_transition_to(ComponentState::Implemented));
    assert!(!ComponentState::Draft.can_transition_to(ComponentState::Published));
    assert!(!ComponentState::DesignComplete.can_transition_to(ComponentState::Implemented));
}

#[test]
fn test_same_state_transition() {
    assert!(ComponentState::Draft.can_transition_to(ComponentState::Draft));
    assert!(ComponentState::Published.can_transition_to(ComponentState::Published));
}

#[test]
fn test_next_states() {
    let draft_next = ComponentState::Draft.next_states();
    assert_eq!(draft_next.len(), 1);
    assert!(draft_next.contains(&ComponentState::DesignComplete));

    let design_next = ComponentState::DesignComplete.next_states();
    assert_eq!(design_next.len(), 2);
    assert!(design_next.contains(&ComponentState::InDevelopment));
    assert!(design_next.contains(&ComponentState::Draft));
}

#[test]
fn test_all_states_count() {
    assert_eq!(ComponentState::all_states().len(), 5);
}

fn transition(id: &str, from: ComponentState, to: ComponentState) -> StateTransition {
    StateTransition { component_id: id.to_string(), from_state: from, to_state: to, reason: None }
}

#[test]
fn test_bc_initialize_and_transition() {
    let mut bc = ComponentLifecycleBC::new();
    let r = bc.initialize_component("button");
    assert!(r.success);
    assert_eq!(r.new_state, Some(ComponentState::Draft));
    assert_eq!(bc.get_component_state("button"), Some(ComponentState::Draft));

    let r: TransitionResult =
        bc.transition_component(&transition("button", ComponentState::Draft, ComponentState::DesignComplete));
    assert!(r.success);
    assert_eq!(r.new_state, Some(ComponentState::DesignComplete));
    assert_eq!(bc.get_component_state("button"), Some(ComponentState::DesignComplete));
}

#[test]
fn test_bc_component_not_found() {
    let mut bc = ComponentLifecycleBC::new();
    let r = bc.transition_component(&transition(
        "ghost-component",
        ComponentState::Draft,
        ComponentState::DesignComplete,
    ));
    assert!(!r.success);
    assert_eq!(r.new_state, None);
    assert_eq!(r.error.as_deref(), Some("Component not found"));
}

#[test]
fn test_bc_state_mismatch_message() {
    let mut bc = ComponentLifecycleBC::new();
    bc.initialize_component("card");
    let r = bc.transition_component(&transition(
        "card",
        ComponentState::Implemented,
        ComponentState::Published,
    ));
    assert!(!r.success);
    assert_eq!(r.new_state, Some(ComponentState::Draft));
    assert_eq!(
        r.error.as_deref(),
        Some("State mismatch: expected implemented, found draft")
    );
    assert_eq!(bc.get_component_state("card"), Some(ComponentState::Draft));
}

#[test]
fn test_bc_invalid_transition_message() {
    let mut bc = ComponentLifecycleBC::new();
    bc.initialize_component("card");
    let r = bc.transition_component(&transition(
        "card",
        ComponentState::Draft,
        ComponentState::Published,
    ));
    assert!(!r.success);
    assert_eq!(r.new_state, Some(ComponentState::Draft));
    assert_eq!(r.error.as_deref(), Some("Invalid transition: draft -> published"));
}

#[test]
fn test_bc_get_next_states() {
    let mut bc = ComponentLifecycleBC::new();
    assert!(bc.get_next_states("nothing").is_empty());
    bc.initialize_component("x");
    let next = bc.get_next_states("x");
    assert_eq!(next, vec![ComponentState::DesignComplete]);
}
