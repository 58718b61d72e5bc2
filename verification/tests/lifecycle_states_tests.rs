use harmony::lifecycle_states::{LifecycleEntry, LifecycleHistory, LifecycleState, StateMetadata};

#[test]
fn test_valid_transitions() {
    assert!(LifecycleState::Draft.can_transition_to(&LifecycleState::DesignComplete));
    assert!(LifecycleState::DesignComplete.can_transition_to(&LifecycleState::InDevelopment));
    assert!(LifecycleState::InDevelopment.can_transition_to(&LifecycleState::Implemented));
    assert!(LifecycleState::Implemented.can_transition_to(&LifecycleState::Published));
    assert!(LifecycleState::Published.can_transition_to(&LifecycleState::Deprecated));
}

#[test]
fn lifecycle_states_test_invalid_transitions() {
    assert!(!LifecycleState::Draft.can_transition_to(&LifecycleState::Published));
    assert!(!LifecycleState::Deprecated.can_transition_to(&LifecycleState::Published));
}

#[test]
fn lifecycle_states_test_backward_transitions() {
    assert!(LifecycleState::DesignComplete.can_transition_to(&LifecycleState::Draft));
    assert!(LifecycleState::InDevelopment.can_transition_to(&LifecycleState::DesignComplete));
    assert!(LifecycleState::Implemented.can_transition_to(&LifecycleState::InDevelopment));
}

#[test]
fn test_lifecycle_history() {
    let mut history = LifecycleHistory::new();

    assert!(history.transition_to(LifecycleState::Draft).is_ok());
    assert!(history.transition_to(LifecycleState::DesignComplete).is_ok());
    assert!(history.transition_to(LifecycleState::InDevelopment).is_ok());

    // Invalid transition
    assert!(history.transition_to(LifecycleState::Draft).is_err());

    assert_eq!(history.current_state().unwrap().state, LifecycleState::InDevelopment);
}

#[test]
fn test_all_lists_every_state() {
    let all = LifecycleState::all();
    assert_eq!(all.len(), 6);
    assert_eq!(all[0], LifecycleState::Draft);
    assert_eq!(all[5], LifecycleState::Deprecated);
}

#[test]
fn test_deprecated_has_no_transitions() {
    assert!(LifecycleState::Deprecated.valid_transitions().is_empty());
}

#[test]
fn test_every_live_state_can_deprecate() {
    for s in LifecycleState::all() {
        if s != LifecycleState::Deprecated {
            assert!(s.can_transition_to(&LifecycleState::Deprecated));
        }
    }
}

#[test]
fn test_transition_error_message() {
    let mut history = LifecycleHistory::new();
    history.transition_to(LifecycleState::Draft).unwrap();
    let err = history.transition_to(LifecycleState::Published).unwrap_err();
    assert_eq!(err, "Invalid transition from draft to published");
}

#[test]
fn test_entry_timestamp_is_nonempty() {
    let mut history = LifecycleHistory::new();
    history.transition_to(LifecycleState::Draft).unwrap();
    let entry = history.current_state().unwrap();
    assert!(!entry.timestamp.is_empty());
    // An RFC 3339 timestamp of the current clock carries a date part.
    assert!(entry.timestamp.contains('-'));
}

#[test]
fn test_transition_with_metadata_records_it() {
    let mut history = LifecycleHistory::new();
    let metadata = StateMetadata {
        reason: Some("initial design".to_string()),
        changed_by: Some("designer".to_string()),
        notes: None,
    };
    history
        .transition_to_with_metadata(LifecycleState::Draft, metadata)
        .unwrap();
    let entry = history.current_state().unwrap();
    let m = entry.metadata.as_ref().unwrap();
    assert_eq!(m.reason.as_deref(), Some("initial design"));
    assert_eq!(m.changed_by.as_deref(), Some("designer"));
}

#[test]
fn test_descriptions_are_distinct() {
    let all = LifecycleState::all();
    for a in 0..all.len() {
        for b in (a + 1)..all.len() {
            assert_ne!(all[a].description(), all[b].description());
        }
    }
}

#[test]
fn test_metadata_is_stored_verbatim() {
    let entry = LifecycleEntry::with_metadata(
        LifecycleState::Draft,
        StateMetadata {
            reason: Some("kickoff".to_string()),
            changed_by: None,
            notes: Some("first pass".to_string()),
        },
    );
    let m = entry.metadata.unwrap();
    assert_eq!(m.reason.as_deref(), Some("kickoff"));
    assert_eq!(m.changed_by, None);
    assert_eq!(m.notes.as_deref(), Some("first pass"));
}
