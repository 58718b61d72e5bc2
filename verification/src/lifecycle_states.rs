//! Lifecycle states of a design-system component, with the allowed
//! transitions between them, and a timestamped history of state changes.

use vstd::prelude::*;

verus! {

use vstd::string::StringExecFns;

/// Lifecycle state of a component in the design system.
#[derive(Debug, Clone, Copy, PartialEq, Eq, Hash, Structural)]
pub enum LifecycleState {
    /// Initial state - component is being conceptualized.
    Draft,
    /// Design specification is complete and approved.
    DesignComplete,
    /// Component is actively being implemented.
    InDevelopment,
    /// Implementation is complete and tested.
    Implemented,
    /// Component is published and available for use.
    Published,
    /// Component is deprecated and should not be used in new work.
    Deprecated,
}

impl LifecycleState {
    /// Every state, in lifecycle order.
    pub open spec fn spec_all() -> Seq<LifecycleState> {
        seq![
            LifecycleState::Draft,
            LifecycleState::DesignComplete,
            LifecycleState::InDevelopment,
            LifecycleState::Implemented,
            LifecycleState::Published,
            LifecycleState::Deprecated,
        ]
    }

    /// Returns all valid lifecycle states.
    pub fn all() -> (r: Vec<LifecycleState>)
        ensures
            r@ == Self::spec_all(),
    {
        let mut v: Vec<LifecycleState> = Vec::new();
        v.push(LifecycleState::Draft);
        v.push(LifecycleState::DesignComplete);
        v.push(LifecycleState::InDevelopment);
        v.push(LifecycleState::Implemented);
        v.push(LifecycleState::Published);
        v.push(LifecycleState::Deprecated);
        proof {
            assert(v@ =~= Self::spec_all());
        }
        v
    }

    /// The states a state may move to: forward along the lifecycle, one
    /// step back for corrections, and (except from the end state)
    /// straight to deprecation.
    pub open spec fn spec_transitions(self) -> Seq<LifecycleState> {
        match self {
            LifecycleState::Draft => seq![LifecycleState::DesignComplete, LifecycleState::Deprecated],
            LifecycleState::DesignComplete => seq![
                LifecycleState::InDevelopment,
                LifecycleState::Draft,
                LifecycleState::Deprecated,
            ],
            LifecycleState::InDevelopment => seq![
                LifecycleState::Implemented,
                LifecycleState::DesignComplete,
                LifecycleState::Deprecated,
            ],
            LifecycleState::Implemented => seq![
                LifecycleState::Published,
                LifecycleState::InDevelopment,
                LifecycleState::Deprecated,
            ],
            LifecycleState::Published => seq![
                LifecycleState::Deprecated,
                LifecycleState::InDevelopment,
            ],
            LifecycleState::Deprecated => Seq::empty(),
        }
    }

    /// Whether moving to `target` is allowed from this state.
    pub open spec fn spec_can_transition(self, target: LifecycleState) -> bool {
        self.spec_transitions().contains(target)
    }

    /// Returns valid next states from the current state.
    pub fn valid_transitions(&self) -> (r: Vec<LifecycleState>)
        ensures
            r@ == self.spec_transitions(),
    {
        let mut v: Vec<LifecycleState> = Vec::new();
        match self {
            LifecycleState::Draft => {
                v.push(LifecycleState::DesignComplete);
                v.push(LifecycleState::Deprecated);
            },
            LifecycleState::DesignComplete => {
                v.push(LifecycleState::InDevelopment);
                v.push(LifecycleState::Draft);
                v.push(LifecycleState::Deprecated);
            },
            LifecycleState::InDevelopment => {
                v.push(LifecycleState::Implemented);
                v.push(LifecycleState::DesignComplete);
                v.push(LifecycleState::Deprecated);
            },
            LifecycleState::Implemented => {
                v.push(LifecycleState::Published);
                v.push(LifecycleState::InDevelopment);
                v.push(LifecycleState::Deprecated);
            },
            LifecycleState::Published => {
                v.push(LifecycleState::Deprecated);
                v.push(LifecycleState::InDevelopment);
            },
            LifecycleState::Deprecated => {},
        }
        proof {
            assert(v@ =~= self.spec_transitions());
        }
        v
    }

    /// Checks if a transition to another state is valid.
    pub fn can_transition_to(&self, target: &LifecycleState) -> (r: bool)
        ensures
            r == self.spec_can_transition(*target),
    {
        let ts = self.valid_transitions();
        let mut i: usize = 0;
        while i < ts.len()
            invariant
                i <= ts@.len(),
                ts@ == self.spec_transitions(),
                forall|j: int| 0 <= j < i ==> ts@[j] != *target,
            decreases ts@.len() - i,
        {
            if ts[i] == *target {
                return true;
            }
            i += 1;
        }
        false
    }

    /// The snake_case name of the state, as it is written out.
    pub open spec fn spec_name(self) -> Seq<char> {
        match self {
            LifecycleState::Draft => "draft"@,
            LifecycleState::DesignComplete => "design_complete"@,
            LifecycleState::InDevelopment => "in_development"@,
            LifecycleState::Implemented => "implemented"@,
            LifecycleState::Published => "published"@,
            LifecycleState::Deprecated => "deprecated"@,
        }
    }

    /// The snake_case name of the state.
    pub fn as_str(&self) -> (r: &'static str)
        ensures
            r@ == self.spec_name(),
    {
        match self {
            LifecycleState::Draft => "draft",
            LifecycleState::DesignComplete => "design_complete",
            LifecycleState::InDevelopment => "in_development",
            LifecycleState::Implemented => "implemented",
            LifecycleState::Published => "published",
            LifecycleState::Deprecated => "deprecated",
        }
    }

    /// Returns a human-readable description of the state.
    pub fn description(&self) -> (r: &'static str)
        ensures
            r@ == match self {
                LifecycleState::Draft => "Component is being conceptualized and designed"@,
                LifecycleState::DesignComplete => "Design specification is complete and approved"@,
                LifecycleState::InDevelopment => "Component is actively being implemented"@,
                LifecycleState::Implemented => "Implementation is complete and tested"@,
                LifecycleState::Published => "Component is published and available for use"@,
                LifecycleState::Deprecated => "Component is deprecated and should not be used in new work"@,
            },
    {
        match self {
            LifecycleState::Draft => "Component is being conceptualized and designed",
            LifecycleState::DesignComplete => "Design specification is complete and approved",
            LifecycleState::InDevelopment => "Component is actively being implemented",
            LifecycleState::Implemented => "Implementation is complete and tested",
            LifecycleState::Published => "Component is published and available for use",
            LifecycleState::Deprecated => "Component is deprecated and should not be used in new work",
        }
    }
}

/// Law: deprecation is terminal — no transition leaves `Deprecated`.
pub proof fn lemma_deprecated_is_terminal(target: LifecycleState)
    ensures
        !LifecycleState::Deprecated.spec_can_transition(target),
{
}

/// Law: every state other than `Deprecated` can reach `Deprecated`
/// directly.
pub proof fn lemma_all_states_can_deprecate(s: LifecycleState)
    requires
        s != LifecycleState::Deprecated,
    ensures
        s.spec_can_transition(LifecycleState::Deprecated),
{
    match s {
        LifecycleState::Draft => {
            assert(s.spec_transitions()[1] == LifecycleState::Deprecated);
        },
        LifecycleState::DesignComplete => {
            assert(s.spec_transitions()[2] == LifecycleState::Deprecated);
        },
        LifecycleState::InDevelopment => {
            assert(s.spec_transitions()[2] == LifecycleState::Deprecated);
        },
        LifecycleState::Implemented => {
            assert(s.spec_transitions()[2] == LifecycleState::Deprecated);
        },
        LifecycleState::Published => {
            assert(s.spec_transitions()[0] == LifecycleState::Deprecated);
        },
        LifecycleState::Deprecated => {},
    }
}

/// Relies on `chrono::Utc::now().to_rfc3339()` for the current moment as
/// an RFC 3339 timestamp; the result depends on the clock, so nothing
/// more than non-emptiness is assumed of it.
#[verifier::external_body]
fn now_rfc3339() -> (r: String)
    ensures
        r@.len() > 0,
{
    chrono::Utc::now().to_rfc3339()
}

/// Metadata associated with a lifecycle state change.
#[derive(Debug, Clone)]
pub struct StateMetadata {
    /// Optional reason for the state change.
    pub reason: Option<String>,
    /// Identifier of person or system that changed the state.
    pub changed_by: Option<String>,
    /// Additional notes about this state.
    pub notes: Option<String>,
}

/// A lifecycle state entry with timestamp and metadata.
#[derive(Debug, Clone)]
pub struct LifecycleEntry {
    /// The lifecycle state.
    pub state: LifecycleState,
    /// ISO 8601 timestamp when this state was entered.
    pub timestamp: String,
    /// Optional metadata about the state change.
    pub metadata: Option<StateMetadata>,
}

impl LifecycleEntry {
    /// Creates a new lifecycle entry with the current timestamp.
    pub fn new(state: LifecycleState) -> (r: Self)
        ensures
            r.state == state,
            r.metadata is None,
    {
        Self { state, timestamp: now_rfc3339(), metadata: None }
    }

    /// Creates a new lifecycle entry with metadata.
    pub fn with_metadata(state: LifecycleState, metadata: StateMetadata) -> (r: Self)
        ensures
            r.state == state,
            r.metadata == Some(metadata),
    {
        Self { state, timestamp: now_rfc3339(), metadata: Some(metadata) }
    }
}

/// The sequence of states a history has gone through, oldest first.
pub open spec fn history_states(entries: Seq<LifecycleEntry>) -> Seq<LifecycleState> {
    entries.map_values(|e: LifecycleEntry| e.state)
}

/// The message reported for a rejected transition.
pub open spec fn spec_invalid_transition_msg(from: LifecycleState, to: LifecycleState) -> Seq<
    char,
> {
    "Invalid transition from "@ + from.spec_name() + " to "@ + to.spec_name()
}

/// Complete history of lifecycle state changes.
#[derive(Debug, Clone)]
pub struct LifecycleHistory {
    /// Ordered list of state changes (oldest first).
    pub entries: Vec<LifecycleEntry>,
}

impl LifecycleHistory {
    /// Whether a history may take a step to `s`: any state starts an
    /// empty history; later states need a valid transition from the
    /// current one.
    pub open spec fn spec_may_enter(self, s: LifecycleState) -> bool {
        self.entries@.len() == 0 || self.entries@.last().state.spec_can_transition(s)
    }

    /// Creates a new empty history.
    pub fn new() -> (r: Self)
        ensures
            r.entries@.len() == 0,
    {
        Self { entries: Vec::new() }
    }

    /// Returns the current (most recent) state, if any.
    pub fn current_state(&self) -> (r: Option<&LifecycleEntry>)
        ensures
            match r {
                Some(e) => self.entries@.len() > 0 && *e == self.entries@.last(),
                None => self.entries@.len() == 0,
            },
    {
        if self.entries.len() == 0 {
            None
        } else {
            Some(&self.entries[self.entries.len() - 1])
        }
    }

    /// Adds a new state to the history; fails exactly when the current
    /// state does not allow the transition, naming both states in the
    /// error.
    pub fn transition_to(&mut self, new_state: LifecycleState) -> (r: Result<(), String>)
        ensures
            old(self).spec_may_enter(new_state) ==> {
                &&& r is Ok
                &&& final(self).entries@.len() == old(self).entries@.len() + 1
                &&& final(self).entries@.take(old(self).entries@.len() as int) == old(
                    self,
                ).entries@
                &&& final(self).entries@.last().state == new_state
                &&& final(self).entries@.last().metadata is None
            },
            !old(self).spec_may_enter(new_state) ==> *final(self) == *old(self) && match r {
                Ok(_) => false,
                Err(m) => m@ == spec_invalid_transition_msg(
                    old(self).entries@.last().state,
                    new_state,
                ),
            },
    {
        if self.entries.len() > 0 {
            let current = &self.entries[self.entries.len() - 1];
            if !current.state.can_transition_to(&new_state) {
                let msg = String::from_str("Invalid transition from ").concat(
                    current.state.as_str(),
                ).concat(" to ").concat(new_state.as_str());
                return Err(msg);
            }
        }
        let ghost pre = self.entries@;
        self.entries.push(LifecycleEntry::new(new_state));
        proof {
            assert(self.entries@.take(pre.len() as int) =~= pre);
        }
        Ok(())
    }

    /// Adds a new state with metadata to the history; fails exactly as
    /// `transition_to` does.
    pub fn transition_to_with_metadata(
        &mut self,
        new_state: LifecycleState,
        metadata: StateMetadata,
    ) -> (r: Result<(), String>)
        ensures
            old(self).spec_may_enter(new_state) ==> {
                &&& r is Ok
                &&& final(self).entries@.len() == old(self).entries@.len() + 1
                &&& final(self).entries@.take(old(self).entries@.len() as int) == old(
                    self,
                ).entries@
                &&& final(self).entries@.last().state == new_state
                &&& final(self).entries@.last().metadata == Some(metadata)
            },
            !old(self).spec_may_enter(new_state) ==> *final(self) == *old(self) && match r {
                Ok(_) => false,
                Err(m) => m@ == spec_invalid_transition_msg(
                    old(self).entries@.last().state,
                    new_state,
                ),
            },
    {
        if self.entries.len() > 0 {
            let current = &self.entries[self.entries.len() - 1];
            if !current.state.can_transition_to(&new_state) {
                let msg = String::from_str("Invalid transition from ").concat(
                    current.state.as_str(),
                ).concat(" to ").concat(new_state.as_str());
                return Err(msg);
            }
        }
        let ghost pre = self.entries@;
        self.entries.push(LifecycleEntry::with_metadata(new_state, metadata));
        proof {
            assert(self.entries@.take(pre.len() as int) =~= pre);
        }
        Ok(())
    }
}

} // verus!
