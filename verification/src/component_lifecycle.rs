//! Component lifecycle state machine: the five development states, the
//! valid transitions between them, and a bounded context that tracks the
//! current state of each component by id.

use vstd::prelude::*;

verus! {

use vstd::string::StringExecFns;

/// Component lifecycle states.
#[derive(Debug, Clone, Copy, PartialEq, Eq, Structural)]
pub enum ComponentState {
    /// Initial state - component is being drafted.
    Draft,
    /// Design is complete and approved.
    DesignComplete,
    /// Component is being implemented.
    InDevelopment,
    /// Implementation is complete and tested.
    Implemented,
    /// Component is published and available for use.
    Published,
}

impl ComponentState {
    /// Whether moving from this state to `target` is allowed: one step
    /// forward, one step back, or staying in place.
    pub open spec fn spec_can_transition(self, target: ComponentState) -> bool {
        ||| (self == ComponentState::Draft && target == ComponentState::DesignComplete)
        ||| (self == ComponentState::DesignComplete && target == ComponentState::InDevelopment)
        ||| (self == ComponentState::InDevelopment && target == ComponentState::Implemented)
        ||| (self == ComponentState::Implemented && target == ComponentState::Published)
        ||| (self == ComponentState::DesignComplete && target == ComponentState::Draft)
        ||| (self == ComponentState::InDevelopment && target == ComponentState::DesignComplete)
        ||| (self == ComponentState::Implemented && target == ComponentState::InDevelopment)
        ||| (self == ComponentState::Published && target == ComponentState::Implemented)
        ||| self == target
    }

    /// Check if transition to target state is valid.
    pub fn can_transition_to(&self, target: ComponentState) -> (r: bool)
        ensures
            r == self.spec_can_transition(target),
    {
        match (self, target) {
            (ComponentState::Draft, ComponentState::DesignComplete) => true,
            (ComponentState::DesignComplete, ComponentState::InDevelopment) => true,
            (ComponentState::InDevelopment, ComponentState::Implemented) => true,
            (ComponentState::Implemented, ComponentState::Published) => true,
            (ComponentState::DesignComplete, ComponentState::Draft) => true,
            (ComponentState::InDevelopment, ComponentState::DesignComplete) => true,
            (ComponentState::Implemented, ComponentState::InDevelopment) => true,
            (ComponentState::Published, ComponentState::Implemented) => true,
            (a, b) => *a == b,
        }
    }

    /// The states reachable in one (state-changing) step.
    pub open spec fn spec_next_states(self) -> Seq<ComponentState> {
        match self {
            ComponentState::Draft => seq![ComponentState::DesignComplete],
            ComponentState::DesignComplete => seq![
                ComponentState::InDevelopment,
                ComponentState::Draft,
            ],
            ComponentState::InDevelopment => seq![
                ComponentState::Implemented,
                ComponentState::DesignComplete,
            ],
            ComponentState::Implemented => seq![
                ComponentState::Published,
                ComponentState::InDevelopment,
            ],
            ComponentState::Published => seq![ComponentState::Implemented],
        }
    }

    /// Get the next valid states from current state.
    pub fn next_states(&self) -> (r: Vec<ComponentState>)
        ensures
            r@ == self.spec_next_states(),
    {
        let mut v: Vec<ComponentState> = Vec::new();
        match self {
            ComponentState::Draft => {
                v.push(ComponentState::DesignComplete);
            },
            ComponentState::DesignComplete => {
                v.push(ComponentState::InDevelopment);
                v.push(ComponentState::Draft);
            },
            ComponentState::InDevelopment => {
                v.push(ComponentState::Implemented);
                v.push(ComponentState::DesignComplete);
            },
            ComponentState::Implemented => {
                v.push(ComponentState::Published);
                v.push(ComponentState::InDevelopment);
            },
            ComponentState::Published => {
                v.push(ComponentState::Implemented);
            },
        }
        proof {
            assert(v@ =~= self.spec_next_states());
        }
        v
    }

    /// Get all possible states.
    pub fn all_states() -> (r: Vec<ComponentState>)
        ensures
            r@ == seq![
                ComponentState::Draft,
                ComponentState::DesignComplete,
                ComponentState::InDevelopment,
                ComponentState::Implemented,
                ComponentState::Published,
            ],
    {
        let mut v: Vec<ComponentState> = Vec::new();
        v.push(ComponentState::Draft);
        v.push(ComponentState::DesignComplete);
        v.push(ComponentState::InDevelopment);
        v.push(ComponentState::Implemented);
        v.push(ComponentState::Published);
        proof {
            assert(v@ =~= seq![
                ComponentState::Draft,
                ComponentState::DesignComplete,
                ComponentState::InDevelopment,
                ComponentState::Implemented,
                ComponentState::Published,
            ]);
        }
        v
    }

    /// The snake_case name of the state, as it is written out.
    pub open spec fn spec_name(self) -> Seq<char> {
        match self {
            ComponentState::Draft => "draft"@,
            ComponentState::DesignComplete => "design_complete"@,
            ComponentState::InDevelopment => "in_development"@,
            ComponentState::Implemented => "implemented"@,
            ComponentState::Published => "published"@,
        }
    }

    /// The snake_case name of the state.
    pub fn as_str(&self) -> (r: &'static str)
        ensures
            r@ == self.spec_name(),
    {
        match self {
            ComponentState::Draft => "draft",
            ComponentState::DesignComplete => "design_complete",
            ComponentState::InDevelopment => "in_development",
            ComponentState::Implemented => "implemented",
            ComponentState::Published => "published",
        }
    }
}

/// Law: every allowed state-changing transition can be undone — the
/// reverse transition is allowed too.
pub proof fn lemma_transitions_reversible(a: ComponentState, b: ComponentState)
    requires
        a.spec_can_transition(b),
    ensures
        b.spec_can_transition(a),
{
}

/// Law: a transition is allowed exactly when it stays in place or moves
/// to a state listed among the next states.
pub proof fn lemma_can_transition_next_states(a: ComponentState, b: ComponentState)
    ensures
        a.spec_can_transition(b) <==> (a == b || a.spec_next_states().contains(b)),
{
    if a != b && a.spec_can_transition(b) {
        match a {
            ComponentState::Draft => {
                assert(a.spec_next_states()[0] == b);
            },
            ComponentState::DesignComplete => {
                if b == ComponentState::InDevelopment {
                    assert(a.spec_next_states()[0] == b);
                } else {
                    assert(a.spec_next_states()[1] == b);
                }
            },
            ComponentState::InDevelopment => {
                if b == ComponentState::Implemented {
                    assert(a.spec_next_states()[0] == b);
                } else {
                    assert(a.spec_next_states()[1] == b);
                }
            },
            ComponentState::Implemented => {
                if b == ComponentState::Published {
                    assert(a.spec_next_states()[0] == b);
                } else {
                    assert(a.spec_next_states()[1] == b);
                }
            },
            ComponentState::Published => {
                assert(a.spec_next_states()[0] == b);
            },
        }
    }
}

/// Represents a state transition request.
#[derive(Debug, Clone)]
pub struct StateTransition {
    pub component_id: String,
    pub from_state: ComponentState,
    pub to_state: ComponentState,
    pub reason: Option<String>,
}

/// Result of a state transition attempt.
#[derive(Debug, Clone)]
pub struct TransitionResult {
    pub success: bool,
    pub component_id: String,
    pub new_state: Option<ComponentState>,
    pub error: Option<String>,
}

/// The component-id-to-state table as a mathematical map.
pub open spec fn states_map(s: Seq<(String, ComponentState)>) -> Map<Seq<char>, ComponentState>
    decreases s.len(),
{
    if s.len() == 0 {
        Map::empty()
    } else {
        states_map(s.drop_last()).insert(s.last().0@, s.last().1)
    }
}

/// No two entries of the table carry the same component id.
pub open spec fn state_keys_unique(s: Seq<(String, ComponentState)>) -> bool {
    forall|i: int, j: int| 0 <= i < j < s.len() ==> (#[trigger] s[i]).0@ != (#[trigger] s[j]).0@
}

proof fn lemma_states_dom(s: Seq<(String, ComponentState)>, k: Seq<char>)
    ensures
        states_map(s).dom().contains(k) <==> exists|i: int| 0 <= i < s.len() && (#[trigger] s[i]).0@
            == k,
    decreases s.len(),
{
    if s.len() > 0 {
        lemma_states_dom(s.drop_last(), k);
        if states_map(s).dom().contains(k) {
            if s.last().0@ != k {
                let d = s.drop_last();
                let i = choose|i: int| 0 <= i < d.len() && (#[trigger] d[i]).0@ == k;
                assert(s[i].0@ == k);
            } else {
                assert(s[s.len() - 1].0@ == k);
            }
        }
        if exists|i: int| 0 <= i < s.len() && (#[trigger] s[i]).0@ == k {
            let i = choose|i: int| 0 <= i < s.len() && (#[trigger] s[i]).0@ == k;
            if i < s.len() - 1 {
                assert(s.drop_last()[i].0@ == k);
            }
        }
    }
}

proof fn lemma_states_index(s: Seq<(String, ComponentState)>, i: int)
    requires
        state_keys_unique(s),
        0 <= i < s.len(),
    ensures
        states_map(s).dom().contains(s[i].0@),
        states_map(s)[s[i].0@] == s[i].1,
    decreases s.len(),
{
    if i < s.len() - 1 {
        assert(state_keys_unique(s.drop_last()));
        assert(s.drop_last()[i] == s[i]);
        lemma_states_index(s.drop_last(), i);
        assert(s[i].0@ != s.last().0@);
    }
}

proof fn lemma_states_update(s: Seq<(String, ComponentState)>, i: int, e: (String, ComponentState))
    requires
        state_keys_unique(s),
        0 <= i < s.len(),
        s[i].0@ == e.0@,
    ensures
        state_keys_unique(s.update(i, e)),
        states_map(s.update(i, e)) == states_map(s).insert(e.0@, e.1),
    decreases s.len(),
{
    let t = s.update(i, e);
    assert(state_keys_unique(t));
    if i == s.len() - 1 {
        assert(t.drop_last() =~= s.drop_last());
        assert(t.last() == e);
        assert(states_map(t) =~= states_map(s).insert(e.0@, e.1));
    } else {
        assert(state_keys_unique(s.drop_last()));
        assert(s.drop_last()[i] == s[i]);
        lemma_states_update(s.drop_last(), i, e);
        assert(t.drop_last() =~= s.drop_last().update(i, e));
        assert(t.last() == s.last());
        assert(s[i].0@ != s.last().0@);
        assert(states_map(t) =~= states_map(s).insert(e.0@, e.1));
    }
}

/// Finds the entry carrying `id`, if any.
fn states_find(v: &Vec<(String, ComponentState)>, id: &String) -> (r: Option<usize>)
    ensures
        match r {
            Some(i) => i < v@.len() && v@[i as int].0@ == id@,
            None => forall|i: int| 0 <= i < v@.len() ==> (#[trigger] v@[i]).0@ != id@,
        },
{
    let mut i: usize = 0;
    while i < v.len()
        invariant
            i <= v@.len(),
            forall|j: int| 0 <= j < i ==> (#[trigger] v@[j]).0@ != id@,
        decreases v@.len() - i,
    {
        if v[i].0 == *id {
            return Some(i);
        }
        i += 1;
    }
    None
}

/// Inserts or overwrites the state registered under `id`.
fn states_upsert(v: &mut Vec<(String, ComponentState)>, id: String, st: ComponentState)
    requires
        state_keys_unique(old(v)@),
    ensures
        state_keys_unique(final(v)@),
        states_map(final(v)@) == states_map(old(v)@).insert(id@, st),
{
    let found = states_find(v, &id);
    match found {
        Some(i) => {
            let ghost pre = v@;
            v[i] = (id, st);
            proof {
                lemma_states_update(pre, i as int, v@[i as int]);
            }
        },
        None => {
            let ghost pre = v@;
            v.push((id, st));
            proof {
                assert(v@.drop_last() =~= pre);
            }
        },
    }
}

/// The message reported when a component's recorded state differs from
/// the transition's expected starting state.
pub open spec fn spec_mismatch_msg(expected: ComponentState, found: ComponentState) -> Seq<char> {
    "State mismatch: expected "@ + expected.spec_name() + ", found "@ + found.spec_name()
}

/// The message reported when a transition between two states is not
/// allowed.
pub open spec fn spec_invalid_msg(from: ComponentState, to: ComponentState) -> Seq<char> {
    "Invalid transition: "@ + from.spec_name() + " -> "@ + to.spec_name()
}

/// Bounded context tracking the lifecycle state of every component.
pub struct ComponentLifecycleBC {
    component_states: Vec<(String, ComponentState)>,
}

impl ComponentLifecycleBC {
    /// The tracked states, by component id.
    pub closed spec fn states(self) -> Map<Seq<char>, ComponentState> {
        states_map(self.component_states@)
    }

    /// Structural invariant: one entry per component id.
    pub closed spec fn wf(self) -> bool {
        state_keys_unique(self.component_states@)
    }

    pub fn new() -> (r: Self)
        ensures
            r.wf(),
            r.states() =~= Map::<Seq<char>, ComponentState>::empty(),
    {
        Self { component_states: Vec::new() }
    }

    /// Initialize a component in draft state, overwriting any recorded
    /// state it had.
    pub fn initialize_component(&mut self, component_id: &str) -> (r: TransitionResult)
        requires
            old(self).wf(),
        ensures
            final(self).wf(),
            final(self).states() == old(self).states().insert(
                component_id@,
                ComponentState::Draft,
            ),
            r.success,
            r.component_id@ == component_id@,
            r.new_state == Some(ComponentState::Draft),
            r.error is None,
    {
        let id = component_id.to_owned();
        states_upsert(&mut self.component_states, id, ComponentState::Draft);
        TransitionResult {
            success: true,
            component_id: component_id.to_owned(),
            new_state: Some(ComponentState::Draft),
            error: None,
        }
    }

    /// Attempt to move a component from the transition's expected state
    /// to its target state. Fails, changing nothing, when the component
    /// is unknown, when its recorded state is not the expected one, or
    /// when the step is not a valid transition; each failure names its
    /// cause in the result's error.
    pub fn transition_component(&mut self, transition: &StateTransition) -> (r: TransitionResult)
        requires
            old(self).wf(),
        ensures
            final(self).wf(),
            r.component_id@ == transition.component_id@,
            !old(self).states().dom().contains(transition.component_id@) ==> {
                &&& final(self).states() == old(self).states()
                &&& !r.success
                &&& r.new_state is None
                &&& match r.error {
                    Some(m) => m@ == "Component not found"@,
                    None => false,
                }
            },
            ({
                let cur = old(self).states()[transition.component_id@];
                old(self).states().dom().contains(transition.component_id@) && cur
                    != transition.from_state ==> {
                    &&& final(self).states() == old(self).states()
                    &&& !r.success
                    &&& r.new_state == Some(cur)
                    &&& match r.error {
                        Some(m) => m@ == spec_mismatch_msg(transition.from_state, cur),
                        None => false,
                    }
                }
            }),
            ({
                let cur = old(self).states()[transition.component_id@];
                old(self).states().dom().contains(transition.component_id@) && cur
                    == transition.from_state && !cur.spec_can_transition(transition.to_state)
                    ==> {
                    &&& final(self).states() == old(self).states()
                    &&& !r.success
                    &&& r.new_state == Some(cur)
                    &&& match r.error {
                        Some(m) => m@ == spec_invalid_msg(
                            transition.from_state,
                            transition.to_state,
                        ),
                        None => false,
                    }
                }
            }),
            ({
                let cur = old(self).states()[transition.component_id@];
                old(self).states().dom().contains(transition.component_id@) && cur
                    == transition.from_state && cur.spec_can_transition(transition.to_state)
                    ==> {
                    &&& final(self).states() == old(self).states().insert(
                        transition.component_id@,
                        transition.to_state,
                    )
                    &&& r.success
                    &&& r.new_state == Some(transition.to_state)
                    &&& r.error is None
                }
            }),
    {
        let found = states_find(&self.component_states, &transition.component_id);
        proof {
            lemma_states_dom(self.component_states@, transition.component_id@);
        }
        let current_state = match found {
            Some(i) => {
                proof {
                    lemma_states_index(self.component_states@, i as int);
                }
                self.component_states[i].1
            },
            None => {
                return TransitionResult {
                    success: false,
                    component_id: transition.component_id.clone(),
                    new_state: None,
                    error: Some(String::from_str("Component not found")),
                };
            },
        };

        if current_state != transition.from_state {
            let msg = String::from_str("State mismatch: expected ").concat(
                transition.from_state.as_str(),
            ).concat(", found ").concat(current_state.as_str());
            return TransitionResult {
                success: false,
                component_id: transition.component_id.clone(),
                new_state: Some(current_state),
                error: Some(msg),
            };
        }

        if !current_state.can_transition_to(transition.to_state) {
            let msg = String::from_str("Invalid transition: ").concat(
                transition.from_state.as_str(),
            ).concat(" -> ").concat(transition.to_state.as_str());
            return TransitionResult {
                success: false,
                component_id: transition.component_id.clone(),
                new_state: Some(current_state),
                error: Some(msg),
            };
        }

        states_upsert(
            &mut self.component_states,
            transition.component_id.clone(),
            transition.to_state,
        );
        TransitionResult {
            success: true,
            component_id: transition.component_id.clone(),
            new_state: Some(transition.to_state),
            error: None,
        }
    }

    /// Get the current state of a component, if it is tracked.
    pub fn get_component_state(&self, component_id: &str) -> (r: Option<ComponentState>)
        requires
            self.wf(),
        ensures
            r == if self.states().dom().contains(component_id@) {
                Some(self.states()[component_id@])
            } else {
                None::<ComponentState>
            },
    {
        let id = component_id.to_owned();
        let found = states_find(&self.component_states, &id);
        proof {
            lemma_states_dom(self.component_states@, component_id@);
        }
        match found {
            Some(i) => {
                proof {
                    lemma_states_index(self.component_states@, i as int);
                }
                Some(self.component_states[i].1)
            },
            None => None,
        }
    }

    /// Get all valid next states for a component; empty when the
    /// component is not tracked.
    pub fn get_next_states(&self, component_id: &str) -> (r: Vec<ComponentState>)
        requires
            self.wf(),
        ensures
            self.states().dom().contains(component_id@) ==> ({
                let cur = self.states()[component_id@];
                r@ == cur.spec_next_states()
            }),
            !self.states().dom().contains(component_id@) ==> r@ == Seq::<ComponentState>::empty(),
    {
        match self.get_component_state(component_id) {
            Some(state) => state.next_states(),
            None => Vec::new(),
        }
    }
}

} // verus!
