//! The tree that the parser builds and the resolver completes: states,
//! their transitions, and the mathematical models (`StateModel`,
//! `TransModel`) over which every contract speaks.

use vstd::prelude::*;

verus! {

/// The kind of a state. A state with no marker and no children is
/// atomic; owning at least one child makes it compound; the `&` marker
/// makes it parallel (its children are orthogonal regions); the `$`
/// marker makes it final.
#[derive(PartialEq, Eq, Debug, Clone, Copy, Structural)]
pub enum StateType {
    AtomicState,
    CompoundState,
    FinalState,
    ParallelState,
}

/// One outgoing transition. `source` is always explicit here, even where
/// the notation left it implicit. `target` keeps the raw text written
/// after the arrow; `resolved` is `None` until the resolver fills in the
/// absolute path (root identifier first) that the target denotes.
#[derive(PartialEq, Eq, Debug)]
pub struct TransitionNode {
    pub source: String,
    pub target: String,
    pub resolved: Option<Vec<String>>,
    pub cond: Option<String>,
    pub action: Option<String>,
}

/// The mathematical shape of a [`TransitionNode`].
pub ghost struct TransModel {
    pub source: Seq<char>,
    pub target: Seq<char>,
    pub resolved: Option<Seq<Seq<char>>>,
    pub cond: Option<Seq<char>>,
    pub action: Option<Seq<char>>,
}

/// The model of an optional text.
pub open spec fn opt_text_model(o: Option<String>) -> Option<Seq<char>> {
    match o {
        Some(s) => Some(s@),
        None => None,
    }
}

/// The model of a path: each segment's characters.
pub open spec fn path_model(v: Seq<String>) -> Seq<Seq<char>> {
    v.map(|i: int, s: String| s@)
}

/// The model of an optional path.
pub open spec fn opt_path_model(o: Option<Vec<String>>) -> Option<Seq<Seq<char>>> {
    match o {
        Some(v) => Some(path_model(v@)),
        None => None,
    }
}

impl View for TransitionNode {
    type V = TransModel;

    open spec fn view(&self) -> TransModel {
        TransModel {
            source: self.source@,
            target: self.target@,
            resolved: opt_path_model(self.resolved),
            cond: opt_text_model(self.cond),
            action: opt_text_model(self.action),
        }
    }
}

/// One state: its identifier, kind, initial-child bookkeeping, outgoing
/// transitions and children, in declaration order. `initial` names the
/// child marked `*`, or, when none is, the first declared child (the
/// documented default); it is `None` exactly when the state has no
/// children. `is_initial` records whether this state itself carried the
/// `*` marker among its siblings.
#[derive(PartialEq, Eq, Debug)]
pub struct StateNode {
    pub id: String,
    pub typ: StateType,
    pub initial: Option<String>,
    pub is_initial: bool,
    pub on: Vec<TransitionNode>,
    pub states: Vec<StateNode>,
}

/// The mathematical shape of a [`StateNode`].
pub ghost struct StateModel {
    pub id: Seq<char>,
    pub typ: StateType,
    pub initial: Option<Seq<char>>,
    pub is_initial: bool,
    pub on: Seq<TransModel>,
    pub states: Seq<StateModel>,
}

/// The models of a transition list.
pub open spec fn trans_models(s: Seq<TransitionNode>) -> Seq<TransModel> {
    s.map(|i: int, t: TransitionNode| t@)
}

/// The models of a child list.
pub open spec fn state_models(s: Seq<StateNode>) -> Seq<StateModel>
    decreases s,
{
    if s.len() == 0 {
        Seq::empty()
    } else {
        seq![s[0]@] + state_models(s.drop_first())
    }
}

impl View for StateNode {
    type V = StateModel;

    open spec fn view(&self) -> StateModel
        decreases self,
    {
        StateModel {
            id: self.id@,
            typ: self.typ,
            initial: opt_text_model(self.initial),
            is_initial: self.is_initial,
            on: trans_models(self.on@),
            states: state_models(self.states@),
        }
    }
}

/// `state_models` is the pointwise view.
pub proof fn lemma_state_models(s: Seq<StateNode>)
    ensures
        state_models(s).len() == s.len(),
        forall|i: int| 0 <= i < s.len() ==> state_models(s)[i] == s[i]@,
    decreases s,
{
    if s.len() > 0 {
        let rest = s.drop_first();
        lemma_state_models(rest);
        assert(state_models(s) == seq![s[0]@] + state_models(rest));
        assert forall|i: int| 0 <= i < s.len() implies state_models(s)[i] == s[i]@ by {
            if i > 0 {
                assert(state_models(s)[i] == state_models(rest)[i - 1]);
                assert(state_models(rest)[i - 1] == rest[i - 1]@);
                assert(rest[i - 1] == s[i]);
            } else {
                assert(state_models(s)[0] == s[0]@);
            }
        }
    }
}

/// `state_models` distributes over `push`.
pub proof fn lemma_state_models_push(s: Seq<StateNode>, x: StateNode)
    ensures
        state_models(s.push(x)) == state_models(s).push(x@),
{
    lemma_state_models(s);
    lemma_state_models(s.push(x));
    assert(state_models(s.push(x)) =~= state_models(s).push(x@));
}

/// Whether some child carries `id`.
pub open spec fn contains_id(states: Seq<StateModel>, id: Seq<char>) -> bool {
    exists|i: int| 0 <= i < states.len() && states[i].id == id
}

/// Sibling identifiers are pairwise distinct.
pub open spec fn unique_ids(states: Seq<StateModel>) -> bool {
    forall|i: int, j: int| 0 <= i < j < states.len() ==> states[i].id != states[j].id
}

/// At most one sibling carries the initial marker.
pub open spec fn at_most_one_initial(states: Seq<StateModel>) -> bool {
    forall|i: int, j: int|
        (0 <= i < states.len() && 0 <= j < states.len() && states[i].is_initial
            && states[j].is_initial) ==> i == j
}

/// Well-formedness of a (sub)tree: every transition's source is its
/// owning state's identifier; sibling identifiers are unique; at most
/// one sibling is marked initial; final states are leaves without
/// transitions; a state is atomic exactly when it has no children and is
/// neither parallel nor final; `initial` names an existing child, or is
/// `None` for a childless state.
pub open spec fn wf_state(s: StateModel) -> bool
    decreases s,
{
    &&& (forall|i: int| 0 <= i < s.on.len() ==> (#[trigger] s.on[i]).source == s.id)
    &&& unique_ids(s.states)
    &&& at_most_one_initial(s.states)
    &&& (s.typ == StateType::FinalState ==> s.states.len() == 0 && s.on.len() == 0)
    &&& (s.typ == StateType::AtomicState ==> s.states.len() == 0)
    &&& (s.typ == StateType::CompoundState ==> s.states.len() > 0)
    &&& (match s.initial {
        Some(id) => contains_id(s.states, id),
        None => s.states.len() == 0,
    })
    &&& (forall|i: int| 0 <= i < s.states.len() ==> wf_state(#[trigger] s.states[i]))
}

} // verus!
