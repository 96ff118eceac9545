//! Where the failure-learning state is loaded from and saved to.
use vstd::prelude::*;
use crate::state::State;

verus! {

/// Interface: where the failure-learning state lives.
pub trait StateStore {
    /// The stored state; its keys are distinct.
    fn load(&self) -> (s: State)
        ensures
            s.wf(),
    ;

    fn save(&mut self, state: &State)
        requires
            state.wf(),
    ;
}

/// The state file at `path`; the reading and writing is done by the application.
pub struct FsStateStore {
    pub path: String,
}

/// In-memory state store for tests.
pub struct InMemoryStateStore {
    inner: State,
}

impl InMemoryStateStore {
    #[verifier::type_invariant]
    spec fn keys_distinct(self) -> bool {
        self.inner.wf()
    }
}

impl View for InMemoryStateStore {
    type V = Seq<crate::state::EntryView>;

    closed spec fn view(&self) -> Seq<crate::state::EntryView> {
        self.inner@
    }
}

impl InMemoryStateStore {
    pub fn new() -> (s: Self)
        ensures
            s@.len() == 0,
    {
        InMemoryStateStore { inner: State::new() }
    }

    pub fn with_state(state: State) -> (s: Self)
        requires
            state.wf(),
        ensures
            s@ == state@,
    {
        InMemoryStateStore { inner: state }
    }

    /// A copy of the stored state.
    pub fn get_state(&self) -> (s: State)
        ensures
            s@ == self@,
            s.wf(),
    {
        proof { use_type_invariant(self); }
        self.inner.copy()
    }
}

impl Default for InMemoryStateStore {
    fn default() -> (s: Self)
        ensures
            s@.len() == 0,
    {
        Self::new()
    }
}

impl StateStore for InMemoryStateStore {
    /// What was last saved (empty at first).
    fn load(&self) -> (s: State)
        ensures
            s@ == self@,
    {
        proof { use_type_invariant(self); }
        self.inner.copy()
    }

    /// Keep a copy of `state`.
    fn save(&mut self, state: &State)
        ensures
            final(self)@ == state@,
    {
        let mut fresh = state.copy();
        std::mem::swap(&mut self.inner, &mut fresh);
    }
}

} // verus!
