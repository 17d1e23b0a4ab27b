use vstd::prelude::*;

verus! {

/// The two failures that the pipeline reports to its caller: a pattern that
/// does not reduce to a single syntax tree, and a determinization whose state
/// universe is too large to enumerate.  A missing transition during a run is
/// not an error: it is an ordinary rejection, visible in the trace.
#[derive(Debug, Clone, Copy, PartialEq, Eq, Structural)]
pub enum RegexError {
    MalformedPattern,
    StateSpaceExplosion,
}

/// The record of one simulation: whether the automaton accepted, and the
/// ordered states (or state sets) it visited, one entry recorded before each
/// consumed symbol plus one final entry (fewer entries when the run stopped
/// early on a missing transition).
#[derive(Debug, Clone)]
pub struct Trace<S> {
    accept: bool,
    trace: Vec<S>,
}

impl<S> Trace<S> {
    /// Whether this trace reports acceptance.
    pub closed spec fn spec_accept(&self) -> bool {
        self.accept
    }

    /// The visited states, in the order they were recorded.
    pub closed spec fn spec_trace(&self) -> Seq<S> {
        self.trace@
    }

    pub fn new(accept: bool, trace: Vec<S>) -> (r: Self)
        ensures
            r.spec_accept() == accept,
            r.spec_trace() == trace@,
    {
        Self { accept, trace }
    }

    pub fn push(&mut self, state: S)
        ensures
            final(self).spec_accept() == old(self).spec_accept(),
            final(self).spec_trace() == old(self).spec_trace().push(state),
    {
        self.trace.push(state);
    }

    pub fn accept(&self) -> (r: bool)
        ensures
            r == self.spec_accept(),
    {
        self.accept
    }

    pub fn trace(&self) -> (r: &[S])
        ensures
            r@ == self.spec_trace(),
    {
        self.trace.as_slice()
    }
}

} // verus!
