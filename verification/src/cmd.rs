use vstd::prelude::*;

verus! {

/// Outcome policy of the orchestration layer's command runner. The runner's
/// OS work (process spawning, file handling, HTTP) lives outside the
/// library; each helper hands its outcome in as a plain value, and this
/// type says which outcomes let the session continue.
pub struct Cmd {
    /// How many outcomes this runner has accepted so far.
    pub accepted: u64,
}

impl Cmd {
    /// One runner serves the whole process; the orchestration layer
    /// enforces single acquisition before handing out the token.
    pub fn get() -> (r: Cmd)
        ensures
            r.accepted == 0,
    {
        Cmd { accepted: 0 }
    }

    /// Recursive directory removal is mandatory where the runner asks for
    /// it: a failed removal aborts the orchestration layer, so only a
    /// successful outcome is accepted here.
    pub fn remove_dir_all(&mut self, outcome: Result<(), ()>)
        requires
            outcome is Ok,
            old(self).accepted < u64::MAX,
        ensures
            final(self).accepted == old(self).accepted + 1,
    {
        self.accepted = self.accepted + 1;
    }
}

} // verus!
