//! The once-only failure-translator installation.
//!
//! Extension wrappers install a process-wide translator that re-raises a
//! native panic as the foreign runtime's exception.  The installation is
//! guarded by an idempotent flag: installing twice is the same as installing
//! once.  The hook itself is host plumbing outside this model; the flag and
//! its idempotence are what the library states.

use vstd::prelude::*;

use crate::runtime::{Runtime, RuntimeModel};

verus! {

/// Install the process-wide failure translator if it is not installed yet.
/// Idempotent: the state after two calls equals the state after one.
pub fn init_panic_handler(rt: &mut Runtime)
    ensures
        (final(rt).model() == RuntimeModel { handler: true, ..old(rt).model() }),
        final(rt).wf() == old(rt).wf(),
{
    if rt.handler {
        return;
    }
    rt.handler = true;
    proof {
        assert(rt.model().mem =~= old(rt).model().mem);
        assert(rt.model().tables =~= old(rt).model().tables);
        assert(rt.model().slots =~= old(rt).model().slots);
        assert(rt.model().globals =~= old(rt).model().globals);
        assert(rt.model().named =~= old(rt).model().named);
        assert(rt.model() == RuntimeModel { handler: true, ..old(rt).model() });
    }
}

impl Runtime {
    /// Is the process-wide failure translator installed?
    pub fn handler_installed(&self) -> (b: bool)
        ensures
            b == self.model().handler,
    {
        self.handler
    }
}

} // verus!
