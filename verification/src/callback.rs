//! Callback passes: a pass assembled from two closures.

use vstd::prelude::*;

verus! {

/// A pass whose setup and execution are closures, each run at most once,
/// sharing a data value the setup fills and the execution reads.
pub struct CallbackPass<Data, Setup, Execute> {
    pub data: Data,
    pub setup: Option<Setup>,
    pub execute: Option<Execute>,
}

impl<Data: Default, Setup, Execute> CallbackPass<Data, Setup, Execute> {
    pub fn new(setup: Setup, execute: Execute) -> (r: Self)
        ensures
            r.setup == Some(setup),
            r.execute == Some(execute),
    {
        CallbackPass { data: Data::default(), setup: Some(setup), execute: Some(execute) }
    }

    /// Whether the setup closure has not run yet.
    pub fn has_setup(&self) -> (r: bool)
        ensures
            r == (self.setup is Some),
    {
        self.setup.is_some()
    }

    /// Whether the execute closure has not run yet.
    pub fn has_execute(&self) -> (r: bool)
        ensures
            r == (self.execute is Some),
    {
        self.execute.is_some()
    }
}

} // verus!
