use vstd::prelude::*;

use crate::errors::SupervisorError;
use crate::supervisor::Supervisable;

verus! {

/// A worker made of one function, run as the child's whole work.
pub struct FnWorker<F> where F: Fn() -> Result<(), SupervisorError> {
    init_fun: Box<F>,
}

impl<F> FnWorker<F> where F: Fn() -> Result<(), SupervisorError> {
    pub fn new(fun: F) -> (r: FnWorker<F>)
        ensures
            r.function() == fun,
    {
        FnWorker { init_fun: Box::new(fun) }
    }

    /// The function that the worker runs.
    pub closed spec fn function(&self) -> F {
        *self.init_fun
    }
}

impl<F> Supervisable for FnWorker<F> where F: Fn() -> Result<(), SupervisorError> {
    open spec fn ready(&self) -> bool {
        self.function().requires(())
    }

    fn init(&self) -> (r: Result<(), SupervisorError>)
        ensures
            self.function().ensures((), r),
    {
        (self.init_fun)()
    }

    fn finalize(&self) -> (r: Result<(), SupervisorError>)
        ensures
            r == Ok::<(), SupervisorError>(()),
    {
        Ok(())
    }
}

} // verus!
