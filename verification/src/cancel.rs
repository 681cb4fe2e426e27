//! Stopping long work.

use vstd::prelude::*;

use crate::error::{Error, Result};

verus! {

/// A hook that long-running work asks from time to time whether it should go on.
pub trait CancelCheck {
    /// Whether the hook may answer with this error: any, unless a type says otherwise.
    open spec fn may_answer(&self, error: Error) -> bool {
        true
    }

    fn check(&self) -> (r: Result<()>)
        ensures
            r is Err ==> self.may_answer(r->Err_0),
    ;
}

/// A hook that never stops anything.
#[derive(Clone, Copy, Debug)]
pub struct NeverCancel;

impl CancelCheck for NeverCancel {
    open spec fn may_answer(&self, error: Error) -> bool {
        false
    }

    fn check(&self) -> (r: Result<()>)
        ensures
            r is Ok,
    {
        Ok(())
    }
}

impl Default for NeverCancel {
    fn default() -> (r: NeverCancel)
        ensures
            r == NeverCancel,
    {
        NeverCancel
    }
}

/// How many points are handled between two questions to the hook.
pub const CANCEL_POLL_STRIDE: usize = 4_096;

} // verus!
