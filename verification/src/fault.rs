//! Why taking something away failed.

use vstd::prelude::*;

verus! {

/// What kind of failure it was, as far as callers tell them apart.
#[derive(Clone, Copy, Debug, PartialEq, Eq, Structural)]
pub enum FaultKind {
    /// There is nothing by that name.
    NotFound,
    /// The system does not allow it.
    PermissionDenied,
    /// The system was asked for something that makes no sense.
    InvalidInput,
    /// Anything else, and whatever is refused here.
    Other,
}

/// A failure: its kind, and what is said of it.
#[derive(Debug)]
pub struct Fault {
    pub kind: FaultKind,
    pub text: String,
}

/// What a [`Fault`] stands for.
pub struct FaultView {
    pub kind: FaultKind,
    pub text: Seq<char>,
}

impl View for Fault {
    type V = FaultView;

    open spec fn view(&self) -> FaultView {
        FaultView { kind: self.kind, text: self.text@ }
    }
}

impl Clone for Fault {
    fn clone(&self) -> (r: Self)
        ensures
            r@ == self@,
    {
        Fault { kind: self.kind, text: self.text.clone() }
    }
}

/// A refusal, with this reason.
pub open spec fn refused(reason: Seq<char>) -> FaultView {
    FaultView { kind: FaultKind::Other, text: reason }
}

impl Fault {
    /// A refusal, with this reason.
    pub fn refusal(text: String) -> (r: Fault)
        ensures
            r@ == refused(text@),
    {
        Fault { kind: FaultKind::Other, text }
    }
}

} // verus!
