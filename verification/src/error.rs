//! Errors produced by sketch construction, merging and serialization.

use vstd::prelude::*;
use vstd::string::*;

verus! {

/// What went wrong in a sketch operation.
#[derive(Debug)]
pub enum SketchError {
    InvalidParam(String),
    IncompatibleMerge(String),
    Snapshot(String),
    /// A consumer has not drained completed windows quickly enough. The
    /// operation that returned this error has not consumed its event.
    Backpressure(String),
}

/// The mathematical content of a [`SketchError`].
pub ghost enum SketchErrorView {
    InvalidParam(Seq<char>),
    IncompatibleMerge(Seq<char>),
    Snapshot(Seq<char>),
    Backpressure(Seq<char>),
}

impl View for SketchError {
    type V = SketchErrorView;

    open spec fn view(&self) -> SketchErrorView {
        match self {
            SketchError::InvalidParam(s) => SketchErrorView::InvalidParam(s@),
            SketchError::IncompatibleMerge(s) => SketchErrorView::IncompatibleMerge(s@),
            SketchError::Snapshot(s) => SketchErrorView::Snapshot(s@),
            SketchError::Backpressure(s) => SketchErrorView::Backpressure(s@),
        }
    }
}

impl SketchErrorView {
    /// The message shown to people.
    pub open spec fn message(self) -> Seq<char> {
        match self {
            SketchErrorView::InvalidParam(s) => "invalid sketch parameter: "@ + s,
            SketchErrorView::IncompatibleMerge(s) => "incompatible merge: "@ + s,
            SketchErrorView::Snapshot(s) => "snapshot decode error: "@ + s,
            SketchErrorView::Backpressure(s) => "runtime output backpressure: "@ + s,
        }
    }
}

impl SketchError {
    /// The message shown to people: a prefix naming the kind, then the detail.
    pub fn to_string(&self) -> (r: String)
        ensures
            r@ == self@.message(),
    {
        let (prefix, detail): (&str, &String) = match self {
            SketchError::InvalidParam(s) => ("invalid sketch parameter: ", s),
            SketchError::IncompatibleMerge(s) => ("incompatible merge: ", s),
            SketchError::Snapshot(s) => ("snapshot decode error: ", s),
            SketchError::Backpressure(s) => ("runtime output backpressure: ", s),
        };
        let mut out = prefix.to_owned();
        out.append(detail.as_str());
        out
    }
}

} // verus!
