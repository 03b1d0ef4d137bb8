//! The operation contract that every shape transform implements.
use vstd::prelude::*;
use crate::error::ShapeError;
use crate::point::UNIT;

verus! {

/// Settings shared by every step of one pipeline run.
#[derive(Clone, Copy, Debug, PartialEq, Eq, Structural)]
pub struct Config {
    /// Approximate largest spacing between sampled points, in grid units.
    pub resolution: i64,
}

impl Default for Config {
    /// A coarse resolution of one unit of length.
    fn default() -> (r: Config)
        ensures
            r.resolution == UNIT,
    {
        Config { resolution: UNIT }
    }
}

/// A transform from an input to an output, given a configuration.
pub trait Shape {
    type Input;
    type Output;

    /// The inputs the transform works on; all of them, unless an implementation narrows it.
    open spec fn accepts(&self, input: Self::Input) -> bool {
        true
    }

    /// `out` is what the transform gives for `input` under `cfg`; an implementation that
    /// promises nothing more leaves every outcome possible.
    open spec fn gives(&self, cfg: Config, input: Self::Input, out: Result<Self::Output, ShapeError>) -> bool {
        true
    }

    /// Runs the transform.
    fn generate(&self, cfg: &Config, input: Self::Input) -> (r: Result<Self::Output, ShapeError>)
        requires
            self.accepts(input),
        ensures
            self.gives(*cfg, input, r),
    ;
}

/// A value that a branch can hand to two sub-pipelines: each side gets its own copy,
/// normalized first where the type calls for it.
pub trait Fork: Sized {
    /// The values that can be forked.
    spec fn forkable(&self) -> bool;

    /// `copy` is what each branch receives when `self` is forked.
    spec fn forks_to(&self, copy: Self) -> bool;

    /// Two copies of the value, normalized.
    fn fork(self) -> (r: (Self, Self))
        requires
            self.forkable(),
        ensures
            self.forks_to(r.0),
            self.forks_to(r.1),
    ;
}

} // verus!
