//! Settings read from the optional configuration file. The file format has no
//! keys yet, so a configuration carries nothing.
use vstd::prelude::*;

verus! {

/// The settings of a run, as read from `everdiff.config.yaml`.
#[derive(Debug, Clone, Copy, PartialEq, Eq, Structural)]
pub struct Configuration {}

} // verus!
