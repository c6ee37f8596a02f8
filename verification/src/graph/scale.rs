use vstd::prelude::*;

verus! {

/// Observation scale of a surface or event.
#[derive(Debug, Clone, Copy, PartialEq, Eq, Hash, Structural)]
pub enum Scale {
    Minimal,
    Local,
    Recursive,
    Global,
}

} // verus!
