use vstd::prelude::*;

verus! {

/// Which of the two metric structures a point of the merged timeline came from.
#[derive(Debug, Clone, Copy, PartialEq, Eq, Structural)]
pub enum BeatOrigin {
    MetreA,
    MetreB,
    Both,
}

} // verus!
