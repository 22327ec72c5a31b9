use vstd::prelude::*;

verus! {

/// What a shape stands for in the caller's world. The detector carries the
/// tag along and never looks at it.
#[derive(Copy, Clone, Debug, PartialEq, Eq, Structural)]
pub enum CollidableType {
    Landscape,
    Actor,
    Object,
}

/// The two kinds of shape that the detector tells apart.
#[derive(Copy, Clone, Debug, PartialEq, Eq, Structural)]
pub enum CollidableShape {
    Circle,
    Polygon,
}

} // verus!
