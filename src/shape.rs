use vstd::prelude::*;

verus! {

/// The kinds of geometric primitive a scene can hold.
#[derive(Debug, Clone, Copy, PartialEq, Eq, Structural)]
pub enum ShapeType {
    /// The unit sphere centred on the origin of its object space.
    Sphere,
}

} // verus!
