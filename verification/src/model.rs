use vstd::prelude::*;
use crate::mesh::Mesh;

verus! {

/// A mesh ready to be rendered as a thumbnail.
pub struct Model<V> {
    pub mesh: Mesh<V>,
}

impl<V> Model<V> {
    /// Wraps `mesh` unchanged.
    pub fn new(mesh: Mesh<V>) -> (m: Model<V>)
        ensures
            m.mesh@ == mesh@,
    {
        Model { mesh }
    }
}

} // verus!
