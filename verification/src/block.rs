use vstd::prelude::*;

verus! {

/// The type of a block. It contains the behavior and the mesh of the block.
/// This is the data provided by the creator of the block.
#[derive(Debug, Clone)]
pub enum BlockType {
    Air,
    NormalCube { face_textures: Vec<String> },
}

/// A general block in-memory representation.
#[derive(Debug, Clone)]
pub struct Block {
    pub name: String,
    pub block_type: BlockType,
}

/// The mesh of a block, as far as meshing needs it: whether it is drawn as a full cube.
/// The textures of the faces of a cube are looked up by block id by the renderer.
#[derive(Debug, Clone, Copy, PartialEq, Eq, Structural)]
pub enum BlockMesh {
    /// No mesh
    Empty,
    /// A usual full cube
    FullCube,
}

impl BlockMesh {
    /// A full cube hides what is behind it
    pub open spec fn spec_is_opaque(&self) -> bool {
        *self is FullCube
    }

    pub fn is_opaque(&self) -> (b: bool)
        ensures
            b == self.spec_is_opaque(),
    {
        match self {
            BlockMesh::Empty => false,
            BlockMesh::FullCube => true,
        }
    }
}

} // verus!
