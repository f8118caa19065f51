//! Errors of the rendering.

use vstd::prelude::*;

verus! {

/// Why something could not be rendered.
#[derive(Debug, Clone, PartialEq, Eq)]
pub enum RenderError {
    /// A texture could not be loaded; the text says which and why.
    TextureLoadFailed(String),
    /// The data of a mesh is not what it must be; the text says why.
    InvalidMeshData(String),
}

} // verus!
