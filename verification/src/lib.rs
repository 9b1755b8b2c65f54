//! Core data model of a tile-scene authoring tool: an asset registry with
//! load-order bookkeeping, a scene of tile-sheets and layers with a sparse
//! tile grid, a placement engine that snaps world coordinates to grid cells,
//! a text codec for persisting projects and scenes, and a synthesizer that
//! renders the registry into a build-ready source stub.

pub mod assets;
pub mod cellmap;
pub mod codec;
pub mod editor;
pub mod scene;
pub mod synth;

use vstd::prelude::*;

verus! {

/// Errors raised by registry, scene and synthesizer operations.
#[derive(Clone, Copy, Debug, PartialEq, Eq, Structural)]
pub enum EditorError {
    /// A Script or Font asset was registered or rendered with the External strategy.
    InvalidStrategy,
    /// An asset path could not be expressed relative to its base directory.
    PathResolution,
    /// A tile-sheet with the same path is already part of the scene.
    DuplicateSheet,
    /// Two Script assets share a load-order value.
    LoadOrderCollision,
}

} // verus!
