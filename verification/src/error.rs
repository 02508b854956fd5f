//! Error types.
use vstd::prelude::*;

use crate::layer::LayerId;

verus! {

/// Errors that can occur when manipulating a document.
#[derive(Clone, Copy, Debug, PartialEq, Eq)]
pub enum OgreError {
    /// The requested layer does not exist in the document.
    LayerNotFound(LayerId),
    /// The target layer is locked and cannot be modified.
    LayerLocked(LayerId),
    /// The operation expected a raster layer but received a group.
    NotRaster,
    /// The selection contains no pixels.
    EmptySelection,
    /// A layer operation was requested that cannot be performed.
    InvalidOperation(&'static str),
    /// No layer is currently active.
    NoActiveLayer,
    /// A GPU filter operation failed (e.g. device lost or readback timeout).
    FilterFailed(&'static str),
    /// The editor is busy with a background operation and cannot accept edits.
    Busy(&'static str),
}

} // verus!
