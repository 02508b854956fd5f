//! Headless layer engine.
//!
//! The ground-truth representation of a layered image: sparse tiled copy-on-write
//! pixel buffers, layers, selections, undo history and the reference compositor.
//!
//! All coordinates use a top-left origin with +y pointing down. Tiles are 256 by 256
//! pixels and live in layer-local space; a document coordinate is the local one plus
//! the layer's offset.
//!
//! Every channel, opacity and coverage is a binary32 number, held as its bit pattern.
//! What rounds is done by an [`Arith`], which the caller supplies.
pub mod coord;
pub mod float_bits;
pub mod arith;
pub mod exact;
pub mod pixel;
pub mod blend;
pub mod tile;
pub mod buffer;
pub mod buffer_region;
pub mod layer;
pub mod selection;
pub mod equality;
pub mod error;
pub mod arena;
pub mod coord_set;
pub mod document;
pub mod kernel;
pub mod scanline;
pub mod vector_raster;
pub mod adjust;
pub mod compositor;
pub mod ops;
pub mod paint;
pub mod brush;
pub mod float_kernel;
pub mod picture;
pub mod placing;
pub mod inserting;
pub mod appearance;
pub mod history;
pub mod commands;
pub mod laws;

pub use crate::arith::{Arith, BinaryOp, FloatMath, UnaryOp, WholeOp};
pub use crate::blend::blend_pixel;
pub use crate::brush::{rasterize_stroke, BrushSettings, InputSample, PaintMode};
pub use crate::buffer::TiledBuffer;
pub use crate::commands::adding::{
    AddAdjustmentLayerCmd, AddRasterLayerCmd, AddVectorLayerCmd, DuplicateLayerCmd,
    PasteImageLayerCmd,
};
pub use crate::commands::batch::BatchCmd;
pub use crate::commands::canvas::{CanvasAnchor, CropCmd, ResizeCanvasCmd};
pub use crate::commands::extracting::{CopyToNewLayerCmd, CutToNewLayerCmd};
pub use crate::commands::pixels::{
    BrushStrokeCmd, FillSelectionCmd, GradientFillCmd, PaintBucketCmd, PaintCmd, PaintStrokeCmd,
    StrokeSelectionCmd,
};
pub use crate::commands::props::{
    EditVectorCmd, MoveLayerByCmd, RenameCmd, SetAdjustmentCmd, SetBlendCmd, SetLayerLockedCmd,
    SetOpacityCmd, SetVisibleCmd,
};
pub use crate::commands::raster::{
    AddLayerMaskCmd, ApplyLayerMaskCmd, DeleteLayerMaskCmd, FlipLayerCmd, RemoveBackgroundCmd,
    SetLayerBufferCmd, SetLayerMaskCmd,
};
pub use crate::commands::select::{
    FeatherSelectionCmd, GrowSelectionCmd, InvertSelectionCmd, MagicWandCmd, SetSelectionCmd,
    ShrinkSelectionCmd,
};
pub use crate::commands::structure::{DeleteLayerCmd, MergeDownCmd, ReorderCmd};
pub use crate::commands::subtree::InsertLayerSubtreeCmd;
pub use crate::commands::transform::{
    Affine2, TransformKind, TransformLayerCmd, TransformMath, WarpGrid,
};
pub use crate::compositor::{composite_document, composite_region, sample_document_pixel};
pub use crate::coord::{tile_rect, tile_to_pixel, IVec2, Rect, TileCoord, Vec2};
pub use crate::document::{ColorSpace, Document, SliceRect};
pub use crate::error::OgreError;
pub use crate::float_kernel::FloatKernel;
pub use crate::history::{Command, History};
pub use crate::kernel::Kernel;
pub use crate::layer::{
    AdjustmentKind, BlendMode, CurvePoint, Layer, LayerContent, LayerId, StrokeCap, StrokeJoin,
    SvgSource, VectorData, VectorFill, VectorPath, VectorPathV1, VectorStroke,
};
pub use crate::ops::bucket::{fill_region, fill_selection, stroke_selection, DEFAULT_FILL_TOLERANCE};
pub use crate::ops::extract::{
    copy_selection_to_new_layer, cut_selection_to_new_layer, erase_selection_from_buffer,
    extract_selection,
};
pub use crate::ops::finger_ops::{
    blur_target, burn_target, dodge_target, heal_target, luma, range_mask, recolor_target,
    sharpen_target, sponge_target, Range,
};
pub use crate::ops::flip::{flip_buffer, FlipAxis};
pub use crate::ops::gradient::{fill_gradient, gradient_color, gradient_t, GradientKind, WrapMode};
pub use crate::ops::layer_ops::{
    delete_layer, duplicate_layer, move_layer_by, move_layer_into_group, rename_layer,
    reorder_layer, set_layer_blend, set_layer_locked, set_layer_opacity, set_layer_visible,
};
pub use crate::ops::magic_wand::{magic_wand, quick_select, region_grow, select_by_color};
pub use crate::ops::magnetic::{edge_magnitude, simplify_path, snap_to_edge};
pub use crate::ops::mask::{apply_mask_to_buffer, MaskInit};
pub use crate::ops::matte::{
    remove_matte, remove_matte_with, DEFAULT_EDGE_SOFTNESS, DEFAULT_MATTE_TOLERANCE, MatteOptions,
};
pub use crate::ops::merge::merge_down;
pub use crate::pixel::{perceptual_distance_sq, srgb_encode, Rgba32F};
pub use crate::selection::{Selection, SelectionKind, SelectionMode};
pub use crate::tile::{TILE_SIZE, Tile};
pub use crate::vector_raster::{rasterize_vector_data, rasterize_vector_paths};
