//! Layer manipulation operations: duplicate, delete, mutators, merge, and move.
//!
//! These functions are thin wrappers over the [`Document`] tree API. They are
//! intentionally low-level; undoable versions are commands.
use vstd::prelude::*;
use vstd::string::*;

use crate::coord::{fits_i32, local_coord_spec, IVec2};
use crate::document::{
    active_outside, dropped, move_error, moved_in_list, moved_into, last_or, put_above, stored,
    subtree, subtree_error, unlisted, DocView, Document,
};
use crate::error::OgreError;
use crate::float_bits::{clamp01_nan0, unit};
use crate::layer::{BlendMode, Layer, LayerId, LayerView};

verus! {

/// The name of a copy.
pub open spec fn copy_name(name: Seq<char>) -> Seq<char> {
    name + " copy"@
}

/// The name of a copy of a layer.
pub fn name_of_copy(name: &String) -> (r: String)
    ensures
        r@ == copy_name(name@),
{
    name.clone().concat(" copy")
}

/// A layer under the name of a copy.
pub open spec fn copied(l: LayerView) -> LayerView {
    LayerView { name: copy_name(l.name), ..l }
}

/// Duplicate a raster layer, inserting the copy directly above the original.
///
/// The duplicate shares every occupied tile, so the operation is O(tiles)
/// pointer copies and no pixel data is duplicated.
///
/// Fails if `id` does not exist or does not stand in the tree, and if it does
/// not hold pixels. A copy of a layer that does not stand in the tree is kept without a
/// place.
pub fn duplicate_layer(doc: &mut Document, id: LayerId) -> (r: Result<LayerId, OgreError>)
    requires
        old(doc).wf(),
        old(doc).room(1),
    ensures
        final(doc).wf(),
        final(doc).used() <= old(doc).used() + 1,
        r is Ok <==> old(doc)@.is_raster(id) && old(doc)@.placed(id),
        r matches Err(e) ==> e == (if old(doc)@.has(id) && !old(doc)@.is_raster(id) {
            OgreError::NotRaster
        } else {
            OgreError::LayerNotFound(id)
        }),
        r is Err && !old(doc)@.is_raster(id) ==> final(doc)@ == old(doc)@,
        r is Err && old(doc)@.is_raster(id) ==> exists|new: LayerId|
            !old(doc)@.has(new) && final(doc)@ == #[trigger] stored(
                old(doc)@,
                copied(old(doc)@.layers[id]),
                new,
            ),
        r matches Ok(new) ==> !old(doc)@.has(new) && exists|parent: Option<LayerId>, i: int| #[trigger]
            old(doc)@.sits_at(id, parent, i) && final(doc)@ == put_above(
                old(doc)@,
                copied(old(doc)@.layers[id]),
                new,
                parent,
                i,
            ),
{
    let ghost v = doc@;
    let mut dup: Layer = match doc.layer(id) {
        Ok(layer) => {
            if !layer.is_raster() {
                return Err(OgreError::NotRaster);
            }
            layer.clone()
        },
        Err(e) => {
            return Err(e);
        },
    };
    dup.name = name_of_copy(&dup.name);
    assert(dup@ == copied(v.layers[id]));
    doc.insert_plain_above(dup, id)
}

/// Delete a layer (and its descendants, if it is a group) from the document.
pub fn delete_layer(doc: &mut Document, id: LayerId) -> (r: Result<(), OgreError>)
    requires
        old(doc).wf(),
    ensures
        final(doc).wf(),
        final(doc).used() <= old(doc).used(),
        match subtree_error(old(doc)@, id) {
            Some(e) => r == Err::<(), OgreError>(e) && final(doc)@ == old(doc)@,
            None => r is Ok && exists|w: DocView| #[trigger]
                unlisted(old(doc)@, id, w) && final(doc)@ == dropped(
                    w,
                    subtree(old(doc)@, id),
                    active_outside(old(doc)@, subtree(old(doc)@, id)),
                ),
        },
{
    match doc.remove_layer(id) {
        Ok(_) => Ok(()),
        Err(e) => Err(e),
    }
}

/// Set whether a layer is visible in the canvas.
pub fn set_layer_visible(doc: &mut Document, id: LayerId, visible: bool) -> (r: Result<
    (),
    OgreError,
>)
    requires
        old(doc).wf(),
    ensures
        final(doc).wf(),
        final(doc).used() == old(doc).used(),
        changed(old(doc)@, final(doc)@, id, r, LayerView { visible, ..old(doc)@.layers[id] }),
{
    match doc.layer_mut(id) {
        Ok(layer) => {
            layer.visible = visible;
            Ok(())
        },
        Err(e) => Err(e),
    }
}

/// Layer `id` became `l`, if it exists; otherwise nothing changed and the error
/// says that it does not exist.
pub open spec fn changed(
    v: DocView,
    w: DocView,
    id: LayerId,
    r: Result<(), OgreError>,
    l: LayerView,
) -> bool {
    if v.has(id) {
        r is Ok && w == v.with_layer(id, l)
    } else {
        r == Err::<(), OgreError>(OgreError::LayerNotFound(id)) && w == v
    }
}

/// Set a layer's opacity, clamped to `[0.0, 1.0]`.
pub fn set_layer_opacity(doc: &mut Document, id: LayerId, opacity: u32) -> (r: Result<
    (),
    OgreError,
>)
    requires
        old(doc).wf(),
    ensures
        final(doc).wf(),
        final(doc).used() == old(doc).used(),
        changed(
            old(doc)@,
            final(doc)@,
            id,
            r,
            LayerView { opacity: unit(opacity), ..old(doc)@.layers[id] },
        ),
{
    match doc.layer_mut(id) {
        Ok(layer) => {
            layer.opacity = clamp01_nan0(opacity);
            Ok(())
        },
        Err(e) => Err(e),
    }
}

/// Set a layer's blend mode.
pub fn set_layer_blend(doc: &mut Document, id: LayerId, blend: BlendMode) -> (r: Result<
    (),
    OgreError,
>)
    requires
        old(doc).wf(),
    ensures
        final(doc).wf(),
        final(doc).used() == old(doc).used(),
        changed(old(doc)@, final(doc)@, id, r, LayerView { blend, ..old(doc)@.layers[id] }),
{
    match doc.layer_mut(id) {
        Ok(layer) => {
            layer.blend = blend;
            Ok(())
        },
        Err(e) => Err(e),
    }
}

/// Set whether a layer is locked against edits.
pub fn set_layer_locked(doc: &mut Document, id: LayerId, locked: bool) -> (r: Result<
    (),
    OgreError,
>)
    requires
        old(doc).wf(),
    ensures
        final(doc).wf(),
        final(doc).used() == old(doc).used(),
        changed(old(doc)@, final(doc)@, id, r, LayerView { locked, ..old(doc)@.layers[id] }),
{
    match doc.layer_mut(id) {
        Ok(layer) => {
            layer.locked = locked;
            Ok(())
        },
        Err(e) => Err(e),
    }
}

/// Rename a layer.
pub fn rename_layer(doc: &mut Document, id: LayerId, name: &str) -> (r: Result<(), OgreError>)
    requires
        old(doc).wf(),
    ensures
        final(doc).wf(),
        final(doc).used() == old(doc).used(),
        changed(old(doc)@, final(doc)@, id, r, LayerView { name: name@, ..old(doc)@.layers[id] }),
{
    match doc.layer_mut(id) {
        Ok(layer) => {
            layer.name = String::from_str(name);
            Ok(())
        },
        Err(e) => Err(e),
    }
}

/// Move a layer to a new index within its current sibling list.
///
/// The index is clamped to the valid range for that list.
pub fn reorder_layer(doc: &mut Document, id: LayerId, new_index: usize) -> (r: Result<
    (),
    OgreError,
>)
    requires
        old(doc).wf(),
    ensures
        final(doc).wf(),
        final(doc).used() <= old(doc).used(),
        r is Ok <==> old(doc)@.placed(id),
        r matches Err(e) ==> e == OgreError::LayerNotFound(id) && final(doc)@ == old(doc)@,
        r is Ok ==> exists|parent: Option<LayerId>, i: int| #[trigger]
            old(doc)@.sits_at(id, parent, i) && final(doc)@ == moved_in_list(
                old(doc)@,
                id,
                parent,
                i,
                last_or(new_index as int, old(doc)@.list(parent).len() as int),
            ),
{
    doc.reorder(id, new_index)
}

/// Move a layer into a group at the given child index.
///
/// The index is clamped to the valid range. Moving a layer into itself or into
/// one of its descendants is rejected.
pub fn move_layer_into_group(
    doc: &mut Document,
    id: LayerId,
    group: LayerId,
    index: usize,
) -> (r: Result<(), OgreError>)
    requires
        old(doc).wf(),
    ensures
        final(doc).wf(),
        final(doc).used() <= old(doc).used(),
        match move_error(old(doc)@, id, group) {
            Some(e) => r == Err::<(), OgreError>(e) && final(doc)@ == old(doc)@,
            None => r is Ok && exists|parent: Option<LayerId>, i: int| #[trigger]
                old(doc)@.sits_at(id, parent, i) && final(doc)@ == moved_into(
                    old(doc)@,
                    id,
                    parent,
                    i,
                    group,
                    index as int,
                ),
        },
{
    doc.move_into_group(id, group, index)
}

/// Why a layer cannot be moved by `delta`.
pub open spec fn shift_error(v: DocView, id: LayerId, delta: IVec2) -> Option<OgreError> {
    if !v.has(id) {
        Some(OgreError::LayerNotFound(id))
    } else if v.layers[id].locked {
        Some(OgreError::LayerLocked(id))
    } else if !fits_i32(v.layers[id].offset.x + delta.x) || !fits_i32(
        v.layers[id].offset.y + delta.y,
    ) {
        Some(OgreError::InvalidOperation("layer offset out of range"))
    } else {
        None
    }
}

/// An offset moved by `delta`.
pub open spec fn shifted(o: IVec2, delta: IVec2) -> IVec2 {
    IVec2 { x: (o.x + delta.x) as i32, y: (o.y + delta.y) as i32 }
}

/// Move a layer by adding `delta` to its offset.
///
/// This is the primitive behind the canvas move tool: the composited result
/// shifts by exactly `delta`.
pub fn move_layer_by(doc: &mut Document, id: LayerId, delta: IVec2) -> (r: Result<(), OgreError>)
    requires
        old(doc).wf(),
    ensures
        final(doc).wf(),
        final(doc).used() == old(doc).used(),
        match shift_error(old(doc)@, id, delta) {
            Some(e) => r == Err::<(), OgreError>(e) && final(doc)@ == old(doc)@,
            None => r is Ok && final(doc)@ == old(doc)@.with_layer(
                id,
                LayerView {
                    offset: shifted(old(doc)@.layers[id].offset, delta),
                    ..old(doc)@.layers[id]
                },
            ),
        },
{
    proof {
        crate::document::lemma_same_layer(doc@, id);
    }
    match doc.layer_mut(id) {
        Ok(layer) => {
            if layer.locked {
                return Err(OgreError::LayerLocked(id));
            }
            match (layer.offset.x.checked_add(delta.x), layer.offset.y.checked_add(delta.y)) {
                (Some(x), Some(y)) => {
                    layer.offset = IVec2::new(x, y);
                    Ok(())
                },
                _ => Err(OgreError::InvalidOperation("layer offset out of range")),
            }
        },
        Err(e) => Err(e),
    }
}

/// A layer moved by `delta` shows at `p + delta` what it showed at `p`.
pub proof fn moving_shifts_what_shows(o: IVec2, delta: IVec2, p: IVec2, q: IVec2)
    requires
        fits_i32(o.x + delta.x),
        fits_i32(o.y + delta.y),
        q.x == p.x + delta.x,
        q.y == p.y + delta.y,
    ensures
        local_coord_spec(q, shifted(o, delta)) == local_coord_spec(p, o),
{
}

} // verus!
