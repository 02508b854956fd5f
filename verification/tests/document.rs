use std::collections::HashSet;

use ogre_core::{ColorSpace, Document, Layer, LayerContent, LayerId, OgreError, Rect};

#[test]
fn new_document_has_empty_canvas_and_no_layers() {
    let doc = Document::new(1920, 1080);
    assert_eq!(doc.canvas, Rect::new(0, 0, 1920, 1080));
    assert!(doc.order.is_empty());
    assert_eq!(doc.active, None);
    assert!(doc.selection.is_empty());
    assert_eq!(doc.color_space, ColorSpace::LinearSrgb);
}

#[test]
fn add_raster_layer_returns_id_and_updates_state() {
    let mut doc = Document::new(100, 100);
    let id = doc.add_raster_layer("Background");
    assert_eq!(doc.layer(id).unwrap().name, "Background");
    assert!(doc.layer(id).unwrap().buffer().unwrap().is_empty());
    assert_eq!(doc.order, vec![id]);
    assert_eq!(doc.active, Some(id));
}

#[test]
fn insert_layer_above_places_after_anchor() {
    let mut doc = Document::new(100, 100);
    let a = doc.add_raster_layer("A");
    let b = Layer::new_raster("B");
    let b_id = doc.insert_layer_above(b, a).unwrap();
    assert_eq!(doc.order, vec![a, b_id]);
}

#[test]
fn insert_layer_above_fails_for_missing_anchor() {
    let mut doc = Document::new(100, 100);
    let missing = LayerId::null();
    let layer = Layer::new_raster("Orphan");
    assert!(matches!(
        doc.insert_layer_above(layer, missing),
        Err(OgreError::LayerNotFound(_))
    ));
}

#[test]
fn remove_layer_removes_from_order_and_clears_active() {
    let mut doc = Document::new(100, 100);
    let a = doc.add_raster_layer("A");
    let removed = doc.remove_layer(a).unwrap();
    assert_eq!(removed.name, "A");
    assert!(doc.order.is_empty());
    assert_eq!(doc.active, None);
    assert!(matches!(doc.layer(a), Err(OgreError::LayerNotFound(_))));
}

#[test]
fn removing_group_clears_active_descendant() {
    let mut doc = Document::new(100, 100);
    let bg = doc.add_raster_layer("bg");
    let group = Layer::new_group("group");
    let group_id = doc.insert_layer_above(group, bg).unwrap();
    let child = doc.add_raster_layer("child");
    doc.move_into_group(child, group_id, 0).unwrap();

    // `add_raster_layer` made `child` the active layer.
    assert_eq!(doc.active, Some(child));
    doc.remove_layer(group_id).unwrap();
    assert_eq!(doc.active, None);
}

#[test]
fn remove_group_also_removes_children() {
    let mut doc = Document::new(100, 100);
    let bg = doc.add_raster_layer("bg");
    let group = Layer::new_group("group");
    let group_id = doc.insert_layer_above(group, bg).unwrap();
    let child = doc.add_raster_layer("child");
    doc.move_into_group(child, group_id, 0).unwrap();

    let removed = doc.remove_layer(group_id).unwrap();
    match &removed.content {
        LayerContent::Group { children } => assert_eq!(children, &vec![child]),
        _ => panic!("expected a group"),
    }
    assert!(matches!(
        doc.layer(group_id),
        Err(OgreError::LayerNotFound(_))
    ));
    assert!(matches!(doc.layer(child), Err(OgreError::LayerNotFound(_))));
    // The unrelated background layer remains.
    assert_eq!(doc.order, vec![bg]);
}

#[test]
fn render_order_emits_group_before_children() {
    let mut doc = Document::new(100, 100);
    let bg = doc.add_raster_layer("bg");
    let group = Layer::new_group("group");
    let group_id = doc.insert_layer_above(group, bg).unwrap();
    let c1 = doc.add_raster_layer("c1");
    let c2 = doc.add_raster_layer("c2");
    doc.move_into_group(c1, group_id, 0).unwrap();
    doc.move_into_group(c2, group_id, 1).unwrap();

    let order = doc.render_order().unwrap();
    assert_eq!(order, vec![(bg, 0), (group_id, 0), (c1, 1), (c2, 1),]);
}

#[test]
fn parent_of_and_siblings_track_hierarchy() {
    let mut doc = Document::new(100, 100);
    let bg = doc.add_raster_layer("bg");
    let group = Layer::new_group("group");
    let group_id = doc.insert_layer_above(group, bg).unwrap();
    let child = doc.add_raster_layer("child");
    doc.move_into_group(child, group_id, 0).unwrap();

    assert_eq!(doc.parent_of(bg), None);
    assert_eq!(doc.parent_of(group_id), None);
    assert_eq!(doc.parent_of(child), Some(group_id));
    assert_eq!(doc.siblings(child).unwrap(), &vec![child]);
}

#[test]
fn reorder_moves_within_root_order() {
    let mut doc = Document::new(100, 100);
    let a = doc.add_raster_layer("A");
    let b = doc.add_raster_layer("B");
    let c = doc.add_raster_layer("C");
    // Move `a` to final index 2 (the end).
    doc.reorder(a, 2).unwrap();
    assert_eq!(doc.order, vec![b, c, a]);
}

#[test]
fn reorder_clamps_out_of_bounds() {
    let mut doc = Document::new(100, 100);
    let a = doc.add_raster_layer("A");
    let b = doc.add_raster_layer("B");
    doc.reorder(a, 100).unwrap();
    assert_eq!(doc.order, vec![b, a]);
}

#[test]
fn move_into_group_rejects_non_group_target() {
    let mut doc = Document::new(100, 100);
    let a = doc.add_raster_layer("A");
    let b = doc.add_raster_layer("B");
    assert!(matches!(
        doc.move_into_group(a, b, 0),
        Err(OgreError::InvalidOperation(_))
    ));
}

#[test]
fn move_into_group_rejects_cycles() {
    let mut doc = Document::new(100, 100);

    // Build a parent group with a child group inside it.
    let anchor = doc.add_raster_layer("anchor");
    let parent = Layer::new_group("parent");
    let parent_id = doc.insert_layer_above(parent, anchor).unwrap();
    doc.remove_layer(anchor).unwrap();

    let child = Layer::new_group("child");
    let child_id = doc.insert_layer_above(child, parent_id).unwrap();
    doc.move_into_group(child_id, parent_id, 0).unwrap();

    // Moving the parent into its own descendant would create a cycle.
    assert!(matches!(
        doc.move_into_group(parent_id, child_id, 0),
        Err(OgreError::InvalidOperation(_))
    ));
}

#[test]
fn remove_layer_inside_group_clears_it_from_parent() {
    let mut doc = Document::new(100, 100);
    let bg = doc.add_raster_layer("bg");
    let group = Layer::new_group("group");
    let group_id = doc.insert_layer_above(group, bg).unwrap();
    let child = doc.add_raster_layer("child");
    doc.move_into_group(child, group_id, 0).unwrap();

    let removed = doc.remove_layer(child).unwrap();
    assert_eq!(removed.name, "child");
    assert!(matches!(doc.layer(child), Err(OgreError::LayerNotFound(_))));

    let group = doc.layer(group_id).unwrap();
    if let LayerContent::Group { children } = &group.content {
        assert!(children.is_empty());
    } else {
        panic!("expected a group");
    }
    assert_eq!(doc.order, vec![bg, group_id]);
}

#[test]
fn reorder_moves_within_group_children() {
    let mut doc = Document::new(100, 100);
    let bg = doc.add_raster_layer("bg");
    let group = Layer::new_group("group");
    let group_id = doc.insert_layer_above(group, bg).unwrap();
    let a = doc.add_raster_layer("a");
    let b = doc.add_raster_layer("b");
    doc.move_into_group(a, group_id, 0).unwrap();
    doc.move_into_group(b, group_id, 1).unwrap();

    doc.reorder(a, 1).unwrap();

    let children = match &doc.layer(group_id).unwrap().content {
        LayerContent::Group { children } => children.clone(),
        _ => panic!("expected a group"),
    };
    assert_eq!(children, vec![b, a]);
}

#[test]
fn active_preserved_when_unrelated_layer_removed() {
    let mut doc = Document::new(100, 100);
    let a = doc.add_raster_layer("a");
    let b = doc.add_raster_layer("b");
    let c = doc.add_raster_layer("c");
    doc.active = Some(b);

    doc.remove_layer(a).unwrap();
    assert_eq!(doc.active, Some(b));

    doc.remove_layer(b).unwrap();
    assert_eq!(doc.active, None);
    assert!(doc.layer(c).is_ok());
}

#[test]
fn insert_group_with_new_children_drops_invalid_ids() {
    let mut doc = Document::new(100, 100);
    let bg = doc.add_raster_layer("bg");
    let mut group = Layer::new_group("group");
    let dummy = LayerId::null();
    group.content = LayerContent::Group {
        children: vec![dummy, dummy, LayerId::null()],
    };

    let group_id = doc.insert_layer_above(group, bg).unwrap();
    let children = match &doc.layer(group_id).unwrap().content {
        LayerContent::Group { children } => children.clone(),
        _ => panic!("expected a group"),
    };
    assert!(children.is_empty());
    assert_eq!(doc.order, vec![bg, group_id]);
    assert_tree_integrity(&doc);
}

#[test]
fn insert_group_with_existing_children_reparents_them() {
    let mut doc = Document::new(100, 100);
    let bg = doc.add_raster_layer("bg");
    let a = doc.add_raster_layer("a");
    let b = doc.add_raster_layer("b");
    let mut group = Layer::new_group("group");
    group.content = LayerContent::Group {
        children: vec![a, b],
    };

    let group_id = doc.insert_layer_above(group, bg).unwrap();
    assert_eq!(doc.order, vec![bg, group_id]);

    let children = match &doc.layer(group_id).unwrap().content {
        LayerContent::Group { children } => children.clone(),
        _ => panic!("expected a group"),
    };
    assert_eq!(children, vec![a, b]);
    assert_eq!(doc.parent_of(a), Some(group_id));
    assert_eq!(doc.parent_of(b), Some(group_id));
    assert_tree_integrity(&doc);
}

#[test]
fn render_order_on_nested_group_is_depth_first() {
    let mut doc = Document::new(100, 100);
    let bg = doc.add_raster_layer("bg");
    let g1 = Layer::new_group("g1");
    let g1_id = doc.insert_layer_above(g1, bg).unwrap();
    let c1 = doc.add_raster_layer("c1");
    doc.move_into_group(c1, g1_id, 0).unwrap();

    let g2 = Layer::new_group("g2");
    let g2_id = doc.insert_layer_above(g2, c1).unwrap();
    let c2 = doc.add_raster_layer("c2");
    doc.move_into_group(c2, g2_id, 0).unwrap();

    let order = doc.render_order().unwrap();
    assert_eq!(
        order,
        vec![(bg, 0), (g1_id, 0), (c1, 1), (g2_id, 1), (c2, 2)]
    );
}

#[test]
fn render_order_detects_manual_cycle() {
    let mut doc = Document::new(100, 100);
    let bg = doc.add_raster_layer("bg");
    let parent = Layer::new_group("parent");
    let parent_id = doc.insert_layer_above(parent, bg).unwrap();
    let child = Layer::new_group("child");
    let child_id = doc.insert_layer_above(child, parent_id).unwrap();
    doc.move_into_group(child_id, parent_id, 0).unwrap();

    // Intentionally corrupt the tree to create p -> c -> p.
    doc.layer_mut(child_id).unwrap().content = LayerContent::Group {
        children: vec![parent_id],
    };

    assert!(matches!(
        doc.render_order(),
        Err(OgreError::InvalidOperation("cycle in layer tree"))
    ));
}

#[test]
fn tree_integrity_round_trip() {
    let mut doc = Document::new(100, 100);
    let bg = doc.add_raster_layer("bg");
    let a = doc.add_raster_layer("a");
    let b = doc.add_raster_layer("b");
    assert_tree_integrity(&doc);

    let group = Layer::new_group("group");
    let group_id = doc.insert_layer_above(group, bg).unwrap();
    doc.move_into_group(a, group_id, 0).unwrap();
    doc.reorder(a, 0).unwrap();
    doc.active = Some(b);
    assert_tree_integrity(&doc);

    doc.remove_layer_soft(a).unwrap();
    assert_tree_integrity(&doc);

    doc.remove_layer_soft(group_id).unwrap();
    assert_tree_integrity(&doc);

    // Hard remove the remaining layers. `a` is an orphaned soft-deleted
    // layer after its parent group was soft-removed, so it must be
    // reclaimed explicitly.
    doc.remove_layer(a).unwrap();
    doc.remove_layer(group_id).unwrap();
    doc.remove_layer(bg).unwrap();
    doc.remove_layer(b).unwrap();
    assert_tree_integrity(&doc);
    assert!(
        doc.all_layers().len() == 0,
        "remaining layers: {:?}",
        doc.all_layers().keys()
    );
}

#[test]
fn insert_group_with_soft_deleted_child_drops_it_safely() {
    let mut doc = Document::new(100, 100);
    let bg = doc.add_raster_layer("bg");
    let a = doc.add_raster_layer("a");
    doc.remove_layer_soft(a).unwrap();

    let mut group = Layer::new_group("group");
    group.content = LayerContent::Group { children: vec![a] };

    let group_id = doc.insert_layer_above(group, bg).unwrap();
    let children = match &doc.layer(group_id).unwrap().content {
        LayerContent::Group { children } => children.clone(),
        _ => panic!("expected a group"),
    };
    assert!(children.is_empty());
    assert_eq!(doc.order, vec![bg, group_id]);
    assert_tree_integrity(&doc);
}

fn visit(doc: &Document, id: LayerId, seen: &mut HashSet<LayerId>) {
    assert!(
        seen.insert(id),
        "layer {:?} appears more than once in the tree",
        id
    );
    if let Ok(layer) = doc.layer(id) {
        if let LayerContent::Group { children } = &layer.content {
            for &child in children {
                visit(doc, child, seen);
            }
        }
    }
}

fn assert_tree_integrity(doc: &Document) {
    let mut seen = HashSet::new();
    for &id in &doc.order {
        visit(doc, id, &mut seen);
    }

    let mut removed = 0;
    for id in doc.all_layers().keys() {
        if doc.is_removed(id) {
            removed += 1;
            continue;
        }
        assert!(
            seen.contains(&id),
            "layer {:?} is in the arena but not in the layer tree",
            id
        );
    }
    assert_eq!(
        seen.len() + removed,
        doc.all_layers().len(),
        "layer tree ids do not match arena ids"
    );

    if let Some(active) = doc.active {
        assert!(
            doc.layer(active).is_ok(),
            "active layer {:?} does not resolve",
            active
        );
    }
}

#[test]
fn a_layer_in_no_list_has_no_siblings() {
    let mut doc = Document::new(10, 10);
    let id = doc.add_layer(Layer::new_raster("x"));
    assert!(doc.layer(id).is_ok());
    assert!(doc.siblings(id).is_none());
    let root = doc.add_raster_layer("root");
    assert_eq!(doc.siblings(root).unwrap(), &vec![root]);
    doc.remove_layer_soft(root).unwrap();
    assert!(doc.siblings(root).is_none());
}

#[test]
fn an_inserted_group_adopts_the_children_it_names() {
    let mut doc = Document::new(10, 10);
    let a = doc.add_raster_layer("a");
    let b = doc.add_raster_layer("b");
    let c = doc.add_raster_layer("c");
    let gone = doc.add_raster_layer("gone");
    doc.remove_layer_soft(gone).unwrap();
    let mut group = Layer::new_group("group");
    group.content = LayerContent::Group { children: vec![c, gone, a, LayerId::null(), c] };
    let id = doc.insert_layer_above(group, b).unwrap();
    assert_eq!(doc.order, vec![b, id]);
    assert_eq!(doc.siblings(a).unwrap(), &vec![c, a]);
    assert_eq!(doc.parent_of(c), Some(id));
    assert_eq!(doc.layer(id).unwrap().id, id);
}
