use image_processor::{
    orientation_transform, page_orientation_of, BlueprintError, Dimensions, ImageForProcessing,
    ImageHandle, Layout, LayoutBlueprint, NodeLabel, OrientationTransform, PageOrientation,
    Rotation, SliceDirection,
};
use rand::rngs::StdRng;
use rand::SeedableRng;

fn imgs(dims: &[(u32, u32)]) -> Vec<ImageHandle> {
    dims.iter()
        .enumerate()
        .map(|(i, &(w, h))| ImageHandle { index: i, width: w, height: h })
        .collect()
}

fn bp(dims: (u32, u32), entries: &[(&str, &[usize])]) -> LayoutBlueprint {
    LayoutBlueprint {
        graph_representation: entries
            .iter()
            .map(|&(code, kids)| (code.to_string(), kids.to_vec()))
            .collect(),
        width: dims.0,
        height: dims.1,
    }
}

#[test]
fn new_layout_has_expected_node_counts() {
    for n in 2..=10usize {
        for seed in 0..10u64 {
            let mut rng = StdRng::seed_from_u64(seed);
            let images = imgs(&(0..n).map(|i| (1 + i as u32, 2)).collect::<Vec<_>>());
            let layout = Layout::new(&images, &mut rng);
            assert_eq!(layout.node_count(), 2 * n - 1);
            assert_eq!(layout.internal_nodes().len(), n - 1);
            assert_eq!(layout.leaf_nodes().len(), n);
            for i in layout.internal_nodes() {
                assert!(layout.children(i).is_some());
            }
            let mut leaves: Vec<ImageHandle> = layout
                .leaf_nodes()
                .iter()
                .map(|&i| layout.image(i).unwrap())
                .collect();
            leaves.sort_by_key(|h| h.index);
            assert_eq!(leaves, images);
        }
    }
}

#[test]
fn logical_eq_is_an_equivalence_on_equal_layouts() {
    let images = imgs(&[(1, 1), (1, 2), (1, 3)]);
    let a = Layout::from_blueprint(&bp((10, 10), &[("V", &[1]), ("H", &[])]), &images).unwrap();
    let b = Layout::from_blueprint(&bp((10, 10), &[("V", &[1]), ("H", &[])]), &images).unwrap();
    let c = a.duplicate();
    assert!(a.logical_eq(&a).is_ok());
    assert!(a.logical_eq(&b).is_ok());
    assert!(b.logical_eq(&a).is_ok());
    assert!(b.logical_eq(&c).is_ok());
    assert!(a.logical_eq(&c).is_ok());
}

#[test]
fn mutation_preserves_leaves_and_counts() {
    let images = imgs(&[(3, 1), (1, 2), (2, 3), (5, 4)]);
    let mut rng = StdRng::seed_from_u64(11);
    for _ in 0..50 {
        let mut layout = Layout::new(&images, &mut rng);
        let before_nodes = layout.node_count();
        let before_internals = layout.internal_nodes().len();
        let mut before_leaves: Vec<ImageHandle> = layout
            .leaf_nodes()
            .iter()
            .map(|&i| layout.image(i).unwrap())
            .collect();
        layout.random_mutation(&mut rng);
        assert_eq!(layout.node_count(), before_nodes);
        assert_eq!(layout.internal_nodes().len(), before_internals);
        let mut after_leaves: Vec<ImageHandle> = layout
            .leaf_nodes()
            .iter()
            .map(|&i| layout.image(i).unwrap())
            .collect();
        before_leaves.sort_by_key(|h| h.index);
        after_leaves.sort_by_key(|h| h.index);
        assert_eq!(before_leaves, after_leaves);
    }
}

#[test]
fn crossover_preserves_leaves_and_canvas() {
    let images_a = imgs(&[(1, 1), (2, 2), (3, 3), (4, 4), (5, 5)]);
    let images_b = imgs(&[(6, 6), (7, 7), (8, 8), (9, 9), (10, 10)]);
    let mut rng = StdRng::seed_from_u64(5);
    for _ in 0..20 {
        let mut a = Layout::new(&images_a, &mut rng);
        let mut b = Layout::new(&images_b, &mut rng);
        let canvas_a = a.canvas_dimensions;
        let canvas_b = b.canvas_dimensions;
        let leaves_a: Vec<ImageHandle> = a.leaf_nodes().iter().map(|&i| a.image(i).unwrap()).collect();
        let leaves_b: Vec<ImageHandle> = b.leaf_nodes().iter().map(|&i| b.image(i).unwrap()).collect();
        a.crossover_random_subtrees(&mut b, &mut rng);
        assert_eq!(canvas_a, a.canvas_dimensions);
        assert_eq!(canvas_b, b.canvas_dimensions);
        let after_a: Vec<ImageHandle> = a.leaf_nodes().iter().map(|&i| a.image(i).unwrap()).collect();
        let after_b: Vec<ImageHandle> = b.leaf_nodes().iter().map(|&i| b.image(i).unwrap()).collect();
        assert_eq!(leaves_a, after_a);
        assert_eq!(leaves_b, after_b);
    }
}

#[test]
fn aspect_ratio_matches_rendered_rectangle() {
    // Two square images side by side on a 4 x 2 canvas: the root's ratio is
    // 1 + 1 = 2, and its realized rectangle is exactly 4 x 2.
    let images = imgs(&[(2, 2), (2, 2)]);
    let layout = Layout::from_blueprint(&bp((4, 2), &[("V", &[])]), &images).unwrap();
    assert_eq!(layout.aspect_ratio(), Some((8, 4)));
    assert_eq!(layout.dimensions(), Some((4, 2)));
    let placements = layout.leaf_placements().unwrap();
    assert_eq!(placements.len(), 2);
    assert_eq!((placements[0].x, placements[0].y), (0, 0));
    assert_eq!((placements[0].width, placements[0].height), (2, 2));
    assert_eq!((placements[1].x, placements[1].y), (2, 0));
    assert_eq!((placements[1].width, placements[1].height), (2, 2));
    // The ratio of each rendered rectangle matches its node's ratio.
    for p in &placements {
        assert_eq!(p.width * p.height, p.image.width * p.image.height);
    }
}

#[test]
fn cost_is_zero_for_an_exactly_covering_layout() {
    // Both leaves render at their original sizes and tile the canvas.
    let images = imgs(&[(2, 2), (2, 2)]);
    let layout = Layout::from_blueprint(&bp((4, 2), &[("V", &[])]), &images).unwrap();
    let placements = layout.leaf_placements().unwrap();
    let canvas_area = (layout.canvas_dimensions.width * layout.canvas_dimensions.height) as f64;
    let mut scale_factor = 0.0f64;
    let mut covered = 0.0f64;
    for p in &placements {
        let rendered = (p.width * p.height) as f64;
        let original = (p.image.width * p.image.height) as f64;
        scale_factor += (rendered - original).abs() / original;
        covered += rendered / canvas_area;
    }
    let cost = placements.len() as f64 * scale_factor + (1.0 - covered);
    assert_eq!(cost, 0.0);
}

#[test]
fn from_blueprint_rejects_unknown_direction_codes() {
    let images = imgs(&[(1, 1), (1, 2)]);
    let blueprint = bp((10, 10), &[("X", &[])]);
    assert_eq!(
        Layout::from_blueprint(&blueprint, &images).unwrap_err(),
        BlueprintError::UnknownLabel
    );
}

#[test]
fn from_blueprint_rejects_malformed_structure() {
    let images = imgs(&[(1, 1), (1, 2), (1, 3)]);
    // Two entries referencing each other leave no root.
    let cycle = bp((10, 10), &[("V", &[1]), ("H", &[0])]);
    assert_eq!(
        Layout::from_blueprint(&cycle, &imgs(&[(1, 1)])).unwrap_err(),
        BlueprintError::MalformedStructure
    );
    // A node referenced twice is not a tree.
    let doubled = bp((10, 10), &[("V", &[1, 1]), ("H", &[])]);
    assert_eq!(
        Layout::from_blueprint(&doubled, &images).unwrap_err(),
        BlueprintError::MalformedStructure
    );
    // An empty internal list cannot hold any leaves.
    let empty = bp((10, 10), &[]);
    assert_eq!(
        Layout::from_blueprint(&empty, &imgs(&[])).unwrap_err(),
        BlueprintError::MalformedStructure
    );
}

#[test]
fn from_blueprint_accepts_a_root_anywhere_in_the_list() {
    // The second entry is the root: it lists the first as its child. The
    // leaves still attach in entry creation order, so the first entry takes
    // the first two images and the root the third.
    let images = imgs(&[(1, 1), (1, 2), (1, 3)]);
    let blueprint = bp((10, 10), &[("V", &[]), ("H", &[0])]);
    let layout = Layout::from_blueprint(&blueprint, &images).unwrap();

    let root = layout.root_node();
    assert_eq!(
        layout.node_label(root),
        NodeLabel::Internal(SliceDirection::Horizontal)
    );
    let (h_left, h_right) = layout.children(root).unwrap();
    assert_eq!(
        layout.node_label(h_left),
        NodeLabel::Internal(SliceDirection::Vertical)
    );
    assert_eq!(layout.image(h_right), Some(images[2]));
    let (v_left, v_right) = layout.children(h_left).unwrap();
    assert_eq!(layout.image(v_left), Some(images[0]));
    assert_eq!(layout.image(v_right), Some(images[1]));
}

#[test]
fn from_blueprint_rejects_wrong_image_counts() {
    let blueprint = bp((10, 10), &[("V", &[1]), ("H", &[])]);
    assert_eq!(
        Layout::from_blueprint(&blueprint, &imgs(&[(1, 1), (1, 2)])).unwrap_err(),
        BlueprintError::ImageCountMismatch
    );
    assert_eq!(
        Layout::from_blueprint(&blueprint, &imgs(&[(1, 1), (1, 2), (1, 3), (1, 4)])).unwrap_err(),
        BlueprintError::ImageCountMismatch
    );
}

#[test]
fn swap_fallback_changes_leaf_order_for_any_seed() {
    // All internal nodes share one direction, so every swap falls back to a
    // leaf swap and must visibly permute the distinct leaves.
    let images = imgs(&[(1, 1), (1, 2), (1, 3), (1, 4)]);
    let blueprint = bp((10, 10), &[("V", &[1]), ("V", &[2]), ("V", &[])]);
    for seed in 0..50u64 {
        let mut layout = Layout::from_blueprint(&blueprint, &images).unwrap();
        let before: Vec<ImageHandle> = layout
            .leaf_nodes()
            .iter()
            .map(|&i| layout.image(i).unwrap())
            .collect();
        let mut rng = StdRng::seed_from_u64(seed);
        layout.swap_random_node_pair(&mut rng);
        let after: Vec<ImageHandle> = layout
            .leaf_nodes()
            .iter()
            .map(|&i| layout.image(i).unwrap())
            .collect();
        assert_ne!(before, after);
    }
}

#[test]
fn canvas_mutations_keep_dimensions_positive() {
    let images = imgs(&[(3, 4), (5, 6), (7, 8)]);
    let mut rng = StdRng::seed_from_u64(3);
    for _ in 0..50 {
        let mut layout = Layout::new(&images, &mut rng);
        layout.randomize_width(&mut rng);
        assert!(layout.canvas_dimensions.width >= 1);
        layout.randomize_height(&mut rng);
        assert!(layout.canvas_dimensions.height >= 1);
        layout.randomize_dimensions_by_equal_factor(&mut rng);
    }
}

#[test]
fn page_orientation_classifies_rectangles() {
    assert_eq!(page_orientation_of(4, 3), PageOrientation::Landscape);
    assert_eq!(page_orientation_of(3, 4), PageOrientation::Portrait);
    assert_eq!(page_orientation_of(4, 4), PageOrientation::Square);
    let d = Dimensions { width: 10, height: 2 };
    assert_eq!(d.page_orientation(), PageOrientation::Landscape);
}

#[test]
fn orientation_transform_follows_the_canonical_table() {
    assert_eq!(
        orientation_transform(1),
        Some(OrientationTransform { rotation: Rotation::R0, flip_horizontal: false })
    );
    assert_eq!(
        orientation_transform(3),
        Some(OrientationTransform { rotation: Rotation::R180, flip_horizontal: false })
    );
    assert_eq!(
        orientation_transform(6),
        Some(OrientationTransform { rotation: Rotation::R90, flip_horizontal: false })
    );
    assert_eq!(
        orientation_transform(8),
        Some(OrientationTransform { rotation: Rotation::R270, flip_horizontal: false })
    );
    assert_eq!(
        orientation_transform(5),
        Some(OrientationTransform { rotation: Rotation::R90, flip_horizontal: true })
    );
    assert_eq!(orientation_transform(0), None);
    assert_eq!(orientation_transform(9), None);
}

#[test]
fn fit_helpers_scale_against_the_shorter_side() {
    let taller = Dimensions { width: 300, height: 200 };
    assert_eq!(taller.fit_height_width(100), Some(150));
    let wider = Dimensions { width: 400, height: 100 };
    assert_eq!(wider.fit_width_height(200), Some(50));
}

#[test]
fn lineage_walks_from_root_to_leaf() {
    let images = imgs(&[(1, 1), (1, 2), (1, 3)]);
    let layout =
        Layout::from_blueprint(&bp((10, 10), &[("V", &[1]), ("H", &[])]), &images).unwrap();
    // Leaf 3 hangs under the H node (1), which hangs under the root.
    assert_eq!(layout.lineage(3), vec![0, 1, 3]);
    assert_eq!(layout.ancestors(3), vec![0, 1]);
    assert_eq!(layout.ancestors(0), Vec::<usize>::new());
}

#[test]
fn blueprint_round_trip_is_logically_equal() {
    // Rebuilding a generated layout from its blueprint, handing the images
    // over in the blueprint's slot-filling order, gives a logically equal
    // layout.
    let mut rng = StdRng::seed_from_u64(99);
    for round in 0..100u64 {
        let n = 2 + (round % 9) as usize;
        let images = imgs(&(0..n).map(|i| (1 + i as u32, 2 + i as u32)).collect::<Vec<_>>());
        let layout = Layout::new(&images, &mut rng);
        let blueprint = layout.to_blueprint();
        let images_of: Vec<ImageHandle> = layout
            .subtree_bfs(layout.root_node())
            .iter()
            .filter_map(|&i| layout.image(i))
            .collect();
        let rebuilt = Layout::from_blueprint(&blueprint, &images_of).unwrap();
        assert!(
            rebuilt.logical_eq(&layout).is_ok(),
            "round {}: round trip changed the layout",
            round
        );
    }
}
