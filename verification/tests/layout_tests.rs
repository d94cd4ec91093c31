use image_processor::{
    ImageHandle, Layout, LayoutBlueprint, NodeLabel, SliceDirection, Subtree,
};
use rand::rngs::StdRng;
use rand::SeedableRng;

fn imgs(dims: &[(u32, u32)]) -> Vec<ImageHandle> {
    dims.iter()
        .enumerate()
        .map(|(i, &(w, h))| ImageHandle { index: i, width: w, height: h })
        .collect()
}

fn bp(dims: (u32, u32), entries: &[(&str, &[usize])]) -> LayoutBlueprint {
    LayoutBlueprint {
        graph_representation: entries
            .iter()
            .map(|&(code, kids)| (code.to_string(), kids.to_vec()))
            .collect(),
        width: dims.0,
        height: dims.1,
    }
}

fn leaf_images(layout: &Layout) -> Vec<ImageHandle> {
    layout
        .leaf_nodes()
        .iter()
        .map(|&i| layout.image(i).unwrap())
        .collect()
}

#[test]
fn logical_bfs_iterates_correctly_on_simple_layouts() {
    let blueprint = bp((10, 10), &[("V", &[1, 2]), ("H", &[]), ("V", &[])]);
    let images = imgs(&[(1, 1), (1, 2), (1, 3), (1, 4)]);
    let layout = Layout::from_blueprint(&blueprint, &images).unwrap();

    let expected_node_labels = vec![
        NodeLabel::Internal(SliceDirection::Vertical),
        NodeLabel::Internal(SliceDirection::Horizontal),
        NodeLabel::Internal(SliceDirection::Vertical),
        NodeLabel::Leaf(images[0]),
        NodeLabel::Leaf(images[1]),
        NodeLabel::Leaf(images[2]),
        NodeLabel::Leaf(images[3]),
    ];
    let actual_node_labels: Vec<NodeLabel> = layout
        .subtree_bfs(layout.root_node())
        .iter()
        .map(|&i| layout.node_label(i))
        .collect();

    assert_eq!(expected_node_labels, actual_node_labels);
}

#[test]
fn logical_eq_works_for_simple_layouts_which_are_equal() {
    let blueprint = bp((10, 10), &[("V", &[1, 2]), ("H", &[]), ("V", &[])]);
    let images = imgs(&[(1, 1), (1, 2), (1, 3), (1, 4)]);
    let layout = Layout::from_blueprint(&blueprint, &images).unwrap();

    assert!(layout.logical_eq(&layout).is_ok());
}

#[test]
fn logical_eq_works_for_simple_layouts_which_are_not_equal() {
    let blueprint = bp((10, 10), &[("V", &[1, 2]), ("H", &[]), ("V", &[])]);
    let images = imgs(&[(1, 1), (1, 2), (1, 3), (1, 4)]);
    let layout = Layout::from_blueprint(&blueprint, &images).unwrap();
    let other_blueprint = bp((10, 10), &[("V", &[1, 2]), ("H", &[]), ("H", &[])]);
    let other_layout = Layout::from_blueprint(&other_blueprint, &images).unwrap();

    assert!(!layout.logical_eq(&other_layout).is_ok());
}

#[test]
fn compare_layouts_with_equal_leaf_nodes() {
    let image_1 = (1, 1);
    let image_2 = (2, 2);
    let layout_1 =
        Layout::from_blueprint(&bp((1, 1), &[("V", &[])]), &imgs(&[image_1, image_2])).unwrap();
    let layout_2 =
        Layout::from_blueprint(&bp((1, 1), &[("V", &[])]), &imgs(&[image_1, image_2])).unwrap();

    assert!(layout_1.logical_eq(&layout_2).is_ok());
}

#[test]
fn compare_layouts_with_different_leaf_nodes() {
    let image_1 = ImageHandle { index: 0, width: 1, height: 1 };
    let image_2 = ImageHandle { index: 1, width: 2, height: 2 };
    let layout_1 =
        Layout::from_blueprint(&bp((1, 1), &[("V", &[])]), &vec![image_1, image_2]).unwrap();
    // layout_2 refers to the same images, but has them in different order.
    let layout_2 =
        Layout::from_blueprint(&bp((1, 1), &[("V", &[])]), &vec![image_2, image_1]).unwrap();

    assert!(!layout_1.logical_eq(&layout_2).is_ok());
}

#[test]
fn create_layout_from_blueprint() {
    let blueprint = bp((10, 10), &[("V", &[1]), ("H", &[])]);
    let images = imgs(&[(5, 10), (2, 2), (2, 4)]);
    let layout = Layout::from_blueprint(&blueprint, &images).unwrap();

    // Expected: a V root whose left child is the H node and whose right
    // child is the first image; the H node holds the second and third.
    let (v_left, v_right) = layout.children(0).unwrap();
    assert_eq!(
        layout.node_label(0),
        NodeLabel::Internal(SliceDirection::Vertical)
    );
    assert_eq!(
        layout.node_label(v_left),
        NodeLabel::Internal(SliceDirection::Horizontal)
    );
    assert_eq!(layout.image(v_right), Some(images[0]));
    let (h_left, h_right) = layout.children(v_left).unwrap();
    assert_eq!(layout.image(h_left), Some(images[1]));
    assert_eq!(layout.image(h_right), Some(images[2]));
}

// Since we only have two internal nodes, we know that if we pass one of them
// to swap_with_random_node, the other one will be the only other internal
// node. Thus we can write a test case.
#[test]
fn swap_random_pair_of_internal_nodes() {
    let blueprint = bp((10, 10), &[("V", &[1]), ("H", &[])]);
    let images = imgs(&[(5, 10), (2, 2), (2, 4)]);
    let mut layout = Layout::from_blueprint(&blueprint, &images).unwrap();
    let mut rng = StdRng::seed_from_u64(7);

    layout.swap_with_random_node(&mut rng, 0);

    assert_eq!(
        NodeLabel::Internal(SliceDirection::Horizontal),
        layout.node_label(0)
    );
    assert_eq!(
        NodeLabel::Internal(SliceDirection::Vertical),
        layout.node_label(1)
    );
}

// Since we only have two leaf nodes, we know that if we pass one of them to
// swap_with_random_node, the other one will be the only other leaf node.
#[test]
fn swap_random_pair_of_leaf_nodes() {
    let blueprint = bp((10, 10), &[("V", &[])]);
    let images = imgs(&[(1, 1), (2, 2)]);
    let mut layout = Layout::from_blueprint(&blueprint, &images).unwrap();
    let mut rng = StdRng::seed_from_u64(7);

    layout.swap_with_random_node(&mut rng, 1);

    assert_eq!(Some(images[1]), layout.image(1));
    assert_eq!(Some(images[0]), layout.image(2));
}

#[test]
fn fall_back_to_swapping_leaf_nodes_if_all_internal_nodes_have_the_same_label() {
    let blueprint = bp((10, 10), &[("V", &[1]), ("V", &[])]);
    let images = imgs(&[(1, 1), (1, 2), (1, 3)]);
    let mut layout = Layout::from_blueprint(&blueprint, &images).unwrap();
    let mut rng = StdRng::seed_from_u64(7);

    layout.swap_with_random_node(&mut rng, 0);

    let actual_leaf_node_images = leaf_images(&layout);
    assert_ne!(images, actual_leaf_node_images);
}

#[test]
fn fall_back_to_swapping_leaf_nodes_if_theres_one_internal_node() {
    let blueprint = bp((10, 10), &[("V", &[])]);
    let images = imgs(&[(1, 1), (2, 2)]);
    let mut layout = Layout::from_blueprint(&blueprint, &images).unwrap();
    let mut rng = StdRng::seed_from_u64(7);

    layout.swap_with_random_node(&mut rng, 0);

    let expected_leaf_node_images = vec![images[1], images[0]];
    assert_eq!(expected_leaf_node_images, leaf_images(&layout));
}

#[test]
fn create_blueprint_from_layout() {
    let images = imgs(&[(1, 1), (1, 2), (1, 3)]);
    let blueprint = bp((10, 10), &[("V", &[1]), ("H", &[])]);
    let layout = Layout::from_blueprint(&blueprint, &images).unwrap();

    let expected_blueprint = bp((10, 10), &[("V", &[1]), ("H", &[])]);
    let actual_blueprint = layout.to_blueprint();

    assert_eq!(expected_blueprint, actual_blueprint);
}

#[test]
fn from_and_to_blueprint_returns_same_blueprint() {
    let seed: u64 = 20260817;
    let mut rng = StdRng::seed_from_u64(seed);
    for round in 0..100 {
        let n = 2 + (round % 9) as u32;
        let mut images = vec![];
        for i in 0..n {
            images.push(ImageHandle { index: i as usize, width: 1, height: i + 1 });
        }
        let layout = Layout::new(&images, &mut rng);
        let blueprint1 = layout.to_blueprint();
        let blueprint2 = Layout::from_blueprint(&blueprint1, &images)
            .unwrap()
            .to_blueprint();

        assert_eq!(
            blueprint1, blueprint2,
            "Blueprints are not matching each other\nSeed: {}\nLayout:\n{:?}",
            seed, layout,
        );
    }
}

#[test]
fn find_subtrees() {
    let blueprint = bp((10, 10), &[("V", &[1]), ("H", &[2]), ("H", &[])]);
    let images = imgs(&[(1, 1), (1, 2), (1, 3), (1, 4)]);
    let layout = Layout::from_blueprint(&blueprint, &images).unwrap();

    let subtrees: Vec<Subtree> = layout.subtrees();

    assert_eq!(Subtree::new(0, 4), subtrees[0]);
    assert_eq!(Subtree::new(1, 3), subtrees[1]);
}

#[test]
fn find_pairs_in_subtrees() {
    let images = imgs(&[(1, 1), (1, 2), (1, 3), (1, 4), (1, 5)]);
    let blueprint1 = bp(
        (10, 10),
        &[("V", &[1]), ("V", &[2]), ("V", &[3]), ("V", &[])],
    );
    let blueprint2 = bp(
        (10, 10),
        &[("H", &[1, 2]), ("V", &[3]), ("V", &[]), ("V", &[])],
    );
    let layout_1 = Layout::from_blueprint(&blueprint1, &images).unwrap();
    let layout_2 = Layout::from_blueprint(&blueprint2, &images).unwrap();

    let expected_pairs = vec![
        (Subtree::new(0, 5), Subtree::new(0, 5)),
        (Subtree::new(2, 3), Subtree::new(1, 3)),
    ];

    let actual_pairs: Vec<(Subtree, Subtree)> = layout_1.subtree_pairs(&layout_2);

    assert_eq!(expected_pairs, actual_pairs);
}

#[test]
fn swapping_order_of_children() {
    let blueprint = bp((10, 10), &[("V", &[1, 2]), ("H", &[]), ("V", &[])]);
    let images = imgs(&[(1, 1), (1, 2), (1, 3), (1, 4)]);
    let mut layout = Layout::from_blueprint(&blueprint, &images).unwrap();

    layout.swap_order_of_children(0);

    let (left_child, right_child) = layout.children(0).unwrap();
    assert_eq!(
        NodeLabel::Internal(SliceDirection::Vertical),
        layout.node_label(left_child)
    );
    assert_eq!(
        NodeLabel::Internal(SliceDirection::Horizontal),
        layout.node_label(right_child)
    );
}

#[test]
fn blueprint_of_layout_with_swapped_children_leads_to_equal_layout() {
    let blueprint = bp((10, 10), &[("V", &[1, 2]), ("H", &[]), ("V", &[])]);
    let images = imgs(&[(1, 1), (1, 2), (1, 3), (1, 4)]);
    let mut layout = Layout::from_blueprint(&blueprint, &images).unwrap();

    layout.swap_order_of_children(0);

    let layout_from_blueprint = Layout::from_blueprint(&layout.to_blueprint(), &images).unwrap();
    let (left_child, right_child) = layout_from_blueprint.children(0).unwrap();
    assert_eq!(
        NodeLabel::Internal(SliceDirection::Vertical),
        layout_from_blueprint.node_label(left_child)
    );
    assert_eq!(
        NodeLabel::Internal(SliceDirection::Horizontal),
        layout_from_blueprint.node_label(right_child)
    );
}

#[test]
fn swaping_single_subtree() {
    let images1 = imgs(&[(1, 1), (1, 2), (1, 3), (1, 4), (1, 5)]);
    let blueprint1 = bp(
        (10, 10),
        &[("V", &[1]), ("H", &[2]), ("V", &[3]), ("H", &[])],
    );
    let blueprint2 = bp(
        (10, 10),
        &[("H", &[1, 2]), ("H", &[3]), ("V", &[]), ("V", &[])],
    );
    let mut images2 = images1.clone();
    images2.reverse();

    let mut layout = Layout::from_blueprint(&blueprint1, &images1).unwrap();
    let layout_other = Layout::from_blueprint(&blueprint2, &images2).unwrap();

    layout.swap_subtree(&layout_other, 2, 1);

    let expected_layout_blueprint = bp(
        (10, 10),
        &[("V", &[1]), ("H", &[2]), ("H", &[3]), ("V", &[])],
    );

    assert_eq!(expected_layout_blueprint, layout.to_blueprint());
    assert_eq!(images1, leaf_images(&layout));
}

#[test]
fn swapping_two_subtrees_keeps_logical_structure() {
    let images1 = imgs(&[(1, 1), (1, 2), (1, 3), (1, 4), (1, 5)]);
    let blueprint1 = bp(
        (10, 10),
        &[("V", &[1]), ("H", &[2]), ("V", &[3]), ("H", &[])],
    );
    let blueprint2 = bp(
        (10, 10),
        &[("H", &[1, 2]), ("H", &[3]), ("V", &[]), ("V", &[])],
    );
    let mut images2 = images1.clone();
    images2.reverse();

    let mut layout_1 = Layout::from_blueprint(&blueprint1, &images1).unwrap();
    let mut layout_2 = Layout::from_blueprint(&blueprint2, &images2).unwrap();

    layout_1.crossover_subtrees(&mut layout_2, (2, 1));

    let expected_layout_1_blueprint = bp(
        (10, 10),
        &[("V", &[1]), ("H", &[2]), ("H", &[3]), ("V", &[])],
    );
    let expected_layout_2_blueprint = bp(
        (10, 10),
        &[("H", &[1, 2]), ("V", &[3]), ("V", &[]), ("H", &[])],
    );
    let expected_layout_1 = Layout::from_blueprint(&expected_layout_1_blueprint, &images1).unwrap();
    let expected_layout_2 = Layout::from_blueprint(&expected_layout_2_blueprint, &images2).unwrap();

    assert!(expected_layout_1.logical_eq(&layout_1).is_ok());
    assert!(expected_layout_2.logical_eq(&layout_2).is_ok());
}

#[test]
fn swapping_the_whole_layout_keeps_logical_structure() {
    let images = imgs(&[(1, 1), (1, 2), (1, 3), (1, 4), (1, 5)]);
    let blueprint1 = bp(
        (10, 10),
        &[("V", &[1]), ("H", &[2]), ("V", &[3]), ("H", &[])],
    );
    let blueprint2 = bp(
        (10, 10),
        &[("H", &[1, 2]), ("H", &[3]), ("V", &[]), ("V", &[])],
    );

    let mut layout_1 = Layout::from_blueprint(&blueprint1, &images).unwrap();
    let mut layout_2 = Layout::from_blueprint(&blueprint2, &images).unwrap();
    let expected_layout_1 = layout_2.duplicate();
    let expected_layout_2 = layout_1.duplicate();

    layout_1.crossover_subtrees(&mut layout_2, (0, 0));

    assert!(expected_layout_1.logical_eq(&layout_1).is_ok());
    assert!(expected_layout_2.logical_eq(&layout_2).is_ok());
}
