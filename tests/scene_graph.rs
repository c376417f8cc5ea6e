use gloom::scene::{SceneError, SceneGraph};

type Vec3 = [f32; 3];

/// Composition of translation-only transforms: the world offset of a node is the
/// inherited offset plus its own position.
fn translate(m: &Vec3, a: &Vec3) -> Vec3 {
    [m[0] + a[0], m[1] + a[1], m[2] + a[2]]
}

fn world(g: &SceneGraph<Vec3, Vec3>, i: usize) -> Vec3 {
    g.world(i).expect("world transform computed")
}

#[test]
fn new_graph_is_empty() {
    let g: SceneGraph<Vec3, Vec3> = SceneGraph::new();
    assert_eq!(g.node_count(), 0);
}

#[test]
fn new_nodes_are_unlinked_and_uncomputed() {
    let mut g: SceneGraph<Vec3, Vec3> = SceneGraph::new();
    let a = g.add_node([1.0, 2.0, 3.0]);
    let b = g.add_drawable([0.0, 0.0, 0.0], 7, 36);
    assert_eq!((a, b), (0, 1));
    assert_eq!(g.node(a).vao_id, 0);
    assert_eq!(g.node(a).index_count, 0);
    assert_eq!(g.node(b).vao_id, 7);
    assert_eq!(g.node(b).index_count, 36);
    assert_eq!(g.node(b).parent, None);
    assert!(g.node(a).children.is_empty());
    assert!(g.world(a).is_none());
}

#[test]
fn add_child_links_both_ways() {
    let mut g: SceneGraph<Vec3, Vec3> = SceneGraph::new();
    let root = g.add_node([0.0; 3]);
    let c1 = g.add_node([0.0; 3]);
    let c2 = g.add_node([0.0; 3]);
    assert_eq!(g.add_child(root, c1), Ok(()));
    assert_eq!(g.add_child(root, c2), Ok(()));
    assert_eq!(g.node(root).children, vec![c1, c2]);
    assert_eq!(g.node(c1).parent, Some(root));
    assert_eq!(g.node(c2).parent, Some(root));
}

#[test]
fn add_child_errors() {
    let mut g: SceneGraph<Vec3, Vec3> = SceneGraph::new();
    let root = g.add_node([0.0; 3]);
    let a = g.add_node([0.0; 3]);
    let b = g.add_node([0.0; 3]);
    assert_eq!(g.add_child(root, 9), Err(SceneError::NoSuchNode));
    assert_eq!(g.add_child(9, a), Err(SceneError::NoSuchNode));
    assert_eq!(g.add_child(a, a), Err(SceneError::WouldCycle));
    assert_eq!(g.add_child(b, a), Ok(()));
    assert_eq!(g.add_child(a, b), Err(SceneError::WouldCycle));
    assert_eq!(g.add_child(root, b), Ok(()));
    assert_eq!(g.add_child(b, root), Err(SceneError::WouldCycle));
    assert_eq!(g.add_child(root, a), Err(SceneError::AlreadyOwned));
    assert_eq!(g.node(a).children, Vec::<usize>::new());
    assert_eq!(g.node(b).children, vec![a]);
    assert_eq!(g.node(root).children, vec![b]);
    assert_eq!(g.node(a).parent, Some(b));
    assert_eq!(g.node(b).parent, Some(root));
}

#[test]
fn child_created_before_its_parent_is_linked() {
    let mut g: SceneGraph<Vec3, Vec3> = SceneGraph::new();
    let grandchild = g.add_drawable([0.0, 1.0, 0.0], 2, 3);
    let child = g.add_node([1.0, 0.0, 0.0]);
    let root = g.add_node([0.0, 0.0, 0.0]);
    assert_eq!(g.add_child(child, grandchild), Ok(()));
    assert_eq!(g.add_child(root, child), Ok(()));
    assert_eq!(g.node(root).children, vec![child]);
    g.update_node_transformations(root, [0.0; 3], &translate);
    assert_eq!(world(&g, child), [1.0, 0.0, 0.0]);
    assert_eq!(world(&g, grandchild), [1.0, 1.0, 0.0]);
    assert_eq!(g.draw_scene(root), vec![grandchild]);
}

#[test]
fn add_child_leaves_transforms_alone() {
    let mut g: SceneGraph<Vec3, Vec3> = SceneGraph::new();
    let root = g.add_node([1.0, 0.0, 0.0]);
    let child = g.add_node([0.0, 5.0, 0.0]);
    g.update_node_transformations(root, [0.0; 3], &translate);
    g.update_node_transformations(child, [0.0; 3], &translate);
    assert_eq!(world(&g, root), [1.0, 0.0, 0.0]);
    assert_eq!(world(&g, child), [0.0, 5.0, 0.0]);
    assert_eq!(g.add_child(root, child), Ok(()));
    assert_eq!(world(&g, root), [1.0, 0.0, 0.0]);
    assert_eq!(world(&g, child), [0.0, 5.0, 0.0]);
    assert_eq!(g.node(root).local, [1.0, 0.0, 0.0]);
    assert_eq!(g.node(child).local, [0.0, 5.0, 0.0]);
    g.update_node_transformations(root, [0.0; 3], &translate);
    assert_eq!(world(&g, child), [1.0, 5.0, 0.0]);
}

#[test]
fn grandchild_world_translation() {
    let mut g: SceneGraph<Vec3, Vec3> = SceneGraph::new();
    let root = g.add_node([0.0, 0.0, 0.0]);
    let child = g.add_node([1.0, 0.0, 0.0]);
    let grandchild = g.add_node([0.0, 1.0, 0.0]);
    g.add_child(root, child).unwrap();
    g.add_child(child, grandchild).unwrap();
    g.update_node_transformations(root, [0.0; 3], &translate);
    assert_eq!(world(&g, grandchild), [1.0, 1.0, 0.0]);
}

#[test]
fn child_world_is_parent_world_composed_with_local() {
    let mut g: SceneGraph<Vec3, Vec3> = SceneGraph::new();
    let root = g.add_node([2.0, 0.0, 0.0]);
    let a = g.add_node([0.0, 3.0, 0.0]);
    let b = g.add_node([0.0, 0.0, 4.0]);
    let c = g.add_node([1.0, 1.0, 1.0]);
    g.add_child(root, a).unwrap();
    g.add_child(root, b).unwrap();
    g.add_child(b, c).unwrap();
    g.update_node_transformations(root, [10.0, 0.0, 0.0], &translate);
    assert_eq!(world(&g, root), [12.0, 0.0, 0.0]);
    for n in [a, b, c] {
        let p = g.node(n).parent.unwrap();
        assert_eq!(world(&g, n), translate(&world(&g, p), &g.node(n).local));
    }
    assert_eq!(world(&g, c), [13.0, 1.0, 5.0]);
}

#[test]
fn propagation_from_inner_node_leaves_the_rest() {
    let mut g: SceneGraph<Vec3, Vec3> = SceneGraph::new();
    let root = g.add_node([1.0, 0.0, 0.0]);
    let a = g.add_node([0.0, 1.0, 0.0]);
    let b = g.add_node([0.0, 0.0, 1.0]);
    g.add_child(root, a).unwrap();
    g.add_child(a, b).unwrap();
    g.update_node_transformations(root, [0.0; 3], &translate);
    g.set_local(root, [5.0, 0.0, 0.0]);
    g.set_local(b, [0.0, 0.0, 2.0]);
    assert_eq!(world(&g, b), [1.0, 1.0, 1.0]);
    g.update_node_transformations(a, [0.0, 0.0, 0.0], &translate);
    assert_eq!(world(&g, root), [1.0, 0.0, 0.0]);
    assert_eq!(world(&g, a), [0.0, 1.0, 0.0]);
    assert_eq!(world(&g, b), [0.0, 1.0, 2.0]);
}

#[test]
fn draw_skips_grouping_nodes_but_visits_their_children() {
    let mut g: SceneGraph<Vec3, Vec3> = SceneGraph::new();
    let root = g.add_node([0.0; 3]);
    let group = g.add_drawable([0.0; 3], 3, -1);
    let leaf1 = g.add_drawable([0.0; 3], 4, 6);
    let leaf2 = g.add_drawable([0.0; 3], 5, 12);
    let body = g.add_drawable([0.0; 3], 6, 30);
    let loose = g.add_drawable([0.0; 3], 8, 3);
    g.add_child(root, group).unwrap();
    g.add_child(group, leaf1).unwrap();
    g.add_child(group, leaf2).unwrap();
    g.add_child(root, body).unwrap();
    assert_eq!(g.draw_scene(root), vec![leaf1, leaf2, body]);
    assert_eq!(g.draw_scene(group), vec![leaf1, leaf2]);
    assert_eq!(g.draw_scene(leaf2), vec![leaf2]);
    assert_eq!(g.draw_scene(loose), vec![loose]);
}

#[test]
fn draw_is_depth_first_in_child_order() {
    let mut g: SceneGraph<Vec3, Vec3> = SceneGraph::new();
    let root = g.add_drawable([0.0; 3], 1, 3);
    let a = g.add_drawable([0.0; 3], 1, 3);
    let b = g.add_drawable([0.0; 3], 1, 3);
    let a1 = g.add_drawable([0.0; 3], 1, 3);
    let b1 = g.add_drawable([0.0; 3], 1, 3);
    let a2 = g.add_drawable([0.0; 3], 1, 3);
    g.add_child(root, b).unwrap();
    g.add_child(root, a).unwrap();
    g.add_child(a, a1).unwrap();
    g.add_child(b, b1).unwrap();
    g.add_child(a, a2).unwrap();
    assert_eq!(g.draw_scene(root), vec![root, b, b1, a, a1, a2]);
}
