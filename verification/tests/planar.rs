use inkvec_trace::planar::junctions::{junction_curvature_points, junction_fit_points, junction_skip, node_corner};
use inkvec_trace::planar::rings::face_edge_order;
use inkvec_trace::planar::{build, label_at, node_id, PlanarMap};

#[test]
fn nodes_are_numbered_row_by_row_over_the_corners() {
    // A 3-wide raster has 4 corners per row.
    assert_eq!(node_id(0, 0, 3), 0);
    assert_eq!(node_id(3, 0, 3), 3);
    assert_eq!(node_id(0, 1, 3), 4);
    assert_eq!(node_id(2, 2, 3), 10);
}

#[test]
fn outside_the_raster_is_a_background_of_its_own() {
    let labels = vec![1u16, 2, 3, 4, 5, 6];
    assert_eq!(label_at(&labels, 3, 2, 0, 0), 1);
    assert_eq!(label_at(&labels, 3, 2, 2, 1), 6);
    assert_eq!(label_at(&labels, 3, 2, -1, 0), u16::MAX);
    assert_eq!(label_at(&labels, 3, 2, 3, 0), u16::MAX);
    assert_eq!(label_at(&labels, 3, 2, 0, 2), u16::MAX);
    assert_eq!(label_at(&labels, 3, 2, 1, -1), u16::MAX);
}

#[test]
fn junction_refinement_parameters() {
    assert_eq!(junction_fit_points(), 6);
    assert_eq!(junction_skip(), 1);
    assert_eq!(junction_curvature_points(), 16);
}

/// Four pixels meeting at a corner, with the two on one diagonal a single face: the 0s
/// are one face meeting at the centre corner, and 1 and 2 touch there and nowhere else.
fn touching_corner() -> (Vec<u16>, usize, usize) {
    (vec![1, 0, 0, 2], 2, 2)
}

/// Count the curves that stop at grid node `p`, and the curves that carry it at all,
/// counting a split copy of the node as the node itself.
fn at_node(map: &PlanarMap, p: u32) -> (usize, usize) {
    let plane = ((map.width + 1) * (map.height + 1)) as u32;
    let same = |q: &u32| q % plane == p;
    let ending = map
        .edges
        .iter()
        .filter(|e| !e.closed && (e.nodes.first().is_some_and(same) || e.nodes.last().is_some_and(same)))
        .count();
    let carrying = map.edges.iter().filter(|e| e.nodes.iter().any(same)).count();
    (ending, carrying)
}

#[test]
fn four_inks_meeting_at_a_corner_stay_a_junction() {
    // No diagonal is one face, so nothing can be read off the labels and the corner
    // keeps the four-way junction it has always had.
    let map = build(&[1, 0, 3, 2], 2, 2, 4);
    let (ending, _) = at_node(&map, node_id(1, 1, 2));
    assert_eq!(ending, 4, "every curve should stop at an unreadable corner");
}

#[test]
fn a_corner_two_shapes_share_becomes_two_points() {
    let (labels, w, h) = touching_corner();
    let map = build(&labels, w, h, 3);
    let (ending, carrying) = at_node(&map, node_id(1, 1, w));
    // Neither shape stops there any more: each passes through a copy of its own.
    assert_eq!(ending, 0, "the corner should no longer be a junction");
    assert_eq!(carrying, 2, "exactly the two shapes that touch should carry the corner");
}

#[test]
fn a_lone_square_is_one_closed_curve() {
    // One pixel of ink on a 3x3 background: a single closed ring of four corners with
    // the ink inside and the background outside; the raster border is a second ring.
    let labels = vec![0u16, 0, 0, 0, 1, 0, 0, 0, 0];
    let map = build(&labels, 3, 3, 2);
    assert_eq!(map.width, 3);
    assert_eq!(map.n_labels, 2);
    assert_eq!(map.edges.len(), 2);
    for e in &map.edges {
        assert!(e.closed);
        assert_eq!(e.start_node, e.end_node);
        assert_ne!(e.left, e.right);
    }
    let inner = map.edges.iter().find(|e| e.left == 1 || e.right == 1).unwrap();
    assert_eq!(inner.nodes.len(), 4);
    let mut ring = inner.nodes.clone();
    ring.sort();
    assert_eq!(ring, vec![node_id(1, 1, 3), node_id(2, 1, 3), node_id(1, 2, 3), node_id(2, 2, 3)]);
    let outer = map.edges.iter().find(|e| e.left == u16::MAX || e.right == u16::MAX).unwrap();
    assert_eq!(outer.nodes.len(), 12);
}

#[test]
fn a_uniform_raster_has_only_its_border() {
    let map = build(&[5u16; 6], 3, 2, 6);
    assert_eq!(map.edges.len(), 1);
    let e = &map.edges[0];
    assert!(e.closed);
    assert_eq!(e.nodes.len(), 10);
    assert!((e.left == 5 && e.right == u16::MAX) || (e.left == u16::MAX && e.right == 5));
}

#[test]
fn splitting_gives_each_shape_its_own_copy_of_the_corner() {
    let (labels, w, h) = touching_corner();
    let map = build(&labels, w, h, 3);
    // The two ids for the corner are one grid apart, and both decode to it.
    let plane = ((w + 1) * (h + 1)) as u32;
    let real = node_id(1, 1, w);
    assert_eq!(node_corner(real, w, h), node_corner(real + plane, w, h));

    // Faces 1 and 2 each still own a closed boundary, and every edge still separates
    // exactly the two faces it did before: the split must not merge segments whose
    // sides differ.
    for e in &map.edges {
        assert_ne!(e.left, e.right, "an edge with the same face on both sides");
    }
    let rings = face_edge_order(&map);
    for face in [1usize, 2] {
        assert!(!rings[face].is_empty(), "face {face} lost its ring");
    }
}

#[test]
fn node_corners_fold_copies_back_onto_the_grid() {
    // A 3x2 raster has 4x3 = 12 corners.
    assert_eq!(node_corner(0, 3, 2), (0, 0));
    assert_eq!(node_corner(5, 3, 2), (1, 1));
    assert_eq!(node_corner(11, 3, 2), (3, 2));
    assert_eq!(node_corner(17, 3, 2), (1, 1));
}

#[test]
fn every_face_names_each_of_its_edges_once() {
    // Two inks side by side in a 2x1 raster, inside the virtual background.
    let map = build(&[0u16, 1], 2, 1, 2);
    let rings = face_edge_order(&map);
    assert_eq!(rings.len(), 2);
    for f in 0..2usize {
        let mut named: Vec<(usize, bool)> = rings[f].iter().flatten().copied().collect();
        let mut expected: Vec<(usize, bool)> = Vec::new();
        for (k, e) in map.edges.iter().enumerate() {
            if e.left as usize == f {
                expected.push((k, false));
            }
            if e.right as usize == f {
                expected.push((k, true));
            }
        }
        named.sort();
        expected.sort();
        assert_eq!(named, expected);
        // Along each ring, a reference starts where the one before it ends.
        for ring in &rings[f] {
            let ends = |&(k, rev): &(usize, bool)| {
                let e = &map.edges[k];
                if rev { (e.end_node, e.start_node) } else { (e.start_node, e.end_node) }
            };
            for pair in ring.windows(2) {
                assert_eq!(ends(&pair[0]).1, ends(&pair[1]).0);
            }
            assert_eq!(ends(&ring[ring.len() - 1]).1, ends(&ring[0]).0);
        }
    }
    // The seam between the two inks is one edge named from both sides.
    let seam: Vec<usize> = (0..map.edges.len())
        .filter(|&k| {
            let e = &map.edges[k];
            (e.left == 0 && e.right == 1) || (e.left == 1 && e.right == 0)
        })
        .collect();
    assert_eq!(seam.len(), 1);
}

#[test]
fn a_closed_edge_is_a_ring_of_its_own() {
    let labels = vec![0u16, 0, 0, 0, 1, 0, 0, 0, 0];
    let map = build(&labels, 3, 3, 2);
    let rings = face_edge_order(&map);
    // The ink has one ring, its square; the background has two, the square and the border
    // (which the virtual background, label u16::MAX, does not get).
    assert_eq!(rings[1].len(), 1);
    assert_eq!(rings[1][0].len(), 1);
    assert_eq!(rings[0].len(), 2);
    assert!(rings[0].iter().all(|r| r.len() == 1));
}

#[test]
fn faces_beyond_the_label_count_get_no_rings() {
    let map = build(&[0u16, 1], 2, 1, 1);
    let rings = face_edge_order(&map);
    assert_eq!(rings.len(), 1);
    assert!(!rings[0].is_empty());
}

/// The two faces beside the step from node `x` to node `y`, left then right, read off the
/// pixels.
fn faces_beside(labels: &[u16], w: usize, h: usize, x: u32, y: u32) -> (u16, u16) {
    let (xi, xj) = node_corner(x, w, h);
    let (yi, yj) = node_corner(y, w, h);
    let (xi, xj, yi, yj) = (xi as isize, xj as isize, yi as isize, yj as isize);
    let px = |i: isize, j: isize| label_at(labels, w, h, i, j);
    if xi == yi && yj == xj + 1 {
        (px(xi, xj), px(xi - 1, xj))
    } else if xi == yi && xj == yj + 1 {
        (px(xi - 1, yj), px(xi, yj))
    } else if xj == yj && yi == xi + 1 {
        (px(xi, xj - 1), px(xi, xj))
    } else {
        assert!(xj == yj && xi == yi + 1, "a step between corners that are not neighbours");
        (px(yi, yj), px(yi, yj - 1))
    }
}

#[test]
fn every_step_keeps_the_edge_faces_on_its_sides() {
    // Junctions, a split corner, a closed ring and the raster border all at once.
    let cases: Vec<(Vec<u16>, usize, usize)> = vec![
        touching_corner(),
        (vec![1, 0, 0, 0, 1, 0, 0, 0, 0], 3, 3),
        (vec![1, 0, 2, 0, 0, 3, 4, 3, 3], 3, 3),
        (vec![0, 1, 1, 0, 2, 1, 2, 2, 0, 2, 1, 0], 4, 3),
    ];
    for (labels, w, h) in cases {
        let map = build(&labels, w, h, 5);
        for e in &map.edges {
            let steps = if e.closed { e.nodes.len() } else { e.nodes.len() - 1 };
            for t in 0..steps {
                let x = e.nodes[t];
                let y = e.nodes[(t + 1) % e.nodes.len()];
                assert_eq!(faces_beside(&labels, w, h, x, y), (e.left, e.right));
            }
        }
    }
}

#[test]
fn curves_run_from_junction_to_junction() {
    let cases: Vec<(Vec<u16>, usize, usize)> = vec![
        touching_corner(),
        (vec![1, 0, 2, 0, 0, 3, 4, 3, 3], 3, 3),
        (vec![0, 1, 1, 0, 2, 1, 2, 2, 0, 2, 1, 0], 4, 3),
    ];
    for (labels, w, h) in cases {
        let map = build(&labels, w, h, 5);
        // How many segments (steps of any curve) meet at each node.
        let mut degree = std::collections::HashMap::<u32, usize>::new();
        for e in &map.edges {
            let steps = if e.closed { e.nodes.len() } else { e.nodes.len() - 1 };
            for t in 0..steps {
                *degree.entry(e.nodes[t]).or_default() += 1;
                *degree.entry(e.nodes[(t + 1) % e.nodes.len()]).or_default() += 1;
            }
        }
        for e in &map.edges {
            let last = e.nodes.len() - 1;
            for (t, x) in e.nodes.iter().enumerate() {
                let inside = e.closed || (0 < t && t < last);
                assert_eq!(degree[x] == 2, inside, "node {x} of an edge, closed: {}", e.closed);
            }
        }
    }
}

#[test]
fn a_single_pixel_is_one_ring_starting_at_the_first_corner() {
    let map = build(&[0u16], 1, 1, 1);
    assert_eq!((map.width, map.height, map.n_labels), (1, 1, 1));
    assert_eq!(map.edges.len(), 1);
    let e = &map.edges[0];
    assert!(e.closed);
    assert_eq!((e.left, e.right), (0, u16::MAX));
    assert_eq!((e.start_node, e.end_node), (0, 0));
    // Down the left side first, then along the bottom, up the right and back.
    assert_eq!(e.nodes, vec![0, 2, 3, 1]);
}

#[test]
fn an_open_curve_starts_at_its_smaller_end() {
    for (labels, w, h) in [(vec![1u16, 0, 2, 0, 0, 3, 4, 3, 3], 3usize, 3usize), (vec![0, 1, 1, 0, 2, 1, 2, 2, 0, 2, 1, 0], 4, 3)] {
        let map = build(&labels, w, h, 5);
        assert!(map.edges.iter().any(|e| !e.closed));
        for e in map.edges.iter().filter(|e| !e.closed) {
            assert!(e.start_node <= e.end_node);
        }
    }
}
