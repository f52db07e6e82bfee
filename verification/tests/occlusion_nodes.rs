use inkvec_trace::occlusion::three_way::three_way_nodes;
use inkvec_trace::planar::{build, node_id};

/// A frame of ground (0) around three shapes: 1 across the top, 2 and 3 below it.
fn three_shapes() -> (Vec<u16>, usize, usize) {
    let labels = vec![0, 0, 0, 0, 0, 0, 1, 1, 1, 0, 0, 2, 2, 3, 0, 0, 0, 0, 0, 0];
    (labels, 5, 4)
}

#[test]
fn three_way_nodes_are_found_in_node_order() {
    let (labels, w, h) = three_shapes();
    let map = build(&labels, w, h, 4);
    let nodes = three_way_nodes(&map.edges);
    let ids: Vec<u32> = nodes.iter().map(|j| j.node).collect();
    assert_eq!(ids, vec![node_id(1, 2, w), node_id(3, 2, w), node_id(4, 2, w), node_id(3, 3, w)]);
    for j in &nodes {
        assert_eq!(j.arms.len(), 3);
        assert_eq!(j.faces.len(), 3);
        // Three faces meeting pairwise: each lies between exactly two arms.
        assert_eq!(j.pairs.len(), 3);
        for &(f, a, b) in &j.pairs {
            assert!(a < b && b < 3);
            for i in [a, b] {
                let e = &map.edges[j.arms[i].0];
                assert!(e.left == f || e.right == f);
            }
        }
    }
    let mut centre = nodes[1].faces.clone();
    centre.sort();
    assert_eq!(centre, vec![1, 2, 3]);
}

#[test]
fn a_node_on_the_raster_border_is_not_a_junction_to_read() {
    // Two shapes side by side: their seam meets the virtual background at both ends.
    let map = build(&[1, 2], 2, 1, 3);
    assert!(three_way_nodes(&map.edges).is_empty());
}

#[test]
fn a_lone_shape_on_background_has_no_t_junctions() {
    let (w, h) = (10usize, 10usize);
    let mut labels = vec![0u16; w * h];
    for y in 3..7 {
        for x in 3..7 {
            labels[y * w + x] = 1;
        }
    }
    let map = build(&labels, w, h, 2);
    // No node where three curve ends meet: no T-junction can be read anywhere.
    assert!(three_way_nodes(&map.edges).is_empty());
}
