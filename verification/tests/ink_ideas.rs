use inkvec_trace::fast::smooth::mid_index;
use inkvec_trace::ink_ideas::{batch_merge, components, interior};

#[test]
fn a_pixel_is_interior_when_its_neighbours_share_its_label() {
    // 0 0 0
    // 0 0 1
    let labels = vec![0u16, 0, 0, 0, 0, 1];
    assert!(interior(&labels, 3, 2, 0));
    assert!(interior(&labels, 3, 2, 1));
    assert!(!interior(&labels, 3, 2, 2));
    assert!(!interior(&labels, 3, 2, 4));
    assert!(!interior(&labels, 3, 2, 5));
}

#[test]
fn ink_components_are_numbered_in_scan_order() {
    let labels = vec![0u16, 1, 0, 1, 1, 0];
    let (comp, ink) = components(&labels, 3, 2);
    assert_eq!(comp, vec![0, 1, 2, 1, 1, 2]);
    assert_eq!(ink, vec![0, 1, 0]);
}

#[test]
fn the_mid_index_walks_forwards_round_the_ring() {
    assert_eq!(mid_index(2, 6, 10), 4);
    // From 8 forwards to 2 is four steps: two past 8 is 0.
    assert_eq!(mid_index(8, 2, 10), 0);
    assert_eq!(mid_index(3, 3, 10), 3);
}

#[test]
fn a_batch_merges_each_label_at_most_one_step() {
    // 1 into 0, then 2 into 1: 1 has already been merged away, so the second is skipped;
    // then 3 into 2.
    let mut labels = vec![0u16, 1, 2, 3, 3];
    assert!(batch_merge(&mut labels, 4, &[(1, 0), (2, 1), (3, 2)]));
    assert_eq!(labels, vec![0, 0, 2, 2, 2]);
    // A label that received a merge is not merged away in the same batch.
    let mut labels = vec![0u16, 1, 2];
    assert!(batch_merge(&mut labels, 3, &[(1, 0), (0, 2)]));
    assert_eq!(labels, vec![0, 0, 2]);
    // Nothing to merge.
    let mut labels = vec![0u16, 1];
    assert!(!batch_merge(&mut labels, 2, &[]));
    assert_eq!(labels, vec![0, 1]);
}
