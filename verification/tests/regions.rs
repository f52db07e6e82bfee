use inkvec_trace::regions::{despeckle, split_components};

#[test]
fn test_split_components_disjoint() {
    let w = 4;
    let h = 4;
    let labels = vec![1, 1, 0, 1, 1, 1, 0, 1, 0, 0, 0, 0, 0, 0, 0, 0];
    let (comp, face_color) = split_components(&labels, w, h);
    assert_eq!(face_color.len(), 3);
    assert_ne!(comp[0], comp[3]);
}

#[test]
fn test_despeckle_removes_single_pixel() {
    let w = 3;
    let h = 3;
    let mut labels = vec![0, 0, 0, 0, 1, 0, 0, 0, 0];
    despeckle(&mut labels, w, h, 2);
    assert_eq!(labels[4], 0);
}

#[test]
fn faces_are_numbered_in_scan_order_with_their_labels() {
    // 1 1 0 1
    // 1 1 0 1
    // 0 0 0 0
    let labels = vec![1u16, 1, 0, 1, 1, 1, 0, 1, 0, 0, 0, 0];
    let (comp, face_color) = split_components(&labels, 4, 3);
    assert_eq!(comp, vec![0, 0, 1, 2, 0, 0, 1, 2, 1, 1, 1, 1]);
    assert_eq!(face_color, vec![1, 0, 1]);
}

#[test]
fn a_speckle_takes_the_label_of_its_longest_border() {
    // The lone 3 borders 1 on three sides and 2 on one.
    let mut labels = vec![1u16, 1, 1, 1, 3, 2, 1, 1, 2];
    despeckle(&mut labels, 3, 3, 2);
    assert_eq!(labels, vec![1, 1, 1, 1, 1, 2, 1, 1, 2]);
}

#[test]
fn a_tie_goes_to_the_smaller_label() {
    // Every column is a component of two pixels. The 4s go first and take the 9 they
    // border; the 9s then border 9 twice and 2 twice, and take the smaller, 2; the 2s
    // are left bordering only 2.
    let mut labels = vec![4u16, 9, 2, 4, 9, 2];
    despeckle(&mut labels, 3, 2, 3);
    assert_eq!(labels, vec![9, 2, 2, 9, 2, 2]);
}

#[test]
fn components_take_their_turn_in_scan_order() {
    // The 7 goes first and becomes the 5 beside it; the 5 then borders a 5 and a 6, and
    // the tie goes to 5.
    let mut labels = vec![7u16, 5, 6, 6, 6];
    despeckle(&mut labels, 5, 1, 2);
    assert_eq!(labels, vec![5, 5, 6, 6, 6]);
}

#[test]
fn min_size_of_one_changes_nothing() {
    let mut labels = vec![0u16, 1, 0, 2];
    despeckle(&mut labels, 2, 2, 1);
    assert_eq!(labels, vec![0, 1, 0, 2]);
}

#[test]
fn a_lone_component_keeps_its_label() {
    let mut labels = vec![3u16; 4];
    despeckle(&mut labels, 2, 2, 10);
    assert_eq!(labels, vec![3, 3, 3, 3]);
}

#[test]
fn speckle_removal_keeps_large_components_and_moves_small_ones_whole() {
    // 1 1 1 1
    // 1 2 2 1
    // 3 3 3 3
    let mut labels = vec![1u16, 1, 1, 1, 1, 2, 2, 1, 3, 3, 3, 3];
    despeckle(&mut labels, 4, 3, 3);
    // The 2s (two pixels) border the 1s four times and the 3s twice: both become 1.
    assert_eq!(labels, vec![1, 1, 1, 1, 1, 1, 1, 1, 3, 3, 3, 3]);
}

#[test]
fn splitting_a_split_map_changes_nothing() {
    // Two disconnected 1s, a 2 and a 0 background.
    let labels = vec![1u16, 0, 1, 0, 0, 2, 1, 1, 2];
    let (out, src) = split_components(&labels, 3, 3);
    assert_eq!(src.len(), 5);
    let (again, src2) = split_components(&out, 3, 3);
    assert_eq!(again, out);
    assert_eq!(src2, (0..src.len()).collect::<Vec<usize>>());
}
