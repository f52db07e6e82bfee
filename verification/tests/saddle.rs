use inkvec_trace::saddle::{join_faces, saddle_corners, SaddleCorner};

#[test]
fn a_corner_two_shapes_of_one_ink_share_is_a_saddle() {
    // 1 0   faces 1 and 2 are one ink, touching at the centre corner; face 0 is the
    // 0 2   ground, a single face on the other diagonal.
    let corners = saddle_corners(&[1, 0, 0, 2], 2, 2, &[0, 1, 1]);
    assert_eq!(
        corners,
        vec![SaddleCorner { i: 1, j: 1, nw: 1, ne: 0, sw: 0, se: 2, ink_a: 1, ink_c: 0 }]
    );
}

#[test]
fn corners_that_are_not_saddles_are_skipped() {
    // Four inks: no diagonal is one ink.
    assert!(saddle_corners(&[1, 0, 3, 2], 2, 2, &[0, 1, 2, 3]).is_empty());
    // Both diagonals of one ink.
    assert!(saddle_corners(&[1, 0, 0, 2], 2, 2, &[0, 0, 0]).is_empty());
    // A face without an ink.
    assert!(saddle_corners(&[1, 0, 0, 2], 2, 2, &[0, 1]).is_empty());
    // Two side-by-side pixels of one face.
    assert!(saddle_corners(&[1, 1, 0, 2], 2, 2, &[0, 1, 1]).is_empty());
}

#[test]
fn saddles_come_in_scan_order() {
    // 1 0 3
    // 0 2 0
    // 4 0 5     with faces 1..5 one ink and 0 the ground.
    let labels = [1, 0, 3, 0, 2, 0, 4, 0, 5];
    let corners = saddle_corners(&labels, 3, 3, &[0, 1, 1, 1, 1, 1]);
    let at: Vec<(usize, usize)> = corners.iter().map(|c| (c.i, c.j)).collect();
    assert_eq!(at, vec![(1, 1), (2, 1), (1, 2), (2, 2)]);
}

#[test]
fn joined_faces_take_the_smallest_id() {
    let (labels, joined) = join_faces(vec![1, 0, 0, 2], 3, &[(1, 2)]);
    assert_eq!(labels, vec![1, 0, 0, 1]);
    assert_eq!(joined, 1);
    // A join of faces already one counts for nothing.
    let (labels, joined) = join_faces(vec![1, 0, 0, 2], 3, &[(2, 1), (1, 2)]);
    assert_eq!(labels, vec![1, 0, 0, 1]);
    assert_eq!(joined, 1);
    // Joins chain: 3 with 1, then 2 with 3, makes 1, 2 and 3 one face, 1.
    let (labels, joined) = join_faces(vec![0, 1, 2, 3], 4, &[(3, 1), (2, 3)]);
    assert_eq!(labels, vec![0, 1, 1, 1]);
    assert_eq!(joined, 2);
    // Nothing to join: the labels come back as they were.
    let (labels, joined) = join_faces(vec![0, 1, 2, 3], 4, &[]);
    assert_eq!(labels, vec![0, 1, 2, 3]);
    assert_eq!(joined, 0);
}
