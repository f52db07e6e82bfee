use inkvec_trace::fast::faces::{components, despeckle, faces};
use inkvec_trace::regions::split_components;

#[test]
fn faces_match_the_flood_fill() {
    let (w, h) = (7, 5);
    let labels: Vec<u16> = (0..w * h)
        .map(|p| {
            let (x, y) = (p % w, p / w);
            u16::from((x + y) % 3 == 0 || (x == 3 && y > 0))
        })
        .collect();
    let (a, fa) = faces(&labels, w, h);
    let (b, fb) = split_components(&labels, w, h);
    assert_eq!(fa.len(), fb.len());
    // The same partition: two pixels share a face in one exactly when in the other.
    for p in 0..w * h {
        for q in 0..w * h {
            assert_eq!(a[p] == a[q], b[p] == b[q]);
        }
    }
}

#[test]
fn a_lone_pixel_takes_its_surroundings() {
    let mut labels = vec![0u16, 0, 0, 0, 1, 0, 0, 0, 2];
    despeckle(&mut labels, 3, 3, 2);
    assert_eq!(labels, vec![0, 0, 0, 0, 0, 0, 0, 0, 0]);
}

#[test]
fn a_u_shape_is_one_component() {
    // 1 1 . 1
    // 1 . . 1
    // 1 1 1 1
    let labels = vec![1u16, 1, 0, 1, 1, 0, 0, 1, 1, 1, 1, 1];
    let c = components(&labels, 4, 3);
    assert_eq!(c.size.len(), 2);
    assert_eq!(c.comp[0], c.comp[3]);
}

#[test]
fn components_carry_sizes_and_labels_in_scan_order() {
    // 1 1 . 1
    // 1 . . 1
    // 1 1 1 1
    let labels = vec![1u16, 1, 0, 1, 1, 0, 0, 1, 1, 1, 1, 1];
    let c = components(&labels, 4, 3);
    assert_eq!(c.comp, vec![0, 0, 1, 0, 0, 1, 1, 0, 0, 0, 0, 0]);
    assert_eq!(c.size, vec![9, 3]);
    assert_eq!(c.label, vec![1, 0]);
}

#[test]
fn runs_that_meet_only_at_a_corner_are_two_components() {
    // 2 .
    // . 2
    let labels = vec![2u16, 0, 0, 2];
    let c = components(&labels, 2, 2);
    assert_eq!(c.comp, vec![0, 1, 2, 3]);
    assert_eq!(c.size, vec![1, 1, 1, 1]);
    assert_eq!(c.label, vec![2, 0, 0, 2]);
}

#[test]
fn a_staircase_joins_through_overlapping_runs() {
    // 5 5 . .
    // . 5 5 .
    // . . 5 5
    let labels = vec![5u16, 5, 0, 0, 0, 5, 5, 0, 0, 0, 5, 5];
    let c = components(&labels, 4, 3);
    assert_eq!(c.comp[0], c.comp[11]);
    assert_eq!(c.size[c.comp[0] as usize], 6);
    // The zeros: the upper right triangle and the lower left one.
    assert_eq!(c.comp, vec![0, 0, 1, 1, 2, 0, 0, 1, 2, 2, 0, 0]);
    assert_eq!(c.label, vec![5, 0, 0]);
}

#[test]
fn every_speckle_reads_the_labels_as_they_came() {
    // The 7 takes the 5 beside it and the 5 the 6 (a tie between 7 and 6 in the labels as
    // they came, to the smaller), both at once.
    let mut labels = vec![7u16, 5, 6, 6, 6];
    despeckle(&mut labels, 5, 1, 2);
    assert_eq!(labels, vec![5, 6, 6, 6, 6]);
}

#[test]
fn min_size_of_one_or_less_changes_nothing() {
    let mut labels = vec![0u16, 1, 0, 2];
    despeckle(&mut labels, 2, 2, 1);
    assert_eq!(labels, vec![0, 1, 0, 2]);
    despeckle(&mut labels, 2, 2, 0);
    assert_eq!(labels, vec![0, 1, 0, 2]);
}

#[test]
fn a_best_label_of_u16_max_keeps_the_component() {
    // The 3 is bordered only by `u16::MAX` and stays; the last pixel takes the 3.
    let mut labels = vec![u16::MAX, u16::MAX, 3, u16::MAX];
    despeckle(&mut labels, 4, 1, 2);
    assert_eq!(labels, vec![u16::MAX, u16::MAX, 3, 3]);
}

#[test]
fn faces_number_components_and_keep_their_labels() {
    let labels = vec![4u16, 4, 9, 9, 4, 4];
    let (ids, face_label) = faces(&labels, 3, 2);
    assert_eq!(ids, vec![0, 0, 1, 2, 0, 0]);
    assert_eq!(face_label, vec![4, 9, 9]);
}
