use inkvec_trace::intake::fill_unlabelled;

const BLANK: u16 = u16::MAX;

#[test]
fn unlabelled_pixels_are_dilated_away() {
    let (w, h) = (24usize, 24usize);
    // Everything outside the square is labelled; the square itself is left blank.
    let mut labels = vec![0u16; w * h];
    for y in 8..16 {
        for x in 8..16 {
            labels[y * w + x] = BLANK;
        }
    }
    let out = fill_unlabelled(&labels, w, h, 1);
    assert_eq!(out.len(), w * h);
    assert!(out.iter().all(|&l| l == 0), "the hole closed into the ground");

    let all_blank = vec![BLANK; w * h];
    let out = fill_unlabelled(&all_blank, w, h, 4);
    assert!(out.iter().all(|&l| l == 0), "one face");
}

#[test]
fn nothing_labelled_is_one_face() {
    let out = fill_unlabelled(&vec![BLANK; 12], 4, 3, 4);
    assert_eq!(out, vec![0u16; 12]);
    // Labels past the label count are not labels at all.
    let out = fill_unlabelled(&[7u16, 9, 4, 5], 2, 2, 4);
    assert_eq!(out, vec![0u16; 4]);
}

#[test]
fn a_band_closes_from_both_sides_at_once() {
    let out = fill_unlabelled(&[1, BLANK, BLANK, BLANK, 2], 5, 1, 3);
    assert_eq!(out, vec![1, 1, 1, 2, 2]);
}

#[test]
fn the_left_neighbour_wins_a_tie() {
    // The middle pixel has 1 on its left and 2 on its right in the same ring.
    let out = fill_unlabelled(&[1, BLANK, 2], 3, 1, 3);
    assert_eq!(out, vec![1, 1, 2]);
    // Above beats below, and a horizontal neighbour beats both.
    let out = fill_unlabelled(&[1, BLANK, 2], 1, 3, 3);
    assert_eq!(out, vec![1, 1, 2]);
    let out = fill_unlabelled(&[BLANK, 3, BLANK, 1, BLANK, BLANK, BLANK, 2, BLANK], 3, 3, 4);
    // Ring one: (0,0) takes 3 from its right and (2,0) 3 from its left; (1,1) takes 1
    // from its left; (0,2) takes 2 from its right, which is looked at before above; (2,2)
    // takes 2 from its left. Ring two: (2,1) takes 1 from its left.
    assert_eq!(out, vec![3, 3, 3, 1, 1, 1, 2, 2, 2]);
}

#[test]
fn labelled_pixels_keep_their_labels_and_a_short_slice_is_blank_beyond_its_end() {
    let out = fill_unlabelled(&[2, 0, 1], 2, 2, 3);
    assert_eq!(&out[..3], &[2, 0, 1]);
    // The missing fourth pixel takes its left neighbour, 1.
    assert_eq!(out[3], 1);
}
