use std::collections::HashMap;

use inkvec_trace::fast::bands::{contact_pairs, contacts, find, renumber_faces};
use inkvec_trace::fast::palette::{bin_counts, candidate_bins, Grid, BINS};

#[test]
fn contacts_count_each_neighbouring_pair_once_in_pair_order() {
    // 0 0 1
    // 2 2 1
    let labels = vec![0u16, 0, 1, 2, 2, 1];
    let c = contacts(&labels, 3, 2);
    // 0|1 once across, 0/2 twice down, 1|2 once across, 1/1 is no contact.
    assert_eq!(c.len(), 3);
    assert_eq!(c[&1], 1);
    assert_eq!(c[&2], 2);
    assert_eq!(c[&(65536 + 2)], 1);
    assert_eq!(contact_pairs(&c), vec![((0, 1), 1), ((0, 2), 2), ((1, 2), 1)]);
}

#[test]
fn a_flat_image_has_no_contacts() {
    let labels = vec![3u16; 12];
    assert!(contacts(&labels, 4, 3).is_empty());
    assert!(contacts(&labels, 0, 0).is_empty());
}

#[test]
fn contacts_are_unordered_pairs() {
    let labels = vec![9u16, 2, 9];
    let c = contacts(&labels, 3, 1);
    assert_eq!(c.len(), 1);
    assert_eq!(c[&(2 * 65536 + 9)], 2);
    assert_eq!(contact_pairs(&c), vec![((2, 9), 2)]);
}

#[test]
fn contact_pairs_come_in_order_of_the_pair() {
    let mut m = HashMap::new();
    m.insert(5u32 * 65536 + 1, 4u32);
    m.insert(65535 * 65536 + 65535, 1);
    m.insert(7, 0);
    m.insert(65536 + 7, 3);
    assert_eq!(
        contact_pairs(&m),
        vec![((0, 7), 0), ((1, 7), 3), ((5, 1), 4), ((65535, 65535), 1)]
    );
    assert!(contact_pairs(&HashMap::new()).is_empty());
}

#[test]
fn find_halves_the_path_and_keeps_the_root() {
    // 3 -> 2 -> 1 -> 0, and 4 a root of its own.
    let mut parent = vec![0usize, 0, 1, 2, 4];
    assert_eq!(find(&mut parent, 3), 0);
    // 3 now points at its former grandparent.
    assert_eq!(parent, vec![0, 0, 1, 1, 4]);
    assert_eq!(find(&mut parent, 4), 4);
    // Every node still reaches the same root.
    for x in 0..4 {
        assert_eq!(find(&mut parent, x), 0);
    }
}

#[test]
fn bins_split_into_their_channels() {
    let g = Grid { bits: 4, alpha_bits: 4 };
    // red 0x3, green 0xa, blue 0xf, opacity 0x7.
    let k = (((0x3 << 8) | (0xa << 4) | 0xf) << 4) | 0x7;
    assert_eq!(g.parts(k), [3, 10, 15, 7]);
    let opaque = Grid { bits: 5, alpha_bits: 0 };
    let k = (17 << 10) | (2 << 5) | 30;
    assert_eq!(opaque.parts(k), [17, 2, 30, 0]);
}

#[test]
fn neighbouring_bins_touch_and_distant_ones_do_not() {
    let g = Grid { bits: 5, alpha_bits: 0 };
    let key = |r: usize, gr: usize, b: usize| (r << 10) | (gr << 5) | b;
    assert!(g.touch(key(4, 4, 4), key(5, 3, 4)));
    assert!(g.touch(key(4, 4, 4), key(4, 4, 4)));
    assert!(!g.touch(key(4, 4, 4), key(6, 4, 4)));
    assert!(!g.touch(key(0, 0, 0), key(0, 0, 2)));
}

#[test]
fn only_pixels_whose_neighbours_share_their_bin_are_flat() {
    // 3 3 3 7
    // 3 3 3 7
    // 3 3 9 7
    let keys = vec![3u16, 3, 3, 7, 3, 3, 3, 7, 3, 3, 9, 7];
    let (count, flat) = bin_counts(&keys, 4, 3);
    assert_eq!(count.len(), BINS);
    assert_eq!((count[3], count[7], count[9], count[0]), (8, 3, 1, 0));
    // Bin 3: the five pixels not beside a 7 or the 9 (the picture edge does not count).
    assert_eq!(flat[3], 5);
    // Bin 7: a column of three beside other bins.
    assert_eq!(flat[7], 0);
    assert_eq!(flat[9], 0);
}

#[test]
fn merged_faces_take_their_root_and_the_rest_close_up() {
    // Faces 1 and 3 merged into 1; face 4 merged into 0; face 2 stays.
    let target = vec![0usize, 1, 2, 1, 0];
    let mut labels = vec![4u16, 3, 2, 1, 0, 2];
    let kept = renumber_faces(&mut labels, &target);
    // Remaining faces in order of first appearance: 0, 1, 2.
    assert_eq!(kept, vec![0, 1, 2]);
    assert_eq!(labels, vec![0, 1, 2, 1, 0, 2]);

    // With face 0 merged into 2, the numbering starts at 2's face.
    let target = vec![2usize, 1, 2];
    let mut labels = vec![0u16, 1, 2];
    let kept = renumber_faces(&mut labels, &target);
    assert_eq!(kept, vec![2, 1]);
    assert_eq!(labels, vec![0, 1, 0]);
}

#[test]
fn candidate_bins_come_most_flat_first_and_by_key_on_a_tie() {
    let flat = vec![0u32, 5, 3, 9, 5, 2, 3];
    // Bins with at least three flat pixels: 3 (9), then 1 and 4 (5 each), then 2 and 6.
    assert_eq!(candidate_bins(&flat, 3), vec![3, 1, 4, 2, 6]);
    assert_eq!(candidate_bins(&flat, 10), Vec::<usize>::new());
}

#[test]
fn reading_a_key_undoes_packing_its_channels() {
    let g = Grid { bits: 4, alpha_bits: 4 };
    let key = ((((3usize << 8) | (15 << 4)) | 9) << 4) | 6;
    assert_eq!(g.parts(key), [3, 15, 9, 6]);
    let g = Grid { bits: 5, alpha_bits: 0 };
    let key = ((17usize << 10) | (0 << 5)) | 31;
    assert_eq!(g.parts(key), [17, 0, 31, 0]);
}
