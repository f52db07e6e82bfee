use inkvec_trace::gradient::carve::{carve_clusters, carve_mask, CARVE_MAX};

/// A `w x h` mask with the listed pixels set.
fn mask_of(w: usize, h: usize, set: &[(usize, usize)]) -> Vec<bool> {
    let mut m = vec![false; w * h];
    for &(x, y) in set {
        m[y * w + x] = true;
    }
    m
}

#[test]
fn a_marked_cluster_gets_the_next_label() {
    let (w, h) = (6, 6);
    let mut labels = vec![0u16; w * h];
    // A 2x2 cluster and a lone pixel, both inside region 0.
    let mask = mask_of(w, h, &[(1, 1), (2, 1), (1, 2), (2, 2), (4, 4)]);
    let parents = carve_clusters(&mut labels, w, h, &mask, 3, 2);
    assert_eq!(parents, vec![0]);
    for y in 0..h {
        for x in 0..w {
            let expect = if (1..=2).contains(&x) && (1..=2).contains(&y) { 3 } else { 0 };
            assert_eq!(labels[y * w + x], expect, "pixel ({x}, {y})");
        }
    }
}

#[test]
fn clusters_take_labels_in_scan_order_and_never_span_two_regions() {
    let (w, h) = (8, 4);
    // Region 1 on the left half, region 2 on the right half.
    let mut labels: Vec<u16> = (0..w * h).map(|p| if p % w < 4 { 1 } else { 2 }).collect();
    // One row of marks straddling the seam at x = 3 | 4, and a column lower down.
    let mut set: Vec<(usize, usize)> = (0..8).map(|x| (x, 0)).collect();
    set.extend([(1, 2), (1, 3)]);
    let mask = mask_of(w, h, &set);
    let parents = carve_clusters(&mut labels, w, h, &mask, 5, 1);
    // Left half of the row (4 pixels of region 1), then right half (4 of region 2); the
    // two-pixel column is below the four-pixel floor.
    assert_eq!(parents, vec![1, 2]);
    assert_eq!(&labels[0..8], &[5, 5, 5, 5, 6, 6, 6, 6]);
    assert_eq!(labels[2 * w + 1], 1);
    assert_eq!(labels[3 * w + 1], 1);
}

#[test]
fn no_label_at_or_above_the_last_is_minted() {
    let (w, h) = (4, 4);
    let mask = mask_of(w, h, &[(0, 0), (1, 0), (0, 1), (1, 1), (2, 3), (3, 3), (2, 2), (3, 2)]);
    // One label left below u16::MAX: only the first cluster is carved.
    let mut labels = vec![0u16; w * h];
    let parents = carve_clusters(&mut labels, w, h, &mask, 65534, 4);
    assert_eq!(parents, vec![0]);
    assert_eq!(labels[0], 65534);
    assert_eq!(labels[3 * w + 3], 0);
    // None left: nothing is carved.
    let mut labels = vec![0u16; w * h];
    assert!(carve_clusters(&mut labels, w, h, &mask, 65535, 4).is_empty());
    assert!(labels.iter().all(|&l| l == 0));
}

#[test]
fn at_most_the_cap_of_clusters_is_carved() {
    // 65 separate 2x2 clusters, one in the corner of each 3x3 cell of a grid.
    let (cw, ch) = (13, 5);
    let (w, h) = (cw * 3, ch * 3);
    let mut set = Vec::new();
    for cy in 0..ch {
        for cx in 0..cw {
            for (dx, dy) in [(0, 0), (1, 0), (0, 1), (1, 1)] {
                set.push((cx * 3 + dx, cy * 3 + dy));
            }
        }
    }
    let mask = mask_of(w, h, &set);
    let mut labels = vec![7u16; w * h];
    let parents = carve_clusters(&mut labels, w, h, &mask, 10, 4);
    assert_eq!(parents.len(), CARVE_MAX);
    assert!(parents.iter().all(|&l| l == 7));
    // The last cluster in scan order is left alone.
    assert_eq!(labels[(h - 3) * w + (w - 3)], 7);
    assert_eq!(labels[0], 10);
}

#[test]
fn only_pure_interior_pixels_of_a_region_with_its_own_colour_are_marked() {
    let (w, h) = (5, 5);
    // Region 0 everywhere but one pixel of region 1 at the centre.
    let mut labels = vec![0u16; w * h];
    labels[2 * w + 2] = 1;
    let pure = vec![true; w * h];
    let over = vec![true; w * h];
    let mask = carve_mask(&labels, w, h, 2, &pure, &over, None);
    // Strictly interior pixels of region 0: the 3x3 ring around the centre, minus the
    // four that touch region 1; region 0 has only four such samples, fewer than eight.
    assert!(mask.iter().all(|&m| !m));

    let (w, h) = (6, 6);
    let labels = vec![0u16; w * h];
    let mask = carve_mask(&labels, w, h, 1, &pure_all(w, h), &vec![true; w * h], None);
    // Sixteen strictly interior pixels: a colour of its own, and all unexplained.
    for y in 0..h {
        for x in 0..w {
            assert_eq!(mask[y * w + x], (1..5).contains(&x) && (1..5).contains(&y));
        }
    }
    // A label at or above the fill count is never marked.
    let mask = carve_mask(&labels, w, h, 0, &pure_all(w, h), &vec![true; w * h], None);
    assert!(mask.iter().all(|&m| !m));
}

fn pure_all(w: usize, h: usize) -> Vec<bool> {
    vec![true; w * h]
}

#[test]
fn deep_inside_a_region_the_interior_test_decides() {
    let (w, h) = (9, 9);
    let labels = vec![0u16; w * h];
    let base = vec![true; w * h];
    let detail = vec![false; w * h];
    let mask = carve_mask(&labels, w, h, 1, &pure_all(w, h), &base, Some(&detail));
    // The only pixels with a whole 7x7 window inside the raster are (3..6, 3..6); there
    // the interior test says no, elsewhere the base test says yes.
    for y in 1..8 {
        for x in 1..8 {
            let deep = (3..6).contains(&x) && (3..6).contains(&y);
            assert_eq!(mask[y * w + x], !deep, "pixel ({x}, {y})");
        }
    }
}

#[test]
fn a_swallowed_feature_is_carved_back_out() {
    // A black 8x8 square on white, with one label for the whole image: the caller claims
    // there is nothing here. Every pixel is pure (there is no other ink to blend with),
    // and the region's white fill leaves only the square unexplained.
    let (w, h) = (24usize, 24usize);
    let in_square = |p: usize| (8..16).contains(&(p % w)) && (8..16).contains(&(p / w));
    let mut labels = vec![0u16; w * h];
    let pure = vec![true; w * h];
    let over: Vec<bool> = (0..w * h).map(in_square).collect();
    let mask = carve_mask(&labels, w, h, 1, &pure, &over, None);
    let parents = carve_clusters(&mut labels, w, h, &mask, 1, 2);
    assert_eq!(parents, vec![0], "the square is a region of its own");
    for p in 0..w * h {
        assert_eq!(labels[p], if in_square(p) { 1 } else { 0 });
    }
}
