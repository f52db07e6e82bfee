use inkvec_trace::gradient::bands::seam_counts;
use inkvec_trace::gradient::budget::{fit_cap, MAX_FIT_SAMPLES};
use inkvec_trace::gradient::debug::bbox;
use inkvec_trace::gradient::evidence::{blend_partners, fill_evidence, FOREIGN, PURE};
use inkvec_trace::gradient::regions::{absorb_counts, all_inside, is_smooth};
use inkvec_trace::gradient::svg::interp_attr;
use inkvec_trace::gradient::{interior_count, sample_pixels, Interp};
use std::collections::HashMap;

#[test]
fn a_blend_is_inner_only_when_every_partner_is_inside() {
    let p = PURE;
    assert!(all_inside(&[p, p, p], |_| false));
    assert!(all_inside(&[4, 7, p], |q| q == 4 || q == 7));
    assert!(!all_inside(&[4, 9, p], |q| q == 4 || q == 7));
    assert!(!all_inside(&[FOREIGN; 3], |_| true));
}

#[test]
fn partners_after_the_pure_mark_are_not_asked() {
    assert!(all_inside(&[4, PURE, 9], |q| q == 4));
    assert!(all_inside(&[4, 5, 6], |q| q >= 4 && q <= 6));
}

#[test]
fn smooth_steps_and_seams() {
    let mut adj = vec![HashMap::new(); 3];
    let mut calm = vec![HashMap::new(); 3];
    adj[0].insert(1, 10);
    adj[1].insert(0, 10);
    calm[0].insert(1, 6);
    calm[1].insert(0, 6);
    assert!(is_smooth(&adj, &calm, 0, 1));
    calm[0].insert(1, 5);
    assert!(is_smooth(&adj, &calm, 0, 1));
    calm[0].insert(1, 4);
    assert!(!is_smooth(&adj, &calm, 0, 1));
    assert!(!is_smooth(&adj, &calm, 0, 2));
}

#[test]
fn a_seam_with_no_calm_entry_is_rough() {
    let mut adj = vec![HashMap::new(); 2];
    let calm = vec![HashMap::new(); 2];
    adj[0].insert(1, 1);
    assert!(!is_smooth(&adj, &calm, 0, 1));
}

#[test]
fn interior_count_is_strict_and_treats_the_picture_edge_as_boundary() {
    // A 3x3 block in a 5x5 image: its centre only.
    let block: Vec<usize> = (0..25)
        .filter(|p| (1..4).contains(&(p % 5)) && (1..4).contains(&(p / 5)))
        .collect();
    let member = |p: usize| block.contains(&p);
    assert_eq!(interior_count(&block, 5, 5, member), 1);
    // The whole image: only the 3x3 not touching the edge.
    let all: Vec<usize> = (0..25).collect();
    assert_eq!(interior_count(&all, 5, 5, |_| true), 9);
    let px = sample_pixels(&all, 5, 5, |_| true, |_| true, true);
    assert_eq!(px, vec![6, 7, 8, 11, 12, 13, 16, 17, 18]);
}

#[test]
fn samples_come_in_increasing_order_with_only_the_evidence() {
    // Pixels out of order, one twice; the evidence refuses 12.
    let pixels = vec![18usize, 6, 12, 7, 0, 6];
    let px = sample_pixels(&pixels, 5, 5, |_| true, |p: usize| p != 12, false);
    assert_eq!(px, vec![0, 6, 6, 7, 18]);
    // Strict: the picture edge and anything beside a non-member are left out.
    let px = sample_pixels(&pixels, 5, 5, |p: usize| p != 13, |_| true, true);
    assert_eq!(px, vec![6, 6, 7]);
}

#[test]
fn srgb_is_the_default_and_needs_no_attribute() {
    assert_eq!(interp_attr(Interp::Srgb), "");
    assert_eq!(interp_attr(Interp::LinearRgb), " color-interpolation=\"linearRGB\"");
}

#[test]
fn the_fit_cap_is_the_sample_budget() {
    assert_eq!(fit_cap(), MAX_FIT_SAMPLES);
    assert_eq!(fit_cap(), 4096);
}

#[test]
fn bbox_spans_the_pixels() {
    // Pixels (2, 1), (0, 3) and (4, 2) of a 5-wide raster.
    assert_eq!(bbox(&[7, 15, 14], 5), [0, 1, 4, 3]);
    assert_eq!(bbox(&[], 5), [usize::MAX, usize::MAX, 0, 0]);
}

#[test]
fn absorbed_counts_move_to_the_survivor() {
    let mut c = vec![HashMap::new(); 3];
    for (a, b, k) in [(0u32, 1u32, 2u32), (1, 2, 5), (0, 2, 1)] {
        c[a as usize].insert(b, k);
        c[b as usize].insert(a, k);
    }
    absorb_counts(&mut c, 0, 1);
    assert_eq!(c[0].get(&2), Some(&6));
    assert_eq!(c[2].get(&0), Some(&6));
    assert!(c[0].get(&1).is_none() && c[1].is_empty() && c[2].get(&1).is_none());
}

#[test]
fn absorbing_a_region_without_seams_changes_only_the_survivor_map() {
    let mut c = vec![HashMap::new(); 3];
    c[0].insert(2u32, 4u32);
    c[2].insert(0u32, 4u32);
    absorb_counts(&mut c, 0, 1);
    assert_eq!(c[0].len(), 1);
    assert_eq!(c[0].get(&2), Some(&4));
    assert_eq!(c[2].get(&0), Some(&4));
    assert!(c[1].is_empty());
}

#[test]
fn a_new_neighbour_of_the_survivor_gets_a_seam_both_ways() {
    // 1 borders 2 and 3; 0 borders only 1.
    let mut c = vec![HashMap::new(); 4];
    for (a, b, k) in [(0u32, 1u32, 7u32), (1, 2, 3), (1, 3, 1)] {
        c[a as usize].insert(b, k);
        c[b as usize].insert(a, k);
    }
    absorb_counts(&mut c, 0, 1);
    assert_eq!(c[0].get(&2), Some(&3));
    assert_eq!(c[0].get(&3), Some(&1));
    assert_eq!(c[0].get(&1), None);
    assert_eq!(c[2].get(&0), Some(&3));
    assert_eq!(c[3].get(&0), Some(&1));
    assert!(c[1].is_empty());
}

#[test]
fn seam_tables_count_the_pixel_pairs_across_each_seam() {
    // 0 0 1
    // 2 2 1
    let comp = vec![0u32, 0, 1, 2, 2, 1];
    let adj = seam_counts(&comp, 3, 3, 2, |_: usize, _: usize| true);
    assert_eq!(adj.len(), 3);
    assert_eq!(adj[0], HashMap::from([(1u32, 1u32), (2, 2)]));
    assert_eq!(adj[1], HashMap::from([(0u32, 1u32), (2, 1)]));
    assert_eq!(adj[2], HashMap::from([(0u32, 2u32), (1, 1)]));
    // Only the pairs the predicate keeps are counted: here, side by side ones.
    let adj = seam_counts(&comp, 3, 3, 2, |p: usize, q: usize| q == p + 1);
    assert_eq!(adj[0], HashMap::from([(1u32, 1u32)]));
    assert_eq!(adj[1], HashMap::from([(0u32, 1u32), (2, 1)]));
    assert_eq!(adj[2], HashMap::from([(1u32, 1u32)]));
}

#[test]
fn a_blend_records_the_neighbours_it_lies_towards() {
    let p = PURE;
    // Three inks side by side; only the middle pixel is off its own ink.
    let labels = [0u16, 1, 2];
    let first = blend_partners(3, 1, &labels, 3, |q: usize| q != 1, |_: usize, _: usize| true, false);
    assert_eq!(first, vec![[p, p, p], [0, p, p], [p, p, p]]);
    let every = blend_partners(3, 1, &labels, 3, |q: usize| q != 1, |_: usize, _: usize| true, true);
    assert_eq!(every[1], [0, 2, p]);
    // A neighbour the pixel does not lie towards is not a partner.
    let some = blend_partners(3, 1, &labels, 3, |q: usize| q != 1, |_: usize, q: usize| q == 2, true);
    assert_eq!(some[1], [2, p, p]);
    // A label that is no ink names no partner, and a pixel of no ink is evidence.
    let capped = blend_partners(3, 1, &labels, 2, |q: usize| q != 1, |_: usize, _: usize| true, true);
    assert_eq!(capped, vec![[p, p, p], [0, p, p], [p, p, p]]);
    let evidence = fill_evidence(3, 1, &labels, 3, |q: usize| q != 1, |_: usize, _: usize| true);
    assert_eq!(evidence, vec![true, false, true]);
}

#[test]
fn more_partners_than_recorded_make_a_pixel_foreign() {
    let labels = [0u16, 1, 2, 3, 4];
    let out = blend_partners(5, 1, &labels, 5, |q: usize| q != 2, |_: usize, _: usize| true, true);
    assert_eq!(out[2], [FOREIGN, FOREIGN, FOREIGN]);
    // One label seen twice is asked about once.
    let labels = [0u16, 0, 2, 0, 0];
    let out = blend_partners(5, 1, &labels, 5, |q: usize| q != 2, |_: usize, _: usize| true, true);
    assert_eq!(out[2], [0, PURE, PURE]);
}

#[test]
fn absorbing_a_region_gives_the_tables_a_recount_would() {
    // Four components on a 4x3 raster; component 2 is absorbed into 0.
    let comp: Vec<u32> = vec![0, 0, 1, 1, 2, 2, 1, 3, 2, 3, 3, 3];
    let keep = |p: usize, q: usize| p % 4 != 3 || q == p + 4;
    let mut tables = seam_counts(&comp, 4, 4, 3, keep);
    absorb_counts(&mut tables, 0, 2);
    let merged: Vec<u32> = comp.iter().map(|&c| if c == 2 { 0 } else { c }).collect();
    let recount = seam_counts(&merged, 4, 4, 3, keep);
    assert_eq!(tables, recount);
    assert!(tables[2].is_empty());
}
