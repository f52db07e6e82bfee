use inkvec_trace::ink_ideas::components;
use inkvec_trace::slivers::{neighbour_labels, sliver_tally};

/// The pixels of component `id`.
fn members(comp: &[u32], id: u32) -> Vec<usize> {
    (0..comp.len()).filter(|&p| comp[p] == id).collect()
}

#[test]
fn a_one_pixel_line_between_two_inks_is_a_sliver() {
    // 0 1 2
    // 0 1 2
    // 0 1 2
    let labels = vec![0u16, 1, 2, 0, 1, 2, 0, 1, 2];
    let (comp, _) = components(&labels, 3, 3);
    let id = comp[1];
    let tally = sliver_tally(&labels, &comp, 3, 3, id, &members(&comp, id), 3);
    // Three contacts each; the smaller label first.
    assert_eq!(tally, Some(vec![(3, 0), (3, 2)]));
}

#[test]
fn a_component_with_an_interior_or_no_contacts_is_no_sliver() {
    let labels = vec![0u16; 9];
    let (comp, _) = components(&labels, 3, 3);
    assert_eq!(sliver_tally(&labels, &comp, 3, 3, 0, &members(&comp, 0), 1), None);
    let mut labels = vec![0u16; 25];
    labels[12] = 1;
    let (comp, _) = components(&labels, 5, 5);
    assert_eq!(sliver_tally(&labels, &comp, 5, 5, 0, &members(&comp, 0), 2), None);
}

#[test]
fn contacts_spread_over_many_labels_are_no_sliver() {
    // A row of 1 between ten different labels: the top three hold three of ten contacts.
    let labels = vec![2u16, 3, 4, 5, 6, 1, 1, 1, 1, 1, 7, 8, 9, 10, 11];
    let (comp, _) = components(&labels, 5, 3);
    let id = comp[5];
    assert_eq!(sliver_tally(&labels, &comp, 5, 3, id, &members(&comp, id), 12), None);
    // With the bottom row one label, that label alone holds half: still too spread.
    let labels = vec![2u16, 3, 4, 5, 6, 1, 1, 1, 1, 1, 7, 7, 7, 7, 7];
    let (comp, _) = components(&labels, 5, 3);
    let id = comp[5];
    assert_eq!(sliver_tally(&labels, &comp, 5, 3, id, &members(&comp, id), 8), None);
    // Two labels above and one below: the three hold every contact.
    let labels = vec![2u16, 2, 2, 3, 3, 1, 1, 1, 1, 1, 7, 7, 7, 7, 7];
    let (comp, _) = components(&labels, 5, 3);
    let id = comp[5];
    assert_eq!(sliver_tally(&labels, &comp, 5, 3, id, &members(&comp, id), 8), Some(vec![(5, 7), (3, 2), (2, 3)]));
}

#[test]
fn a_pixel_is_tested_against_its_own_ink_then_each_new_neighbouring_one() {
    // 1 2 3
    // 4 5 2
    // 6 6 7
    let labels = vec![1u16, 2, 3, 4, 5, 2, 6, 6, 7];
    // The centre: its own, then the first three new labels around it in reading order.
    assert_eq!(neighbour_labels(&labels, 3, 3, 4), vec![5, 1, 2, 3]);
    // A corner reads only the three pixels inside the raster.
    assert_eq!(neighbour_labels(&labels, 3, 3, 0), vec![1, 2, 4, 5]);
    // Repeated labels are listed once.
    assert_eq!(neighbour_labels(&labels, 3, 3, 7), vec![6, 4, 5, 2]);
    // A pixel with nothing different around it has only its own.
    assert_eq!(neighbour_labels(&[9u16; 4], 2, 2, 3), vec![9]);
}
