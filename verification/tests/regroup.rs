use inkvec_trace::regroup::{face_areas, plan_groups, Paint, TargetKind};

/// Faces of three vertical bands on a white ground: 0 is the ground, 1 a red band two
/// bands wide, 2 a dark red band, 3 a blue one.
fn areas() -> Vec<usize> {
    vec![600, 480, 240, 240]
}

fn named(faces: &[usize]) -> Vec<bool> {
    (0..4).map(|f| faces.contains(&f)).collect()
}

#[test]
fn two_reds_become_the_one_that_covers_more() {
    // Members: dark red (face 2), red (face 1). Red covers more, so the group is red.
    let names = vec![vec![named(&[2]), named(&[1])]];
    let (group_of, plans) = plan_groups(&areas(), &names, &vec![vec![false, false]], &vec![false; 4], &vec![TargetKind::Auto]);
    assert_eq!(plans[0].paint, Some(Paint::Member(1)));
    assert_eq!(plans[0].merged, vec![0, 1]);
    assert!(plans[0].unmatched.is_empty());
    assert_eq!(group_of, vec![None, Some(0), Some(0), None], "the ground is left alone");
}

#[test]
fn equal_cover_goes_to_the_later_member() {
    let names = vec![vec![named(&[2]), named(&[3])]];
    let (_, plans) = plan_groups(&areas(), &names, &vec![vec![false, false]], &vec![false; 4], &vec![TargetKind::Auto]);
    assert_eq!(plans[0].paint, Some(Paint::Member(1)));
}

#[test]
fn an_explicit_colour_wins_and_other_faces_are_untouched() {
    let names = vec![vec![named(&[1])]];
    let (group_of, plans) = plan_groups(&areas(), &names, &vec![vec![false]], &vec![false; 4], &vec![TargetKind::Colour]);
    assert_eq!(plans[0].paint, Some(Paint::Colour));
    assert_eq!(plans[0].merged, vec![0]);
    assert_eq!(group_of, vec![None, Some(0), None, None], "blue stays blue");
}

#[test]
fn a_colour_on_no_face_is_reported_and_nothing_moves() {
    // Red names face 1; green names nothing.
    let names = vec![vec![named(&[1]), named(&[])]];
    let (group_of, plans) = plan_groups(&areas(), &names, &vec![vec![false, false]], &vec![false; 4], &vec![TargetKind::Auto]);
    assert_eq!(plans[0].paint, None);
    assert!(plans[0].merged.is_empty());
    assert_eq!(plans[0].unmatched, vec![1]);
    assert_eq!(group_of, vec![None; 4]);
}

#[test]
fn a_face_belongs_to_the_first_group_that_names_it() {
    // Group 0: red and dark red, drawn as its first member. Group 1: dark red and blue.
    let names = vec![vec![named(&[1]), named(&[2])], vec![named(&[2]), named(&[3])]];
    let (group_of, plans) = plan_groups(
        &areas(),
        &names,
        &vec![vec![false, false], vec![false, false]],
        &vec![false; 4],
        &vec![TargetKind::Member(0), TargetKind::Auto],
    );
    assert_eq!(plans[0].paint, Some(Paint::Member(0)));
    // Dark red's face went to the first group; blue alone, with no target, is no merge.
    assert_eq!(plans[1].unmatched, vec![0]);
    assert_eq!(plans[1].paint, None);
    assert_eq!(group_of, vec![None, Some(0), Some(0), None]);
}

#[test]
fn a_gradient_target_is_refitted_as_its_largest_face_is() {
    // Member 1 is a gradient named by faces 2 and 3; face 3 is the larger and radial.
    let area = vec![600, 480, 200, 240];
    let names = vec![vec![named(&[1]), named(&[2, 3])]];
    let (_, plans) = plan_groups(&area, &names, &vec![vec![false, true]], &vec![false, false, false, true], &vec![TargetKind::Member(1)]);
    assert_eq!(plans[0].paint, Some(Paint::Fitted { radial: true }));
    // Equal areas: the later face decides.
    let area = vec![600, 480, 240, 240];
    let (_, plans) = plan_groups(&area, &names, &vec![vec![false, true]], &vec![false, false, true, false], &vec![TargetKind::Member(1)]);
    assert_eq!(plans[0].paint, Some(Paint::Fitted { radial: false }));
}

#[test]
fn a_target_member_that_does_not_exist_falls_back_to_the_first() {
    let names = vec![vec![named(&[1]), named(&[2])]];
    let (_, plans) = plan_groups(&areas(), &names, &vec![vec![false, false]], &vec![false; 4], &vec![TargetKind::Member(5)]);
    assert_eq!(plans[0].paint, Some(Paint::FirstMember));
}

#[test]
fn face_areas_count_pixels_per_face() {
    let labels = vec![0u16, 1, 1, 2, 9, 1];
    assert_eq!(face_areas(&labels, 3), vec![1, 3, 1]);
    assert_eq!(face_areas(&labels, 0), Vec::<usize>::new());
}
