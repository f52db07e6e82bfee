use inkvec_trace::occlusion::{aggregate, Claim};

fn claim(occluder: u16, occluded: u16) -> Claim {
    Claim { occluder, occluded }
}

#[test]
fn agreeing_junctions_give_one_verdict() {
    let v = aggregate(&[claim(3, 1), claim(3, 1), claim(3, 1)]);
    assert_eq!(v.len(), 1);
    assert_eq!((v[0].a, v[0].b), (1, 3));
    assert_eq!(v[0].occluder, Some(3));
    assert_eq!((v[0].for_a, v[0].for_b), (0, 3));
}

#[test]
fn disagreeing_junctions_name_no_occluder() {
    let v = aggregate(&[claim(2, 5), claim(5, 2), claim(2, 5)]);
    assert_eq!(v.len(), 1);
    assert_eq!(v[0].occluder, None);
    assert_eq!((v[0].for_a, v[0].for_b), (2, 1));
}

#[test]
fn verdicts_come_in_order_of_the_pair() {
    let v = aggregate(&[claim(9, 4), claim(0, 7), claim(4, 1), claim(7, 0)]);
    let pairs: Vec<(u16, u16)> = v.iter().map(|p| (p.a, p.b)).collect();
    assert_eq!(pairs, vec![(0, 7), (1, 4), (4, 9)]);
    assert_eq!(v[0].occluder, None);
    assert_eq!(v[1].occluder, Some(4));
    assert_eq!(v[2].occluder, Some(9));
}

#[test]
fn no_junctions_no_verdicts() {
    assert!(aggregate(&[]).is_empty());
}
