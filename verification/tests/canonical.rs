use cycles::cycle::{flip, rotate, rotation};
use cycles::Cycle;

#[test]
fn zero() {
    let nodes = vec![0, 1, 2];

    assert_eq!(rotate(nodes, 0), vec![0, 1, 2])
}

#[test]
fn one() {
    let nodes = vec![0, 1, 2];

    assert_eq!(rotate(nodes, 1), vec![2, 0, 1])
}

#[test]
fn two() {
    let nodes = vec![1, 0, 2];

    assert_eq!(rotate(nodes, 2), vec![0, 2, 1])
}

#[test]
fn cycle_foo() {
    let nodes = vec![1, 0, 2];

    assert_eq!(rotate(nodes, 2), vec![0, 2, 1])
}

#[test]
fn min_left() {
    let nodes = vec![0, 1, 2];

    assert_eq!(rotation(&nodes), 0)
}

#[test]
fn min_middle() {
    let nodes = vec![1, 0, 2];

    assert_eq!(rotation(&nodes), 2)
}

#[test]
fn min_right() {
    let nodes = vec![1, 2, 0];

    assert_eq!(rotation(&nodes), 1)
}

#[test]
fn flip_foo() {
    let nodes = vec![0, 2, 1];

    assert_eq!(flip(nodes), vec![0, 1, 2])
}

#[test]
fn no_rotate_no_flip() {
    let nodes = vec![0, 1, 2];

    assert_eq!(Cycle::new(nodes), Cycle(vec![0, 1, 2]))
}

#[test]
fn rotate_no_flip() {
    let nodes = vec![2, 0, 1];

    assert_eq!(Cycle::new(nodes), Cycle(vec![0, 1, 2]))
}

#[test]
fn no_rotate_flip() {
    let nodes = vec![0, 2, 1];

    assert_eq!(Cycle::new(nodes), Cycle(vec![0, 1, 2]))
}

#[test]
fn rotation_and_reflection_invariant() {
    let base: Vec<u64> = vec![3, 1, 4, 2];
    let reference = Cycle::new(base.clone());
    for k in 0..base.len() {
        let mut rotated: Vec<u64> = base[k..].to_vec();
        rotated.extend_from_slice(&base[..k]);
        assert_eq!(Cycle::new(rotated.clone()), reference);
        let reversed: Vec<u64> = rotated.iter().rev().copied().collect();
        assert_eq!(Cycle::new(reversed), reference);
    }
}

#[test]
fn canonical_two_nodes() {
    assert_eq!(Cycle::new(vec![5, 3]), Cycle(vec![3, 5]));
    assert_eq!(Cycle::new(vec![3, 5]), Cycle(vec![3, 5]));
}
