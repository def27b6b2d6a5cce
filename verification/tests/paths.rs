use cycles::Path;

#[test]
fn back_edge() {
    let in_path = Path::to(1);
    let out_path = Path::to(0);

    assert_eq!(in_path.concat(&0, &out_path), None)
}

#[test]
fn out_and_back() {
    let in_path = Path::new(vec![1], 2);
    let out_path = Path::new(vec![1], 0);

    assert_eq!(in_path.concat(&0, &out_path), None)
}

#[test]
fn straight() {
    let in_path = Path::new(vec![1], 2);
    let out_path = Path::new(vec![3], 4);

    assert_eq!(
        in_path.concat(&0, &out_path),
        Some(Path { bridge: vec![1, 2, 3], target: 4 })
    )
}

#[test]
fn cycle() {
    let in_path = Path::new(vec![1], 2);
    let out_path = Path::to(0);

    assert_eq!(in_path.concat(&0, &out_path), Some(Path::new(vec![1, 2], 0)))
}

#[test]
fn to_sequence_round_trip() {
    assert_eq!(Path::new(vec![1, 2], 3).to_sequence(), vec![1, 2, 3]);
    assert_eq!(Path::to(7).to_sequence(), vec![7]);
    let bridge = vec![4, 9, 2, 8];
    let materialized = Path::new(bridge.clone(), 5).to_sequence();
    assert_eq!(materialized.len(), bridge.len() + 1);
    assert_eq!(&materialized[..bridge.len()], &bridge[..]);
    assert_eq!(materialized[bridge.len()], 5);
}

#[test]
fn concat_rejects_repeated_interior() {
    let in_path = Path::new(vec![1, 3], 2);
    let out_path = Path::new(vec![3], 4);

    assert_eq!(in_path.concat(&0, &out_path), None)
}
