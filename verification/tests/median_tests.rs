use stats::median_pick;

#[test]
fn test_median_pick_empty() {
    let empty_list: Vec<i32> = vec![];
    assert_eq!(median_pick(&empty_list), None);
}

#[test]
fn test_median_pick_odd_positive() {
    // The median is positional: no sorting happens, so the middle of
    // [7, 8, 3, 9, 22] is the 3 at index 2.
    assert_eq!(median_pick(&[7, 8, 3, 9, 22]), Some((3, None)));
}

#[test]
fn test_median_pick_even_positive() {
    assert_eq!(median_pick(&[7, 8, 3, 6, 22, 42]), Some((3, Some(6))));
}

#[test]
fn test_median_pick_odd_negative() {
    assert_eq!(median_pick(&[-7, -8, -3, -9, -22]), Some((-3, None)));
}

#[test]
fn test_median_pick_even_negative() {
    assert_eq!(median_pick(&[-7, -8, -3, -6, -22, -42]), Some((-3, Some(-6))));
}

#[test]
fn test_median_pick_single() {
    assert_eq!(median_pick(&[5]), Some((5, None)));
}

#[test]
fn test_median_pick_pair() {
    assert_eq!(median_pick(&[5, 9]), Some((5, Some(9))));
}
