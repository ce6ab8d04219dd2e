use ferrum::operand::Array;

#[test]
fn an_array_needs_a_matching_length() {
    assert!(Array::new(2, 2, vec![0u8; 4]).is_some());
    assert!(Array::new(2, 2, vec![0u8; 3]).is_none());
    assert!(Array::<u8>::new(0, 2, vec![]).is_none());
}

#[test]
fn arrays_read_row_major() {
    let array = Array::from_rows(vec![vec![1, 2], vec![3, 4]]).unwrap();
    assert_eq!(array.get(0, 0), Some(&1));
    assert_eq!(array.get(0, 1), Some(&2));
    assert_eq!(array.get(1, 0), Some(&3));
    assert_eq!(array.get(1, 1), Some(&4));
    assert_eq!(array.get(2, 0), None);
    assert_eq!(array.values(), &[1, 2, 3, 4]);
}

#[test]
fn a_ragged_array_is_refused() {
    assert!(Array::from_rows(vec![vec![1, 2], vec![3]]).is_none());
    assert!(Array::<i32>::from_rows(vec![]).is_none());
    assert!(Array::<i32>::from_rows(vec![vec![], vec![]]).is_none());
}

#[test]
fn a_single_row_stretches_down_and_a_single_column_across() {
    let row = Array::from_rows(vec![vec![1, 2]]).unwrap();
    assert_eq!(row.get_broadcast(5, 1), Some(&2));

    let column = Array::column(vec![7, 8]).unwrap();
    assert_eq!(column.get_broadcast(1, 9), Some(&8));
}

#[test]
fn a_corner_neither_array_covers_is_not_available() {
    // A 2x1 and a 1x2 broadcast to 2x2, and the 2x1 has no column 1.
    let tall = Array::column(vec![1, 2]).unwrap();
    let wide = Array::from_rows(vec![vec![3, 4]]).unwrap();
    assert_eq!(Array::broadcast_shape(&tall, &wide), (2, 2));
    // The tall one is one column, so it stretches; both are covered here.
    assert_eq!(tall.get_broadcast(1, 1), Some(&2));

    // A genuinely short array has nothing past its end.
    let short = Array::from_rows(vec![vec![1, 2], vec![3, 4]]).unwrap();
    assert_eq!(short.get_broadcast(5, 0), None);
}

#[test]
fn a_scalar_is_a_one_by_one_array() {
    let one = Array::scalar("x");
    assert_eq!((one.rows(), one.cols(), one.len()), (1, 1, 1));
    assert_eq!(one.as_scalar(), Some(&"x"));
    assert!(!one.is_empty());
    let two = Array::column(vec![1, 2]).unwrap();
    assert_eq!(two.as_scalar(), None);
}
