use tenet_matrixalgebra::index::{advance_outer_index, checked_extent};

#[test]
fn odometer_steps_over_the_outer_axes() {
    let mut index = [0usize, 0, 0];
    let shape = [2usize, 2, 3];
    advance_outer_index(&mut index, &shape);
    assert_eq!(index, [0, 1, 0]);
    advance_outer_index(&mut index, &shape);
    assert_eq!(index, [0, 0, 1]);
}

#[test]
fn extent_is_checked() {
    assert_eq!(checked_extent(&[2, 3, 4]), Some(24));
    assert_eq!(checked_extent(&[]), Some(1));
    assert_eq!(checked_extent(&[usize::MAX, 2]), None);
    assert_eq!(checked_extent(&[usize::MAX, 2, 0]), None);
}
