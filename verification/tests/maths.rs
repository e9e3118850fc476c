use dryip::maths::average;

#[test]
fn test_average() {
    assert_eq!(Some(2), average(&[1, 2, 3]));
    assert_eq!(Some(4), average(&[2, 4, 8]));
}

#[test]
fn average_of_nothing() {
    assert_eq!(None, average(&[]));
}

#[test]
fn average_rounds_toward_zero() {
    assert_eq!(Some(1), average(&[1, 2]));
    assert_eq!(Some(-1), average(&[-1, -2]));
    assert_eq!(Some(0), average(&[-1, 0]));
    assert_eq!(Some(0), average(&[1, 0, 0]));
    assert_eq!(Some(-2), average(&[-7, 0, 0]));
}

#[test]
fn average_of_one_number() {
    assert_eq!(Some(7), average(&[7]));
    assert_eq!(Some(i32::MIN), average(&[i32::MIN]));
}

#[test]
fn average_of_sums_beyond_i32() {
    assert_eq!(Some(i32::MAX), average(&[i32::MAX, i32::MAX, i32::MAX]));
    assert_eq!(Some(i32::MIN), average(&[i32::MIN, i32::MIN]));
    assert_eq!(Some(0), average(&[i32::MAX, i32::MIN]));
    assert_eq!(Some(i32::MAX - 1), average(&[i32::MAX, i32::MAX - 2]));
}
