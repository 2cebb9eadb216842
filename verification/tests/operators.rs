use lazygrad::error::Error;
use lazygrad::operator::Operator;
use lazygrad::shape::Shape;

#[test]
fn add_test_properties() {
    let op = Operator::Add;
    assert_eq!(op.name(), "Add");
    assert_eq!(op.input_size(), 2);
    assert!(op.has_gradient());
}

#[test]
fn add_test_perform_shape() {
    let op = Operator::Add;
    assert_eq!(op.perform_shape(&[Shape::new([]), Shape::new([])]), Ok(Shape::new([])));
    assert_eq!(op.perform_shape(&[Shape::new([0]), Shape::new([0])]), Ok(Shape::new([0])));
    assert_eq!(op.perform_shape(&[Shape::new([3]), Shape::new([3])]), Ok(Shape::new([3])));
}

#[test]
fn add_test_perform_shape_invalid() {
    let op = Operator::Add;
    assert!(op.perform_shape(&[Shape::new([]), Shape::new([0])]).is_err());
    assert!(op.perform_shape(&[Shape::new([]), Shape::new([3])]).is_err());
    assert!(op.perform_shape(&[Shape::new([0]), Shape::new([])]).is_err());
    assert!(op.perform_shape(&[Shape::new([0]), Shape::new([3])]).is_err());
    assert!(op.perform_shape(&[Shape::new([3]), Shape::new([])]).is_err());
    assert!(op.perform_shape(&[Shape::new([3]), Shape::new([0])]).is_err());
}

#[test]
fn sub_test_properties() {
    let op = Operator::Sub;
    assert_eq!(op.name(), "Sub");
    assert_eq!(op.input_size(), 2);
    assert!(op.has_gradient());
}

#[test]
fn mul_test_properties() {
    let op = Operator::Mul;
    assert_eq!(op.name(), "Mul");
    assert_eq!(op.input_size(), 2);
    assert!(op.has_gradient());
}

#[test]
fn mul_test_perform_shape() {
    let op = Operator::Mul;
    assert_eq!(op.perform_shape(&[Shape::new([]), Shape::new([])]), Ok(Shape::new([])));
    assert_eq!(op.perform_shape(&[Shape::new([0]), Shape::new([0])]), Ok(Shape::new([0])));
    assert_eq!(op.perform_shape(&[Shape::new([3]), Shape::new([3])]), Ok(Shape::new([3])));
}

#[test]
fn mul_test_perform_shape_invalid() {
    let op = Operator::Mul;
    assert!(op.perform_shape(&[Shape::new([]), Shape::new([0])]).is_err());
    assert!(op.perform_shape(&[Shape::new([]), Shape::new([3])]).is_err());
    assert!(op.perform_shape(&[Shape::new([0]), Shape::new([])]).is_err());
    assert!(op.perform_shape(&[Shape::new([0]), Shape::new([3])]).is_err());
    assert!(op.perform_shape(&[Shape::new([3]), Shape::new([])]).is_err());
    assert!(op.perform_shape(&[Shape::new([3]), Shape::new([0])]).is_err());
}

#[test]
fn div_test_properties() {
    let op = Operator::Div;
    assert_eq!(op.name(), "Div");
    assert_eq!(op.input_size(), 2);
    assert!(op.has_gradient());
}

#[test]
fn neg_test_properties() {
    let op = Operator::Neg;
    assert_eq!(op.name(), "Neg");
    assert_eq!(op.input_size(), 1);
    assert!(op.has_gradient());
}

#[test]
fn neg_test_perform_shape() {
    let op = Operator::Neg;
    assert_eq!(op.perform_shape(&[Shape::new([])]), Ok(Shape::new([])));
    assert_eq!(op.perform_shape(&[Shape::new([3])]), Ok(Shape::new([3])));
    assert_eq!(op.perform_shape(&[Shape::new([2, 3])]), Ok(Shape::new([2, 3])));
}

#[test]
fn fill_test_properties() {
    let op = Operator::Fill { hw_id: 7, shape: Shape::new([3]), value: 0 };
    assert_eq!(op.name(), "Fill");
    assert_eq!(op.input_size(), 0);
    assert!(!op.has_gradient());
}

#[test]
fn fill_test_perform_shape() {
    let op = Operator::Fill { hw_id: 7, shape: Shape::new([3]), value: 0 };
    assert_eq!(op.perform_shape(&[]), Ok(Shape::new([3])));
    assert_eq!(op.perform_hardware(&[]), Ok(7));
}

#[test]
fn binary_test_perform_hardware() {
    let op = Operator::Add;
    assert_eq!(op.perform_hardware(&[4, 4]), Ok(4));
    let r = op.perform_hardware(&[4, 5]);
    assert!(matches!(r, Err(Error::InvalidNode(_))));
}
