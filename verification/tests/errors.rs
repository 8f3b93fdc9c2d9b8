use minrs::MinrsError;

#[test]
fn it_works() {}

#[test]
fn error_values_compare() {
    assert_eq!(MinrsError::OobPosition, MinrsError::OobPosition);
    assert_ne!(MinrsError::OobPosition, MinrsError::GameOver);
    assert_ne!(MinrsError::InvalidArgument, MinrsError::InvalidPosition);
    assert_ne!(MinrsError::BlockedByFlag, MinrsError::InvalidArgument);
}
