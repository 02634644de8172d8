use concurrent_sharded_stack::{PopError, PushError};

#[test]
fn refused_value_comes_back() {
    assert_eq!(PushError::Closed(7).into_inner(), 7);
}

#[test]
fn messages() {
    assert_eq!(PushError::Closed(1).message(), "stack is closed");
    assert_eq!(PopError::Empty.message(), "stack is empty");
    assert_eq!(PopError::Closed.message(), "stack is closed");
}
