use hyperfile_reactor::{SendError, SpawnError, TrySendError};

#[test]
fn send_error_hands_the_context_back() {
    assert_eq!(SendError(7u32).into_inner(), 7);
    assert_eq!(SendError(7u32).0, 7);
}

#[test]
fn try_send_error_hands_the_context_back() {
    assert_eq!(TrySendError::Full(3u32).into_inner(), 3);
    assert_eq!(TrySendError::Closed("x").into_inner(), "x");
}

#[test]
fn error_texts() {
    assert_eq!(SendError(()).to_string(), "task receiver closed");
    assert_eq!(TrySendError::Full(()).to_string(), "channel full");
    assert_eq!(TrySendError::Closed(()).to_string(), "task receiver closed");
    assert_eq!(SpawnError.to_string(), "reactor background thread has shut down");
}
