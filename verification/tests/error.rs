use essay_ecs::error::Error;

#[test]
fn test_error() {
}

#[test]
fn test_error_log() {
}

#[test]
fn error_message_is_kept() {
    let error = Error::new("bad value");
    assert_eq!(error.message(), "bad value");
}

#[test]
fn error_rethrow_appends_location() {
    let error = Error::new("bad value").rethrow(" at here");
    assert_eq!(error.message(), "bad value at here");
}

#[test]
fn error_other_keeps_display_and_location() {
    let error = Error::other(42);
    assert_eq!(error.message(), "42");

    let error = Error::other_loc("bad", "src/x.rs:1:2");
    assert_eq!(error.message(), "bad\n\tat src/x.rs:1:2");
}
