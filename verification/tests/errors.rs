use hat::errors::{HatError, RetryError};

#[test]
fn retry_error_describes_itself() {
    assert_eq!(RetryError.description(), "Retry request");
    assert_eq!(RetryError.to_text(), "RetryError");
}

#[test]
fn every_kind_has_a_description() {
    assert_eq!(HatError::Storage.description(), "Storage failure");
    assert_eq!(HatError::Serialization.description(), "Malformed record");
    assert_eq!(HatError::Channel.description(), "Worker channel failure");
    assert_eq!(HatError::Retry.description(), "Retry request");
    assert_eq!(HatError::Message("out of luck".to_string()).description(), "out of luck");
    assert_eq!(HatError::Corruption.description(), "Data corruption");
}

#[test]
fn errors_convert_from_retry_and_from_text() {
    assert_eq!(HatError::from(RetryError), HatError::Retry);
    assert_eq!(HatError::from("boom".to_string()), HatError::Message("boom".to_string()));
}

#[test]
fn errors_can_be_cloned() {
    let e = HatError::Message("again".to_string());
    assert_eq!(e.clone(), e);
    assert_eq!(HatError::Storage.clone(), HatError::Storage);
}

#[test]
fn blobs_live_in_the_blobs_directory() {
    assert_eq!(hat::layout::blob_dir(), "blobs");
    assert_eq!(hat::layout::MAX_BLOB_SIZE, 4 * 1024 * 1024);
}
