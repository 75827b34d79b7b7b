use rust_can::error::CanError;
use rust_can::protocol::CanProtocol;

#[test]
fn constructors_format_user_visible_messages() {
    assert_eq!(CanError::interface_not_implemented("missing").message(), "missing");
    assert_eq!(CanError::initialization("bad init").message(), "bad init");
    assert_eq!(CanError::operation("bad op").message(), "bad op");
    assert_eq!(CanError::timeout("too slow").message(), "too slow");
    assert_eq!(
        CanError::not_supported("fileno", "virtual").message(),
        "fileno is not supported: virtual"
    );
    assert!(CanError::Internal("state".to_string()).message().contains("state"));
}

#[test]
fn io_errors_are_wrapped() {
    let error: CanError = std::io::Error::other("disk").into();
    assert!(error.message().contains("disk"));
}

#[test]
fn internal_and_io_errors_carry_their_prefix() {
    assert_eq!(CanError::Internal("state".to_string()).message(), "Internal error: state");
    let error: CanError = std::io::Error::other("disk").into();
    assert_eq!(error.message(), "I/O error: disk");
}

#[test]
fn protocol_capabilities_match_payload_limits() {
    assert_eq!(CanProtocol::Can20.max_data_length(), 8);
    assert_eq!(CanProtocol::CanFd.max_data_length(), 64);
    assert_eq!(CanProtocol::CanFdNonIso.max_data_length(), 64);
    assert_eq!(CanProtocol::CanXl.max_data_length(), 2048);
    assert!(!CanProtocol::Can20.is_fd_or_higher());
    assert!(CanProtocol::CanFd.is_fd_or_higher());
    assert!(CanProtocol::CanXl.is_xl());
}

#[test]
fn only_xl_is_xl_and_classic_is_not_fd() {
    assert!(!CanProtocol::Can20.is_xl());
    assert!(!CanProtocol::CanFd.is_xl());
    assert!(CanProtocol::CanFdNonIso.is_fd_or_higher());
    assert!(CanProtocol::CanXl.is_fd_or_higher());
}
