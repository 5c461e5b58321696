use sigyn::error::AppError;
use sigyn::ipc::{admit_chunk, connect_error, desktop_app_is_running, handle_request, respond, IpcRequest, IpcResponse, MAX_REQUEST_SIZE};

#[test]
fn ping_is_answered_with_pong() {
    assert!(matches!(respond(&IpcRequest::Ping), IpcResponse::Pong));
}

#[test]
fn request_size_is_bounded() {
    assert!(admit_chunk(0, 4096).is_ok());
    assert!(admit_chunk(MAX_REQUEST_SIZE - 10, 10).is_ok());
    match admit_chunk(MAX_REQUEST_SIZE - 10, 11) {
        Err(AppError::Validation(m)) => assert_eq!(m, "IPC request too large"),
        _ => panic!("expected a validation error"),
    }
    assert!(admit_chunk(usize::MAX, 1).is_err());
    assert_eq!(MAX_REQUEST_SIZE, 64 * 1024);
}

#[test]
fn running_app_answers_pong() {
    assert!(desktop_app_is_running(&Ok(IpcResponse::Pong)));
    assert!(!desktop_app_is_running(&Err(AppError::Io("refused".to_string()))));
}

#[test]
fn connection_errors() {
    match connect_error(true, "no such file".to_string()) {
        AppError::Validation(m) => assert_eq!(m, "desktop app is not running \u{2014} open sigyn and unlock it before using the CLI"),
        _ => panic!("expected a validation error"),
    }
    assert!(matches!(connect_error(false, "permission denied".to_string()), AppError::Io(m) if m == "permission denied"));
}

#[test]
fn error_messages_match_their_display() {
    assert_eq!(AppError::Locked.message(), "the app is locked");
    assert_eq!(AppError::Io("x".to_string()).message(), "failed to access the local store: x");
    assert_eq!(AppError::Sql("y".to_string()).message(), "database error: y");
    assert_eq!(AppError::Serde("z".to_string()).message(), "serialization error: z");
    assert_eq!(AppError::Auth("a".to_string()).message(), "a");
    assert_eq!(AppError::Validation("b".to_string()).message(), "b");
    assert_eq!(AppError::NotFound("c".to_string()).message(), "c");
    assert_eq!(AppError::Crypto("d".to_string()).message(), "d");
}

#[test]
fn connection_requests_are_answered() {
    assert!(matches!(handle_request(6, Ok(IpcRequest::Ping)), Ok(Some(IpcResponse::Pong))));
    assert!(matches!(handle_request(0, Ok(IpcRequest::Ping)), Ok(None)));
    match handle_request(MAX_REQUEST_SIZE + 1, Ok(IpcRequest::Ping)) {
        Err(AppError::Validation(m)) => assert_eq!(m, "IPC request too large"),
        _ => panic!("expected a validation error"),
    }
    assert!(matches!(handle_request(3, Err(AppError::Serde("bad".to_string()))), Err(AppError::Serde(m)) if m == "bad"));
}
