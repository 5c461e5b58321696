//! The bridge between the command line and the desktop app: a request is
//! answered, the size of what a connection sends is bounded, and a failed
//! connection means the app is not running.

use vstd::prelude::*;
use crate::error::{AppError, is_validation};

verus! {

/// What the command line asks the desktop app.
pub enum IpcRequest {
    Ping,
}

/// What the desktop app answers.
pub enum IpcResponse {
    Pong,
}

/// The most a request may hold, in bytes.
pub const MAX_REQUEST_SIZE: usize = 65536;

/// The answer to a request: a ping gets a pong.
pub fn respond(request: &IpcRequest) -> (r: IpcResponse)
    ensures
        request is Ping ==> r is Pong,
{
    match request {
        IpcRequest::Ping => IpcResponse::Pong,
    }
}

pub open spec fn too_large_message() -> Seq<char> {
    "IPC request too large"@
}

/// Whether `n` more bytes may be read after `received`: a request larger
/// than [`MAX_REQUEST_SIZE`] is refused.
pub fn admit_chunk(received: usize, n: usize) -> (res: Result<(), AppError>)
    ensures
        res is Ok <==> received + n <= MAX_REQUEST_SIZE,
        res matches Err(e) ==> is_validation(e, too_large_message()),
{
    if received > MAX_REQUEST_SIZE || n > MAX_REQUEST_SIZE - received {
        Err(AppError::Validation(String::from_str("IPC request too large")))
    } else {
        Ok(())
    }
}

/// What the app answers a connection that sent `received` bytes, which
/// parse as `request` when there are any: a request larger than
/// [`MAX_REQUEST_SIZE`] is refused, an empty one gets no answer, one that
/// does not parse is refused with its error, and a ping gets a pong.
pub fn handle_request(received: usize, request: Result<IpcRequest, AppError>) -> (res: Result<Option<IpcResponse>, AppError>)
    ensures
        received > MAX_REQUEST_SIZE ==> (res matches Err(e) && is_validation(e, too_large_message())),
        received == 0 ==> res matches Ok(None),
        0 < received <= MAX_REQUEST_SIZE ==> match request {
            Ok(r) => res matches Ok(Some(p)) && (r is Ping ==> p is Pong),
            Err(e) => res == Err::<Option<IpcResponse>, AppError>(e),
        },
{
    if received > MAX_REQUEST_SIZE {
        return Err(AppError::Validation(String::from_str("IPC request too large")));
    }
    if received == 0 {
        return Ok(None);
    }
    match request {
        Ok(r) => Ok(Some(respond(&r))),
        Err(e) => Err(e),
    }
}

/// The desktop app is running when it answered a ping with a pong.
pub fn desktop_app_is_running(reply: &Result<IpcResponse, AppError>) -> (res: bool)
    ensures
        res == (reply matches Ok(IpcResponse::Pong)),
{
    match reply {
        Ok(IpcResponse::Pong) => true,
        Err(_) => false,
    }
}

pub open spec fn not_running_message() -> Seq<char> {
    "desktop app is not running \u{2014} open sigyn and unlock it before using the CLI"@
}

/// The error of a failed connection: when no socket is there or nobody
/// listens, the app is not running; otherwise the I/O error's message.
pub fn connect_error(absent: bool, detail: String) -> (e: AppError)
    ensures
        absent ==> is_validation(e, not_running_message()),
        !absent ==> (e matches AppError::Io(m) && m@ == detail@),
{
    if absent {
        AppError::Validation(String::from_str("desktop app is not running \u{2014} open sigyn and unlock it before using the CLI"))
    } else {
        AppError::Io(detail)
    }
}

} // verus!
