use vstd::prelude::*;

verus! {

/// The kinds of error surfaced by the transactional core.
#[derive(Clone, Copy, Debug, PartialEq, Eq, Structural)]
pub enum ErrorKind {
    /// A path or block is absent.
    NotFound,
    /// The caller handed in malformed input, such as a bad coordinate.
    BadRequest,
    /// A transactional write was refused, or a block was created twice.
    Conflict,
    /// The operation is valid but not available on this view.
    Unsupported,
    /// A filesystem or decode failure.
    Internal,
    NotImplemented,
    MethodNotAllowed,
    Unauthorized,
    Forbidden,
    Timeout,
}

/// An error carrying its kind and a human-readable message.
#[derive(Clone, Debug)]
pub struct TCError {
    kind: ErrorKind,
    message: String,
}

impl TCError {
    /// The kind of this error, as seen by contracts.
    pub closed spec fn spec_kind(&self) -> ErrorKind {
        self.kind
    }

    pub fn new(kind: ErrorKind, message: String) -> (r: TCError)
        ensures
            r.spec_kind() == kind,
    {
        TCError { kind, message }
    }

    pub fn kind(&self) -> (r: ErrorKind)
        ensures
            r == self.spec_kind(),
    {
        self.kind
    }

    pub fn message(&self) -> (r: &String)
    {
        &self.message
    }
}

pub fn bad_request(message: String) -> (r: TCError)
    ensures
        r.spec_kind() == ErrorKind::BadRequest,
{
    TCError::new(ErrorKind::BadRequest, message)
}

pub fn not_found(message: String) -> (r: TCError)
    ensures
        r.spec_kind() == ErrorKind::NotFound,
{
    TCError::new(ErrorKind::NotFound, message)
}

pub fn conflict(message: String) -> (r: TCError)
    ensures
        r.spec_kind() == ErrorKind::Conflict,
{
    TCError::new(ErrorKind::Conflict, message)
}

pub fn unsupported(message: String) -> (r: TCError)
    ensures
        r.spec_kind() == ErrorKind::Unsupported,
{
    TCError::new(ErrorKind::Unsupported, message)
}

pub fn internal(message: String) -> (r: TCError)
    ensures
        r.spec_kind() == ErrorKind::Internal,
{
    TCError::new(ErrorKind::Internal, message)
}


/// The kind of a filesystem failure, as the boundary that performs real
/// I/O reports it.
#[derive(Clone, Copy, Debug, PartialEq, Eq, Structural)]
pub enum IoKind {
    NotFound,
    PermissionDenied,
    Other,
}

/// How a filesystem failure surfaces to callers: a missing directory is
/// `Unsupported` and a missing block `NotFound`, chosen by the operation;
/// a permission refusal and every other failure are `Internal`.
pub fn io_error_class(io: IoKind, missing_directory: bool) -> (r: ErrorKind)
    ensures
        r == (match io {
            IoKind::NotFound => if missing_directory {
                ErrorKind::Unsupported
            } else {
                ErrorKind::NotFound
            },
            IoKind::PermissionDenied => ErrorKind::Internal,
            IoKind::Other => ErrorKind::Internal,
        }),
{
    match io {
        IoKind::NotFound => if missing_directory {
            ErrorKind::Unsupported
        } else {
            ErrorKind::NotFound
        },
        IoKind::PermissionDenied => ErrorKind::Internal,
        IoKind::Other => ErrorKind::Internal,
    }
}
} // verus!
