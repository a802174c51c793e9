//! Types shared by the storage and transaction layers.

use crate::text::join2;
use vstd::prelude::*;

verus! {

/// Errors of the public interface.
#[derive(Debug, Clone, PartialEq, Eq)]
pub enum XtableError {
    /// Local storage failed, or held bytes that do not decode.
    Storage(String),
    /// The operation lost against a concurrent one.
    Conflict(String),
    /// The transaction's time ran out.
    TxnExpired(String),
    /// No such transaction.
    UnknownTxn(String),
    /// The object store failed.
    Backend(String),
    /// A broken internal expectation.
    Internal(String),
    /// An argument that cannot be used.
    InvalidArgument(String),
}

/// Result of the public interface.
pub type XtableResult<T> = Result<T, XtableError>;

/// Variants of [`XtableError`].
#[derive(Debug, Clone, Copy, PartialEq, Eq, Structural)]
pub enum ErrorKind {
    Storage,
    Conflict,
    TxnExpired,
    UnknownTxn,
    Backend,
    Internal,
    InvalidArgument,
}

impl View for XtableError {
    type V = (ErrorKind, Seq<char>);

    /// The variant and its message.
    open spec fn view(&self) -> (ErrorKind, Seq<char>) {
        match self {
            XtableError::Storage(m) => (ErrorKind::Storage, m@),
            XtableError::Conflict(m) => (ErrorKind::Conflict, m@),
            XtableError::TxnExpired(m) => (ErrorKind::TxnExpired, m@),
            XtableError::UnknownTxn(m) => (ErrorKind::UnknownTxn, m@),
            XtableError::Backend(m) => (ErrorKind::Backend, m@),
            XtableError::Internal(m) => (ErrorKind::Internal, m@),
            XtableError::InvalidArgument(m) => (ErrorKind::InvalidArgument, m@),
        }
    }
}

/// HTTP status of an error.
pub open spec fn http_status_of(kind: ErrorKind) -> u16 {
    match kind {
        ErrorKind::Conflict => 409,
        ErrorKind::TxnExpired => 410,
        ErrorKind::UnknownTxn => 404,
        ErrorKind::Backend => 502,
        ErrorKind::InvalidArgument => 400,
        ErrorKind::Storage | ErrorKind::Internal => 500,
    }
}

impl XtableError {
    pub fn conflict(message: String) -> (r: Self)
        ensures
            r@ == (ErrorKind::Conflict, message@),
    {
        XtableError::Conflict(message)
    }

    pub fn backend(message: String) -> (r: Self)
        ensures
            r@ == (ErrorKind::Backend, message@),
    {
        XtableError::Backend(message)
    }

    pub fn storage(message: String) -> (r: Self)
        ensures
            r@ == (ErrorKind::Storage, message@),
    {
        XtableError::Storage(message)
    }

    pub fn internal(message: String) -> (r: Self)
        ensures
            r@ == (ErrorKind::Internal, message@),
    {
        XtableError::Internal(message)
    }

    /// The HTTP status that reports this error.
    pub fn http_status(&self) -> (r: u16)
        ensures
            r == http_status_of(self@.0),
    {
        match self {
            XtableError::Conflict(_) => 409,
            XtableError::TxnExpired(_) => 410,
            XtableError::UnknownTxn(_) => 404,
            XtableError::Backend(_) => 502,
            XtableError::InvalidArgument(_) => 400,
            XtableError::Storage(_) => 500,
            XtableError::Internal(_) => 500,
        }
    }

    /// The message of the error.
    pub fn message(&self) -> (r: &str)
        ensures
            r@ == self@.1,
    {
        match self {
            XtableError::Conflict(m) => m.as_str(),
            XtableError::TxnExpired(m) => m.as_str(),
            XtableError::UnknownTxn(m) => m.as_str(),
            XtableError::Backend(m) => m.as_str(),
            XtableError::InvalidArgument(m) => m.as_str(),
            XtableError::Storage(m) => m.as_str(),
            XtableError::Internal(m) => m.as_str(),
        }
    }
}

/// Lifecycle state of a transaction.
#[derive(Debug, Clone, Copy, PartialEq, Eq, Structural)]
pub enum TxnStatus {
    Active,
    Committing,
    Committed,
    Aborted,
}

/// Name of a status, as it stands in messages.
pub open spec fn status_name(s: TxnStatus) -> Seq<char> {
    match s {
        TxnStatus::Active => "Active"@,
        TxnStatus::Committing => "Committing"@,
        TxnStatus::Committed => "Committed"@,
        TxnStatus::Aborted => "Aborted"@,
    }
}

impl TxnStatus {
    /// Name of the status.
    pub fn name(self) -> (r: &'static str)
        ensures
            r@ == status_name(self),
    {
        match self {
            TxnStatus::Active => "Active",
            TxnStatus::Committing => "Committing",
            TxnStatus::Committed => "Committed",
            TxnStatus::Aborted => "Aborted",
        }
    }
}

/// A commit version.
#[derive(Debug, Clone, Copy, PartialEq, Eq, PartialOrd, Ord, Hash, Structural)]
pub struct Version(pub u64);

impl Version {
    /// The version before any commit.
    pub fn zero() -> (r: Version)
        ensures
            r.0 == 0,
    {
        Version(0)
    }

    pub fn as_u64(&self) -> (r: u64)
        ensures
            r == self.0,
    {
        self.0
    }
}

/// Key of an object.
#[derive(Debug, Clone, PartialEq, Eq, Hash)]
pub struct ObjectKey(pub String);

impl View for ObjectKey {
    type V = Seq<char>;

    open spec fn view(&self) -> Seq<char> {
        self.0@
    }
}

impl ObjectKey {
    pub fn new(key: &str) -> (r: Self)
        ensures
            r@ == key@,
    {
        ObjectKey(key.to_owned())
    }

    pub fn as_str(&self) -> (r: &str)
        ensures
            r@ == self@,
    {
        self.0.as_str()
    }
}

/// A storage error with a fixed prefix and a detail.
pub fn storage_error(prefix: &str, detail: &str) -> (r: XtableError)
    ensures
        r@ == (ErrorKind::Storage, prefix@ + detail@),
{
    XtableError::Storage(join2(prefix, detail))
}

} // verus!
