//! Transaction errors.

use crate::text::join2;
use crate::types::{ErrorKind, XtableError};
use vstd::prelude::*;

verus! {

/// Errors of the transaction layer.
#[derive(Debug, PartialEq, Eq)]
pub enum TxnError {
    Conflict(String),
    Aborted(String),
    Expired,
    UnknownTxn(String),
    Backend(String),
    Storage(String),
    InvalidState(String),
}

/// The public error that a transaction error stands for.
pub open spec fn public_error(e: TxnError) -> (ErrorKind, Seq<char>) {
    match e {
        TxnError::Conflict(k) => (ErrorKind::Conflict, "conflict on keys: "@ + k@),
        TxnError::Aborted(reason) => (ErrorKind::Conflict, "aborted: "@ + reason@),
        TxnError::Expired => (ErrorKind::TxnExpired, "txn expired"@),
        TxnError::UnknownTxn(id) => (ErrorKind::UnknownTxn, id@),
        TxnError::Backend(s) => (ErrorKind::Backend, s@),
        TxnError::Storage(s) => (ErrorKind::Storage, s@),
        TxnError::InvalidState(s) => (ErrorKind::Internal, "invalid state: "@ + s@),
    }
}

impl TxnError {
    /// The public error that this one stands for.
    pub fn into_public(self) -> (r: XtableError)
        ensures
            r@ == public_error(self),
    {
        match self {
            TxnError::Conflict(k) => XtableError::conflict(
                join2("conflict on keys: ", k.as_str()),
            ),
            TxnError::Aborted(reason) => XtableError::Conflict(
                join2("aborted: ", reason.as_str()),
            ),
            TxnError::Expired => XtableError::TxnExpired("txn expired".to_owned()),
            TxnError::UnknownTxn(id) => XtableError::UnknownTxn(id),
            TxnError::Backend(s) => XtableError::backend(s),
            TxnError::Storage(s) => XtableError::storage(s),
            TxnError::InvalidState(s) => XtableError::internal(
                join2("invalid state: ", s.as_str()),
            ),
        }
    }
}

impl From<TxnError> for XtableError {
    fn from(e: TxnError) -> (r: Self)
        ensures
            r@ == public_error(e),
    {
        e.into_public()
    }
}

impl vstd::std_specs::convert::FromSpecImpl<TxnError> for XtableError {
    open spec fn obeys_from_spec() -> bool {
        false
    }

    open spec fn from_spec(e: TxnError) -> Self {
        arbitrary()
    }
}

impl From<XtableError> for TxnError {
    /// A storage failure whose cause is not told.
    fn from(e: XtableError) -> (r: Self)
        ensures
            r matches TxnError::Storage(m) && m@ == "xerror"@,
    {
        TxnError::Storage("xerror".to_owned())
    }
}

impl vstd::std_specs::convert::FromSpecImpl<XtableError> for TxnError {
    open spec fn obeys_from_spec() -> bool {
        false
    }

    open spec fn from_spec(e: XtableError) -> Self {
        arbitrary()
    }
}

} // verus!
