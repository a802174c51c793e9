//! Handles of staged bodies.

use crate::text::copy_bytes;
use crate::types::{ErrorKind, XtableError, XtableResult};
use vstd::prelude::*;

verus! {

/// A body kept inline or spilled to a file.
#[derive(Debug, Clone, PartialEq, Eq)]
pub struct BodyHandle {
    pub inline: Option<Vec<u8>>,
    pub spilled: Option<SpilledBlob>,
}

/// A body in a spill file.
#[derive(Debug, Clone, PartialEq, Eq)]
pub struct SpilledBlob {
    pub path: String,
    pub size: u64,
    pub sha256: String,
}

impl BodyHandle {
    /// Length of the body.
    pub open spec fn body_len(&self) -> usize {
        match self.inline {
            Some(b) => b@.len() as usize,
            None => match self.spilled {
                Some(s) => s.size as usize,
                None => 0,
            },
        }
    }

    /// A handle of an inline body.
    pub fn inline(bytes: Vec<u8>) -> (r: Self)
        ensures
            r.inline == Some(bytes),
            r.spilled is None,
    {
        BodyHandle { inline: Some(bytes), spilled: None }
    }

    /// Length of the body.
    pub fn len(&self) -> (n: usize)
        ensures
            n == self.body_len(),
    {
        match &self.inline {
            Some(b) => b.len(),
            None => match &self.spilled {
                Some(s) => {
                    #[verifier::truncate]
                    let n = s.size as usize;
                    n
                },
                None => 0,
            },
        }
    }

    /// Whether the body is empty.
    pub fn is_empty(&self) -> (r: bool)
        ensures
            r == (self.body_len() == 0),
    {
        self.len() == 0
    }

    /// The body. `file` is what the read of the spill file gave: its bytes, or
    /// the text of the error. It is looked at for a spilled body only.
    pub fn read(&self, file: &Result<Vec<u8>, String>) -> (r: XtableResult<Vec<u8>>)
        ensures
            match (self.inline, self.spilled, *file) {
                (Some(b), _, _) => r matches Ok(x) && x@ == b@,
                (None, Some(_), Ok(b)) => r matches Ok(x) && x@ == b@,
                (None, Some(_), Err(t)) => r matches Err(e) && e@ == (ErrorKind::Storage, t@),
                (None, None, _) => r matches Err(e) && e@ == (
                    ErrorKind::InvalidArgument,
                    "empty body handle"@,
                ),
            },
    {
        if let Some(b) = &self.inline {
            return Ok(copy_bytes(b.as_slice()));
        }
        if self.spilled.is_some() {
            return match file {
                Ok(b) => Ok(copy_bytes(b.as_slice())),
                Err(t) => Err(XtableError::storage(t.clone())),
            };
        }
        Err(XtableError::InvalidArgument("empty body handle".to_owned()))
    }
}

} // verus!
