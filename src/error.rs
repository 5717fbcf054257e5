use vstd::prelude::*;
use vstd::string::StringExecFns;

verus! {

/// Errors reported by the store.
#[derive(Debug, PartialEq, Eq)]
pub enum StoreError {
    /// An operating-system or filesystem failure.
    Io { msg: String },
    /// The log, snapshot or manifest holds data that no crash can explain.
    CorruptLog { msg: String },
    /// The caller supplied an empty or oversized key, or an oversized value.
    InvalidInput { msg: String },
    /// The worker that owns the store can no longer be reached.
    StoreClosed { msg: String },
}

/// How an error reads.
pub open spec fn error_text(e: StoreError) -> Seq<char> {
    match e {
        StoreError::Io { msg } => msg@,
        StoreError::CorruptLog { msg } => "corrupt log: "@ + msg@,
        StoreError::InvalidInput { msg } => "invalid input: "@ + msg@,
        StoreError::StoreClosed { msg } => "store closed: "@ + msg@,
    }
}

impl StoreError {
    /// The error as text.
    pub fn message(&self) -> (r: String)
        ensures
            r@ == error_text(*self),
    {
        match self {
            StoreError::Io { msg } => msg.clone(),
            StoreError::CorruptLog { msg } => String::from_str("corrupt log: ").concat(msg.as_str()),
            StoreError::InvalidInput { msg } => String::from_str("invalid input: ").concat(msg.as_str()),
            StoreError::StoreClosed { msg } => String::from_str("store closed: ").concat(msg.as_str()),
        }
    }

    /// Whether this error reports corrupt on-disk data.
    pub fn is_corrupt_log(&self) -> (r: bool)
        ensures
            r == (self is CorruptLog),
    {
        match self {
            StoreError::CorruptLog { .. } => true,
            _ => false,
        }
    }
}

} // verus!
