//! The rule by which a handle of the coordinator settles one request.
use vstd::prelude::*;
use crate::error::StoreError;

verus! {

/// The result a caller gets for a request: `StoreClosed` where the request
/// could not be sent (the worker is gone) or no reply came back (the worker
/// dropped it); else the worker's reply itself.
pub fn settle<T>(sent: bool, reply: Option<Result<T, StoreError>>) -> (r: Result<T, StoreError>)
    ensures
        !sent ==> (r matches Err(e) && e is StoreClosed),
        sent && reply is None ==> (r matches Err(e) && e is StoreClosed),
        sent && reply is Some ==> r == reply->0,
{
    if !sent {
        return Err(StoreError::StoreClosed { msg: "actor closed".to_string() });
    }
    match reply {
        Some(result) => result,
        None => Err(StoreError::StoreClosed { msg: "response channel closed".to_string() }),
    }
}

} // verus!
