//! What a caller of the registry gets back, from whether its command was
//! queued and whether an answer came.
use vstd::prelude::*;

use crate::error::Error;
use crate::key::PublicKey;

verus! {

/// Outcome of a `put` request: `GoneOnSend` when the command could not be
/// queued, `GoneOnRecv` when no answer came, else the registry's answer.
pub fn put_outcome(queued: bool, answer: Option<Result<(), Error>>) -> (r: Result<(), Error>)
    ensures
        !queued ==> r == Err::<(), Error>(Error::GoneOnSend),
        queued && answer is None ==> r == Err::<(), Error>(Error::GoneOnRecv),
        queued && answer is Some ==> r == answer->Some_0,
{
    if !queued {
        return Err(Error::GoneOnSend);
    }
    match answer {
        None => Err(Error::GoneOnRecv),
        Some(res) => res,
    }
}

/// Outcome of a `get_all` request: `GoneOnSend` when the command could not be
/// queued, `GoneOnRecv` when no answer came, else the bindings received.
pub fn get_all_outcome(
    queued: bool,
    answer: Option<Vec<(PublicKey, String)>>,
) -> (r: Result<Vec<(PublicKey, String)>, Error>)
    ensures
        !queued ==> r == Err::<Vec<(PublicKey, String)>, Error>(Error::GoneOnSend),
        queued && answer is None ==> r == Err::<Vec<(PublicKey, String)>, Error>(Error::GoneOnRecv),
        queued && answer is Some ==> r == Ok::<Vec<(PublicKey, String)>, Error>(answer->Some_0),
{
    if !queued {
        return Err(Error::GoneOnSend);
    }
    match answer {
        None => Err(Error::GoneOnRecv),
        Some(bindings) => Ok(bindings),
    }
}

} // verus!
