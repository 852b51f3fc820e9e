//! The reply type of the HTTP front-end. The front-end itself lives
//! outside the engine; only the message it answers with is fixed here.

use vstd::prelude::*;

verus! {

/// The body of a successful front-end reply.
#[derive(Debug)]
pub struct SuccessMsg {
    /// The message text.
    pub msg: String,
}

} // verus!
