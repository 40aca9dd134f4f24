//! Reading the identifier that Twitter answers after an upload or a post.

use vstd::prelude::*;

use crate::errors::{throw, ErrorKind, InstanceError};

verus! {

/// The identifier found in Twitter's answer. `field` is what the answer
/// holds under the identifier's key: `None` when the key is absent,
/// otherwise the value as an unsigned number (when it is one) and the
/// value's debug text. An absent key gives `CritTwitterUpMediaGet` with
/// the message `None`; a value that is not an unsigned number gives
/// `CritTwitterUpMediaInt` with its debug text.
pub fn twitter_id(field: Option<(Option<u64>, String)>) -> (r: Result<u64, InstanceError>)
    ensures
        field is None ==> (r matches Err(e) && e.kind == ErrorKind::CritTwitterUpMediaGet && e.msg@ == "None"@),
        field matches Some((Some(v), _)) ==> (r matches Ok(id) && id == v),
        field matches Some((None, text)) ==> (r matches Err(e) && e.kind == ErrorKind::CritTwitterUpMediaInt
            && e.msg@ == text@),
{
    match field {
        None => {
            let mut msg: String = String::new();
            msg.append("None");
            Err(throw(ErrorKind::CritTwitterUpMediaGet, msg))
        },
        Some((Some(v), _)) => Ok(v),
        Some((None, text)) => Err(throw(ErrorKind::CritTwitterUpMediaInt, text)),
    }
}

} // verus!
