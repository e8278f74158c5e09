//! The event classifier: a pure reading of one raw lifecycle event. It
//! either yields the identity of an image that just came into use, or
//! ignores the event — unknown and malformed events are never an error,
//! since the event vocabulary belongs to the runtime and may grow.

use vstd::prelude::*;
use vstd::string::StringExecFns;

verus! {

/// One raw lifecycle event as the runtime reports it: the kind of object
/// it concerns, the action taken, and the identity of the image involved
/// (empty when the event names none).
pub struct LifecycleEvent {
    pub kind: String,
    pub action: String,
    pub image_id: Vec<u8>,
}

/// What the classifier decides: an event credits an image exactly when a
/// container was created or started from it and the event names the image.
pub open spec fn classify_spec(kind: Seq<char>, action: Seq<char>, image_id: Seq<u8>) -> Option<
    Seq<u8>,
> {
    if kind == "container"@ && (action == "create"@ || action == "start"@) && image_id.len() > 0 {
        Some(image_id)
    } else {
        None
    }
}

/// Classify one event: the image to credit with a fresh recency, or
/// nothing. Every event that does not signal a container coming up on a
/// named image is ignored.
pub fn classify(e: LifecycleEvent) -> (r: Option<Vec<u8>>)
    ensures
        match r {
            Option::Some(id) => classify_spec(e.kind@, e.action@, e.image_id@) == Some(id@),
            Option::None => classify_spec(e.kind@, e.action@, e.image_id@) is None,
        },
{
    if e.kind == String::from_str("container") && (e.action == String::from_str("create")
        || e.action == String::from_str("start")) && e.image_id.len() > 0 {
        Some(e.image_id)
    } else {
        None
    }
}

} // verus!
