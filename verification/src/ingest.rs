//! The publish-side decision: which decoded events are handed to the
//! router, and for which target.
//!
//! The gateway around the library decodes a publish request into an
//! [`Event`](crate::event::Event) and resolves the target identity; the
//! decision below says whether that event is forwarded at all. Whatever it
//! decides, the publish operation reports success to its caller: delivery
//! is best-effort and its outcome is invisible to the publisher.

use vstd::prelude::*;
use crate::event::Event;
use crate::identity::Identifier;

verus! {

/// A forward request for the router: one event, bound for one identity.
pub struct ForwardRequest {
    pub id: Identifier,
    pub event: Event,
}

/// Whether some entry of `accepted` reads exactly like `type_alias`.
pub open spec fn spec_type_accepted(accepted: Seq<Seq<char>>, type_alias: Seq<char>) -> bool {
    exists|i: int| 0 <= i < accepted.len() && accepted[i] == type_alias
}

/// Whether the event's type tag is one of the accepted types.
pub fn type_accepted(accepted_types: &Vec<String>, type_alias: &String) -> (r: bool)
    ensures
        r == spec_type_accepted(accepted_types.deep_view(), type_alias@),
{
    let n = accepted_types.len();
    let mut i: usize = 0;
    while i < n
        invariant
            n == accepted_types@.len(),
            i <= n,
            forall|j: int| 0 <= j < i ==> accepted_types.deep_view()[j] != type_alias@,
        decreases n - i,
    {
        if accepted_types[i].eq(type_alias) {
            assert(accepted_types.deep_view()[i as int] == type_alias@);
            return true;
        }
        i = i + 1;
    }
    false
}

/// Decide what a publish request comes to: an event whose type tag is
/// accepted becomes a forward request for the resolved target identity,
/// carried unchanged; any other event is not forwarded at all.
pub fn plan_publish(accepted_types: &Vec<String>, target: Identifier, event: Event) -> (r: Option<
    ForwardRequest,
>)
    ensures
        match r {
            Some(request) => spec_type_accepted(accepted_types.deep_view(), event.type_alias@)
                && request.id == target && request.event == event,
            None => !spec_type_accepted(accepted_types.deep_view(), event.type_alias@),
        },
{
    if type_accepted(accepted_types, &event.type_alias) {
        Some(ForwardRequest { id: target, event })
    } else {
        None
    }
}

} // verus!
