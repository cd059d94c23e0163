//! The controlled vocabulary of edge relations.

use vstd::prelude::*;

verus! {

/// Between entities.
pub const RELATES_TO: &'static str = "relates_to";
pub const BELONGS_TO: &'static str = "belongs_to";
pub const CREATED_BY: &'static str = "created_by";
pub const LOCATED_AT: &'static str = "located_at";
pub const KNOWS: &'static str = "knows";
pub const OWNS: &'static str = "owns";
/// From entities to events.
pub const PARTICIPATES_IN: &'static str = "participates_in";
pub const INITIATED: &'static str = "initiated";
pub const AFFECTED_BY: &'static str = "affected_by";
/// Between events.
pub const BEFORE: &'static str = "before";
pub const AFTER: &'static str = "after";
pub const AT_SAME_TIME: &'static str = "at_same_time";
pub const BECAUSE: &'static str = "because";
pub const AS_RESULT: &'static str = "as_result";
/// From entities or events to concepts.
pub const IS_A: &'static str = "is_a";
pub const INSTANCE_OF: &'static str = "instance_of";
pub const CONCEPTUALIZED_AS: &'static str = "conceptualized_as";

} // verus!
