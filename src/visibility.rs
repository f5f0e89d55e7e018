//! Who sees a Property or a Zone.

use crate::model::{Requester, Role, Visibility};
use vstd::prelude::*;

verus! {

/// Admins see everything; others see public nodes and the private nodes they own.
pub open spec fn visible_to(v: Visibility, q: Requester) -> bool {
    match q.role {
        Role::Admin => true,
        Role::Member => match v {
            Visibility::Public => true,
            Visibility::PrivateTo(owner) => owner == q.subject,
        },
    }
}

pub fn is_visible(v: &Visibility, q: &Requester) -> (r: bool)
    ensures
        r == visible_to(*v, *q),
{
    match q.role {
        Role::Admin => true,
        Role::Member => match v {
            Visibility::Public => true,
            Visibility::PrivateTo(owner) => owner.same(&q.subject),
        },
    }
}

} // verus!
