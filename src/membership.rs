//! Joining and leaving Groups.

use crate::ids::Oid;
use crate::model::{first_index, lemma_first_index, Group, Store};
use vstd::prelude::*;

verus! {

#[derive(Clone, Copy, Debug, PartialEq, Eq, Structural)]
pub enum JoinError {
    /// No Group has the code.
    GroupNotFound,
    /// The user already belongs to the Group.
    AlreadyMember,
    /// The Group has reached its member limit.
    GroupFull,
}

#[derive(Clone, Copy, Debug, PartialEq, Eq, Structural)]
pub enum LeaveError {
    /// The user does not belong to the Group.
    NotMember,
}

/// What becomes of a Group once a member has left it.
#[derive(Clone, Copy, Debug, PartialEq, Eq, Structural)]
pub enum LeaveOutcome {
    /// Members remain.
    Stay,
    /// The leaving user was the last member: the Group is deleted in cascade.
    Dissolve,
}

pub open spec fn group_codes(s: &Store) -> Seq<Seq<char>> {
    s.groups@.map_values(|g: Group| g.group_code@)
}

pub open spec fn is_member(s: &Store, user: Oid, gid: Oid) -> bool {
    exists|m: int|
        0 <= m < s.memberships@.len() && #[trigger] s.memberships@[m].user_id == user
            && s.memberships@[m].group_id == gid
}

/// The Group has a member limit and has reached it.
pub open spec fn is_full(g: Group) -> bool {
    g.user_max is Some && g.user_count >= g.user_max->0
}

fn member_exec(s: &Store, user: &Oid, gid: &Oid) -> (r: bool)
    ensures
        r == is_member(s, *user, *gid),
{
    let mut m: usize = 0;
    while m < s.memberships.len()
        invariant
            0 <= m <= s.memberships@.len(),
            forall|j: int|
                0 <= j < m ==> !(#[trigger] s.memberships@[j].user_id == *user
                    && s.memberships@[j].group_id == *gid),
        decreases s.memberships@.len() - m,
    {
        let ug = &s.memberships[m];
        if ug.user_id.same(user) && ug.group_id.same(gid) {
            return true;
        }
        m = m + 1;
    }
    false
}

/// The first Group whose code is `code`.
fn find_code(s: &Store, code: &String) -> (r: Option<usize>)
    ensures
        r is None <==> first_index(group_codes(s), code@) == -1,
        r is Some ==> r->0 as int == first_index(group_codes(s), code@) && r->0 < s.groups@.len(),
{
    let ghost codes = group_codes(s);
    proof {
        lemma_first_index(codes, code@);
    }
    let mut i: usize = 0;
    while i < s.groups.len()
        invariant
            0 <= i <= s.groups@.len(),
            codes == group_codes(s),
            codes.len() == s.groups@.len(),
            forall|j: int| 0 <= j < i ==> codes[j] != code@,
            -1 <= first_index(codes, code@) < codes.len(),
            first_index(codes, code@) == -1 <==> forall|j: int|
                0 <= j < codes.len() ==> codes[j] != code@,
            first_index(codes, code@) >= 0 ==> codes[first_index(codes, code@)] == code@ && forall|
                j: int,
            | 0 <= j < first_index(codes, code@) ==> codes[j] != code@,
        decreases s.groups@.len() - i,
    {
        assert(codes[i as int] == s.groups@[i as int].group_code@);
        if s.groups[i].group_code == *code {
            return Some(i);
        }
        i = i + 1;
    }
    None
}

/// Whether `user` may join the Group with code `code`; on success, its position.
pub fn join_group(s: &Store, user: &Oid, code: &String) -> (r: Result<usize, JoinError>)
    ensures
        ({
            let gi = first_index(group_codes(s), code@);
            &&& gi < 0 <==> r == Err::<usize, JoinError>(JoinError::GroupNotFound)
            &&& gi >= 0 ==> (is_member(s, *user, s.groups@[gi].id) <==> r == Err::<usize, JoinError>(
                JoinError::AlreadyMember,
            ))
            &&& gi >= 0 && !is_member(s, *user, s.groups@[gi].id) ==> (is_full(s.groups@[gi]) <==> r
                == Err::<usize, JoinError>(JoinError::GroupFull))
            &&& r is Ok ==> r->Ok_0 as int == gi
        }),
{
    let found = find_code(s, code);
    let gi = match found {
        None => return Err(JoinError::GroupNotFound),
        Some(gi) => gi,
    };
    let g = &s.groups[gi];
    if member_exec(s, user, &g.id) {
        return Err(JoinError::AlreadyMember);
    }
    let full = match g.user_max {
        Some(max) => g.user_count >= max,
        None => false,
    };
    if full {
        return Err(JoinError::GroupFull);
    }
    Ok(gi)
}

/// What leaving Group `gid` does for `user`: refused when they are not a
/// member; otherwise the Group is dissolved when it counts one member or fewer.
pub fn leave_group(s: &Store, user: &Oid, gid: &Oid) -> (r: Result<LeaveOutcome, LeaveError>)
    ensures
        !is_member(s, *user, *gid) <==> r == Err::<LeaveOutcome, LeaveError>(LeaveError::NotMember),
        is_member(s, *user, *gid) ==> r == Ok::<LeaveOutcome, LeaveError>(
            if s.group_index(*gid) >= 0 && s.groups@[s.group_index(*gid)].user_count <= 1 {
                LeaveOutcome::Dissolve
            } else {
                LeaveOutcome::Stay
            },
        ),
{
    if !member_exec(s, user, gid) {
        return Err(LeaveError::NotMember);
    }
    match s.find_group(gid) {
        Some(gi) => {
            if s.groups[gi].user_count <= 1 {
                Ok(LeaveOutcome::Dissolve)
            } else {
                Ok(LeaveOutcome::Stay)
            }
        },
        None => Ok(LeaveOutcome::Stay),
    }
}

} // verus!
