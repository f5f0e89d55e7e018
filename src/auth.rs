//! The authenticated subject of a request, as carried by its token.

use crate::ids::{hex_bytes, is_oid_text, Oid};
use crate::model::{Requester, Role};
use vstd::prelude::*;
use vstd::string::{StrSliceExecFns, StringExecFns};

verus! {

/// What a request's token states about its bearer.
#[derive(Clone, Debug)]
pub struct Claims {
    pub sub: String,
    pub exp: usize,
    pub role: String,
}

#[derive(Clone, Copy, Debug, PartialEq, Eq, Structural)]
pub enum AuthError {
    /// The subject is empty once unwrapped.
    EmptySubject,
    /// The subject is not an identifier.
    InvalidSubject,
}

pub open spec fn wrapper_prefix() -> Seq<char> {
    seq!['O', 'b', 'j', 'e', 'c', 't', 'I', 'd', '(']
}

pub open spec fn admin_role() -> Seq<char> {
    seq!['a', 'd', 'm', 'i', 'n']
}

/// A subject written `ObjectId(...)` stands for what is inside the parentheses.
pub open spec fn unwrap_subject(s: Seq<char>) -> Seq<char> {
    if s.len() >= 10 && s.subrange(0, 9) == wrapper_prefix() && s.last() == ')' {
        s.subrange(9, s.len() - 1)
    } else {
        s
    }
}

/// The subject with an `ObjectId(...)` wrapper taken off.
pub fn normalize_subject(sub: &str) -> (r: String)
    ensures
        r@ == unwrap_subject(sub@),
{
    let n = sub.unicode_len();
    let prefix = "ObjectId(";
    proof {
        reveal_strlit("ObjectId(");
    }
    if n < 10 || sub.get_char(n - 1) != ')' {
        return <String as StringExecFns>::from_str(sub);
    }
    let mut i: usize = 0;
    while i < 9
        invariant
            0 <= i <= 9,
            n == sub@.len(),
            n >= 10,
            prefix@ == wrapper_prefix(),
            forall|j: int| 0 <= j < i ==> sub@[j] == wrapper_prefix()[j],
        decreases 9 - i,
    {
        if sub.get_char(i) != prefix.get_char(i) {
            assert(sub@.subrange(0, 9)[i as int] != wrapper_prefix()[i as int]);
            return <String as StringExecFns>::from_str(sub);
        }
        i = i + 1;
    }
    assert(sub@.subrange(0, 9) =~= wrapper_prefix());
    <String as StringExecFns>::from_str(sub.substring_char(9, n - 1))
}

/// The requester a token's claims describe: its subject, unwrapped, must be
/// an identifier; the role `admin` makes an admin, any other a member.
pub fn requester_of(claims: &Claims) -> (r: Result<Requester, AuthError>)
    ensures
        unwrap_subject(claims.sub@).len() == 0 <==> r == Err::<Requester, AuthError>(
            AuthError::EmptySubject,
        ),
        unwrap_subject(claims.sub@).len() > 0 && !is_oid_text(unwrap_subject(claims.sub@)) <==> r
            == Err::<Requester, AuthError>(AuthError::InvalidSubject),
        r is Ok ==> {
            &&& r->Ok_0.subject.bytes@ == hex_bytes(unwrap_subject(claims.sub@))
            &&& (r->Ok_0.role == Role::Admin <==> claims.role@ == admin_role())
        },
{
    let sub = normalize_subject(claims.sub.as_str());
    if sub.as_str().unicode_len() == 0 {
        return Err(AuthError::EmptySubject);
    }
    let subject = match Oid::parse(sub.as_str()) {
        Some(o) => o,
        None => return Err(AuthError::InvalidSubject),
    };
    let admin = <String as StringExecFns>::from_str("admin");
    proof {
        reveal_strlit("admin");
        assert(admin@ =~= admin_role());
    }
    let role = if claims.role == admin {
        Role::Admin
    } else {
        Role::Member
    };
    Ok(Requester { subject, role })
}

} // verus!
