//! Opaque record identifiers (twelve bytes, written as 24 hexadecimal digits).

use vstd::prelude::*;

verus! {

/// True when `c` is an ASCII hexadecimal digit, in either case.
pub open spec fn is_hex_digit(c: char) -> bool {
    ('0' <= c && c <= '9') || ('a' <= c && c <= 'f') || ('A' <= c && c <= 'F')
}

/// The value of a hexadecimal digit.
pub open spec fn hex_value(c: char) -> int {
    if '0' <= c && c <= '9' {
        c as int - '0' as int
    } else if 'a' <= c && c <= 'f' {
        c as int - 'a' as int + 10
    } else {
        c as int - 'A' as int + 10
    }
}

/// The text form of an identifier: exactly 24 hexadecimal digits.
pub open spec fn is_oid_text(s: Seq<char>) -> bool {
    s.len() == 24 && forall|i: int| 0 <= i < 24 ==> is_hex_digit(#[trigger] s[i])
}

/// The twelve bytes spelled by 24 hexadecimal digits, two digits per byte.
pub open spec fn hex_bytes(s: Seq<char>) -> Seq<u8> {
    Seq::new(12, |i: int| (hex_value(s[2 * i]) * 16 + hex_value(s[2 * i + 1])) as u8)
}

/// An identifier of a stored record.
#[derive(Clone, Copy, Debug, PartialEq, Eq, Hash)]
pub struct Oid {
    pub bytes: [u8; 12],
}

/// Relies on `bson::oid::ObjectId::parse_str` (reached through `mongodb::bson`):
/// it hex-decodes the string (digits of either case) and accepts the result
/// only when it is exactly twelve bytes long; every other string is an error.
#[verifier::external_body]
fn parse_object_id(s: &str) -> (r: Option<[u8; 12]>)
    ensures
        r is Some <==> is_oid_text(s@),
        r is Some ==> r->0@ == hex_bytes(s@),
{
    match mongodb::bson::oid::ObjectId::parse_str(s) {
        Ok(oid) => Some(oid.bytes()),
        Err(_) => None,
    }
}

impl Oid {
    pub fn from_bytes(bytes: [u8; 12]) -> (r: Oid)
        ensures
            r.bytes == bytes,
    {
        Oid { bytes }
    }

    /// Reads an identifier from its 24-digit hexadecimal text.
    pub fn parse(s: &str) -> (r: Option<Oid>)
        ensures
            r is Some <==> is_oid_text(s@),
            r is Some ==> r->0.bytes@ == hex_bytes(s@),
    {
        match parse_object_id(s) {
            Some(bytes) => Some(Oid { bytes }),
            None => None,
        }
    }

    /// Identifier equality, byte by byte.
    pub fn same(&self, other: &Oid) -> (r: bool)
        ensures
            r == (*self == *other),
    {
        let mut i: usize = 0;
        while i < 12
            invariant
                0 <= i <= 12,
                forall|j: int| 0 <= j < i ==> self.bytes[j] == other.bytes[j],
            decreases 12 - i,
        {
            if self.bytes[i] != other.bytes[i] {
                return false;
            }
            i = i + 1;
        }
        assert(self.bytes =~= other.bytes);
        true
    }
}

} // verus!
