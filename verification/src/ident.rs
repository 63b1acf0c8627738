//! Matrix identifiers, judged by the `ruma` crate.

use vstd::prelude::*;
use vstd::utf8::encode_utf8;

verus! {

/// Whether `ruma` accepts `s` as a user id.
pub uninterp spec fn user_id_valid(s: Seq<char>) -> bool;

/// Whether `s` is a room id: at most 255 bytes of UTF-8, the first of them
/// `!`, none of them zero.
pub open spec fn room_id_valid(s: Seq<char>) -> bool {
    let bytes = encode_utf8(s);
    &&& 0 < bytes.len() <= 255
    &&& bytes[0] == 0x21
    &&& forall|i: int| 0 <= i < bytes.len() ==> bytes[i] != 0
}

/// Calls `ruma::UserId::parse` and says whether it accepted `s`. The answer
/// is a function of the string alone; it is named, not spelled out, because
/// the grammar of server names is long.
#[verifier::external_body]
pub(crate) fn check_user_id(s: &str) -> (ok: bool)
    ensures
        ok == user_id_valid(s@),
{
    ruma::UserId::parse(s).is_ok()
}

/// Calls `ruma::RoomId::parse` and says whether it accepted `s`. The parser
/// checks the length, the leading `!` and the absence of a zero byte, and
/// nothing else.
#[verifier::external_body]
pub(crate) fn check_room_id(s: &str) -> (ok: bool)
    ensures
        ok == room_id_valid(s@),
{
    ruma::RoomId::parse(s).is_ok()
}

/// Whether `s` is a user id.
pub fn is_user_id(s: &str) -> (ok: bool)
    ensures
        ok == user_id_valid(s@),
{
    check_user_id(s)
}

/// Whether `s` is a room id.
pub fn is_room_id(s: &str) -> (ok: bool)
    ensures
        ok == room_id_valid(s@),
{
    check_room_id(s)
}

} // verus!
