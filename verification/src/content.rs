//! What the engine reads out of the JSON content of an event.

use vstd::prelude::*;

verus! {

/// The string under the key `field` of the JSON object `content`; nothing if
/// `content` is not JSON, not an object, or holds no string there.
pub uninterp spec fn json_string_field(content: Seq<char>, field: Seq<char>) -> Option<Seq<char>>;

/// The room version that the content of an `m.room.create` event states;
/// nothing if `ruma` does not accept the content.
pub uninterp spec fn create_content_room_version(content: Seq<char>) -> Option<Seq<char>>;

/// Parses `content` with `serde_json::from_str` into a `serde_json::Value`
/// and picks the string under `field` with `Value::get`. The answer is a
/// function of the two strings alone.
#[verifier::external_body]
pub(crate) fn read_string_field(content: &str, field: &str) -> (r: Option<String>)
    ensures
        match r {
            Some(s) => json_string_field(content@, field@) == Some(s@),
            None => json_string_field(content@, field@).is_none(),
        },
{
    let value: serde_json::Value = match serde_json::from_str(content) {
        Ok(value) => value,
        Err(_) => return None,
    };
    match value.get(field) {
        Some(serde_json::Value::String(s)) => Some(s.clone()),
        _ => None,
    }
}

/// Parses `content` with `serde_json::from_str` as ruma's
/// `RoomCreateEventContent` and hands back its `room_version` as a string.
/// The answer is a function of the content alone.
#[verifier::external_body]
pub(crate) fn read_create_room_version(content: &str) -> (r: Option<String>)
    ensures
        match r {
            Some(s) => create_content_room_version(content@) == Some(s@),
            None => create_content_room_version(content@).is_none(),
        },
{
    match serde_json::from_str::<ruma::events::room::create::RoomCreateEventContent>(content) {
        Ok(create) => Some(create.room_version.as_str().to_owned()),
        Err(_) => None,
    }
}

} // verus!
