//! The directory of public rooms.

use crate::bytes::string_from_bytes;
use crate::error::{Error, ErrorKind, Result};
use crate::ident::{check_room_id, room_id_valid};
use crate::pdu::option_view;
use crate::state_set::{lemma_lists_set_unique, sorted_blobs};
use crate::tree::{vecs_of, Tree};
use crate::users::spec_text;
use vstd::prelude::*;
use vstd::utf8::encode_utf8;

verus! {

/// The room id that text stands for, given whether it is one.
pub open spec fn spec_checked_room(text: Option<Seq<char>>, is_room: bool) -> std::result::Result<
    Seq<char>,
    ErrorKind,
> {
    match text {
        Some(room) => if is_room {
            Ok(room)
        } else {
            Err(ErrorKind::BadDatabase)
        },
        None => Err(ErrorKind::BadDatabase),
    }
}

/// The room id that stored bytes hold: an error where they are not UTF-8 or no room id.
pub open spec fn spec_room_from_bytes(bytes: Seq<u8>) -> std::result::Result<Seq<char>, ErrorKind> {
    spec_checked_room(spec_text(bytes), spec_text(bytes) matches Some(room) && room_id_valid(room))
}

/// The room id that `text` is, given whether it is one.
pub fn checked_room(text: Option<String>, is_room: bool) -> (r: Result<String>)
    ensures
        match r {
            Ok(room) => spec_checked_room(option_view(text), is_room) == Ok::<Seq<char>, ErrorKind>(room@),
            Err(e) => e is BadDatabase && spec_checked_room(option_view(text), is_room) is Err,
        },
{
    match text {
        Some(room) => if is_room {
            Ok(room)
        } else {
            Err(Error::BadDatabase("Room ID in publicroomids is invalid."))
        },
        None => Err(Error::BadDatabase("Room ID in publicroomids is invalid unicode.")),
    }
}

/// The room id that stored bytes hold.
pub fn room_from_bytes(bytes: &[u8]) -> (r: Result<String>)
    ensures
        match r {
            Ok(room) => spec_room_from_bytes(bytes@) == Ok::<Seq<char>, ErrorKind>(room@),
            Err(e) => e is BadDatabase && spec_room_from_bytes(bytes@) is Err,
        },
{
    let text = string_from_bytes(bytes);
    let is_room = match &text {
        Some(room) => check_room_id(room.as_str()),
        None => false,
    };
    checked_room(text, is_room)
}

/// What a store of the public room directory offers. A store may fail;
/// where it does, it changes nothing.
pub trait Data {
    /// The stored ids of the public rooms, as bytes.
    spec fn public(&self) -> Set<Seq<u8>>;

    /// Adds the room to the public room directory
    fn set_public(&mut self, room_id: &str) -> (r: Result<()>)
        ensures
            final(self).public() == match r {
                Ok(_) => old(self).public().insert(encode_utf8(room_id@)),
                Err(_) => old(self).public(),
            },
    ;

    /// Removes the room from the public room directory.
    fn set_not_public(&mut self, room_id: &str) -> (r: Result<()>)
        ensures
            final(self).public() == match r {
                Ok(_) => old(self).public().remove(encode_utf8(room_id@)),
                Err(_) => old(self).public(),
            },
    ;

    /// Returns true if the room is in the public room directory.
    fn is_public_room(&self, room_id: &str) -> (r: Result<bool>)
        ensures
            r matches Ok(b) ==> b == self.public().contains(encode_utf8(room_id@)),
    ;

    /// Returns the public room directory in the byte order of the room
    /// ids; an error in place of each stored id that is none.
    fn public_rooms(&self) -> (r: Vec<Result<String>>)
        ensures
            r@.len() == sorted_blobs(self.public()).len(),
            forall|i: int|
                0 <= i < r@.len() ==> match #[trigger] r@[i] {
                    Ok(room) => spec_room_from_bytes(sorted_blobs(self.public())[i]) == Ok::<Seq<char>, ErrorKind>(
                        room@,
                    ),
                    Err(e) => e is BadDatabase && spec_room_from_bytes(sorted_blobs(self.public())[i]) is Err,
                },
    ;
}

/// The public room directory, kept in one keyspace.
pub struct PublicRooms {
    pub publicroomids: Tree,
}

impl PublicRooms {
    /// A directory without rooms.
    pub fn new() -> (d: PublicRooms)
        ensures
            d.public() == Set::<Seq<u8>>::empty(),
    {
        let d = PublicRooms { publicroomids: Tree::new() };
        assert(d.public() =~= Set::<Seq<u8>>::empty());
        d
    }
}

impl Data for PublicRooms {
    open spec fn public(&self) -> Set<Seq<u8>> {
        self.publicroomids@.dom()
    }

    fn set_public(&mut self, room_id: &str) -> (r: Result<()>)
        ensures
            r is Ok,
    {
        let empty: [u8; 0] = [];
        self.publicroomids.insert(room_id.as_bytes(), empty.as_slice());
        assert(self.public() =~= old(self).public().insert(encode_utf8(room_id@)));
        Ok(())
    }

    fn set_not_public(&mut self, room_id: &str) -> (r: Result<()>)
        ensures
            r is Ok,
    {
        self.publicroomids.remove(room_id.as_bytes());
        assert(self.public() =~= old(self).public().remove(encode_utf8(room_id@)));
        Ok(())
    }

    fn is_public_room(&self, room_id: &str) -> (r: Result<bool>)
        ensures
            r is Ok,
    {
        Ok(self.publicroomids.contains_key(room_id.as_bytes()))
    }

    fn public_rooms(&self) -> (r: Vec<Result<String>>) {
        let keys = self.publicroomids.keys();
        let ghost all = vecs_of(keys@);
        proof {
            lemma_lists_set_unique(all, sorted_blobs(self.public()), self.public());
        }
        let mut out: Vec<Result<String>> = Vec::new();
        let mut i: usize = 0;
        while i < keys.len()
            invariant
                i <= keys@.len(),
                all == vecs_of(keys@),
                out@.len() == i,
                forall|j: int|
                    0 <= j < i ==> match #[trigger] out@[j] {
                        Ok(room) => spec_room_from_bytes(all[j]) == Ok::<Seq<char>, ErrorKind>(room@),
                        Err(e) => e is BadDatabase && spec_room_from_bytes(all[j]) is Err,
                    },
            decreases keys@.len() - i,
        {
            assert(all[i as int] == keys@[i as int]@);
            out.push(room_from_bytes(keys[i].as_slice()));
            i += 1;
        }
        out
    }
}

} // verus!
