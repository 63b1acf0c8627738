//! The state of each room: which snapshot is current, which snapshot each
//! event was applied to, and how a new event makes a new snapshot.

use crate::bytes::{
    bytes_eq, lemma_u64_be_roundtrip, spec_u64_from_be_bytes, spec_u64_to_be_bytes, str_eq, u64_from_be_bytes,
    u64_to_be_bytes,
};
use crate::content::{create_content_room_version, json_string_field, read_create_room_version, read_string_field};
use crate::digest::{calculate_hash, spec_state_hash};
use crate::error::{Error, ErrorKind, Result};
use crate::globals::{spec_counted, spec_next_count, Globals};
use crate::ident::{check_user_id, user_id_valid};
use crate::pdu::{
    option_view, parse_membership, spec_get_pdu, spec_membership, spec_stripped, MembershipUpdate,
    PduEvent, PduView, StrippedStateEvent, StrippedView, Timeline, UpdateView,
};
use crate::short::{
    empty_short, spec_after_shorteventid, spec_after_shortstatehash, spec_after_shortstatekey, spec_counter_after_shorteventid,
    spec_counter_after_shortstatehash, spec_counter_after_shortstatekey, spec_eventid_from_short, spec_short,
    spec_shorteventid, spec_shortstatehash, spec_shortstatekey, state_key_bytes, type_valid, ShortIds, ShortView,
};
use crate::state_compressor::{
    compress_state_event, infos_of, parse_compressed_state_event, spec_chain, spec_compress, spec_parse,
    spec_save_ok, spec_saved, tip, Db, InfoView, StateCompressor, StateInfo,
};
use crate::state_set::{blobs_of, first_with_key, sorted_blobs, StateSet};
use crate::tree::Tree;
use vstd::prelude::*;
use vstd::utf8::encode_utf8;

verus! {

/// The state service as plain values.
pub struct ServiceView {
    pub globals: Db,
    pub short: ShortView,
    pub snapshots: Db,
    pub timeline: Seq<PduView>,
    pub roomid_shortstatehash: Db,
    pub shorteventid_shortstatehash: Db,
}

/// The service that has seen no event.
pub open spec fn empty_service() -> ServiceView {
    ServiceView {
        globals: Db::empty(),
        short: empty_short(),
        snapshots: Db::empty(),
        timeline: Seq::empty(),
        roomid_shortstatehash: Db::empty(),
        shorteventid_shortstatehash: Db::empty(),
    }
}

/// The snapshot that a room points to: none where the room has none yet, an
/// error where the stored pointer is not eight bytes.
pub open spec fn spec_room_shortstatehash(rooms: Db, room_id: Seq<char>) -> std::result::Result<
    Option<u64>,
    ErrorKind,
> {
    let key = encode_utf8(room_id);
    if !rooms.dom().contains(key) {
        Ok(None)
    } else if rooms[key].len() == 8 {
        Ok(Some(spec_u64_from_be_bytes(rooms[key])))
    } else {
        Err(ErrorKind::BadDatabase)
    }
}

/// The service after a room was pointed to a snapshot.
pub open spec fn spec_set_room_state(s: ServiceView, room_id: Seq<char>, shortstatehash: u64) -> ServiceView {
    ServiceView {
        roomid_shortstatehash: s.roomid_shortstatehash.insert(
            encode_utf8(room_id),
            spec_u64_to_be_bytes(shortstatehash),
        ),
        ..s
    }
}

/// A room points to the snapshot it was pointed to.
pub proof fn lemma_set_room_state(s: ServiceView, room_id: Seq<char>, shortstatehash: u64)
    ensures
        spec_room_shortstatehash(spec_set_room_state(s, room_id, shortstatehash).roomid_shortstatehash, room_id)
            == Ok::<Option<u64>, ErrorKind>(Some(shortstatehash)),
{
    lemma_u64_be_roundtrip(shortstatehash);
}

/// The ancestors on which a new snapshot is built: none for a room without
/// a snapshot, else the chain of the room's snapshot.
pub open spec fn spec_parents(snapshots: Db, previous: Option<u64>) -> Option<Seq<InfoView>> {
    match previous {
        None => Some(Seq::empty()),
        Some(p) => spec_chain(snapshots, p),
    }
}

/// The first part of appending an event: the event gets its number, and
/// where the room has a snapshot the event is linked to it. Gives the
/// event's number and the room's snapshot.
pub open spec fn spec_link(s: ServiceView, pdu: PduView) -> (
    std::result::Result<(u64, Option<u64>), ErrorKind>,
    ServiceView,
) {
    let named = ServiceView {
        short: spec_after_shorteventid(s.short, s.globals, pdu.event_id),
        globals: spec_counter_after_shorteventid(s.short, s.globals, pdu.event_id),
        ..s
    };
    match spec_shorteventid(s.short, s.globals, pdu.event_id) {
        None => (
            Err(
                if pdu.event_id.len() == 0 {
                    ErrorKind::BadRequest
                } else {
                    ErrorKind::BadDatabase
                },
            ),
            named,
        ),
        Some((shorteventid, _)) => match spec_room_shortstatehash(named.roomid_shortstatehash, pdu.room_id) {
            Err(k) => (Err(k), named),
            Ok(previous) => (
                Ok((shorteventid, previous)),
                match previous {
                    Some(p) => ServiceView {
                        shorteventid_shortstatehash: named.shorteventid_shortstatehash.insert(
                            spec_u64_to_be_bytes(shorteventid),
                            spec_u64_to_be_bytes(p),
                        ),
                        ..named
                    },
                    None => named,
                },
            ),
        },
    }
}

/// The blob that a new event replaces: the one that the room's state holds for the event's state key.
pub open spec fn spec_replaces(chain: Seq<InfoView>, shortstatekey: u64) -> Option<Seq<u8>> {
    match tip(chain) {
        Some(t) => first_with_key(t.full, shortstatekey),
        None => None,
    }
}

/// The set of at most one blob.
pub open spec fn option_set(blob: Option<Seq<u8>>) -> Set<Seq<u8>> {
    match blob {
        Some(b) => Set::empty().insert(b),
        None => Set::empty(),
    }
}

/// The second part of appending a state event: its state key gets its
/// number; where the room's state holds the very same blob already, the
/// room's snapshot is the answer and nothing is written; else a snapshot
/// with a fresh number is saved, which adds the event's blob and removes the
/// one it replaces.
pub open spec fn spec_append_state(
    s: ServiceView,
    kind: Seq<char>,
    state_key: Seq<char>,
    shorteventid: u64,
    previous: Option<u64>,
) -> (std::result::Result<u64, ErrorKind>, ServiceView) {
    match spec_parents(s.snapshots, previous) {
        None => (Err(ErrorKind::BadDatabase), s),
        Some(chain) => {
            let keyed = ServiceView {
                short: spec_after_shortstatekey(s.short, s.globals, kind, state_key),
                globals: spec_counter_after_shortstatekey(s.short, s.globals, kind, state_key),
                ..s
            };
            match spec_shortstatekey(s.short, s.globals, kind, state_key) {
                None => (
                    Err(
                        if type_valid(kind) {
                            ErrorKind::BadDatabase
                        } else {
                            ErrorKind::BadRequest
                        },
                    ),
                    keyed,
                ),
                Some((shortstatekey, _)) => {
                    let new = spec_compress(shortstatekey, shorteventid);
                    let replaces = spec_replaces(chain, shortstatekey);
                    if replaces == Some(new) {
                        (Ok(previous.unwrap()), keyed)
                    } else {
                        match spec_next_count(keyed.globals) {
                            None => (Err(ErrorKind::BadDatabase), keyed),
                            Some(h) => {
                                let counted = ServiceView { globals: spec_counted(keyed.globals, h), ..keyed };
                                let added = Set::empty().insert(new);
                                let removed = option_set(replaces);
                                if spec_save_ok(counted.snapshots, h, added, removed, 2, tip(chain)) {
                                    (
                                        Ok(h),
                                        ServiceView {
                                            snapshots: spec_saved(counted.snapshots, h, added, removed, 2, tip(chain)),
                                            ..counted
                                        },
                                    )
                                } else {
                                    (Err(ErrorKind::BadRequest), counted)
                                }
                            },
                        }
                    }
                },
            }
        },
    }
}

/// Appending an event: the snapshot of the room after the event, and the
/// service after it. An event without a state key is refused where the room
/// has no snapshot: the first event of a room is a state event.
pub open spec fn spec_append_to_state(s: ServiceView, pdu: PduView) -> (
    std::result::Result<u64, ErrorKind>,
    ServiceView,
) {
    let (linked, linked_state) = spec_link(s, pdu);
    match linked {
        Err(k) => (Err(k), linked_state),
        Ok((shorteventid, previous)) => match pdu.state_key {
            Some(state_key) => spec_append_state(linked_state, pdu.kind, state_key, shorteventid, previous),
            None => (
                match previous {
                    Some(p) => Ok(p),
                    None => Err(ErrorKind::BadRequest),
                },
                linked_state,
            ),
        },
    }
}

/// The id of the event that the snapshot `shortstatehash` holds for a pair
/// of event type and state key.
pub open spec fn spec_state_get_id(
    s: ServiceView,
    shortstatehash: u64,
    event_type: Seq<char>,
    state_key: Seq<char>,
) -> std::result::Result<Option<Seq<char>>, ErrorKind> {
    let key = state_key_bytes(event_type, state_key);
    if !type_valid(event_type) {
        Err(ErrorKind::BadRequest)
    } else if !s.short.statekey_shortstatekey.dom().contains(key) {
        Ok(None)
    } else {
        match spec_short(s.short.statekey_shortstatekey, key) {
            None => Err(ErrorKind::BadDatabase),
            Some(shortstatekey) => match spec_chain(s.snapshots, shortstatehash) {
                None => Err(ErrorKind::BadDatabase),
                Some(chain) => match first_with_key(chain.last().full, shortstatekey) {
                    None => Ok(None),
                    Some(blob) => match spec_eventid_from_short(s.short, spec_parse(blob).unwrap().1) {
                        None => Err(ErrorKind::BadDatabase),
                        Some(event_id) => Ok(Some(event_id)),
                    },
                },
            },
        }
    }
}

/// The id of the event that the current state of a room holds for a pair of
/// event type and state key.
pub open spec fn spec_room_state_get_id(
    s: ServiceView,
    room_id: Seq<char>,
    event_type: Seq<char>,
    state_key: Seq<char>,
) -> std::result::Result<Option<Seq<char>>, ErrorKind> {
    match spec_room_shortstatehash(s.roomid_shortstatehash, room_id) {
        Err(k) => Err(k),
        Ok(None) => Ok(None),
        Ok(Some(h)) => spec_state_get_id(s, h, event_type, state_key),
    }
}

/// The event that the current state of a room holds for a pair of event
/// type and state key.
pub open spec fn spec_room_state_get(
    s: ServiceView,
    room_id: Seq<char>,
    event_type: Seq<char>,
    state_key: Seq<char>,
) -> std::result::Result<Option<PduView>, ErrorKind> {
    match spec_room_state_get_id(s, room_id, event_type, state_key) {
        Err(k) => Err(k),
        Ok(None) => Ok(None),
        Ok(Some(event_id)) => Ok(spec_get_pdu(s.timeline, event_id)),
    }
}

/// The snapshot written for a state that is known whole: what the state
/// adds to, and removes from, the state of the room's snapshot.
pub open spec fn spec_save_whole(snapshots: Db, shortstatehash: u64, state: Set<Seq<u8>>, previous: Option<u64>) -> (
    std::result::Result<(), ErrorKind>,
    Db,
) {
    match spec_parents(snapshots, previous) {
        None => (Err(ErrorKind::BadDatabase), snapshots),
        Some(chain) => {
            let added = match tip(chain) {
                Some(t) => state.difference(t.full),
                None => state,
            };
            let removed = match tip(chain) {
                Some(t) => t.full.difference(state),
                None => Set::empty(),
            };
            if spec_save_ok(snapshots, shortstatehash, added, removed, 1_000_000, tip(chain)) {
                (Ok(()), spec_saved(snapshots, shortstatehash, added, removed, 1_000_000, tip(chain)))
            } else {
                (Err(ErrorKind::BadRequest), snapshots)
            }
        },
    }
}

/// Setting the state of an event that is known whole: the event and the
/// hash of the state get their numbers; where the hash is new, a snapshot is
/// saved for it on top of the room's snapshot; then the event is linked to
/// the snapshot of the hash.
pub open spec fn spec_set_event_state(s: ServiceView, event_id: Seq<char>, room_id: Seq<char>, state: Set<Seq<u8>>) -> (
    std::result::Result<(), ErrorKind>,
    ServiceView,
) {
    let named = ServiceView {
        short: spec_after_shorteventid(s.short, s.globals, event_id),
        globals: spec_counter_after_shorteventid(s.short, s.globals, event_id),
        ..s
    };
    match spec_shorteventid(s.short, s.globals, event_id) {
        None => (
            Err(
                if event_id.len() == 0 {
                    ErrorKind::BadRequest
                } else {
                    ErrorKind::BadDatabase
                },
            ),
            named,
        ),
        Some((shorteventid, _)) => match spec_room_shortstatehash(named.roomid_shortstatehash, room_id) {
            Err(k) => (Err(k), named),
            Ok(previous) => {
                let hash = spec_state_hash(state);
                let linked_state = ServiceView {
                    short: spec_after_shortstatehash(named.short, named.globals, hash),
                    globals: spec_counter_after_shortstatehash(named.short, named.globals, hash),
                    ..named
                };
                match spec_shortstatehash(named.short, named.globals, hash) {
                    None => (
                        Err(
                            if hash.len() == 32 {
                                ErrorKind::BadDatabase
                            } else {
                                ErrorKind::BadRequest
                            },
                        ),
                        linked_state,
                    ),
                    Some((shortstatehash, existed)) => {
                        let saved = if existed {
                            (Ok::<(), ErrorKind>(()), linked_state.snapshots)
                        } else {
                            spec_save_whole(linked_state.snapshots, shortstatehash, state, previous)
                        };
                        let keyed = ServiceView { snapshots: saved.1, ..linked_state };
                        match saved.0 {
                            Err(k) => (Err(k), keyed),
                            Ok(_) => (
                                Ok(()),
                                ServiceView {
                                    shorteventid_shortstatehash: keyed.shorteventid_shortstatehash.insert(
                                        spec_u64_to_be_bytes(shorteventid),
                                        spec_u64_to_be_bytes(shortstatehash),
                                    ),
                                    ..keyed
                                },
                            ),
                        }
                    },
                }
            },
        }
    }
}

/// The notice that a membership event gives rise to: none unless the event
/// is of type `m.room.member`, its content names a membership, and its
/// state key is a user id.
pub open spec fn spec_update_of(room_id: Seq<char>, pdu: PduView, membership: Option<Seq<char>>, user_ok: bool) -> Option<
    UpdateView,
> {
    if pdu.kind != "m.room.member"@ {
        None
    } else {
        match membership {
            None => None,
            Some(word) => match spec_membership(word) {
                None => None,
                Some(m) => match pdu.state_key {
                    None => None,
                    Some(user) => if user_ok {
                        Some(UpdateView { room_id, user_id: user, membership: m, sender: pdu.sender })
                    } else {
                        None
                    },
                },
            },
        }
    }
}

/// The notice that an added blob gives rise to: that of the event it names,
/// none where the blob, its event id or the event cannot be found.
pub open spec fn spec_membership_update(s: ServiceView, room_id: Seq<char>, blob: Seq<u8>) -> Option<UpdateView> {
    match spec_parse(blob) {
        None => None,
        Some((_, shorteventid)) => match spec_eventid_from_short(s.short, shorteventid) {
            None => None,
            Some(event_id) => match spec_get_pdu(s.timeline, event_id) {
                None => None,
                Some(pdu) => spec_update_of(
                    room_id,
                    pdu,
                    json_string_field(pdu.content, "membership"@),
                    pdu.state_key matches Some(user) && user_id_valid(user),
                ),
            },
        },
    }
}

/// The notices that a sequence of blobs gives rise to, in the order of the blobs.
pub open spec fn spec_updates(s: ServiceView, room_id: Seq<char>, blobs: Seq<Seq<u8>>) -> Seq<UpdateView>
    decreases blobs.len(),
{
    if blobs.len() == 0 {
        Seq::empty()
    } else {
        let before = spec_updates(s, room_id, blobs.drop_last());
        match spec_membership_update(s, room_id, blobs.last()) {
            Some(u) => before.push(u),
            None => before,
        }
    }
}

/// The notices of `updates`, each taken by its view.
pub open spec fn updates_of(updates: Seq<MembershipUpdate>) -> Seq<UpdateView> {
    Seq::new(updates.len(), |i: int| updates[i]@)
}

/// The stripped events of `events`, each taken by its view.
pub open spec fn stripped_of(events: Seq<StrippedStateEvent>) -> Seq<StrippedView> {
    Seq::new(events.len(), |i: int| events[i]@)
}

/// `so_far` with the stripped form of the room's state event for a pair of
/// event type and state key, where the room has one.
pub open spec fn spec_with_state(
    s: ServiceView,
    room_id: Seq<char>,
    event_type: Seq<char>,
    state_key: Seq<char>,
    so_far: std::result::Result<Seq<StrippedView>, ErrorKind>,
) -> std::result::Result<Seq<StrippedView>, ErrorKind> {
    match so_far {
        Err(k) => Err(k),
        Ok(events) => match spec_room_state_get(s, room_id, event_type, state_key) {
            Err(k) => Err(k),
            Ok(None) => Ok(events),
            Ok(Some(pdu)) => Ok(events.push(spec_stripped(pdu))),
        },
    }
}

/// What an invited user is shown of the room: the stripped forms of the
/// room's create event, join rules, canonical alias, avatar and name and of
/// the membership event of the inviting user, those of them that the room
/// has, in this order, and then the stripped invite itself.
pub open spec fn spec_invite_state(s: ServiceView, invite: PduView) -> std::result::Result<
    Seq<StrippedView>,
    ErrorKind,
> {
    let room = invite.room_id;
    let e0 = Ok::<Seq<StrippedView>, ErrorKind>(Seq::empty());
    let e1 = spec_with_state(s, room, "m.room.create"@, ""@, e0);
    let e2 = spec_with_state(s, room, "m.room.join_rules"@, ""@, e1);
    let e3 = spec_with_state(s, room, "m.room.canonical_alias"@, ""@, e2);
    let e4 = spec_with_state(s, room, "m.room.avatar"@, ""@, e3);
    let e5 = spec_with_state(s, room, "m.room.name"@, ""@, e4);
    let e6 = spec_with_state(s, room, "m.room.member"@, invite.sender, e5);
    match e6 {
        Err(k) => Err(k),
        Ok(events) => Ok(events.push(spec_stripped(invite))),
    }
}

/// The room version that a create event states, given what was read from
/// its content: an error where the room has no create event, and where its
/// content was not accepted.
pub open spec fn spec_version_of(create_event: Option<PduView>, version: Option<Seq<char>>) -> std::result::Result<
    Seq<char>,
    ErrorKind,
> {
    match (create_event, version) {
        (Some(_), Some(v)) => Ok(v),
        _ => Err(ErrorKind::BadDatabase),
    }
}

/// The version of a room: what the content of its create event states.
pub open spec fn spec_room_version(s: ServiceView, room_id: Seq<char>) -> std::result::Result<
    Seq<char>,
    ErrorKind,
> {
    match spec_room_state_get(s, room_id, "m.room.create"@, ""@) {
        Err(k) => Err(k),
        Ok(None) => Err(ErrorKind::BadDatabase),
        Ok(Some(pdu)) => spec_version_of(Some(pdu), create_content_room_version(pdu.content)),
    }
}

/// The notice that an event gives rise to, from what was read out of it:
/// the word under `membership` in its content, and whether its state key is
/// a user id.
pub fn membership_update(room_id: &str, pdu: &PduEvent, membership: Option<String>, user_ok: bool) -> (r: Option<
    MembershipUpdate,
>)
    ensures
        match r {
            Some(u) => spec_update_of(room_id@, pdu@, option_view(membership), user_ok) == Some(u@),
            None => spec_update_of(room_id@, pdu@, option_view(membership), user_ok).is_none(),
        },
{
    if !str_eq(pdu.kind.as_str(), "m.room.member") {
        return None;
    }
    let word = match membership {
        Some(word) => word,
        None => {
            return None;
        },
    };
    let membership = match parse_membership(word.as_str()) {
        Some(m) => m,
        None => {
            return None;
        },
    };
    let user = match &pdu.state_key {
        Some(user) => user,
        None => {
            return None;
        },
    };
    if !user_ok {
        return None;
    }
    Some(
        MembershipUpdate {
            room_id: room_id.to_owned(),
            user_id: user.clone(),
            membership,
            sender: pdu.sender.clone(),
        },
    )
}

/// The room version of a create event, from what was read out of its
/// content; an error where there is no create event, and where nothing
/// could be read.
pub fn version_of(create_event: Option<&PduEvent>, version: Option<String>) -> (r: Result<String>)
    ensures
        match r {
            Ok(v) => spec_version_of(
                match create_event {
                    Some(pdu) => Some(pdu@),
                    None => None,
                },
                option_view(version),
            ) == Ok::<Seq<char>, ErrorKind>(v@),
            Err(e) => e is BadDatabase && spec_version_of(
                match create_event {
                    Some(pdu) => Some(pdu@),
                    None => None,
                },
                option_view(version),
            ) is Err,
        },
{
    match create_event {
        None => Err(Error::BadDatabase("Invalid room version")),
        Some(_) => match version {
            Some(v) => Ok(v),
            None => Err(Error::BadDatabase("Invalid create event in db.")),
        },
    }
}

/// The state service of the rooms, with the services it works with.
pub struct Service {
    pub globals: Globals,
    pub short: ShortIds,
    pub state_compressor: StateCompressor,
    pub timeline: Timeline,
    pub roomid_shortstatehash: Tree,
    pub shorteventid_shortstatehash: Tree,
}

impl View for Service {
    type V = ServiceView;

    open spec fn view(&self) -> ServiceView {
        ServiceView {
            globals: self.globals@,
            short: self.short@,
            snapshots: self.state_compressor@,
            timeline: self.timeline@,
            roomid_shortstatehash: self.roomid_shortstatehash@,
            shorteventid_shortstatehash: self.shorteventid_shortstatehash@,
        }
    }
}

impl Service {
    /// A service that has seen no event.
    pub fn new() -> (s: Service)
        ensures
            s@ == empty_service(),
    {
        Service {
            globals: Globals::new(),
            short: ShortIds::new(),
            state_compressor: StateCompressor::new(),
            timeline: Timeline::new(),
            roomid_shortstatehash: Tree::new(),
            shorteventid_shortstatehash: Tree::new(),
        }
    }

    /// The snapshot that the room points to, if it has one.
    pub fn get_room_shortstatehash(&self, room_id: &str) -> (r: Result<Option<u64>>)
        ensures
            match r {
                Ok(h) => spec_room_shortstatehash(self@.roomid_shortstatehash, room_id@) == Ok::<
                    Option<u64>,
                    ErrorKind,
                >(h),
                Err(e) => spec_room_shortstatehash(self@.roomid_shortstatehash, room_id@) == Err::<
                    Option<u64>,
                    ErrorKind,
                >(e.kind()),
            },
    {
        match self.roomid_shortstatehash.get(room_id.as_bytes()) {
            None => Ok(None),
            Some(bytes) => match u64_from_be_bytes(bytes.as_slice()) {
                Some(h) => Ok(Some(h)),
                None => Err(Error::BadDatabase("Invalid shortstatehash in roomid_shortstatehash")),
            },
        }
    }

    /// Points the room to the snapshot `shortstatehash`.
    pub fn set_room_state(&mut self, room_id: &str, shortstatehash: u64) -> (r: Result<()>)
        ensures
            r is Ok,
            final(self)@ == spec_set_room_state(old(self)@, room_id@, shortstatehash),
    {
        self.roomid_shortstatehash.insert(room_id.as_bytes(), u64_to_be_bytes(shortstatehash).as_slice());
        Ok(())
    }

    /// The id of the event that the snapshot `shortstatehash` holds for a
    /// pair of event type and state key.
    pub fn state_get_id(&self, shortstatehash: u64, event_type: &str, state_key: &str) -> (r: Result<
        Option<String>,
    >)
        ensures
            match r {
                Ok(id) => spec_state_get_id(self@, shortstatehash, event_type@, state_key@) == Ok::<
                    Option<Seq<char>>,
                    ErrorKind,
                >(option_view(id)),
                Err(e) => spec_state_get_id(self@, shortstatehash, event_type@, state_key@) == Err::<
                    Option<Seq<char>>,
                    ErrorKind,
                >(e.kind()),
            },
    {
        let shortstatekey = match self.short.get_shortstatekey(event_type, state_key) {
            Ok(Some(k)) => k,
            Ok(None) => {
                return Ok(None);
            },
            Err(e) => {
                return Err(e);
            },
        };
        let chain = match self.state_compressor.load_shortstatehash_info(shortstatehash) {
            Ok(chain) => chain,
            Err(e) => {
                return Err(e);
            },
        };
        let last = &chain[chain.len() - 1];
        assert(infos_of(chain@).last() == last@);
        match last.full.find_by_shortstatekey(shortstatekey) {
            None => Ok(None),
            Some(blob) => {
                let shorteventid = match parse_compressed_state_event(blob.as_slice()) {
                    Ok((_, shorteventid)) => shorteventid,
                    Err(e) => {
                        return Err(e);
                    },
                };
                match self.short.get_eventid_from_short(shorteventid) {
                    Ok(event_id) => Ok(Some(event_id)),
                    Err(e) => Err(e),
                }
            },
        }
    }

    /// The id of the event that the current state of the room holds for a
    /// pair of event type and state key.
    pub fn room_state_get_id(&self, room_id: &str, event_type: &str, state_key: &str) -> (r: Result<
        Option<String>,
    >)
        ensures
            match r {
                Ok(id) => spec_room_state_get_id(self@, room_id@, event_type@, state_key@) == Ok::<
                    Option<Seq<char>>,
                    ErrorKind,
                >(option_view(id)),
                Err(e) => spec_room_state_get_id(self@, room_id@, event_type@, state_key@) == Err::<
                    Option<Seq<char>>,
                    ErrorKind,
                >(e.kind()),
            },
    {
        match self.get_room_shortstatehash(room_id) {
            Ok(Some(h)) => self.state_get_id(h, event_type, state_key),
            Ok(None) => Ok(None),
            Err(e) => Err(e),
        }
    }

    /// The event that the current state of the room holds for a pair of
    /// event type and state key.
    pub fn room_state_get(&self, room_id: &str, event_type: &str, state_key: &str) -> (r: Result<
        Option<PduEvent>,
    >)
        ensures
            match r {
                Ok(Some(pdu)) => spec_room_state_get(self@, room_id@, event_type@, state_key@) == Ok::<
                    Option<PduView>,
                    ErrorKind,
                >(Some(pdu@)),
                Ok(None) => spec_room_state_get(self@, room_id@, event_type@, state_key@) == Ok::<
                    Option<PduView>,
                    ErrorKind,
                >(None),
                Err(e) => spec_room_state_get(self@, room_id@, event_type@, state_key@) == Err::<
                    Option<PduView>,
                    ErrorKind,
                >(e.kind()),
            },
    {
        match self.room_state_get_id(room_id, event_type, state_key) {
            Ok(Some(event_id)) => match self.timeline.get_pdu(event_id.as_str()) {
                Some(pdu) => Ok(Some(pdu.clone())),
                None => Ok(None),
            },
            Ok(None) => Ok(None),
            Err(e) => Err(e),
        }
    }

    /// Takes a new event into the state of its room and gives the snapshot
    /// of the room after the event.
    ///
    /// The event gets its short id and is linked to the snapshot that the
    /// room points to, the state before the event. For a state event a new
    /// snapshot is saved, which holds the event in place of the one that had
    /// its type and state key; where the room's state holds the very event
    /// already, the room's snapshot is the answer and none is saved. For any
    /// other event the room's snapshot is the answer; where the room has
    /// none, such an event is refused. The room's pointer is left as it is.
    pub fn append_to_state(&mut self, new_pdu: &PduEvent) -> (r: Result<u64>)
        ensures
            final(self)@ == spec_append_to_state(old(self)@, new_pdu@).1,
            match r {
                Ok(h) => spec_append_to_state(old(self)@, new_pdu@).0 == Ok::<u64, ErrorKind>(h),
                Err(e) => spec_append_to_state(old(self)@, new_pdu@).0 == Err::<u64, ErrorKind>(e.kind()),
            },
    {
        let shorteventid = match self.short.get_or_create_shorteventid(
            new_pdu.event_id.as_str(),
            &mut self.globals,
        ) {
            Ok(id) => id,
            Err(e) => {
                return Err(e);
            },
        };
        let previous_shortstatehash = match self.get_room_shortstatehash(new_pdu.room_id.as_str()) {
            Ok(p) => p,
            Err(e) => {
                return Err(e);
            },
        };
        if let Some(p) = previous_shortstatehash {
            self.shorteventid_shortstatehash.insert(
                u64_to_be_bytes(shorteventid).as_slice(),
                u64_to_be_bytes(p).as_slice(),
            );
        }
        assert(self@ == spec_link(old(self)@, new_pdu@).1);
        let state_key = match &new_pdu.state_key {
            Some(state_key) => state_key,
            None => {
                return match previous_shortstatehash {
                    Some(p) => Ok(p),
                    None => Err(Error::BadRequest("First event in room must be a state event.")),
                };
            },
        };
        let ghost linked = self@;
        let states_parents: Vec<StateInfo> = match previous_shortstatehash {
            Some(p) => match self.state_compressor.load_shortstatehash_info(p) {
                Ok(chain) => chain,
                Err(e) => {
                    return Err(e);
                },
            },
            None => Vec::new(),
        };
        assert(spec_parents(linked.snapshots, previous_shortstatehash) == Some(infos_of(states_parents@))) by {
            if previous_shortstatehash is None {
                assert(infos_of(states_parents@) =~= Seq::<InfoView>::empty());
            }
        }
        let shortstatekey = match self.short.get_or_create_shortstatekey(
            new_pdu.kind.as_str(),
            state_key.as_str(),
            &mut self.globals,
        ) {
            Ok(k) => k,
            Err(e) => {
                return Err(e);
            },
        };
        let new = compress_state_event(shortstatekey, shorteventid);
        let ghost replaced = spec_replaces(infos_of(states_parents@), shortstatekey);
        let mut statediffremoved = StateSet::new();
        if let Some(p) = previous_shortstatehash {
            let n = states_parents.len();
            assert(infos_of(states_parents@).last() == states_parents@[n - 1]@);
            if let Some(old_blob) = states_parents[n - 1].full.find_by_shortstatekey(shortstatekey) {
                if bytes_eq(new.as_slice(), old_blob.as_slice()) {
                    return Ok(p);
                }
                statediffremoved.insert(old_blob);
            }
        }
        assert(statediffremoved@ =~= option_set(replaced));
        let shortstatehash = match self.globals.next_count() {
            Ok(h) => h,
            Err(e) => {
                return Err(e);
            },
        };
        let mut statediffnew = StateSet::new();
        statediffnew.insert(new);
        assert(statediffnew@ =~= Set::<Seq<u8>>::empty().insert(new@));
        match self.state_compressor.save_state_from_diff(
            shortstatehash,
            statediffnew,
            statediffremoved,
            2,
            states_parents,
        ) {
            Ok(()) => Ok(shortstatehash),
            Err(e) => Err(e),
        }
    }

    /// Links an event to the state of the room after it, which is known
    /// whole. The state is found again by the hash of its blobs; where it is
    /// new, a snapshot is saved for it on top of the room's snapshot. The
    /// event is linked once the snapshot is there.
    pub fn set_event_state(&mut self, event_id: &str, room_id: &str, state_ids_compressed: StateSet) -> (r: Result<
        (),
    >)
        ensures
            final(self)@ == spec_set_event_state(old(self)@, event_id@, room_id@, state_ids_compressed@).1,
            match r {
                Ok(_) => spec_set_event_state(old(self)@, event_id@, room_id@, state_ids_compressed@).0 is Ok,
                Err(e) => spec_set_event_state(old(self)@, event_id@, room_id@, state_ids_compressed@).0 == Err::<
                    (),
                    ErrorKind,
                >(e.kind()),
            },
    {
        let shorteventid = match self.short.get_or_create_shorteventid(event_id, &mut self.globals) {
            Ok(id) => id,
            Err(e) => {
                return Err(e);
            },
        };
        let previous_shortstatehash = match self.get_room_shortstatehash(room_id) {
            Ok(p) => p,
            Err(e) => {
                return Err(e);
            },
        };
        let state_hash = calculate_hash(&state_ids_compressed);
        let (shortstatehash, already_existed) = match self.short.get_or_create_shortstatehash(
            state_hash.as_slice(),
            &mut self.globals,
        ) {
            Ok(found) => found,
            Err(e) => {
                return Err(e);
            },
        };
        if !already_existed {
            let ghost before = self@;
            let states_parents: Vec<StateInfo> = match previous_shortstatehash {
                Some(p) => match self.state_compressor.load_shortstatehash_info(p) {
                    Ok(chain) => chain,
                    Err(e) => {
                        return Err(e);
                    },
                },
                None => Vec::new(),
            };
            assert(spec_parents(before.snapshots, previous_shortstatehash) == Some(infos_of(states_parents@))) by {
                if previous_shortstatehash is None {
                    assert(infos_of(states_parents@) =~= Seq::<InfoView>::empty());
                }
            }
            let n = states_parents.len();
            let (statediffnew, statediffremoved) = if n > 0 {
                assert(infos_of(states_parents@).last() == states_parents@[n - 1]@);
                let parent_full = &states_parents[n - 1].full;
                (state_ids_compressed.difference(parent_full), parent_full.difference(&state_ids_compressed))
            } else {
                (state_ids_compressed, StateSet::new())
            };
            match self.state_compressor.save_state_from_diff(
                shortstatehash,
                statediffnew,
                statediffremoved,
                1_000_000,
                states_parents,
            ) {
                Ok(()) => {},
                Err(e) => {
                    return Err(e);
                },
            }
        }
        self.shorteventid_shortstatehash.insert(
            u64_to_be_bytes(shorteventid).as_slice(),
            u64_to_be_bytes(shortstatehash).as_slice(),
        );
        Ok(())
    }

    /// The notice that one added blob gives rise to.
    fn membership_update_for(&self, room_id: &str, blob: &[u8; 16]) -> (r: Option<MembershipUpdate>)
        ensures
            match r {
                Some(u) => spec_membership_update(self@, room_id@, blob@) == Some(u@),
                None => spec_membership_update(self@, room_id@, blob@).is_none(),
            },
    {
        let shorteventid = match parse_compressed_state_event(blob.as_slice()) {
            Ok((_, shorteventid)) => shorteventid,
            Err(_) => {
                return None;
            },
        };
        let event_id = match self.short.get_eventid_from_short(shorteventid) {
            Ok(event_id) => event_id,
            Err(_) => {
                return None;
            },
        };
        let pdu = match self.timeline.get_pdu(event_id.as_str()) {
            Some(pdu) => pdu,
            None => {
                return None;
            },
        };
        if !str_eq(pdu.kind.as_str(), "m.room.member") {
            return None;
        }
        let membership = read_string_field(pdu.content.as_str(), "membership");
        let user_ok = match &pdu.state_key {
            Some(user) => check_user_id(user.as_str()),
            None => false,
        };
        membership_update(room_id, pdu, membership, user_ok)
    }

    /// The notices that the membership cache is owed for the blobs that a
    /// snapshot adds, in the byte order of the blobs. A blob gives no notice
    /// where its event cannot be found, is no membership event, or names no
    /// membership or no user.
    pub fn membership_updates(&self, room_id: &str, statediffnew: &StateSet) -> (updates: Vec<MembershipUpdate>)
        ensures
            updates_of(updates@) == spec_updates(self@, room_id@, sorted_blobs(statediffnew@)),
    {
        let blobs = statediffnew.to_vec();
        let ghost all = blobs_of(blobs@);
        proof {
            crate::state_set::lemma_lists_set_unique(all, sorted_blobs(statediffnew@), statediffnew@);
        }
        let mut updates: Vec<MembershipUpdate> = Vec::new();
        let mut i: usize = 0;
        assert(updates_of(updates@) =~= spec_updates(self@, room_id@, all.take(0)));
        while i < blobs.len()
            invariant
                i <= blobs@.len(),
                all == blobs_of(blobs@),
                updates_of(updates@) == spec_updates(self@, room_id@, all.take(i as int)),
            decreases blobs@.len() - i,
        {
            let ghost before = updates_of(updates@);
            proof {
                assert(all.take(i + 1).drop_last() =~= all.take(i as int));
                assert(all.take(i + 1).last() == blobs@[i as int]@);
            }
            match self.membership_update_for(room_id, &blobs[i]) {
                Some(update) => {
                    updates.push(update);
                    assert(updates_of(updates@) =~= before.push(update@));
                },
                None => {},
            }
            i += 1;
        }
        assert(all.take(i as int) =~= all);
        updates
    }

    /// Points the room to the snapshot `shortstatehash` and gives the
    /// notices that the membership cache is owed for the blobs that the
    /// snapshot adds.
    pub fn force_state(
        &mut self,
        room_id: &str,
        shortstatehash: u64,
        statediffnew: StateSet,
        statediffremoved: StateSet,
    ) -> (updates: Vec<MembershipUpdate>)
        ensures
            updates_of(updates@) == spec_updates(old(self)@, room_id@, sorted_blobs(statediffnew@)),
            final(self)@ == spec_set_room_state(old(self)@, room_id@, shortstatehash),
    {
        let updates = self.membership_updates(room_id, &statediffnew);
        let _ = self.set_room_state(room_id, shortstatehash);
        updates
    }

    /// Adds the stripped form of one state event of the room to `state`, where the room has it.
    fn push_state(&self, state: &mut Vec<StrippedStateEvent>, room_id: &str, event_type: &str, state_key: &str) -> (r:
        Result<()>)
        ensures
            match r {
                Ok(_) => spec_with_state(
                    self@,
                    room_id@,
                    event_type@,
                    state_key@,
                    Ok(stripped_of(old(state)@)),
                ) == Ok::<Seq<StrippedView>, ErrorKind>(stripped_of(final(state)@)),
                Err(e) => spec_with_state(
                    self@,
                    room_id@,
                    event_type@,
                    state_key@,
                    Ok(stripped_of(old(state)@)),
                ) == Err::<Seq<StrippedView>, ErrorKind>(e.kind()),
            },
    {
        match self.room_state_get(room_id, event_type, state_key) {
            Ok(Some(pdu)) => {
                let stripped = pdu.to_stripped_state_event();
                state.push(stripped);
                assert(stripped_of(state@) =~= stripped_of(old(state)@).push(spec_stripped(pdu@)));
                Ok(())
            },
            Ok(None) => Ok(()),
            Err(e) => Err(e),
        }
    }

    /// What an invited user is shown of the room: the stripped forms of the
    /// room's create event, join rules, canonical alias, avatar and name and
    /// of the membership event of the inviting user, those of them that the
    /// room has, in this order, and then the stripped invite itself.
    pub fn calculate_invite_state(&self, invite_event: &PduEvent) -> (r: Result<Vec<StrippedStateEvent>>)
        ensures
            match r {
                Ok(state) => spec_invite_state(self@, invite_event@) == Ok::<Seq<StrippedView>, ErrorKind>(
                    stripped_of(state@),
                ),
                Err(e) => spec_invite_state(self@, invite_event@) == Err::<Seq<StrippedView>, ErrorKind>(e.kind()),
            },
    {
        let room_id = invite_event.room_id.as_str();
        let mut state: Vec<StrippedStateEvent> = Vec::new();
        assert(stripped_of(state@) =~= Seq::<StrippedView>::empty());
        match self.push_state(&mut state, room_id, "m.room.create", "") {
            Ok(()) => {},
            Err(e) => {
                return Err(e);
            },
        }
        match self.push_state(&mut state, room_id, "m.room.join_rules", "") {
            Ok(()) => {},
            Err(e) => {
                return Err(e);
            },
        }
        match self.push_state(&mut state, room_id, "m.room.canonical_alias", "") {
            Ok(()) => {},
            Err(e) => {
                return Err(e);
            },
        }
        match self.push_state(&mut state, room_id, "m.room.avatar", "") {
            Ok(()) => {},
            Err(e) => {
                return Err(e);
            },
        }
        match self.push_state(&mut state, room_id, "m.room.name", "") {
            Ok(()) => {},
            Err(e) => {
                return Err(e);
            },
        }
        match self.push_state(&mut state, room_id, "m.room.member", invite_event.sender.as_str()) {
            Ok(()) => {},
            Err(e) => {
                return Err(e);
            },
        }
        let ghost before = stripped_of(state@);
        state.push(invite_event.to_stripped_state_event());
        assert(stripped_of(state@) =~= before.push(spec_stripped(invite_event@)));
        Ok(state)
    }

    /// The version of the room: what the content of its create event states.
    pub fn get_room_version(&self, room_id: &str) -> (r: Result<String>)
        ensures
            match r {
                Ok(v) => spec_room_version(self@, room_id@) == Ok::<Seq<char>, ErrorKind>(v@),
                Err(e) => spec_room_version(self@, room_id@) == Err::<Seq<char>, ErrorKind>(e.kind()),
            },
    {
        let create_event = match self.room_state_get(room_id, "m.room.create", "") {
            Ok(pdu) => pdu,
            Err(e) => {
                return Err(e);
            },
        };
        let version = match &create_event {
            Some(pdu) => read_create_room_version(pdu.content.as_str()),
            None => None,
        };
        version_of(create_event.as_ref(), version)
    }
}

} // verus!
