//! What holds of the state service as a whole.

use crate::bytes::{has_prefix, lemma_u64_be_roundtrip, spec_u64_to_be_bytes};
use crate::digest::spec_state_hash;
use crate::error::ErrorKind;
use crate::globals::{lemma_counted, spec_current_count, spec_next_count};
use crate::pdu::{spec_get_pdu, PduView};
use crate::short::{
    spec_after_shorteventid, spec_counter_after_shorteventid, spec_counter_after_shortstatekey,
    spec_shortstatehash, lemma_forward_wf_monotone, lemma_resolve, short_wf, spec_counter_after,
    spec_eventid_from_short, spec_forward_after, spec_short, spec_shorteventid, spec_shortstatekey,
    state_key_bytes, type_valid,
};
use crate::state::{
    option_set, spec_save_whole, spec_set_event_state, spec_append_to_state, spec_link, spec_parents, spec_replaces,
    spec_room_shortstatehash, spec_room_state_get, spec_set_room_state, spec_state_get_id,
    lemma_set_room_state, ServiceView,
};
use crate::state_compressor::{
    blob_set, depth_bounded, lemma_chain_sets, lemma_chain_shape, lemma_parse_compress, lemma_save_state_from_diff,
    spec_chain, spec_compress, spec_flatten, spec_new_full, spec_save_ok, tip, Db,
};
use crate::state_set::{first_with_key, lemma_first_with_key, lemma_only_with_key};
use vstd::prelude::*;
use vstd::utf8::{encode_utf8, encode_utf8_decode_utf8, encode_utf8_valid_utf8};

verus! {

/// No two blobs of the state have the same short state key.
pub open spec fn unique_keys(state: Set<Seq<u8>>) -> bool {
    forall|a: Seq<u8>, b: Seq<u8>|
        #![trigger a.take(8), b.take(8)]
        state.contains(a) && state.contains(b) && a.take(8) == b.take(8) ==> a == b
}

/// The snapshot that the room points to, if it points to one, can be
/// loaded, and its state holds at most one event for each state key.
pub open spec fn room_state_wf(s: ServiceView, room_id: Seq<char>) -> bool {
    match spec_room_shortstatehash(s.roomid_shortstatehash, room_id) {
        Ok(Some(p)) => match spec_chain(s.snapshots, p) {
            Some(c) => unique_keys(c.last().full),
            None => false,
        },
        _ => true,
    }
}

/// Appending a state event that is already the room's event for its type
/// and state key gives the room's snapshot and writes no snapshot: the
/// registry, the counter and the snapshot records stay as they are.
pub proof fn lemma_redundant_append(s: ServiceView, pdu: PduView, previous: u64, shorteventid: u64, shortstatekey: u64)
    requires
        pdu.state_key is Some,
        pdu.event_id.len() > 0,
        type_valid(pdu.kind),
        spec_short(s.short.eventid_shorteventid, encode_utf8(pdu.event_id)) == Some(shorteventid),
        spec_short(s.short.statekey_shortstatekey, state_key_bytes(pdu.kind, pdu.state_key.unwrap())) == Some(
            shortstatekey,
        ),
        spec_room_shortstatehash(s.roomid_shortstatehash, pdu.room_id) == Ok::<Option<u64>, ErrorKind>(
            Some(previous),
        ),
        spec_chain(s.snapshots, previous) matches Some(c) && first_with_key(c.last().full, shortstatekey) == Some(
            spec_compress(shortstatekey, shorteventid),
        ),
    ensures
        spec_append_to_state(s, pdu).0 == Ok::<u64, ErrorKind>(previous),
        spec_append_to_state(s, pdu).1.snapshots == s.snapshots,
        spec_append_to_state(s, pdu).1.globals == s.globals,
        spec_append_to_state(s, pdu).1.short == s.short,
        spec_append_to_state(s, pdu).1.roomid_shortstatehash == s.roomid_shortstatehash,
{
    let (linked, linked_state) = spec_link(s, pdu);
    assert(linked == Ok::<(u64, Option<u64>), ErrorKind>((shorteventid, Some(previous))));
    assert(linked_state.short == s.short);
    let c = spec_chain(s.snapshots, previous).unwrap();
    lemma_chain_shape(s.snapshots, previous);
    assert(spec_parents(linked_state.snapshots, Some(previous)) == Some(c));
    assert(tip(c) == Some(c.last()));
}

/// What appending a state event leaves behind. Where the registry is
/// well-formed and the room's state held at most one event for each state
/// key, after the event was appended the event and its state key have their
/// numbers, the event id is found again by its number, the snapshot that
/// was given can be loaded, its state still holds at most one event for
/// each state key, and the event is the one it holds for the event's state
/// key. The registry is still well-formed; the room's pointer and the
/// stored events are as they were.
pub proof fn lemma_append_state_event(s: ServiceView, pdu: PduView)
    requires
        pdu.state_key is Some,
        spec_append_to_state(s, pdu).0 is Ok,
        short_wf(s.short, s.globals),
        room_state_wf(s, pdu.room_id),
    ensures
        ({
            let (r, after) = spec_append_to_state(s, pdu);
            let h = r.unwrap();
            let shorteventid = spec_short(after.short.eventid_shorteventid, encode_utf8(pdu.event_id));
            let shortstatekey = spec_short(
                after.short.statekey_shortstatekey,
                state_key_bytes(pdu.kind, pdu.state_key.unwrap()),
            );
            let chain = spec_chain(after.snapshots, h);
            &&& pdu.event_id.len() > 0
            &&& type_valid(pdu.kind)
            &&& after.timeline == s.timeline
            &&& after.roomid_shortstatehash == s.roomid_shortstatehash
            &&& short_wf(after.short, after.globals)
            &&& shorteventid is Some
            &&& shortstatekey is Some
            &&& spec_eventid_from_short(after.short, shorteventid.unwrap()) == Some(pdu.event_id)
            &&& chain is Some
            &&& unique_keys(chain.unwrap().last().full)
            &&& first_with_key(chain.unwrap().last().full, shortstatekey.unwrap()) == Some(
                spec_compress(shortstatekey.unwrap(), shorteventid.unwrap()),
            )
        }),
{
    let (linked, linked_state) = spec_link(s, pdu);
    let (sev, previous) = linked.unwrap();
    let ekey = encode_utf8(pdu.event_id);
    let c0 = spec_current_count(s.globals).unwrap();
    lemma_resolve(s.short.eventid_shorteventid, s.short.shorteventid_eventid, s.globals, ekey);
    let c1 = spec_current_count(linked_state.globals).unwrap();
    lemma_forward_wf_monotone(s.short.statekey_shortstatekey, c0, c1);
    lemma_forward_wf_monotone(s.short.statehash_shortstatehash, c0, c1);
    assert(short_wf(linked_state.short, linked_state.globals));
    encode_utf8_valid_utf8(pdu.event_id);
    encode_utf8_decode_utf8(pdu.event_id);
    lemma_u64_be_roundtrip(sev);
    assert(spec_eventid_from_short(linked_state.short, sev) == Some(pdu.event_id));

    let state_key = pdu.state_key.unwrap();
    let skey = state_key_bytes(pdu.kind, state_key);
    let chain = spec_parents(linked_state.snapshots, previous).unwrap();
    lemma_resolve(linked_state.short.statekey_shortstatekey, linked_state.short.shortstatekey_statekey, linked_state.globals, skey);
    let sk = spec_shortstatekey(linked_state.short, linked_state.globals, pdu.kind, state_key).unwrap().0;
    let g3 = spec_counter_after(linked_state.short.statekey_shortstatekey, linked_state.globals, skey);
    let c3 = spec_current_count(g3).unwrap();
    lemma_forward_wf_monotone(linked_state.short.eventid_shorteventid, c1, c3);
    lemma_forward_wf_monotone(linked_state.short.statehash_shortstatehash, c1, c3);
    let new = spec_compress(sk, sev);
    lemma_parse_compress(sk, sev);
    lemma_u64_be_roundtrip(sk);
    let replaces = spec_replaces(chain, sk);
    match previous {
        Some(p) => {
            lemma_chain_shape(s.snapshots, p);
            lemma_chain_sets(s.snapshots, p);
            assert(blob_set(chain[chain.len() - 1].full));
            lemma_first_with_key(chain.last().full, sk);
        },
        None => {},
    }
    if replaces != Some(new) {
        let h = spec_next_count(g3).unwrap();
        lemma_counted(g3, h);
        lemma_forward_wf_monotone(linked_state.short.eventid_shorteventid, c3, h);
        lemma_forward_wf_monotone(linked_state.short.statehash_shortstatehash, c3, h);
        lemma_forward_wf_monotone(spec_forward_after(linked_state.short.statekey_shortstatekey, linked_state.globals, skey), c3, h);
        let added = Set::<Seq<u8>>::empty().insert(new);
        let removed = option_set(replaces);
        lemma_save_state_from_diff(linked_state.snapshots, h, added, removed, 2, chain);
        let full = spec_new_full(added, removed, tip(chain));
        let p = spec_u64_to_be_bytes(sk);
        assert(new.take(8) == p);
        assert forall|c: Seq<u8>| full.contains(c) && has_prefix(c, p) implies c == new by {
            if c != new {
                let base = chain.last().full;
                assert(base.contains(c));
                let old_blob = replaces.unwrap();
                assert(old_blob.take(8) == p);
                assert(c.take(8) == p);
            }
        }
        assert(full.finite()) by {
            if chain.len() > 0 {
                assert(chain.last().full.difference(removed).finite());
            }
        }
        lemma_only_with_key(full, sk, new);
        assert forall|a: Seq<u8>, b: Seq<u8>|
            #![trigger a.take(8), b.take(8)]
            full.contains(a) && full.contains(b) && a.take(8) == b.take(8) implies a == b by {
            if a == new {
                assert(has_prefix(b, p));
            } else if b == new {
                assert(has_prefix(a, p));
            }
        }
    }
}

/// After a state event was appended and the room was pointed to the
/// snapshot that was given, the event is the room's event for its type and
/// state key. This holds where the registry is well-formed, the room's
/// state held at most one event for each state key, and the event is stored
/// under its id.
pub proof fn lemma_appended_event_is_current(s: ServiceView, pdu: PduView)
    requires
        pdu.state_key is Some,
        spec_append_to_state(s, pdu).0 is Ok,
        short_wf(s.short, s.globals),
        room_state_wf(s, pdu.room_id),
        spec_get_pdu(s.timeline, pdu.event_id) == Some(pdu),
    ensures
        ({
            let (r, after) = spec_append_to_state(s, pdu);
            let pointed = spec_set_room_state(after, pdu.room_id, r.unwrap());
            &&& spec_room_state_get(pointed, pdu.room_id, pdu.kind, pdu.state_key.unwrap()) == Ok::<
                Option<PduView>,
                ErrorKind,
            >(Some(pdu))
            &&& room_state_wf(pointed, pdu.room_id)
            &&& short_wf(pointed.short, pointed.globals)
        }),
{
    let (r, after) = spec_append_to_state(s, pdu);
    let h = r.unwrap();
    let pointed = spec_set_room_state(after, pdu.room_id, h);
    lemma_append_state_event(s, pdu);
    lemma_set_room_state(after, pdu.room_id, h);
    let sev = spec_short(after.short.eventid_shorteventid, encode_utf8(pdu.event_id)).unwrap();
    let sk = spec_short(after.short.statekey_shortstatekey, state_key_bytes(pdu.kind, pdu.state_key.unwrap())).unwrap();
    lemma_parse_compress(sk, sev);
    assert(spec_state_get_id(pointed, h, pdu.kind, pdu.state_key.unwrap()) == Ok::<Option<Seq<char>>, ErrorKind>(
        Some(pdu.event_id),
    ));
}

/// Appending the same state event once more, after the room was pointed to
/// the snapshot that the first time gave, gives that snapshot again and
/// writes no snapshot.
pub proof fn lemma_append_twice(s: ServiceView, pdu: PduView)
    requires
        pdu.state_key is Some,
        spec_append_to_state(s, pdu).0 is Ok,
        short_wf(s.short, s.globals),
        room_state_wf(s, pdu.room_id),
    ensures
        ({
            let (r, after) = spec_append_to_state(s, pdu);
            let pointed = spec_set_room_state(after, pdu.room_id, r.unwrap());
            let (again, last) = spec_append_to_state(pointed, pdu);
            &&& again == r
            &&& last.snapshots == pointed.snapshots
            &&& last.globals == pointed.globals
            &&& last.short == pointed.short
        }),
{
    let (r, after) = spec_append_to_state(s, pdu);
    let h = r.unwrap();
    let pointed = spec_set_room_state(after, pdu.room_id, h);
    lemma_append_state_event(s, pdu);
    lemma_set_room_state(after, pdu.room_id, h);
    let sev = spec_short(after.short.eventid_shorteventid, encode_utf8(pdu.event_id)).unwrap();
    let sk = spec_short(after.short.statekey_shortstatekey, state_key_bytes(pdu.kind, pdu.state_key.unwrap())).unwrap();
    lemma_redundant_append(pointed, pdu, h, sev, sk);
}

/// The snapshot that is saved for a state known whole stands for that
/// state, whatever the room's state was.
pub proof fn lemma_save_whole(snapshots: Db, shortstatehash: u64, state: Set<Seq<u8>>, previous: Option<u64>)
    requires
        blob_set(state),
        spec_save_whole(snapshots, shortstatehash, state, previous).0 is Ok,
    ensures
        spec_flatten(spec_save_whole(snapshots, shortstatehash, state, previous).1, shortstatehash) == Some(state),
{
    let chain = spec_parents(snapshots, previous).unwrap();
    match previous {
        Some(p) => {
            lemma_chain_shape(snapshots, p);
            lemma_chain_sets(snapshots, p);
            assert(blob_set(chain[chain.len() - 1].full));
        },
        None => {},
    }
    let added = match tip(chain) {
        Some(t) => state.difference(t.full),
        None => state,
    };
    let removed = match tip(chain) {
        Some(t) => t.full.difference(state),
        None => Set::empty(),
    };
    lemma_save_state_from_diff(snapshots, shortstatehash, added, removed, 1_000_000, chain);
    assert(spec_new_full(added, removed, tip(chain)) =~= state);
}

/// Appending an event never makes a record deeper than the threshold:
/// where no stored record was, none is afterwards, so that every state is
/// rebuilt from a flat record and at most `DEPTH_THRESHOLD` diffs.
pub proof fn lemma_append_keeps_depth_bounded(s: ServiceView, pdu: PduView)
    requires
        depth_bounded(s.snapshots),
    ensures
        depth_bounded(spec_append_to_state(s, pdu).1.snapshots),
{
    let (linked, linked_state) = spec_link(s, pdu);
    if linked is Ok && pdu.state_key is Some {
        let (sev, previous) = linked.unwrap();
        let state_key = pdu.state_key.unwrap();
        if spec_parents(linked_state.snapshots, previous) is Some && spec_shortstatekey(
            linked_state.short,
            linked_state.globals,
            pdu.kind,
            state_key,
        ) is Some {
            let chain = spec_parents(linked_state.snapshots, previous).unwrap();
            let sk = spec_shortstatekey(linked_state.short, linked_state.globals, pdu.kind, state_key).unwrap().0;
            let new = spec_compress(sk, sev);
            lemma_parse_compress(sk, sev);
            let replaces = spec_replaces(chain, sk);
            match previous {
                Some(p) => {
                    lemma_chain_shape(s.snapshots, p);
                    lemma_chain_sets(s.snapshots, p);
                    assert(blob_set(chain[chain.len() - 1].full));
                    lemma_first_with_key(chain.last().full, sk);
                },
                None => {},
            }
            let g3 = spec_counter_after_shortstatekey(linked_state.short, linked_state.globals, pdu.kind, state_key);
            if replaces != Some(new) && spec_next_count(g3) is Some {
                let h = spec_next_count(g3).unwrap();
                let added = Set::<Seq<u8>>::empty().insert(new);
                let removed = option_set(replaces);
                if spec_save_ok(linked_state.snapshots, h, added, removed, 2, tip(chain)) {
                    lemma_save_state_from_diff(linked_state.snapshots, h, added, removed, 2, chain);
                }
            }
        }
    }
}

/// Setting the state of an event never makes a record deeper than the threshold.
pub proof fn lemma_set_event_state_keeps_depth_bounded(
    s: ServiceView,
    event_id: Seq<char>,
    room_id: Seq<char>,
    state: Set<Seq<u8>>,
)
    requires
        depth_bounded(s.snapshots),
        blob_set(state),
    ensures
        depth_bounded(spec_set_event_state(s, event_id, room_id, state).1.snapshots),
{
    if spec_shorteventid(s.short, s.globals, event_id) is Some {
        let previous = spec_room_shortstatehash(s.roomid_shortstatehash, room_id);
        if previous is Ok {
            let named_short = spec_after_shorteventid(s.short, s.globals, event_id);
            let named_globals = spec_counter_after_shorteventid(s.short, s.globals, event_id);
            let hash = spec_state_hash(state);
            let found = spec_shortstatehash(named_short, named_globals, hash);
            if found is Some && !found.unwrap().1 {
                let h = found.unwrap().0;
                let parents = spec_parents(s.snapshots, previous.unwrap());
                if parents is Some {
                    let chain = parents.unwrap();
                    match previous.unwrap() {
                        Some(p) => {
                            lemma_chain_shape(s.snapshots, p);
                            lemma_chain_sets(s.snapshots, p);
                            assert(blob_set(chain[chain.len() - 1].full));
                        },
                        None => {},
                    }
                    let added = match tip(chain) {
                        Some(t) => state.difference(t.full),
                        None => state,
                    };
                    let removed = match tip(chain) {
                        Some(t) => t.full.difference(state),
                        None => Set::empty(),
                    };
                    if spec_save_ok(s.snapshots, h, added, removed, 1_000_000, tip(chain)) {
                        lemma_save_state_from_diff(s.snapshots, h, added, removed, 1_000_000, chain);
                    }
                }
            }
        }
    }
}

} // verus!
