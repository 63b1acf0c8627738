//! The registry of short identifiers.
//!
//! An event id, a pair of event type and state key, and a state hash each
//! get a number from the server-wide counter the first time they are seen,
//! and keep it. Event ids and state keys can be found again by their number.

use crate::bytes::{
    lemma_u64_be_bytes_roundtrip, lemma_u64_be_roundtrip, spec_u64_from_be_bytes, spec_u64_to_be_bytes,
    string_from_bytes, u64_from_be_bytes, u64_to_be_bytes,
};
use crate::error::{Error, Result};
use crate::globals::{lemma_counted, spec_counted, spec_current_count, spec_next_count, Globals};
use crate::state_compressor::Db;
use crate::state_set::push_bytes;
use crate::tree::Tree;
use vstd::prelude::*;
use vstd::utf8::{
    decode_utf8, encode_utf8, encode_utf8_decode_utf8, is_ascii_chars, is_ascii_chars_encode_utf8, valid_utf8,
};

verus! {

/// The number stored for `key`, where one is stored and is eight bytes.
pub open spec fn spec_short(forward: Db, key: Seq<u8>) -> Option<u64> {
    if forward.dom().contains(key) && forward[key].len() == 8 {
        Some(spec_u64_from_be_bytes(forward[key]))
    } else {
        None
    }
}

/// The number that `key` has or gets, and whether it had it already. There
/// is none where the stored number is unreadable, or where `key` is new and
/// the counter gives no number.
pub open spec fn spec_resolve(forward: Db, counter: Db, key: Seq<u8>) -> Option<(u64, bool)> {
    if forward.dom().contains(key) {
        match spec_short(forward, key) {
            Some(id) => Some((id, true)),
            None => None,
        }
    } else {
        match spec_next_count(counter) {
            Some(id) => Some((id, false)),
            None => None,
        }
    }
}

/// The numbers by key after `key` was resolved.
pub open spec fn spec_forward_after(forward: Db, counter: Db, key: Seq<u8>) -> Db {
    match spec_resolve(forward, counter, key) {
        Some((id, false)) => forward.insert(key, spec_u64_to_be_bytes(id)),
        _ => forward,
    }
}

/// The keys by number after `key` was resolved.
pub open spec fn spec_backward_after(forward: Db, backward: Db, counter: Db, key: Seq<u8>) -> Db {
    match spec_resolve(forward, counter, key) {
        Some((id, false)) => backward.insert(spec_u64_to_be_bytes(id), key),
        _ => backward,
    }
}

/// The counter after `key` was resolved.
pub open spec fn spec_counter_after(forward: Db, counter: Db, key: Seq<u8>) -> Db {
    match spec_resolve(forward, counter, key) {
        Some((id, false)) => spec_counted(counter, id),
        _ => counter,
    }
}

/// Every stored number is readable and was handed out by the counter, and
/// no number is stored for two keys.
pub open spec fn forward_wf(forward: Db, count: u64) -> bool {
    &&& forall|k: Seq<u8>| #[trigger]
        forward.dom().contains(k) ==> forward[k].len() == 8 && spec_u64_from_be_bytes(forward[k]) <= count
    &&& forall|k1: Seq<u8>, k2: Seq<u8>|
        #![trigger forward[k1], forward[k2]]
        forward.dom().contains(k1) && forward.dom().contains(k2) && forward[k1] == forward[k2] ==> k1 == k2
}

/// Each key can be found again by its number.
pub open spec fn inverse_of(forward: Db, backward: Db) -> bool {
    forall|k: Seq<u8>| #[trigger]
        forward.dom().contains(k) ==> backward.dom().contains(forward[k]) && backward[forward[k]] == k
}

/// Eight bytes are determined by the number they encode.
pub proof fn lemma_from_be_bytes_injective(a: Seq<u8>, b: Seq<u8>)
    requires
        a.len() == 8,
        b.len() == 8,
        spec_u64_from_be_bytes(a) == spec_u64_from_be_bytes(b),
    ensures
        a == b,
{
    lemma_u64_be_bytes_roundtrip(a);
    lemma_u64_be_bytes_roundtrip(b);
}

/// In a well-formed registry two different keys have different numbers.
pub proof fn lemma_distinct_keys_distinct_ids(forward: Db, count: u64, k1: Seq<u8>, k2: Seq<u8>)
    requires
        forward_wf(forward, count),
        forward.dom().contains(k1),
        forward.dom().contains(k2),
        k1 != k2,
    ensures
        spec_short(forward, k1).is_some(),
        spec_short(forward, k2).is_some(),
        spec_short(forward, k1) != spec_short(forward, k2),
{
    if spec_u64_from_be_bytes(forward[k1]) == spec_u64_from_be_bytes(forward[k2]) {
        lemma_from_be_bytes_injective(forward[k1], forward[k2]);
    }
}

/// A registry that is well-formed for a count is well-formed for every greater count.
pub proof fn lemma_forward_wf_monotone(forward: Db, count: u64, later: u64)
    requires
        forward_wf(forward, count),
        count <= later,
    ensures
        forward_wf(forward, later),
{
}

/// Resolving a key keeps a registry well-formed and every number in it
/// unchanged; the key then has its number for good: resolving it again
/// gives the same number and changes nothing.
pub proof fn lemma_resolve(forward: Db, backward: Db, counter: Db, key: Seq<u8>)
    requires
        spec_resolve(forward, counter, key).is_some(),
    ensures
        ({
            let id = spec_resolve(forward, counter, key).unwrap().0;
            let forward2 = spec_forward_after(forward, counter, key);
            let backward2 = spec_backward_after(forward, backward, counter, key);
            let counter2 = spec_counter_after(forward, counter, key);
            &&& spec_short(forward2, key) == Some(id)
            &&& spec_resolve(forward2, counter2, key) == Some((id, true))
            &&& spec_forward_after(forward2, counter2, key) == forward2
            &&& spec_backward_after(forward2, backward2, counter2, key) == backward2
            &&& spec_counter_after(forward2, counter2, key) == counter2
            &&& inverse_of(forward, backward) ==> backward2.dom().contains(spec_u64_to_be_bytes(id))
                && backward2[spec_u64_to_be_bytes(id)] == key
            &&& forall|k: Seq<u8>| forward.dom().contains(k) ==> forward2.dom().contains(k) && forward2[k] == forward[k]
            &&& spec_current_count(counter) matches Some(c) ==> {
                &&& spec_current_count(counter2) matches Some(c2)
                &&& c <= c2
                &&& forward_wf(forward, c) ==> forward_wf(forward2, c2)
                &&& forward_wf(forward, c) && inverse_of(forward, backward) ==> inverse_of(forward2, backward2)
            }
        }),
{
    let (id, existed) = spec_resolve(forward, counter, key).unwrap();
    let forward2 = spec_forward_after(forward, counter, key);
    let backward2 = spec_backward_after(forward, backward, counter, key);
    let counter2 = spec_counter_after(forward, counter, key);
    lemma_u64_be_roundtrip(id);
    if existed {
        lemma_u64_be_bytes_roundtrip(forward[key]);
    } else {
        lemma_counted(counter, id);
        let c = spec_current_count(counter).unwrap();
        if forward_wf(forward, c) {
            assert forall|k1: Seq<u8>, k2: Seq<u8>|
                #![trigger forward2[k1], forward2[k2]]
                forward2.dom().contains(k1) && forward2.dom().contains(k2) && forward2[k1] == forward2[k2] implies k1
                == k2 by {
                if k1 == key && k2 != key {
                    assert(forward.dom().contains(k2));
                } else if k2 == key && k1 != key {
                    assert(forward.dom().contains(k1));
                } else if k1 != key && k2 != key {
                    assert(forward[k1] == forward[k2]);
                }
            }
            assert forall|k: Seq<u8>| #[trigger] forward2.dom().contains(k) implies forward2[k].len() == 8
                && spec_u64_from_be_bytes(forward2[k]) <= id by {
                if k != key {
                    assert(forward.dom().contains(k));
                }
            }
            if inverse_of(forward, backward) {
                assert forall|k: Seq<u8>| #[trigger] forward2.dom().contains(k) implies backward2.dom().contains(
                    forward2[k],
                ) && backward2[forward2[k]] == k by {
                    if k != key {
                        assert(forward.dom().contains(k));
                    }
                }
            }
        }
    }
}

/// The keyspaces of the registry, as plain values.
pub struct ShortView {
    pub eventid_shorteventid: Db,
    pub shorteventid_eventid: Db,
    pub statekey_shortstatekey: Db,
    pub shortstatekey_statekey: Db,
    pub statehash_shortstatehash: Db,
}

/// The registry without entries.
pub open spec fn empty_short() -> ShortView {
    ShortView {
        eventid_shorteventid: Db::empty(),
        shorteventid_eventid: Db::empty(),
        statekey_shortstatekey: Db::empty(),
        shortstatekey_statekey: Db::empty(),
        statehash_shortstatehash: Db::empty(),
    }
}

/// The registry is well-formed for the counter: in each of its three kinds
/// no number occurs twice, no number is greater than the last one handed
/// out, and event ids and state keys are found again by their numbers.
pub open spec fn short_wf(v: ShortView, counter: Db) -> bool {
    &&& spec_current_count(counter) matches Some(c)
    &&& forward_wf(v.eventid_shorteventid, c)
    &&& inverse_of(v.eventid_shorteventid, v.shorteventid_eventid)
    &&& forward_wf(v.statekey_shortstatekey, c)
    &&& inverse_of(v.statekey_shortstatekey, v.shortstatekey_statekey)
    &&& forward_wf(v.statehash_shortstatehash, c)
}

/// An event type is a token of ASCII characters, at least one.
pub open spec fn type_valid(event_type: Seq<char>) -> bool {
    event_type.len() > 0 && is_ascii_chars(event_type)
}

/// The key of a pair of event type and state key: the type, the byte `0xff`, the state key.
pub open spec fn state_key_bytes(event_type: Seq<char>, state_key: Seq<char>) -> Seq<u8> {
    encode_utf8(event_type) + seq![0xffu8] + encode_utf8(state_key)
}

/// Different event ids have different keys.
pub proof fn lemma_event_key_injective(a: Seq<char>, b: Seq<char>)
    requires
        encode_utf8(a) == encode_utf8(b),
    ensures
        a == b,
{
    encode_utf8_decode_utf8(a);
    encode_utf8_decode_utf8(b);
}

/// Different pairs of a valid event type and a state key have different keys.
pub proof fn lemma_state_key_bytes_injective(t1: Seq<char>, k1: Seq<char>, t2: Seq<char>, k2: Seq<char>)
    requires
        type_valid(t1),
        type_valid(t2),
        state_key_bytes(t1, k1) == state_key_bytes(t2, k2),
    ensures
        t1 == t2,
        k1 == k2,
{
    let a = encode_utf8(t1);
    let b = encode_utf8(t2);
    let x = state_key_bytes(t1, k1);
    let y = state_key_bytes(t2, k2);
    is_ascii_chars_encode_utf8(t1);
    is_ascii_chars_encode_utf8(t2);
    assert(x[a.len() as int] == 0xff);
    assert(y[b.len() as int] == 0xff);
    if a.len() < b.len() {
        assert(y[a.len() as int] == b[a.len() as int]);
        assert(b[a.len() as int] == t2[a.len() as int] as u8);
    } else if b.len() < a.len() {
        assert(x[b.len() as int] == a[b.len() as int]);
        assert(a[b.len() as int] == t1[b.len() as int] as u8);
    } else {
        assert(a =~= x.take(a.len() as int));
        assert(b =~= y.take(b.len() as int));
        assert(encode_utf8(k1) =~= x.skip(a.len() as int + 1));
        assert(encode_utf8(k2) =~= y.skip(b.len() as int + 1));
        lemma_event_key_injective(t1, t2);
        lemma_event_key_injective(k1, k2);
    }
}

/// The registry stays well-formed when an event id is resolved, and no
/// number that an event id, a state key or a state hash has changes.
pub proof fn lemma_after_shorteventid(v: ShortView, counter: Db, event_id: Seq<char>)
    requires
        short_wf(v, counter),
    ensures
        short_wf(
            spec_after_shorteventid(v, counter, event_id),
            spec_counter_after_shorteventid(v, counter, event_id),
        ),
        forall|k: Seq<u8>|
            v.eventid_shorteventid.dom().contains(k) ==> #[trigger] spec_short(
                spec_after_shorteventid(v, counter, event_id).eventid_shorteventid,
                k,
            ) == spec_short(v.eventid_shorteventid, k),
{
    if event_id.len() > 0 && spec_shorteventid(v, counter, event_id).is_some() {
        let key = encode_utf8(event_id);
        let c = spec_current_count(counter).unwrap();
        lemma_resolve(v.eventid_shorteventid, v.shorteventid_eventid, counter, key);
        let c2 = spec_current_count(spec_counter_after(v.eventid_shorteventid, counter, key)).unwrap();
        lemma_forward_wf_monotone(v.statekey_shortstatekey, c, c2);
        lemma_forward_wf_monotone(v.statehash_shortstatehash, c, c2);
    }
}

/// The registry stays well-formed when a pair of event type and state key
/// is resolved, and no number that a pair has changes.
pub proof fn lemma_after_shortstatekey(v: ShortView, counter: Db, event_type: Seq<char>, state_key: Seq<char>)
    requires
        short_wf(v, counter),
    ensures
        short_wf(
            spec_after_shortstatekey(v, counter, event_type, state_key),
            spec_counter_after_shortstatekey(v, counter, event_type, state_key),
        ),
        forall|k: Seq<u8>|
            v.statekey_shortstatekey.dom().contains(k) ==> #[trigger] spec_short(
                spec_after_shortstatekey(v, counter, event_type, state_key).statekey_shortstatekey,
                k,
            ) == spec_short(v.statekey_shortstatekey, k),
{
    if type_valid(event_type) && spec_shortstatekey(v, counter, event_type, state_key).is_some() {
        let key = state_key_bytes(event_type, state_key);
        let c = spec_current_count(counter).unwrap();
        lemma_resolve(v.statekey_shortstatekey, v.shortstatekey_statekey, counter, key);
        let c2 = spec_current_count(spec_counter_after(v.statekey_shortstatekey, counter, key)).unwrap();
        lemma_forward_wf_monotone(v.eventid_shorteventid, c, c2);
        lemma_forward_wf_monotone(v.statehash_shortstatehash, c, c2);
    }
}

/// The registry stays well-formed when a state hash is resolved, and no
/// number that a state hash has changes.
pub proof fn lemma_after_shortstatehash(v: ShortView, counter: Db, state_hash: Seq<u8>)
    requires
        short_wf(v, counter),
    ensures
        short_wf(
            spec_after_shortstatehash(v, counter, state_hash),
            spec_counter_after_shortstatehash(v, counter, state_hash),
        ),
        forall|k: Seq<u8>|
            v.statehash_shortstatehash.dom().contains(k) ==> #[trigger] spec_short(
                spec_after_shortstatehash(v, counter, state_hash).statehash_shortstatehash,
                k,
            ) == spec_short(v.statehash_shortstatehash, k),
{
    if state_hash.len() == 32 && spec_shortstatehash(v, counter, state_hash).is_some() {
        let c = spec_current_count(counter).unwrap();
        lemma_resolve(v.statehash_shortstatehash, Db::empty(), counter, state_hash);
        let c2 = spec_current_count(spec_counter_after(v.statehash_shortstatehash, counter, state_hash)).unwrap();
        lemma_forward_wf_monotone(v.eventid_shorteventid, c, c2);
        lemma_forward_wf_monotone(v.statekey_shortstatekey, c, c2);
    }
}

/// An event id keeps its number: asked again, the registry gives the same
/// number, says that the id had it already, and changes nothing.
pub proof fn lemma_shorteventid_repeatable(v: ShortView, counter: Db, event_id: Seq<char>)
    requires
        spec_shorteventid(v, counter, event_id).is_some(),
    ensures
        ({
            let id = spec_shorteventid(v, counter, event_id).unwrap().0;
            let v2 = spec_after_shorteventid(v, counter, event_id);
            let counter2 = spec_counter_after_shorteventid(v, counter, event_id);
            &&& spec_shorteventid(v2, counter2, event_id) == Some((id, true))
            &&& spec_after_shorteventid(v2, counter2, event_id) == v2
            &&& spec_counter_after_shorteventid(v2, counter2, event_id) == counter2
        }),
{
    lemma_resolve(v.eventid_shorteventid, v.shorteventid_eventid, counter, encode_utf8(event_id));
}

/// A pair of event type and state key keeps its number.
pub proof fn lemma_shortstatekey_repeatable(v: ShortView, counter: Db, event_type: Seq<char>, state_key: Seq<char>)
    requires
        spec_shortstatekey(v, counter, event_type, state_key).is_some(),
    ensures
        ({
            let id = spec_shortstatekey(v, counter, event_type, state_key).unwrap().0;
            let v2 = spec_after_shortstatekey(v, counter, event_type, state_key);
            let counter2 = spec_counter_after_shortstatekey(v, counter, event_type, state_key);
            &&& spec_shortstatekey(v2, counter2, event_type, state_key) == Some((id, true))
            &&& spec_after_shortstatekey(v2, counter2, event_type, state_key) == v2
            &&& spec_counter_after_shortstatekey(v2, counter2, event_type, state_key) == counter2
        }),
{
    lemma_resolve(
        v.statekey_shortstatekey,
        v.shortstatekey_statekey,
        counter,
        state_key_bytes(event_type, state_key),
    );
}

/// A state hash keeps its number, and only the first time is it said to be new.
pub proof fn lemma_shortstatehash_repeatable(v: ShortView, counter: Db, state_hash: Seq<u8>)
    requires
        spec_shortstatehash(v, counter, state_hash).is_some(),
    ensures
        ({
            let id = spec_shortstatehash(v, counter, state_hash).unwrap().0;
            let v2 = spec_after_shortstatehash(v, counter, state_hash);
            let counter2 = spec_counter_after_shortstatehash(v, counter, state_hash);
            &&& spec_shortstatehash(v2, counter2, state_hash) == Some((id, true))
            &&& spec_after_shortstatehash(v2, counter2, state_hash) == v2
            &&& spec_counter_after_shortstatehash(v2, counter2, state_hash) == counter2
        }),
{
    lemma_resolve(v.statehash_shortstatehash, Db::empty(), counter, state_hash);
}

/// In a well-formed registry two different event ids never have the same
/// number, whether they had their numbers before or get them now, one after
/// the other.
pub proof fn lemma_shorteventids_distinct(v: ShortView, counter: Db, a: Seq<char>, b: Seq<char>)
    requires
        short_wf(v, counter),
        a != b,
        spec_shorteventid(v, counter, a).is_some(),
        spec_shorteventid(
            spec_after_shorteventid(v, counter, a),
            spec_counter_after_shorteventid(v, counter, a),
            b,
        ).is_some(),
    ensures
        spec_shorteventid(v, counter, a).unwrap().0 != spec_shorteventid(
            spec_after_shorteventid(v, counter, a),
            spec_counter_after_shorteventid(v, counter, a),
            b,
        ).unwrap().0,
{
    let v1 = spec_after_shorteventid(v, counter, a);
    let c1 = spec_counter_after_shorteventid(v, counter, a);
    let v2 = spec_after_shorteventid(v1, c1, b);
    let c2 = spec_counter_after_shorteventid(v1, c1, b);
    lemma_after_shorteventid(v, counter, a);
    lemma_after_shorteventid(v1, c1, b);
    lemma_resolve(v.eventid_shorteventid, v.shorteventid_eventid, counter, encode_utf8(a));
    lemma_resolve(v1.eventid_shorteventid, v1.shorteventid_eventid, c1, encode_utf8(b));
    if encode_utf8(a) == encode_utf8(b) {
        lemma_event_key_injective(a, b);
    }
    lemma_distinct_keys_distinct_ids(
        v2.eventid_shorteventid,
        spec_current_count(c2).unwrap(),
        encode_utf8(a),
        encode_utf8(b),
    );
}

/// In a well-formed registry two different pairs of event type and state
/// key never have the same number.
pub proof fn lemma_shortstatekeys_distinct(
    v: ShortView,
    counter: Db,
    type_a: Seq<char>,
    key_a: Seq<char>,
    type_b: Seq<char>,
    key_b: Seq<char>,
)
    requires
        short_wf(v, counter),
        type_a != type_b || key_a != key_b,
        spec_shortstatekey(v, counter, type_a, key_a).is_some(),
        spec_shortstatekey(
            spec_after_shortstatekey(v, counter, type_a, key_a),
            spec_counter_after_shortstatekey(v, counter, type_a, key_a),
            type_b,
            key_b,
        ).is_some(),
    ensures
        spec_shortstatekey(v, counter, type_a, key_a).unwrap().0 != spec_shortstatekey(
            spec_after_shortstatekey(v, counter, type_a, key_a),
            spec_counter_after_shortstatekey(v, counter, type_a, key_a),
            type_b,
            key_b,
        ).unwrap().0,
{
    let ka = state_key_bytes(type_a, key_a);
    let kb = state_key_bytes(type_b, key_b);
    let v1 = spec_after_shortstatekey(v, counter, type_a, key_a);
    let c1 = spec_counter_after_shortstatekey(v, counter, type_a, key_a);
    let v2 = spec_after_shortstatekey(v1, c1, type_b, key_b);
    let c2 = spec_counter_after_shortstatekey(v1, c1, type_b, key_b);
    lemma_after_shortstatekey(v, counter, type_a, key_a);
    lemma_after_shortstatekey(v1, c1, type_b, key_b);
    lemma_resolve(v.statekey_shortstatekey, v.shortstatekey_statekey, counter, ka);
    lemma_resolve(v1.statekey_shortstatekey, v1.shortstatekey_statekey, c1, kb);
    if ka == kb {
        lemma_state_key_bytes_injective(type_a, key_a, type_b, key_b);
    }
    lemma_distinct_keys_distinct_ids(v2.statekey_shortstatekey, spec_current_count(c2).unwrap(), ka, kb);
}

/// In a well-formed registry two different state hashes never have the same number.
pub proof fn lemma_shortstatehashes_distinct(v: ShortView, counter: Db, a: Seq<u8>, b: Seq<u8>)
    requires
        short_wf(v, counter),
        a != b,
        spec_shortstatehash(v, counter, a).is_some(),
        spec_shortstatehash(
            spec_after_shortstatehash(v, counter, a),
            spec_counter_after_shortstatehash(v, counter, a),
            b,
        ).is_some(),
    ensures
        spec_shortstatehash(v, counter, a).unwrap().0 != spec_shortstatehash(
            spec_after_shortstatehash(v, counter, a),
            spec_counter_after_shortstatehash(v, counter, a),
            b,
        ).unwrap().0,
{
    let v1 = spec_after_shortstatehash(v, counter, a);
    let c1 = spec_counter_after_shortstatehash(v, counter, a);
    let v2 = spec_after_shortstatehash(v1, c1, b);
    let c2 = spec_counter_after_shortstatehash(v1, c1, b);
    lemma_after_shortstatehash(v, counter, a);
    lemma_after_shortstatehash(v1, c1, b);
    lemma_resolve(v.statehash_shortstatehash, Db::empty(), counter, a);
    lemma_resolve(v1.statehash_shortstatehash, Db::empty(), c1, b);
    lemma_distinct_keys_distinct_ids(v2.statehash_shortstatehash, spec_current_count(c2).unwrap(), a, b);
}

/// The empty registry is well-formed for the counter that has handed out nothing.
pub proof fn lemma_empty_short_wf()
    ensures
        short_wf(empty_short(), Db::empty()),
{
}

/// The number that an event id has or gets, and whether it had it already;
/// none for the empty id.
pub open spec fn spec_shorteventid(v: ShortView, counter: Db, event_id: Seq<char>) -> Option<(u64, bool)> {
    if event_id.len() == 0 {
        None
    } else {
        spec_resolve(v.eventid_shorteventid, counter, encode_utf8(event_id))
    }
}

/// The registry after an event id was resolved.
pub open spec fn spec_after_shorteventid(v: ShortView, counter: Db, event_id: Seq<char>) -> ShortView {
    if event_id.len() == 0 {
        v
    } else {
        ShortView {
            eventid_shorteventid: spec_forward_after(v.eventid_shorteventid, counter, encode_utf8(event_id)),
            shorteventid_eventid: spec_backward_after(
                v.eventid_shorteventid,
                v.shorteventid_eventid,
                counter,
                encode_utf8(event_id),
            ),
            ..v
        }
    }
}

/// The counter after an event id was resolved.
pub open spec fn spec_counter_after_shorteventid(v: ShortView, counter: Db, event_id: Seq<char>) -> Db {
    if event_id.len() == 0 {
        counter
    } else {
        spec_counter_after(v.eventid_shorteventid, counter, encode_utf8(event_id))
    }
}

/// The number that a pair of event type and state key has or gets, and
/// whether it had it already; none for a malformed type.
pub open spec fn spec_shortstatekey(
    v: ShortView,
    counter: Db,
    event_type: Seq<char>,
    state_key: Seq<char>,
) -> Option<(u64, bool)> {
    if type_valid(event_type) {
        spec_resolve(v.statekey_shortstatekey, counter, state_key_bytes(event_type, state_key))
    } else {
        None
    }
}

/// The registry after a pair of event type and state key was resolved.
pub open spec fn spec_after_shortstatekey(
    v: ShortView,
    counter: Db,
    event_type: Seq<char>,
    state_key: Seq<char>,
) -> ShortView {
    if type_valid(event_type) {
        ShortView {
            statekey_shortstatekey: spec_forward_after(
                v.statekey_shortstatekey,
                counter,
                state_key_bytes(event_type, state_key),
            ),
            shortstatekey_statekey: spec_backward_after(
                v.statekey_shortstatekey,
                v.shortstatekey_statekey,
                counter,
                state_key_bytes(event_type, state_key),
            ),
            ..v
        }
    } else {
        v
    }
}

/// The counter after a pair of event type and state key was resolved.
pub open spec fn spec_counter_after_shortstatekey(
    v: ShortView,
    counter: Db,
    event_type: Seq<char>,
    state_key: Seq<char>,
) -> Db {
    if type_valid(event_type) {
        spec_counter_after(v.statekey_shortstatekey, counter, state_key_bytes(event_type, state_key))
    } else {
        counter
    }
}

/// The number that a state hash has or gets, and whether it had it already;
/// none for a hash that is not 32 bytes long.
pub open spec fn spec_shortstatehash(v: ShortView, counter: Db, state_hash: Seq<u8>) -> Option<(u64, bool)> {
    if state_hash.len() == 32 {
        spec_resolve(v.statehash_shortstatehash, counter, state_hash)
    } else {
        None
    }
}

/// The registry after a state hash was resolved.
pub open spec fn spec_after_shortstatehash(v: ShortView, counter: Db, state_hash: Seq<u8>) -> ShortView {
    if state_hash.len() == 32 {
        ShortView {
            statehash_shortstatehash: spec_forward_after(v.statehash_shortstatehash, counter, state_hash),
            ..v
        }
    } else {
        v
    }
}

/// The counter after a state hash was resolved.
pub open spec fn spec_counter_after_shortstatehash(v: ShortView, counter: Db, state_hash: Seq<u8>) -> Db {
    if state_hash.len() == 32 {
        spec_counter_after(v.statehash_shortstatehash, counter, state_hash)
    } else {
        counter
    }
}

/// The event id stored for a number, where one is stored and is UTF-8.
pub open spec fn spec_eventid_from_short(v: ShortView, shorteventid: u64) -> Option<Seq<char>> {
    let key = spec_u64_to_be_bytes(shorteventid);
    if v.shorteventid_eventid.dom().contains(key) && valid_utf8(v.shorteventid_eventid[key]) {
        Some(decode_utf8(v.shorteventid_eventid[key]))
    } else {
        None
    }
}

/// The registry of short identifiers.
pub struct ShortIds {
    pub eventid_shorteventid: Tree,
    pub shorteventid_eventid: Tree,
    pub statekey_shortstatekey: Tree,
    pub shortstatekey_statekey: Tree,
    pub statehash_shortstatehash: Tree,
}

impl View for ShortIds {
    type V = ShortView;

    open spec fn view(&self) -> ShortView {
        ShortView {
            eventid_shorteventid: self.eventid_shorteventid@,
            shorteventid_eventid: self.shorteventid_eventid@,
            statekey_shortstatekey: self.statekey_shortstatekey@,
            shortstatekey_statekey: self.shortstatekey_statekey@,
            statehash_shortstatehash: self.statehash_shortstatehash@,
        }
    }
}

/// Looks `key` up in `forward` and, where it is new, gives it the next
/// number of the counter.
fn resolve(forward: &mut Tree, globals: &mut Globals, key: &[u8]) -> (r: Result<(u64, bool)>)
    ensures
        match r {
            Ok(found) => spec_resolve(old(forward)@, old(globals)@, key@) == Some(found),
            Err(e) => spec_resolve(old(forward)@, old(globals)@, key@).is_none() && e is BadDatabase,
        },
        final(forward)@ == spec_forward_after(old(forward)@, old(globals)@, key@),
        final(globals)@ == spec_counter_after(old(forward)@, old(globals)@, key@),
{
    match forward.get(key) {
        Some(bytes) => match u64_from_be_bytes(bytes.as_slice()) {
            Some(id) => Ok((id, true)),
            None => Err(Error::BadDatabase("Invalid short id bytes in db.")),
        },
        None => {
            let id = match globals.next_count() {
                Ok(id) => id,
                Err(e) => {
                    return Err(e);
                },
            };
            forward.insert(key, u64_to_be_bytes(id).as_slice());
            Ok((id, false))
        },
    }
}

impl ShortIds {
    /// A registry without entries.
    pub fn new() -> (s: ShortIds)
        ensures
            s@ == empty_short(),
    {
        ShortIds {
            eventid_shorteventid: Tree::new(),
            shorteventid_eventid: Tree::new(),
            statekey_shortstatekey: Tree::new(),
            shortstatekey_statekey: Tree::new(),
            statehash_shortstatehash: Tree::new(),
        }
    }

    /// The number of an event id; a new id gets the next number of the
    /// counter. The empty id is refused.
    pub fn get_or_create_shorteventid(&mut self, event_id: &str, globals: &mut Globals) -> (r: Result<u64>)
        ensures
            match r {
                Ok(id) => spec_shorteventid(old(self)@, old(globals)@, event_id@) matches Some(found) && found.0 == id,
                Err(e) => spec_shorteventid(old(self)@, old(globals)@, event_id@).is_none() && (e is BadRequest
                    <==> event_id@.len() == 0),
            },
            final(self)@ == spec_after_shorteventid(old(self)@, old(globals)@, event_id@),
            final(globals)@ == spec_counter_after_shorteventid(old(self)@, old(globals)@, event_id@),
    {
        if event_id.is_empty() {
            return Err(Error::BadRequest("Event id must not be empty."));
        }
        let key = event_id.as_bytes();
        match resolve(&mut self.eventid_shorteventid, globals, key) {
            Ok((id, existed)) => {
                if !existed {
                    self.shorteventid_eventid.insert(u64_to_be_bytes(id).as_slice(), key);
                }
                Ok(id)
            },
            Err(e) => Err(e),
        }
    }

    /// The bytes under which a pair of event type and state key is stored.
    pub fn state_key_of(event_type: &str, state_key: &str) -> (key: Vec<u8>)
        ensures
            key@ == state_key_bytes(event_type@, state_key@),
    {
        let mut key: Vec<u8> = Vec::new();
        push_bytes(&mut key, event_type.as_bytes());
        key.push(0xff);
        push_bytes(&mut key, state_key.as_bytes());
        assert(key@ =~= state_key_bytes(event_type@, state_key@));
        key
    }

    /// The number of a pair of event type and state key; a new pair gets the
    /// next number of the counter. A type that is empty or not ASCII is refused.
    pub fn get_or_create_shortstatekey(
        &mut self,
        event_type: &str,
        state_key: &str,
        globals: &mut Globals,
    ) -> (r: Result<u64>)
        ensures
            match r {
                Ok(id) => spec_shortstatekey(old(self)@, old(globals)@, event_type@, state_key@) matches Some(found)
                    && found.0 == id,
                Err(e) => spec_shortstatekey(old(self)@, old(globals)@, event_type@, state_key@).is_none() && (e
                    is BadRequest <==> !type_valid(event_type@)),
            },
            final(self)@ == spec_after_shortstatekey(old(self)@, old(globals)@, event_type@, state_key@),
            final(globals)@ == spec_counter_after_shortstatekey(old(self)@, old(globals)@, event_type@, state_key@),
    {
        if event_type.is_empty() || !event_type.is_ascii() {
            return Err(Error::BadRequest("Event type must be an ASCII token."));
        }
        let key = Self::state_key_of(event_type, state_key);
        match resolve(&mut self.statekey_shortstatekey, globals, key.as_slice()) {
            Ok((id, existed)) => {
                if !existed {
                    self.shortstatekey_statekey.insert(u64_to_be_bytes(id).as_slice(), key.as_slice());
                }
                Ok(id)
            },
            Err(e) => Err(e),
        }
    }

    /// The number of a pair of event type and state key, if it has one.
    pub fn get_shortstatekey(&self, event_type: &str, state_key: &str) -> (r: Result<Option<u64>>)
        ensures
            match r {
                Ok(Some(id)) => type_valid(event_type@) && spec_short(
                    self@.statekey_shortstatekey,
                    state_key_bytes(event_type@, state_key@),
                ) == Some(id),
                Ok(None) => type_valid(event_type@) && !self@.statekey_shortstatekey.dom().contains(
                    state_key_bytes(event_type@, state_key@),
                ),
                Err(e) => if type_valid(event_type@) {
                    &&& e is BadDatabase
                    &&& self@.statekey_shortstatekey.dom().contains(state_key_bytes(event_type@, state_key@))
                    &&& spec_short(self@.statekey_shortstatekey, state_key_bytes(event_type@, state_key@)).is_none()
                } else {
                    e is BadRequest
                },
            },
    {
        if event_type.is_empty() || !event_type.is_ascii() {
            return Err(Error::BadRequest("Event type must be an ASCII token."));
        }
        let key = Self::state_key_of(event_type, state_key);
        match self.statekey_shortstatekey.get(key.as_slice()) {
            Some(bytes) => match u64_from_be_bytes(bytes.as_slice()) {
                Some(id) => Ok(Some(id)),
                None => Err(Error::BadDatabase("Invalid shortstatekey in db.")),
            },
            None => Ok(None),
        }
    }

    /// The number of a state hash, and whether it had one already; a new
    /// hash gets the next number of the counter. A hash that is not 32 bytes
    /// long is refused.
    pub fn get_or_create_shortstatehash(&mut self, state_hash: &[u8], globals: &mut Globals) -> (r: Result<
        (u64, bool),
    >)
        ensures
            match r {
                Ok(found) => spec_shortstatehash(old(self)@, old(globals)@, state_hash@) == Some(found),
                Err(e) => spec_shortstatehash(old(self)@, old(globals)@, state_hash@).is_none() && (e is BadRequest
                    <==> state_hash@.len() != 32),
            },
            final(self)@ == spec_after_shortstatehash(old(self)@, old(globals)@, state_hash@),
            final(globals)@ == spec_counter_after_shortstatehash(old(self)@, old(globals)@, state_hash@),
    {
        if state_hash.len() != 32 {
            return Err(Error::BadRequest("State hash must be 32 bytes long."));
        }
        resolve(&mut self.statehash_shortstatehash, globals, state_hash)
    }

    /// The event id that has the number `shorteventid`.
    pub fn get_eventid_from_short(&self, shorteventid: u64) -> (r: Result<String>)
        ensures
            match r {
                Ok(event_id) => spec_eventid_from_short(self@, shorteventid) == Some(event_id@),
                Err(e) => spec_eventid_from_short(self@, shorteventid).is_none() && e is BadDatabase,
            },
    {
        match self.shorteventid_eventid.get(u64_to_be_bytes(shorteventid).as_slice()) {
            Some(bytes) => match string_from_bytes(bytes.as_slice()) {
                Some(event_id) => Ok(event_id),
                None => Err(Error::BadDatabase("EventID in shorteventid_eventid is invalid unicode.")),
            },
            None => Err(Error::BadDatabase("Shorteventid does not exist")),
        }
    }
}

} // verus!
