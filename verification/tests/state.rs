use roomstate::error::ErrorKind;
use roomstate::pdu::{parse_membership, MembershipState, PduEvent, Timeline};
use roomstate::state::{membership_update, version_of, Service};
use roomstate::state_compressor::{compress_state_event, parse_compressed_state_event};
use roomstate::state_set::StateSet;

const ROOM: &str = "!room:example.org";

fn event(id: &str, kind: &str, state_key: Option<&str>, sender: &str, content: &str) -> PduEvent {
    PduEvent {
        event_id: id.to_string(),
        room_id: ROOM.to_string(),
        sender: sender.to_string(),
        kind: kind.to_string(),
        content: content.to_string(),
        state_key: state_key.map(|k| k.to_string()),
    }
}

fn member(id: &str, user: &str, membership: &str) -> PduEvent {
    let content = format!("{{\"membership\":\"{}\"}}", membership);
    event(id, "m.room.member", Some(user), user, &content)
}

/// Stores the event, appends it to the state of its room and moves the room's pointer.
fn commit(svc: &mut Service, pdu: &PduEvent) -> u64 {
    svc.timeline.append_pdu(pdu.clone());
    let h = svc.append_to_state(pdu).unwrap();
    svc.set_room_state(&pdu.room_id, h).unwrap();
    h
}

fn same(a: &PduEvent, b: &PduEvent) -> bool {
    a.event_id == b.event_id
        && a.room_id == b.room_id
        && a.sender == b.sender
        && a.kind == b.kind
        && a.content == b.content
        && a.state_key == b.state_key
}

#[test]
fn empty_room_create_event_arrives() {
    let mut svc = Service::new();
    let create = event("$create", "m.room.create", Some(""), "@alice:example.org", "{\"room_version\":\"6\"}");
    assert_eq!(svc.get_room_shortstatehash(ROOM).unwrap(), None);
    svc.timeline.append_pdu(create.clone());
    let h = svc.append_to_state(&create).unwrap();
    // The pointer is the caller's to move.
    assert_eq!(svc.get_room_shortstatehash(ROOM).unwrap(), None);
    assert_eq!(svc.room_state_get(ROOM, "m.room.create", "").unwrap().map(|p| p.event_id), None);
    let record = svc.state_compressor.get_statediff(h).unwrap();
    assert_eq!(record.parent, None);
    assert_eq!(record.added.len(), 1);
    assert!(record.removed.is_empty());
    svc.set_room_state(ROOM, h).unwrap();
    assert_eq!(svc.get_room_shortstatehash(ROOM).unwrap(), Some(h));
    let got = svc.room_state_get(ROOM, "m.room.create", "").unwrap().unwrap();
    assert!(same(&got, &create));
    assert_eq!(svc.room_state_get_id(ROOM, "m.room.create", "").unwrap(), Some("$create".to_string()));
    assert_eq!(svc.room_state_get(ROOM, "m.room.name", "").unwrap().map(|p| p.event_id), None);
}

#[test]
fn member_join_then_leave() {
    let mut svc = Service::new();
    commit(&mut svc, &event("$create", "m.room.create", Some(""), "@alice:example.org", "{}"));
    let join = member("$join", "@alice:example.org", "join");
    let leave = member("$leave", "@alice:example.org", "leave");
    // Enough state that a diff of one is cheaper than the whole.
    commit(&mut svc, &event("$name", "m.room.name", Some(""), "@alice:example.org", "{}"));
    commit(&mut svc, &event("$topic", "m.room.topic", Some(""), "@alice:example.org", "{}"));
    commit(&mut svc, &event("$rules", "m.room.join_rules", Some(""), "@alice:example.org", "{}"));
    commit(&mut svc, &event("$avatar", "m.room.avatar", Some(""), "@alice:example.org", "{}"));
    let h1 = commit(&mut svc, &join);
    let r1 = svc.state_compressor.get_statediff(h1).unwrap();
    assert_eq!(r1.added.len(), 1);
    assert!(r1.removed.is_empty());
    let h2 = commit(&mut svc, &leave);
    assert_ne!(h1, h2);
    let sk = svc.short.get_shortstatekey("m.room.member", "@alice:example.org").unwrap().unwrap();
    let join_blob = compress_state_event(sk, svc.short.get_or_create_shorteventid("$join", &mut svc.globals).unwrap());
    let leave_blob =
        compress_state_event(sk, svc.short.get_or_create_shorteventid("$leave", &mut svc.globals).unwrap());
    let r2 = svc.state_compressor.get_statediff(h2).unwrap();
    assert_eq!(r2.parent, Some(h1));
    assert_eq!(r2.added.to_vec(), vec![leave_blob]);
    assert_eq!(r2.removed.to_vec(), vec![join_blob]);
    let chain = svc.state_compressor.load_shortstatehash_info(h2).unwrap();
    let full = &chain[chain.len() - 1].full;
    let of_alice: Vec<_> =
        full.to_vec().into_iter().filter(|b| parse_compressed_state_event(b).unwrap().0 == sk).collect();
    assert_eq!(of_alice, vec![leave_blob]);
    assert_eq!(full.len(), 6);
    let got = svc.room_state_get(ROOM, "m.room.member", "@alice:example.org").unwrap().unwrap();
    assert!(same(&got, &leave));
    // The state before the leave is still there.
    assert_eq!(svc.state_get_id(h1, "m.room.member", "@alice:example.org").unwrap(), Some("$join".to_string()));
}

#[test]
fn event_is_linked_to_the_state_before_it() {
    let mut svc = Service::new();
    let h1 = commit(&mut svc, &event("$create", "m.room.create", Some(""), "@a:x.org", "{}"));
    let sev1 = svc.short.get_or_create_shorteventid("$create", &mut svc.globals).unwrap();
    assert_eq!(svc.shorteventid_shortstatehash.get(&sev1.to_be_bytes()), None);
    let h2 = commit(&mut svc, &event("$name", "m.room.name", Some(""), "@a:x.org", "{}"));
    let sev2 = svc.short.get_or_create_shorteventid("$name", &mut svc.globals).unwrap();
    assert_eq!(svc.shorteventid_shortstatehash.get(&sev2.to_be_bytes()), Some(h1.to_be_bytes().to_vec()));
    // An event without a state key: linked, and the room's snapshot is the answer.
    let message = event("$msg", "m.room.message", None, "@a:x.org", "{}");
    assert_eq!(svc.append_to_state(&message).unwrap(), h2);
    let sev3 = svc.short.get_or_create_shorteventid("$msg", &mut svc.globals).unwrap();
    assert_eq!(svc.shorteventid_shortstatehash.get(&sev3.to_be_bytes()), Some(h2.to_be_bytes().to_vec()));
    assert_eq!(svc.get_room_shortstatehash(ROOM).unwrap(), Some(h2));
}

#[test]
fn redundant_identical_state_event() {
    let mut svc = Service::new();
    commit(&mut svc, &event("$create", "m.room.create", Some(""), "@a:x.org", "{}"));
    let topic = event("$topic", "m.room.topic", Some(""), "@a:x.org", "{\"topic\":\"t\"}");
    let h1 = commit(&mut svc, &topic);
    let records = svc.state_compressor.tree().len();
    let count = svc.globals.current_count().unwrap();
    assert_eq!(svc.append_to_state(&topic).unwrap(), h1);
    assert_eq!(svc.append_to_state(&topic).unwrap(), h1);
    assert_eq!(svc.state_compressor.tree().len(), records);
    assert_eq!(svc.globals.current_count().unwrap(), count);
    // Another event under the same type and state key makes a new snapshot.
    let topic2 = event("$topic2", "m.room.topic", Some(""), "@a:x.org", "{\"topic\":\"t\"}");
    let h2 = svc.append_to_state(&topic2).unwrap();
    assert_ne!(h2, h1);
    assert_eq!(svc.state_compressor.tree().len(), records + 1);
}

#[test]
fn first_event_without_state_key_is_refused() {
    let mut svc = Service::new();
    let message = event("$msg", "m.room.message", None, "@a:x.org", "{}");
    assert_eq!(svc.append_to_state(&message).unwrap_err().kind(), ErrorKind::BadRequest);
}

#[test]
fn append_reports_bad_input_and_bad_data() {
    let mut svc = Service::new();
    let nameless = event("", "m.room.create", Some(""), "@a:x.org", "{}");
    assert_eq!(svc.append_to_state(&nameless).unwrap_err().kind(), ErrorKind::BadRequest);
    assert_eq!(svc.globals.current_count().unwrap(), 0);
    let typeless = event("$e", "", Some(""), "@a:x.org", "{}");
    assert_eq!(svc.append_to_state(&typeless).unwrap_err().kind(), ErrorKind::BadRequest);
    // A pointer that is not eight bytes.
    let mut svc = Service::new();
    svc.roomid_shortstatehash.insert(ROOM.as_bytes(), b"xyz");
    assert_eq!(svc.get_room_shortstatehash(ROOM).unwrap_err().kind(), ErrorKind::BadDatabase);
    let create = event("$create", "m.room.create", Some(""), "@a:x.org", "{}");
    assert_eq!(svc.append_to_state(&create).unwrap_err().kind(), ErrorKind::BadDatabase);
    assert_eq!(svc.room_state_get(ROOM, "m.room.create", "").err().unwrap().kind(), ErrorKind::BadDatabase);
    // A pointer to a snapshot that is not there.
    let mut svc = Service::new();
    svc.set_room_state(ROOM, 77).unwrap();
    assert_eq!(svc.append_to_state(&create).unwrap_err().kind(), ErrorKind::BadDatabase);
}

#[test]
fn room_state_get_of_unknown_things_is_none() {
    let mut svc = Service::new();
    assert_eq!(svc.room_state_get_id(ROOM, "m.room.create", "").unwrap(), None);
    commit(&mut svc, &event("$create", "m.room.create", Some(""), "@a:x.org", "{}"));
    assert_eq!(svc.room_state_get_id(ROOM, "m.room.name", "").unwrap(), None);
    assert_eq!(svc.room_state_get_id("!other:example.org", "m.room.create", "").unwrap(), None);
    assert_eq!(svc.room_state_get_id(ROOM, "", "").unwrap_err().kind(), ErrorKind::BadRequest);
    // The short state key is known, the room's state has no event for it.
    svc.short.get_or_create_shortstatekey("m.room.name", "", &mut svc.globals).unwrap();
    assert_eq!(svc.room_state_get_id(ROOM, "m.room.name", "").unwrap(), None);
}

#[test]
fn room_state_get_without_the_stored_event_is_none() {
    let mut svc = Service::new();
    let create = event("$create", "m.room.create", Some(""), "@a:x.org", "{}");
    let h = svc.append_to_state(&create).unwrap();
    svc.set_room_state(ROOM, h).unwrap();
    assert_eq!(svc.room_state_get_id(ROOM, "m.room.create", "").unwrap(), Some("$create".to_string()));
    assert!(svc.room_state_get(ROOM, "m.room.create", "").unwrap().is_none());
}

#[test]
fn set_event_state_saves_one_snapshot_per_state() {
    let mut svc = Service::new();
    let mut state = StateSet::new();
    state.insert(compress_state_event(1, 1));
    state.insert(compress_state_event(2, 2));
    svc.set_event_state("$a", ROOM, state.clone()).unwrap();
    assert_eq!(svc.state_compressor.tree().len(), 1);
    let sev_a = svc.short.get_or_create_shorteventid("$a", &mut svc.globals).unwrap();
    let h = u64::from_be_bytes(svc.shorteventid_shortstatehash.get(&sev_a.to_be_bytes()).unwrap().try_into().unwrap());
    assert_eq!(svc.state_compressor.load_shortstatehash_info(h).unwrap()[0].full.to_vec(), state.to_vec());
    // The same state for another event: linked to the same snapshot, nothing saved.
    svc.set_event_state("$b", ROOM, state.clone()).unwrap();
    assert_eq!(svc.state_compressor.tree().len(), 1);
    let sev_b = svc.short.get_or_create_shorteventid("$b", &mut svc.globals).unwrap();
    assert_eq!(svc.shorteventid_shortstatehash.get(&sev_b.to_be_bytes()), Some(h.to_be_bytes().to_vec()));
    // The room's pointer is not moved.
    assert_eq!(svc.get_room_shortstatehash(ROOM).unwrap(), None);
    // Another state on top of the room's state.
    svc.set_room_state(ROOM, h).unwrap();
    let mut other = state.clone();
    other.remove(&compress_state_event(1, 1));
    other.insert(compress_state_event(3, 3));
    svc.set_event_state("$c", ROOM, other.clone()).unwrap();
    assert_eq!(svc.state_compressor.tree().len(), 2);
    let sev_c = svc.short.get_or_create_shorteventid("$c", &mut svc.globals).unwrap();
    let h2 = u64::from_be_bytes(svc.shorteventid_shortstatehash.get(&sev_c.to_be_bytes()).unwrap().try_into().unwrap());
    assert_ne!(h2, h);
    let chain = svc.state_compressor.load_shortstatehash_info(h2).unwrap();
    assert_eq!(chain[chain.len() - 1].full.to_vec(), other.to_vec());
    // The budget of such a snapshot is large: it is stored flat.
    assert_eq!(svc.state_compressor.get_statediff(h2).unwrap().parent, None);
    assert_eq!(svc.set_event_state("", ROOM, other).unwrap_err().kind(), ErrorKind::BadRequest);
}

#[test]
fn force_state_with_mixed_membership() {
    let mut svc = Service::new();
    let join_alice = member("$join_alice", "@alice:example.org", "join");
    let mut leave_bob = member("$leave_bob", "@bob:example.org", "leave");
    leave_bob.sender = "@alice:example.org".to_string();
    let topic = event("$topic", "m.room.topic", Some(""), "@alice:example.org", "{\"topic\":\"x\"}");
    let mut added = StateSet::new();
    for (n, pdu) in [&join_alice, &leave_bob, &topic].into_iter().enumerate() {
        svc.timeline.append_pdu(pdu.clone());
        let sev = svc.short.get_or_create_shorteventid(&pdu.event_id, &mut svc.globals).unwrap();
        added.insert(compress_state_event(10 + n as u64, sev));
    }
    let updates = svc.force_state(ROOM, 42, added, StateSet::new());
    assert_eq!(updates.len(), 2);
    assert_eq!(updates[0].room_id, ROOM);
    assert_eq!(updates[0].user_id, "@alice:example.org");
    assert_eq!(updates[0].membership, MembershipState::Join);
    assert_eq!(updates[0].sender, "@alice:example.org");
    assert_eq!(updates[1].user_id, "@bob:example.org");
    assert_eq!(updates[1].membership, MembershipState::Leave);
    assert_eq!(updates[1].sender, "@alice:example.org");
    assert_eq!(svc.get_room_shortstatehash(ROOM).unwrap(), Some(42));
}

#[test]
fn force_state_skips_what_it_cannot_read() {
    let mut svc = Service::new();
    let cases = [
        member("$ok", "@carol:example.org", "invite"),
        member("$custom", "@dave:example.org", "custom"),
        member("$nouser", "dave", "join"),
        event("$nojson", "m.room.member", Some("@e:example.org"), "@e:example.org", "not json"),
        event("$nofield", "m.room.member", Some("@f:example.org"), "@f:example.org", "{\"x\":1}"),
        event("$notstring", "m.room.member", Some("@g:example.org"), "@g:example.org", "{\"membership\":3}"),
        event("$nokey", "m.room.member", None, "@h:example.org", "{\"membership\":\"join\"}"),
        member("$ban", "@i:example.org", "ban"),
        member("$knock", "@j:example.org", "knock"),
    ];
    let mut added = StateSet::new();
    for (n, pdu) in cases.iter().enumerate() {
        svc.timeline.append_pdu(pdu.clone());
        let sev = svc.short.get_or_create_shorteventid(&pdu.event_id, &mut svc.globals).unwrap();
        added.insert(compress_state_event(n as u64, sev));
    }
    // One whose event is not stored, one whose event id is unknown.
    let sev = svc.short.get_or_create_shorteventid("$missing", &mut svc.globals).unwrap();
    added.insert(compress_state_event(100, sev));
    added.insert(compress_state_event(101, 9999));
    let updates = svc.force_state(ROOM, 1, added, StateSet::new());
    let got: Vec<(String, MembershipState)> = updates.into_iter().map(|u| (u.user_id, u.membership)).collect();
    assert_eq!(
        got,
        vec![
            ("@carol:example.org".to_string(), MembershipState::Invite),
            ("@i:example.org".to_string(), MembershipState::Ban),
            ("@j:example.org".to_string(), MembershipState::Knock),
        ]
    );
    assert!(Service::new().force_state(ROOM, 3, StateSet::new(), StateSet::new()).is_empty());
}

#[test]
fn membership_update_goes_by_its_arguments() {
    let pdu = member("$e", "@a:example.org", "join");
    let u = membership_update(ROOM, &pdu, Some("leave".to_string()), true).unwrap();
    assert_eq!((u.room_id.as_str(), u.user_id.as_str(), u.membership), (ROOM, "@a:example.org", MembershipState::Leave));
    assert_eq!(u.sender, "@a:example.org");
    assert!(membership_update(ROOM, &pdu, Some("leave".to_string()), false).is_none());
    assert!(membership_update(ROOM, &pdu, None, true).is_none());
    assert!(membership_update(ROOM, &pdu, Some("Join".to_string()), true).is_none());
    let topic = event("$t", "m.room.topic", Some("@a:example.org"), "@a:example.org", "{}");
    assert!(membership_update(ROOM, &topic, Some("join".to_string()), true).is_none());
    let keyless = event("$k", "m.room.member", None, "@a:example.org", "{}");
    assert!(membership_update(ROOM, &keyless, Some("join".to_string()), true).is_none());
}

#[test]
fn membership_words() {
    assert_eq!(parse_membership("join"), Some(MembershipState::Join));
    assert_eq!(parse_membership("leave"), Some(MembershipState::Leave));
    assert_eq!(parse_membership("invite"), Some(MembershipState::Invite));
    assert_eq!(parse_membership("ban"), Some(MembershipState::Ban));
    assert_eq!(parse_membership("knock"), Some(MembershipState::Knock));
    assert_eq!(parse_membership(""), None);
    assert_eq!(parse_membership("JOIN"), None);
    assert_eq!(parse_membership("joined"), None);
}

#[test]
fn calculate_invite_state_omissions() {
    let mut svc = Service::new();
    let create = event("$create", "m.room.create", Some(""), "@x:example.org", "{\"c\":1}");
    let name = event("$name", "m.room.name", Some(""), "@x:example.org", "{\"name\":\"n\"}");
    commit(&mut svc, &create);
    commit(&mut svc, &name);
    let invite = member("$invite", "@y:example.org", "invite");
    let mut invite = invite;
    invite.sender = "@x:example.org".to_string();
    let state = svc.calculate_invite_state(&invite).unwrap();
    let got: Vec<(&str, &str)> = state.iter().map(|e| (e.kind.as_str(), e.content.as_str())).collect();
    assert_eq!(
        got,
        vec![
            ("m.room.create", "{\"c\":1}"),
            ("m.room.name", "{\"name\":\"n\"}"),
            ("m.room.member", "{\"membership\":\"invite\"}"),
        ]
    );
    assert_eq!(state[2].state_key.as_deref(), Some("@y:example.org"));
    assert_eq!(state[2].sender, "@x:example.org");
    assert_eq!(state[0].state_key.as_deref(), Some(""));
}

#[test]
fn calculate_invite_state_in_order() {
    let mut svc = Service::new();
    let sender = "@x:example.org";
    // Committed in another order than they are listed in.
    for (id, kind, key) in [
        ("$member", "m.room.member", sender),
        ("$name", "m.room.name", ""),
        ("$avatar", "m.room.avatar", ""),
        ("$alias", "m.room.canonical_alias", ""),
        ("$rules", "m.room.join_rules", ""),
        ("$create", "m.room.create", ""),
        ("$topic", "m.room.topic", ""),
        ("$other", "m.room.member", "@z:example.org"),
    ] {
        commit(&mut svc, &event(id, kind, Some(key), sender, "{}"));
    }
    let mut invite = member("$invite", "@y:example.org", "invite");
    invite.sender = sender.to_string();
    let state = svc.calculate_invite_state(&invite).unwrap();
    let kinds: Vec<&str> = state.iter().map(|e| e.kind.as_str()).collect();
    assert_eq!(
        kinds,
        vec![
            "m.room.create",
            "m.room.join_rules",
            "m.room.canonical_alias",
            "m.room.avatar",
            "m.room.name",
            "m.room.member",
            "m.room.member"
        ]
    );
    assert_eq!(state[5].state_key.as_deref(), Some(sender));
    assert_eq!(state[6].state_key.as_deref(), Some("@y:example.org"));
    // In a room without state only the invite is shown.
    let mut elsewhere = invite.clone();
    elsewhere.room_id = "!empty:example.org".to_string();
    assert_eq!(svc.calculate_invite_state(&elsewhere).unwrap().len(), 1);
}

#[test]
fn room_version_is_read_from_the_create_event() {
    let mut svc = Service::new();
    let e = svc.get_room_version(ROOM).unwrap_err();
    assert_eq!(e.kind(), ErrorKind::BadDatabase);
    assert_eq!(e.message(), "Invalid room version");
    commit(
        &mut svc,
        &event("$create", "m.room.create", Some(""), "@a:example.org", "{\"creator\":\"@a:example.org\",\"room_version\":\"6\"}"),
    );
    assert_eq!(svc.get_room_version(ROOM).unwrap(), "6");
    // Without a stated version a room has version 1.
    let mut old = Service::new();
    commit(&mut old, &event("$create", "m.room.create", Some(""), "@a:example.org", "{\"creator\":\"@a:example.org\"}"));
    assert_eq!(old.get_room_version(ROOM).unwrap(), "1");
    let mut bad = Service::new();
    commit(&mut bad, &event("$create", "m.room.create", Some(""), "@a:example.org", "{\"room_version\":7}"));
    let e = bad.get_room_version(ROOM).unwrap_err();
    assert_eq!(e.kind(), ErrorKind::BadDatabase);
    assert_eq!(e.message(), "Invalid create event in db.");
    let mut junk = Service::new();
    commit(&mut junk, &event("$create", "m.room.create", Some(""), "@a:example.org", "junk"));
    assert!(junk.get_room_version(ROOM).is_err());
}

#[test]
fn version_of_goes_by_its_arguments() {
    let create = event("$create", "m.room.create", Some(""), "@a:example.org", "{}");
    assert_eq!(version_of(Some(&create), Some("9".to_string())).unwrap(), "9");
    assert_eq!(version_of(Some(&create), None).unwrap_err().message(), "Invalid create event in db.");
    assert_eq!(version_of(None, None).unwrap_err().message(), "Invalid room version");
    assert_eq!(version_of(None, Some("9".to_string())).unwrap_err().kind(), ErrorKind::BadDatabase);
}

#[test]
fn timeline_gives_the_first_event_of_an_id() {
    let mut t = Timeline::new();
    assert!(t.get_pdu("$a").is_none());
    t.append_pdu(event("$a", "m.room.name", Some(""), "@a:x.org", "1"));
    t.append_pdu(event("$b", "m.room.name", Some(""), "@a:x.org", "2"));
    t.append_pdu(event("$a", "m.room.name", Some(""), "@a:x.org", "3"));
    assert_eq!(t.get_pdu("$a").unwrap().content, "1");
    assert_eq!(t.get_pdu("$b").unwrap().content, "2");
    assert!(t.get_pdu("$c").is_none());
    let stripped = t.get_pdu("$b").unwrap().to_stripped_state_event();
    assert_eq!(
        (stripped.content.as_str(), stripped.kind.as_str(), stripped.sender.as_str(), stripped.state_key.as_deref()),
        ("2", "m.room.name", "@a:x.org", Some(""))
    );
}

#[test]
fn many_appends_keep_every_state_readable() {
    let mut svc = Service::new();
    let mut hashes = Vec::new();
    for i in 0..120u32 {
        let id = format!("$e{}", i);
        let key = format!("@u{}:example.org", i % 7);
        let pdu = member(&id, &key, if i % 2 == 0 { "join" } else { "leave" });
        hashes.push(commit(&mut svc, &pdu));
    }
    for (i, h) in hashes.iter().enumerate() {
        let chain = svc.state_compressor.load_shortstatehash_info(*h).unwrap();
        assert!(chain.len() <= 101);
        assert_eq!(chain[chain.len() - 1].full.len(), (i + 1).min(7));
        assert!(svc.state_compressor.get_statediff(*h).unwrap().depth <= 100);
    }
    for u in 0..7u32 {
        let key = format!("@u{}:example.org", u);
        let last = (0..120u32).filter(|i| i % 7 == u).max().unwrap();
        assert_eq!(svc.room_state_get_id(ROOM, "m.room.member", &key).unwrap(), Some(format!("$e{}", last)));
    }
}
