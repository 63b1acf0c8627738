use roomstate::error::ErrorKind;
use roomstate::globals::Globals;
use roomstate::short::ShortIds;
use roomstate::tree::Tree;

#[test]
fn counter_starts_at_one_and_counts_up() {
    let mut g = Globals::new();
    assert_eq!(g.current_count().unwrap(), 0);
    assert_eq!(g.next_count().unwrap(), 1);
    assert_eq!(g.next_count().unwrap(), 2);
    assert_eq!(g.current_count().unwrap(), 2);
    assert_eq!(g.tree().get(b"c"), Some(vec![0, 0, 0, 0, 0, 0, 0, 2]));
}

#[test]
fn counter_refuses_bad_bytes_and_its_limit() {
    let mut t = Tree::new();
    t.insert(b"c", b"123");
    let mut g = Globals::from_tree(t);
    assert_eq!(g.current_count().unwrap_err().kind(), ErrorKind::BadDatabase);
    assert_eq!(g.next_count().unwrap_err().kind(), ErrorKind::BadDatabase);
    let mut t = Tree::new();
    t.insert(b"c", &[0xff; 8]);
    let mut g = Globals::from_tree(t);
    assert_eq!(g.current_count().unwrap(), u64::MAX);
    assert_eq!(g.next_count().unwrap_err().kind(), ErrorKind::BadDatabase);
    assert_eq!(g.current_count().unwrap(), u64::MAX);
}

#[test]
fn short_event_id_is_the_same_on_every_call() {
    let mut g = Globals::new();
    let mut s = ShortIds::new();
    let a = s.get_or_create_shorteventid("$a:example.org", &mut g).unwrap();
    assert_eq!(a, 1);
    let b = s.get_or_create_shorteventid("$b:example.org", &mut g).unwrap();
    assert_eq!(b, 2);
    for _ in 0..3 {
        assert_eq!(s.get_or_create_shorteventid("$a:example.org", &mut g).unwrap(), a);
        assert_eq!(s.get_or_create_shorteventid("$b:example.org", &mut g).unwrap(), b);
    }
    assert_eq!(g.current_count().unwrap(), 2);
    assert_eq!(s.get_eventid_from_short(a).unwrap(), "$a:example.org");
    assert_eq!(s.get_eventid_from_short(b).unwrap(), "$b:example.org");
}

#[test]
fn distinct_inputs_get_distinct_short_ids() {
    let mut g = Globals::new();
    let mut s = ShortIds::new();
    let mut seen = Vec::new();
    for id in ["$1", "$2", "$12", "$21", "$é"] {
        seen.push(s.get_or_create_shorteventid(id, &mut g).unwrap());
    }
    for (t, k) in [("m.room.member", "@a:x"), ("m.room.member", "@b:x"), ("m.room.name", ""), ("m.room.membe", "r"), ("m.room", ".member")] {
        seen.push(s.get_or_create_shortstatekey(t, k, &mut g).unwrap());
    }
    seen.push(s.get_or_create_shortstatehash(&[1u8; 32], &mut g).unwrap().0);
    seen.push(s.get_or_create_shortstatehash(&[2u8; 32], &mut g).unwrap().0);
    let mut sorted = seen.clone();
    sorted.sort();
    sorted.dedup();
    assert_eq!(sorted.len(), seen.len());
    assert_eq!(seen, (1..=12).collect::<Vec<u64>>());
}

#[test]
fn empty_event_id_is_a_bad_request_and_allocates_nothing() {
    let mut g = Globals::new();
    let mut s = ShortIds::new();
    assert_eq!(s.get_or_create_shorteventid("", &mut g).unwrap_err().kind(), ErrorKind::BadRequest);
    assert_eq!(g.current_count().unwrap(), 0);
    assert_eq!(s.get_or_create_shorteventid("$x", &mut g).unwrap(), 1);
}

#[test]
fn malformed_type_is_a_bad_request_and_allocates_nothing() {
    let mut g = Globals::new();
    let mut s = ShortIds::new();
    assert_eq!(s.get_or_create_shortstatekey("", "k", &mut g).unwrap_err().kind(), ErrorKind::BadRequest);
    assert_eq!(s.get_or_create_shortstatekey("m.röom", "k", &mut g).unwrap_err().kind(), ErrorKind::BadRequest);
    assert_eq!(s.get_shortstatekey("", "k").unwrap_err().kind(), ErrorKind::BadRequest);
    assert_eq!(g.current_count().unwrap(), 0);
}

#[test]
fn short_state_key_lookup_and_key_layout() {
    let mut g = Globals::new();
    let mut s = ShortIds::new();
    assert_eq!(s.get_shortstatekey("m.room.member", "@alice:example.org").unwrap(), None);
    let k = s.get_or_create_shortstatekey("m.room.member", "@alice:example.org", &mut g).unwrap();
    assert_eq!(s.get_shortstatekey("m.room.member", "@alice:example.org").unwrap(), Some(k));
    assert_eq!(s.get_or_create_shortstatekey("m.room.member", "@alice:example.org", &mut g).unwrap(), k);
    assert_eq!(ShortIds::state_key_of("m.room.name", ""), b"m.room.name\xff".to_vec());
    assert_eq!(ShortIds::state_key_of("a", "bé"), b"a\xffb\xc3\xa9".to_vec());
}

#[test]
fn state_hash_says_whether_it_existed() {
    let mut g = Globals::new();
    let mut s = ShortIds::new();
    assert_eq!(s.get_or_create_shortstatehash(&[7u8; 32], &mut g).unwrap(), (1, false));
    assert_eq!(s.get_or_create_shortstatehash(&[7u8; 32], &mut g).unwrap(), (1, true));
    assert_eq!(s.get_or_create_shortstatehash(&[8u8; 32], &mut g).unwrap(), (2, false));
    assert_eq!(s.get_or_create_shortstatehash(&[8u8; 31], &mut g).unwrap_err().kind(), ErrorKind::BadRequest);
    assert_eq!(s.get_or_create_shortstatehash(&[], &mut g).unwrap_err().kind(), ErrorKind::BadRequest);
    assert_eq!(g.current_count().unwrap(), 2);
}

#[test]
fn unknown_short_event_id_is_bad_database() {
    let s = ShortIds::new();
    assert_eq!(s.get_eventid_from_short(5).unwrap_err().kind(), ErrorKind::BadDatabase);
}

#[test]
fn exhausted_counter_fails_new_ids_only() {
    let mut g = Globals::new();
    let mut s = ShortIds::new();
    let a = s.get_or_create_shorteventid("$a", &mut g).unwrap();
    let mut t = Tree::new();
    t.insert(b"c", &[0xff; 8]);
    let mut full = Globals::from_tree(t);
    assert_eq!(s.get_or_create_shorteventid("$a", &mut full).unwrap(), a);
    assert_eq!(s.get_or_create_shorteventid("$new", &mut full).unwrap_err().kind(), ErrorKind::BadDatabase);
}
