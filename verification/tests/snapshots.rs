use roomstate::digest::{calculate_hash, hash_input};
use roomstate::error::ErrorKind;
use roomstate::state_compressor::{compress_state_event, StateCompressor, StateInfo, DEPTH_THRESHOLD};
use roomstate::state_diff::StateDiff;
use roomstate::state_set::StateSet;
use roomstate::tree::Tree;

fn blobs(pairs: &[(u64, u64)]) -> StateSet {
    let mut s = StateSet::new();
    for (k, e) in pairs {
        s.insert(compress_state_event(*k, *e));
    }
    s
}

fn no_parents() -> Vec<StateInfo> {
    Vec::new()
}

#[test]
fn record_bytes_are_header_then_added_then_removed() {
    let d = StateDiff { parent: Some(7), depth: 3, added: blobs(&[(1, 2)]), removed: blobs(&[(1, 1)]) };
    let bytes = d.encode().unwrap();
    let mut want = vec![0, 0, 0, 0, 0, 0, 0, 7, 0, 0, 0, 3, 0, 0, 0, 1];
    want.extend_from_slice(&compress_state_event(1, 2));
    want.extend_from_slice(&compress_state_event(1, 1));
    assert_eq!(bytes, want);
    let flat = StateDiff { parent: None, depth: 0, added: StateSet::new(), removed: StateSet::new() };
    assert_eq!(flat.encode().unwrap(), vec![0u8; 16]);
}

#[test]
fn record_decodes_to_what_was_encoded() {
    let d = StateDiff { parent: Some(9), depth: 2, added: blobs(&[(3, 1), (1, 5), (2, 2)]), removed: blobs(&[(4, 4)]) };
    let back = StateDiff::decode(&d.encode().unwrap()).unwrap();
    assert_eq!(back.parent, Some(9));
    assert_eq!(back.depth, 2);
    assert_eq!(back.added.to_vec(), d.added.to_vec());
    assert_eq!(back.removed.to_vec(), d.removed.to_vec());
    let flat = StateDiff::decode(&[0u8; 16]).unwrap();
    assert_eq!(flat.parent, None);
    assert!(flat.added.is_empty() && flat.removed.is_empty());
}

#[test]
fn record_with_bad_shape_is_bad_database() {
    assert_eq!(StateDiff::decode(&[]).err().unwrap().kind(), ErrorKind::BadDatabase);
    assert_eq!(StateDiff::decode(&[0u8; 15]).err().unwrap().kind(), ErrorKind::BadDatabase);
    assert_eq!(StateDiff::decode(&[0u8; 17]).err().unwrap().kind(), ErrorKind::BadDatabase);
    // The header counts one added blob, and none follows.
    let mut short = vec![0u8; 16];
    short[15] = 1;
    assert_eq!(StateDiff::decode(&short).err().unwrap().kind(), ErrorKind::BadDatabase);
    short.extend_from_slice(&[0u8; 16]);
    assert!(StateDiff::decode(&short).is_ok());
}

#[test]
fn first_snapshot_is_flat() {
    let mut c = StateCompressor::new();
    c.save_state_from_diff(1, blobs(&[(1, 1)]), StateSet::new(), 2, no_parents()).unwrap();
    let d = c.get_statediff(1).unwrap();
    assert_eq!(d.parent, None);
    assert_eq!(d.depth, 0);
    assert_eq!(d.added.to_vec(), vec![compress_state_event(1, 1)]);
    assert!(d.removed.is_empty());
    let chain = c.load_shortstatehash_info(1).unwrap();
    assert_eq!(chain.len(), 1);
    assert_eq!(chain[0].shortstatehash, 1);
    assert_eq!(chain[0].full.to_vec(), vec![compress_state_event(1, 1)]);
}

#[test]
fn flatten_is_parent_without_removed_with_added() {
    let mut c = StateCompressor::new();
    let base: Vec<(u64, u64)> = (1..=10).map(|k| (k, k)).collect();
    c.save_state_from_diff(1, blobs(&base), StateSet::new(), 2, no_parents()).unwrap();
    let parents = c.load_shortstatehash_info(1).unwrap();
    c.save_state_from_diff(2, blobs(&[(3, 30), (11, 11)]), blobs(&[(3, 3)]), 2, parents).unwrap();
    let d = c.get_statediff(2).unwrap();
    assert_eq!(d.parent, Some(1));
    assert_eq!(d.depth, 1);
    let chain = c.load_shortstatehash_info(2).unwrap();
    assert_eq!(chain.len(), 2);
    let mut want: Vec<(u64, u64)> = base.iter().copied().filter(|p| *p != (3, 3)).collect();
    want.push((3, 30));
    want.push((11, 11));
    assert_eq!(chain[1].full.to_vec(), blobs(&want).to_vec());
    assert_eq!(chain[1].added.to_vec(), blobs(&[(3, 30), (11, 11)]).to_vec());
    assert_eq!(chain[1].removed.to_vec(), blobs(&[(3, 3)]).to_vec());
    // The parent is as it was.
    assert_eq!(c.load_shortstatehash_info(1).unwrap()[0].full.to_vec(), blobs(&base).to_vec());
}

#[test]
fn costly_diff_is_stored_flat() {
    let mut c = StateCompressor::new();
    c.save_state_from_diff(1, blobs(&[(1, 1), (2, 2), (3, 3)]), StateSet::new(), 2, no_parents()).unwrap();
    // One added, one removed, budget two: four is not less than the three of the full state.
    let parents = c.load_shortstatehash_info(1).unwrap();
    c.save_state_from_diff(2, blobs(&[(1, 9)]), blobs(&[(1, 1)]), 2, parents).unwrap();
    let d = c.get_statediff(2).unwrap();
    assert_eq!(d.parent, None);
    assert_eq!(d.depth, 0);
    assert_eq!(d.added.to_vec(), blobs(&[(1, 9), (2, 2), (3, 3)]).to_vec());
    assert!(d.removed.is_empty());
    // One added, budget two: two is less than the four of the full state.
    let parents = c.load_shortstatehash_info(2).unwrap();
    c.save_state_from_diff(3, blobs(&[(4, 4)]), StateSet::new(), 2, parents).unwrap();
    assert_eq!(c.get_statediff(3).unwrap().parent, Some(2));
    // A large budget asks for a flat record.
    let parents = c.load_shortstatehash_info(3).unwrap();
    c.save_state_from_diff(4, blobs(&[(5, 5)]), StateSet::new(), 1_000_000, parents).unwrap();
    assert_eq!(c.get_statediff(4).unwrap().parent, None);
    assert_eq!(c.load_shortstatehash_info(4).unwrap()[0].full.len(), 5);
}

#[test]
fn depth_flattening_after_one_hundred_diffs() {
    let mut c = StateCompressor::new();
    // The empty state, and then 101 updates of one added blob each.
    c.save_state_from_diff(1, StateSet::new(), StateSet::new(), 0, no_parents()).unwrap();
    for i in 1..=101u64 {
        let parents = c.load_shortstatehash_info(i).unwrap();
        assert_eq!(parents.len() as u64, if i <= 101 { i } else { 1 });
        c.save_state_from_diff(i + 1, blobs(&[(i, i)]), StateSet::new(), 0, parents).unwrap();
    }
    for i in 1..=100u64 {
        let d = c.get_statediff(i + 1).unwrap();
        assert_eq!(d.parent, Some(i));
        assert_eq!(d.depth as u64, i);
    }
    assert_eq!(c.get_statediff(101).unwrap().depth, DEPTH_THRESHOLD);
    let last = c.get_statediff(102).unwrap();
    assert_eq!(last.parent, None);
    assert_eq!(last.depth, 0);
    assert_eq!(last.added.len(), 101);
    assert_eq!(c.load_shortstatehash_info(102).unwrap().len(), 1);
    assert_eq!(c.load_shortstatehash_info(101).unwrap().len(), 101);
}

#[test]
fn depth_flattening_on_a_large_state() {
    let mut c = StateCompressor::new();
    let base: Vec<(u64, u64)> = (1..=50).map(|k| (k, 0)).collect();
    c.save_state_from_diff(1, blobs(&base), StateSet::new(), 2, no_parents()).unwrap();
    for i in 1..=101u64 {
        let parents = c.load_shortstatehash_info(i).unwrap();
        c.save_state_from_diff(i + 1, blobs(&[(1000 + i, i)]), StateSet::new(), 2, parents).unwrap();
    }
    assert_eq!(c.get_statediff(101).unwrap().depth, 100);
    assert_eq!(c.get_statediff(101).unwrap().parent, Some(100));
    assert_eq!(c.get_statediff(102).unwrap().parent, None);
    assert_eq!(c.get_statediff(102).unwrap().added.len(), 151);
}

#[test]
fn save_refuses_bad_numbers() {
    let mut c = StateCompressor::new();
    assert_eq!(
        c.save_state_from_diff(0, StateSet::new(), StateSet::new(), 2, no_parents()).unwrap_err().kind(),
        ErrorKind::BadRequest
    );
    c.save_state_from_diff(5, blobs(&[(1, 1), (2, 2), (3, 3)]), StateSet::new(), 2, no_parents()).unwrap();
    // Taken.
    assert_eq!(
        c.save_state_from_diff(5, StateSet::new(), StateSet::new(), 2, no_parents()).unwrap_err().kind(),
        ErrorKind::BadRequest
    );
    // The parent is not older.
    let parents = c.load_shortstatehash_info(5).unwrap();
    assert_eq!(
        c.save_state_from_diff(4, blobs(&[(9, 9)]), StateSet::new(), 2, parents).unwrap_err().kind(),
        ErrorKind::BadRequest
    );
    assert!(c.get_statediff(4).is_err());
    assert_eq!(c.tree().len(), 1);
}

#[test]
fn load_refuses_broken_chains() {
    let c = StateCompressor::new();
    assert_eq!(c.load_shortstatehash_info(1).err().unwrap().kind(), ErrorKind::BadDatabase);
    // A record whose parent is itself.
    let mut t = Tree::new();
    let own = StateDiff { parent: Some(3), depth: 1, added: StateSet::new(), removed: StateSet::new() };
    t.insert(&[0, 0, 0, 0, 0, 0, 0, 3], &own.encode().unwrap());
    let c = StateCompressor::from_tree(t);
    assert!(c.get_statediff(3).is_ok());
    assert_eq!(c.load_shortstatehash_info(3).err().unwrap().kind(), ErrorKind::BadDatabase);
    // A flat record that claims a depth, and a diff whose depth does not follow its parent's.
    let mut t = Tree::new();
    let deep_flat = StateDiff { parent: None, depth: 4, added: StateSet::new(), removed: StateSet::new() };
    t.insert(&[0, 0, 0, 0, 0, 0, 0, 1], &deep_flat.encode().unwrap());
    let flat = StateDiff { parent: None, depth: 0, added: StateSet::new(), removed: StateSet::new() };
    t.insert(&[0, 0, 0, 0, 0, 0, 0, 2], &flat.encode().unwrap());
    let skipping = StateDiff { parent: Some(2), depth: 2, added: StateSet::new(), removed: StateSet::new() };
    t.insert(&[0, 0, 0, 0, 0, 0, 0, 3], &skipping.encode().unwrap());
    t.insert(&[0, 0, 0, 0, 0, 0, 0, 4], b"junk");
    let c = StateCompressor::from_tree(t);
    assert!(c.load_shortstatehash_info(1).is_err());
    assert!(c.load_shortstatehash_info(2).is_ok());
    assert!(c.load_shortstatehash_info(3).is_err());
    assert_eq!(c.get_statediff(4).err().unwrap().kind(), ErrorKind::BadDatabase);
}

#[test]
fn state_hash_is_sha256_of_sorted_blobs() {
    let empty = calculate_hash(&StateSet::new());
    let want: [u8; 32] = [
        0xe3, 0xb0, 0xc4, 0x42, 0x98, 0xfc, 0x1c, 0x14, 0x9a, 0xfb, 0xf4, 0xc8, 0x99, 0x6f, 0xb9, 0x24, 0x27, 0xae,
        0x41, 0xe4, 0x64, 0x9b, 0x93, 0x4c, 0xa4, 0x95, 0x99, 0x1b, 0x78, 0x52, 0xb8, 0x55,
    ];
    assert_eq!(empty, want.to_vec());
    let a = blobs(&[(2, 2), (1, 1)]);
    let b = blobs(&[(1, 1), (2, 2)]);
    let mut input = compress_state_event(1, 1).to_vec();
    input.extend_from_slice(&compress_state_event(2, 2));
    assert_eq!(hash_input(&a), input);
    assert_eq!(calculate_hash(&a), calculate_hash(&b));
    assert_eq!(calculate_hash(&a).len(), 32);
    assert_ne!(calculate_hash(&a), empty);
    assert_ne!(calculate_hash(&a), calculate_hash(&blobs(&[(1, 1)])));
}
