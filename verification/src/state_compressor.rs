//! Compressed state events and sets of them.
//!
//! One state event of a room is stored as sixteen bytes: the short state key
//! and the short event id, each big-endian. A room state is a set of such
//! blobs, kept in byte order so that the blobs of one state key lie together.

use crate::bytes::{
    has_prefix, lemma_u64_be_bytes_roundtrip, lemma_u64_be_roundtrip, spec_u64_from_be_bytes, spec_u64_to_be_bytes,
    read_u64, u64_to_be_bytes,
};
use crate::error::{Error, Result};
use crate::state_diff::{
    encodable, lemma_decode_encode, lemma_decoded_sets, spec_decode_diff, spec_encode_diff, DiffView, StateDiff,
};
use crate::state_set::StateSet;
use crate::tree::Tree;
use vstd::prelude::*;

verus! {

/// A short state key and a short event id, sixteen bytes.
pub type CompressedStateEvent = [u8; 16];

/// The blob for a short state key and a short event id.
pub open spec fn spec_compress(shortstatekey: u64, shorteventid: u64) -> Seq<u8> {
    spec_u64_to_be_bytes(shortstatekey) + spec_u64_to_be_bytes(shorteventid)
}

/// The two numbers that a blob of sixteen bytes holds; nothing for any other length.
pub open spec fn spec_parse(blob: Seq<u8>) -> Option<(u64, u64)> {
    if blob.len() == 16 {
        Some((spec_u64_from_be_bytes(blob.subrange(0, 8)), spec_u64_from_be_bytes(blob.subrange(8, 16))))
    } else {
        None
    }
}

/// Parsing a compressed pair gives the pair back.
pub proof fn lemma_parse_compress(shortstatekey: u64, shorteventid: u64)
    ensures
        spec_compress(shortstatekey, shorteventid).len() == 16,
        spec_parse(spec_compress(shortstatekey, shorteventid)) == Some((shortstatekey, shorteventid)),
        has_prefix(spec_compress(shortstatekey, shorteventid), spec_u64_to_be_bytes(shortstatekey)),
{
    let a = spec_u64_to_be_bytes(shortstatekey);
    let b = spec_u64_to_be_bytes(shorteventid);
    lemma_u64_be_roundtrip(shortstatekey);
    lemma_u64_be_roundtrip(shorteventid);
    assert((a + b).subrange(0, 8) =~= a);
    assert((a + b).subrange(8, 16) =~= b);
    assert((a + b).take(8) =~= a);
}

/// Compressing what a blob parses to gives the blob back.
pub proof fn lemma_compress_parse(blob: Seq<u8>)
    requires
        blob.len() == 16,
    ensures
        spec_compress(spec_parse(blob).unwrap().0, spec_parse(blob).unwrap().1) == blob,
{
    lemma_u64_be_bytes_roundtrip(blob.subrange(0, 8));
    lemma_u64_be_bytes_roundtrip(blob.subrange(8, 16));
    assert(blob.subrange(0, 8) + blob.subrange(8, 16) =~= blob);
}

/// A blob with the prefix of a short state key parses to that key.
pub proof fn lemma_prefix_is_key(blob: Seq<u8>, shortstatekey: u64)
    requires
        blob.len() == 16,
    ensures
        has_prefix(blob, spec_u64_to_be_bytes(shortstatekey)) <==> spec_parse(blob).unwrap().0 == shortstatekey,
{
    lemma_u64_be_roundtrip(shortstatekey);
    lemma_u64_be_bytes_roundtrip(blob.subrange(0, 8));
    assert(blob.take(8) =~= blob.subrange(0, 8));
}

/// Packs a short state key and a short event id into one blob.
pub fn compress_state_event(shortstatekey: u64, shorteventid: u64) -> (blob: CompressedStateEvent)
    ensures
        blob@ == spec_compress(shortstatekey, shorteventid),
        spec_parse(blob@) == Some((shortstatekey, shorteventid)),
        has_prefix(blob@, spec_u64_to_be_bytes(shortstatekey)),
{
    let a = u64_to_be_bytes(shortstatekey);
    let b = u64_to_be_bytes(shorteventid);
    let blob: CompressedStateEvent = [
        a[0],
        a[1],
        a[2],
        a[3],
        a[4],
        a[5],
        a[6],
        a[7],
        b[0],
        b[1],
        b[2],
        b[3],
        b[4],
        b[5],
        b[6],
        b[7],
    ];
    proof {
        lemma_u64_be_roundtrip(shortstatekey);
        lemma_u64_be_roundtrip(shorteventid);
        assert(blob@ =~= spec_compress(shortstatekey, shorteventid));
        lemma_parse_compress(shortstatekey, shorteventid);
    }
    blob
}

/// Unpacks a blob; one that is not sixteen bytes long is refused.
pub fn parse_compressed_state_event(blob: &[u8]) -> (r: Result<(u64, u64)>)
    ensures
        match r {
            Ok(pair) => spec_parse(blob@) == Some(pair),
            Err(e) => spec_parse(blob@).is_none() && e is BadDatabase,
        },
{
    if blob.len() != 16 {
        return Err(Error::BadDatabase("Invalid compressed state event in db."));
    }
    Ok((read_u64(blob, 0), read_u64(blob, 8)))
}

/// A keyspace as plain values.
pub type Db = Map<Seq<u8>, Seq<u8>>;

/// A snapshot whose parent has this depth, or a greater one, is stored flat.
pub const DEPTH_THRESHOLD: u32 = 100;

/// One snapshot of an ancestor chain, with the state it stands for.
pub struct StateInfo {
    /// The short state hash of the snapshot.
    pub shortstatehash: u64,
    /// The depth of its record.
    pub depth: u32,
    /// The state of the room at this snapshot.
    pub full: StateSet,
    /// What its record adds.
    pub added: StateSet,
    /// What its record removes.
    pub removed: StateSet,
}

/// A snapshot of a chain as plain values.
pub struct InfoView {
    pub shortstatehash: u64,
    pub depth: u32,
    pub full: Set<Seq<u8>>,
    pub added: Set<Seq<u8>>,
    pub removed: Set<Seq<u8>>,
}

impl View for StateInfo {
    type V = InfoView;

    open spec fn view(&self) -> InfoView {
        InfoView {
            shortstatehash: self.shortstatehash,
            depth: self.depth,
            full: self.full@,
            added: self.added@,
            removed: self.removed@,
        }
    }
}

/// The snapshots of `chain`, each taken by its view.
pub open spec fn infos_of(chain: Seq<StateInfo>) -> Seq<InfoView> {
    Seq::new(chain.len(), |i: int| chain[i]@)
}

/// The state that results when `removed` leaves `base` and `added` joins it.
pub open spec fn apply_diff(base: Set<Seq<u8>>, added: Set<Seq<u8>>, removed: Set<Seq<u8>>) -> Set<Seq<u8>> {
    base.difference(removed).union(added)
}

/// The record stored under `shortstatehash`, if one is stored and its bytes hold one.
pub open spec fn spec_record(db: Db, shortstatehash: u64) -> Option<DiffView> {
    let key = spec_u64_to_be_bytes(shortstatehash);
    if db.dom().contains(key) {
        spec_decode_diff(db[key])
    } else {
        None
    }
}

/// The ancestors of a snapshot, oldest first and the snapshot itself last,
/// each with its state. There is none where a record is missing or
/// unreadable, where a parent is not older than its child, or where the
/// depths do not count up from zero at the flat record.
pub open spec fn spec_chain(db: Db, shortstatehash: u64) -> Option<Seq<InfoView>>
    decreases shortstatehash,
{
    match spec_record(db, shortstatehash) {
        None => None,
        Some(d) => match d.parent {
            None => if d.depth == 0 {
                Some(
                    seq![
                        InfoView {
                            shortstatehash,
                            depth: 0,
                            full: d.added,
                            added: d.added,
                            removed: d.removed,
                        },
                    ],
                )
            } else {
                None
            },
            Some(p) => if p < shortstatehash {
                match spec_chain(db, p) {
                    Some(c) => if c.len() > 0 && d.depth == c.last().depth + 1 {
                        Some(
                            c.push(
                                InfoView {
                                    shortstatehash,
                                    depth: d.depth,
                                    full: apply_diff(c.last().full, d.added, d.removed),
                                    added: d.added,
                                    removed: d.removed,
                                },
                            ),
                        )
                    } else {
                        None
                    },
                    None => None,
                }
            } else {
                None
            },
        },
    }
}

/// The state of a snapshot: that of its parent without what its record
/// removes and with what it adds; of a flat record, what it adds.
pub open spec fn spec_flatten(db: Db, shortstatehash: u64) -> Option<Set<Seq<u8>>> {
    match spec_chain(db, shortstatehash) {
        Some(c) => Some(c.last().full),
        None => None,
    }
}

/// Whether a new snapshot is stored flat: it has no parent, or its parent is
/// as deep as the threshold, or the diff, taken as many times as children
/// are expected, is not smaller than the whole state.
pub open spec fn spec_store_flat(
    added: Set<Seq<u8>>,
    removed: Set<Seq<u8>>,
    diff_budget: int,
    parent: Option<InfoView>,
) -> bool {
    match parent {
        None => true,
        Some(p) => p.depth >= DEPTH_THRESHOLD || (added.len() + removed.len()) * diff_budget >= apply_diff(
            p.full,
            added,
            removed,
        ).len(),
    }
}

/// The state of a new snapshot.
pub open spec fn spec_new_full(added: Set<Seq<u8>>, removed: Set<Seq<u8>>, parent: Option<InfoView>) -> Set<
    Seq<u8>,
> {
    match parent {
        None => added,
        Some(p) => apply_diff(p.full, added, removed),
    }
}

/// The record written for a new snapshot.
pub open spec fn spec_new_record(
    added: Set<Seq<u8>>,
    removed: Set<Seq<u8>>,
    diff_budget: int,
    parent: Option<InfoView>,
) -> DiffView {
    if spec_store_flat(added, removed, diff_budget, parent) {
        DiffView { parent: None, depth: 0, added: spec_new_full(added, removed, parent), removed: Set::empty() }
    } else {
        DiffView {
            parent: Some(parent.unwrap().shortstatehash),
            depth: (parent.unwrap().depth + 1) as u32,
            added,
            removed,
        }
    }
}

/// The last snapshot of a chain, if it has one.
pub open spec fn tip(chain: Seq<InfoView>) -> Option<InfoView> {
    if chain.len() > 0 {
        Some(chain.last())
    } else {
        None
    }
}

/// Whether a snapshot may be written under `shortstatehash` on top of
/// `parent`: the number is not zero and not taken, and the parent has an
/// older number that is not zero.
pub open spec fn spec_may_save(db: Db, shortstatehash: u64, parent: Option<InfoView>) -> bool {
    &&& shortstatehash != 0
    &&& !db.dom().contains(spec_u64_to_be_bytes(shortstatehash))
    &&& parent matches Some(p) ==> 0 < p.shortstatehash < shortstatehash
}

/// A finite set of blobs of sixteen bytes each.
pub open spec fn blob_set(set: Set<Seq<u8>>) -> bool {
    set.finite() && forall|b: Seq<u8>| set.contains(b) ==> b.len() == 16
}

/// Every state along a chain, and what each record adds and removes, is a
/// finite set of sixteen-byte blobs.
pub proof fn lemma_chain_sets(db: Db, shortstatehash: u64)
    requires
        spec_chain(db, shortstatehash).is_some(),
    ensures
        forall|i: int|
            0 <= i < spec_chain(db, shortstatehash).unwrap().len() ==> {
                let info = #[trigger] spec_chain(db, shortstatehash).unwrap()[i];
                blob_set(info.full) && blob_set(info.added) && blob_set(info.removed)
            },
    decreases shortstatehash,
{
    let d = spec_record(db, shortstatehash).unwrap();
    lemma_decoded_sets(db[spec_u64_to_be_bytes(shortstatehash)]);
    match d.parent {
        Some(p) => {
            lemma_chain_sets(db, p);
            let c = spec_chain(db, p).unwrap();
            assert(blob_set(c[c.len() - 1].full));
            let full = apply_diff(c.last().full, d.added, d.removed);
            assert(c.last().full.difference(d.removed).finite());
            assert(blob_set(full));
            let chain = spec_chain(db, shortstatehash).unwrap();
            assert forall|i: int| 0 <= i < chain.len() implies {
                let info = #[trigger] chain[i];
                blob_set(info.full) && blob_set(info.added) && blob_set(info.removed)
            } by {
                if i < c.len() {
                    assert(chain[i] == c[i]);
                }
            }
        },
        None => {},
    }
}

/// Whether writing the new snapshot succeeds: it may be written, and its
/// record can count what it adds.
pub open spec fn spec_save_ok(
    db: Db,
    shortstatehash: u64,
    added: Set<Seq<u8>>,
    removed: Set<Seq<u8>>,
    diff_budget: int,
    parent: Option<InfoView>,
) -> bool {
    spec_may_save(db, shortstatehash, parent) && spec_new_record(added, removed, diff_budget, parent).added.len()
        <= u32::MAX
}

/// The records after the new snapshot is written.
pub open spec fn spec_saved(
    db: Db,
    shortstatehash: u64,
    added: Set<Seq<u8>>,
    removed: Set<Seq<u8>>,
    diff_budget: int,
    parent: Option<InfoView>,
) -> Db {
    db.insert(
        spec_u64_to_be_bytes(shortstatehash),
        spec_encode_diff(spec_new_record(added, removed, diff_budget, parent)),
    )
}

/// Every stored record is at most as deep as the threshold.
pub open spec fn depth_bounded(db: Db) -> bool {
    forall|h: u64| (#[trigger] spec_record(db, h)) matches Some(d) ==> d.depth <= DEPTH_THRESHOLD
}

/// Different numbers have different bytes.
pub proof fn lemma_be_bytes_injective(a: u64, b: u64)
    requires
        spec_u64_to_be_bytes(a) == spec_u64_to_be_bytes(b),
    ensures
        a == b,
{
    lemma_u64_be_roundtrip(a);
    lemma_u64_be_roundtrip(b);
}

/// A record written under a number leaves the chains of all smaller numbers as they were.
pub proof fn lemma_chain_frame(db: Db, shortstatehash: u64, bytes: Seq<u8>, older: u64)
    requires
        older < shortstatehash,
    ensures
        spec_chain(db.insert(spec_u64_to_be_bytes(shortstatehash), bytes), older) == spec_chain(db, older),
    decreases older,
{
    let db2 = db.insert(spec_u64_to_be_bytes(shortstatehash), bytes);
    if spec_u64_to_be_bytes(older) == spec_u64_to_be_bytes(shortstatehash) {
        lemma_be_bytes_injective(older, shortstatehash);
    }
    assert(spec_record(db2, older) == spec_record(db, older));
    match spec_record(db, older) {
        Some(d) => {
            match d.parent {
                Some(p) => {
                    if p < older {
                        lemma_chain_frame(db, shortstatehash, bytes, p);
                    }
                },
                None => {},
            }
        },
        None => {},
    }
}

/// A chain is as long as its last record is deep, and one more; it ends in
/// the snapshot asked for, and the depths count up from zero.
pub proof fn lemma_chain_shape(db: Db, shortstatehash: u64)
    requires
        spec_chain(db, shortstatehash).is_some(),
    ensures
        ({
            let c = spec_chain(db, shortstatehash).unwrap();
            &&& c.len() > 0
            &&& c.last().shortstatehash == shortstatehash
            &&& spec_record(db, shortstatehash).unwrap().depth == c.last().depth
            &&& forall|i: int| 0 <= i < c.len() ==> (#[trigger] c[i]).depth == i
        }),
    decreases shortstatehash,
{
    let d = spec_record(db, shortstatehash).unwrap();
    match d.parent {
        Some(p) => {
            lemma_chain_shape(db, p);
        },
        None => {},
    }
}

/// Where no record is deeper than the threshold, no chain has more
/// snapshots than the threshold and one: at most `DEPTH_THRESHOLD` diffs are
/// applied to a flat state to rebuild any state.
pub proof fn lemma_chain_bounded(db: Db, shortstatehash: u64)
    requires
        depth_bounded(db),
        spec_chain(db, shortstatehash).is_some(),
    ensures
        spec_chain(db, shortstatehash).unwrap().len() <= DEPTH_THRESHOLD + 1,
{
    lemma_chain_shape(db, shortstatehash);
}

/// The state of a new snapshot is its parent's state without what was
/// removed and with what was added, whether it was stored flat or as a diff;
/// the snapshot's chain is loadable, older snapshots keep their states, and
/// no record gets deeper than the threshold.
pub proof fn lemma_save_state_from_diff(
    db: Db,
    shortstatehash: u64,
    added: Set<Seq<u8>>,
    removed: Set<Seq<u8>>,
    diff_budget: int,
    chain: Seq<InfoView>,
)
    requires
        spec_save_ok(db, shortstatehash, added, removed, diff_budget, tip(chain)),
        chain.len() > 0 ==> spec_chain(db, chain.last().shortstatehash) == Some(chain),
        added.finite(),
        removed.finite(),
        forall|b: Seq<u8>| added.contains(b) ==> b.len() == 16,
        forall|b: Seq<u8>| removed.contains(b) ==> b.len() == 16,
        chain.len() > 0 ==> chain.last().full.finite() && forall|b: Seq<u8>|
            chain.last().full.contains(b) ==> b.len() == 16,
    ensures
        ({
            let after = spec_saved(db, shortstatehash, added, removed, diff_budget, tip(chain));
            &&& spec_flatten(after, shortstatehash) == Some(spec_new_full(added, removed, tip(chain)))
            &&& chain.len() > 0 ==> spec_flatten(after, shortstatehash) == Some(
                apply_diff(spec_flatten(db, chain.last().shortstatehash).unwrap(), added, removed),
            )
            &&& forall|older: u64| older < shortstatehash ==> #[trigger] spec_chain(after, older) == spec_chain(db, older)
            &&& spec_record(after, shortstatehash).unwrap().depth <= DEPTH_THRESHOLD
            &&& depth_bounded(db) ==> depth_bounded(after)
        }),
{
    let record = spec_new_record(added, removed, diff_budget, tip(chain));
    let bytes = spec_encode_diff(record);
    let after = spec_saved(db, shortstatehash, added, removed, diff_budget, tip(chain));
    assert(encodable(record)) by {
        if chain.len() > 0 {
            assert(chain.last().full.difference(removed).finite());
            assert(chain.last().full.difference(removed).union(added).finite());
        }
    }
    lemma_decode_encode(record);
    assert(spec_record(after, shortstatehash) == Some(record));
    assert forall|older: u64| older < shortstatehash implies #[trigger] spec_chain(after, older) == spec_chain(
        db,
        older,
    ) by {
        lemma_chain_frame(db, shortstatehash, bytes, older);
    }
    if chain.len() > 0 {
        let p = chain.last();
        lemma_chain_frame(db, shortstatehash, bytes, p.shortstatehash);
        lemma_chain_shape(db, p.shortstatehash);
    }
    assert forall|h: u64| depth_bounded(db) && (#[trigger] spec_record(after, h)) is Some implies spec_record(
        after,
        h,
    ).unwrap().depth <= DEPTH_THRESHOLD by {
        if h != shortstatehash {
            if spec_u64_to_be_bytes(h) == spec_u64_to_be_bytes(shortstatehash) {
                lemma_be_bytes_injective(h, shortstatehash);
            }
            assert(spec_record(after, h) == spec_record(db, h));
        }
    }
}

/// Whether the diff, taken `budget` times, is at least as large as the full state.
fn budget_reached(added: usize, removed: usize, budget: usize, full: usize) -> (b: bool)
    ensures
        b == ((added + removed) * budget >= full),
{
    let diff: u128 = added as u128 + removed as u128;
    if budget == 0 {
        assert((added + removed) * 0 == 0);
        return full == 0;
    }
    if diff >= full as u128 {
        assert((added + removed) * budget >= (added + removed)) by (nonlinear_arith)
            requires
                budget >= 1,
                added + removed >= 0,
        ;
        return true;
    }
    assert(diff * budget <= 0xffff_ffff_ffff_ffff * 0xffff_ffff_ffff_ffff) by (nonlinear_arith)
        requires
            0 <= diff <= 0xffff_ffff_ffff_ffff,
            0 <= budget <= 0xffff_ffff_ffff_ffff,
    ;
    diff * (budget as u128) >= full as u128
}

/// The snapshot layer: every state ever saved, as a flat record or as a diff
/// against an older one.
pub struct StateCompressor {
    shortstatehash_statediff: Tree,
}

impl View for StateCompressor {
    type V = Db;

    closed spec fn view(&self) -> Db {
        self.shortstatehash_statediff@
    }
}

impl StateCompressor {
    /// A layer without snapshots.
    pub fn new() -> (s: StateCompressor)
        ensures
            s@ == Db::empty(),
    {
        StateCompressor { shortstatehash_statediff: Tree::new() }
    }

    /// A layer over stored records.
    pub fn from_tree(shortstatehash_statediff: Tree) -> (s: StateCompressor)
        ensures
            s@ == shortstatehash_statediff@,
    {
        StateCompressor { shortstatehash_statediff }
    }

    /// The stored records.
    pub fn tree(&self) -> (t: &Tree)
        ensures
            t@ == self@,
    {
        &self.shortstatehash_statediff
    }

    /// The record of one snapshot.
    pub fn get_statediff(&self, shortstatehash: u64) -> (r: Result<StateDiff>)
        ensures
            match r {
                Ok(d) => spec_record(self@, shortstatehash) == Some(d@),
                Err(e) => spec_record(self@, shortstatehash).is_none() && e is BadDatabase,
            },
    {
        match self.shortstatehash_statediff.get(u64_to_be_bytes(shortstatehash).as_slice()) {
            Some(bytes) => StateDiff::decode(bytes.as_slice()),
            None => Err(Error::BadDatabase("State hash does not exist")),
        }
    }

    /// The ancestors of a snapshot, oldest first, each with its state.
    pub fn load_shortstatehash_info(&self, shortstatehash: u64) -> (r: Result<Vec<StateInfo>>)
        ensures
            match r {
                Ok(chain) => chain@.len() > 0 && spec_chain(self@, shortstatehash) == Some(infos_of(chain@)),
                Err(e) => spec_chain(self@, shortstatehash).is_none() && e is BadDatabase,
            },
        decreases shortstatehash,
    {
        let diff = match self.get_statediff(shortstatehash) {
            Ok(diff) => diff,
            Err(e) => {
                return Err(e);
            },
        };
        match diff.parent {
            None => {
                if diff.depth != 0 {
                    return Err(Error::BadDatabase("Invalid state diff depth in db."));
                }
                let full = diff.added.clone();
                let mut chain: Vec<StateInfo> = Vec::new();
                chain.push(
                    StateInfo { shortstatehash, depth: 0, full, added: diff.added, removed: diff.removed },
                );
                assert(infos_of(chain@) =~= spec_chain(self@, shortstatehash).unwrap());
                Ok(chain)
            },
            Some(parent) => {
                if parent >= shortstatehash {
                    return Err(Error::BadDatabase("Invalid state diff parent in db."));
                }
                let mut chain = match self.load_shortstatehash_info(parent) {
                    Ok(chain) => chain,
                    Err(e) => {
                        return Err(e);
                    },
                };
                let ghost before = infos_of(chain@);
                let last = &chain[chain.len() - 1];
                assert(before.last() == last@);
                if last.depth == u32::MAX || diff.depth != last.depth + 1 {
                    return Err(Error::BadDatabase("Invalid state diff depth in db."));
                }
                let mut full = last.full.clone();
                full.subtract(&diff.removed);
                full.extend(&diff.added);
                chain.push(
                    StateInfo {
                        shortstatehash,
                        depth: diff.depth,
                        full,
                        added: diff.added,
                        removed: diff.removed,
                    },
                );
                assert(infos_of(chain@) =~= spec_chain(self@, shortstatehash).unwrap());
                Ok(chain)
            },
        }
    }

    /// Writes the snapshot `shortstatehash`, whose state is that of the last
    /// snapshot of `parent_states` without `statediffremoved` and with
    /// `statediffnew`, as a flat record or as a diff against that snapshot.
    /// Nothing is written, and the request is refused, where the number is
    /// zero or taken, the parent's number is zero or not smaller, or the
    /// record would add more blobs than it can count.
    pub fn save_state_from_diff(
        &mut self,
        shortstatehash: u64,
        statediffnew: StateSet,
        statediffremoved: StateSet,
        diff_to_sibling: usize,
        parent_states: Vec<StateInfo>,
    ) -> (r: Result<()>)
        ensures
            match r {
                Ok(()) => spec_save_ok(
                    old(self)@,
                    shortstatehash,
                    statediffnew@,
                    statediffremoved@,
                    diff_to_sibling as int,
                    tip(infos_of(parent_states@)),
                ) && final(self)@ == spec_saved(
                    old(self)@,
                    shortstatehash,
                    statediffnew@,
                    statediffremoved@,
                    diff_to_sibling as int,
                    tip(infos_of(parent_states@)),
                ),
                Err(e) => !spec_save_ok(
                    old(self)@,
                    shortstatehash,
                    statediffnew@,
                    statediffremoved@,
                    diff_to_sibling as int,
                    tip(infos_of(parent_states@)),
                ) && final(self)@ == old(self)@ && e is BadRequest,
            },
    {
        let key = u64_to_be_bytes(shortstatehash);
        if shortstatehash == 0 {
            return Err(Error::BadRequest("Short state hash must not be zero."));
        }
        if self.shortstatehash_statediff.contains_key(key.as_slice()) {
            return Err(Error::BadRequest("State hash already has a snapshot."));
        }
        let n = parent_states.len();
        let ghost parent = tip(infos_of(parent_states@));
        let diff = if n == 0 {
            StateDiff { parent: None, depth: 0, added: statediffnew, removed: StateSet::new() }
        } else {
            let p = &parent_states[n - 1];
            assert(infos_of(parent_states@).last() == p@);
            if p.shortstatehash == 0 || p.shortstatehash >= shortstatehash {
                return Err(Error::BadRequest("Parent snapshot is not older."));
            }
            let mut full = p.full.clone();
            full.subtract(&statediffremoved);
            full.extend(&statediffnew);
            let flat = p.depth >= DEPTH_THRESHOLD || budget_reached(
                statediffnew.len(),
                statediffremoved.len(),
                diff_to_sibling,
                full.len(),
            );
            if flat {
                StateDiff { parent: None, depth: 0, added: full, removed: StateSet::new() }
            } else {
                StateDiff {
                    parent: Some(p.shortstatehash),
                    depth: p.depth + 1,
                    added: statediffnew,
                    removed: statediffremoved,
                }
            }
        };
        assert(diff@ == spec_new_record(statediffnew@, statediffremoved@, diff_to_sibling as int, parent));
        match diff.encode() {
            Some(bytes) => {
                self.shortstatehash_statediff.insert(key.as_slice(), bytes.as_slice());
                Ok(())
            },
            None => Err(Error::BadRequest("Snapshot adds more events than a record can count.")),
        }
    }
}

} // verus!
