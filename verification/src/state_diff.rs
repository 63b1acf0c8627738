//! One stored snapshot record and its bytes.
//!
//! A record is written as the parent's short state hash (eight bytes,
//! big-endian, zero for no parent), the depth and the number of added blobs
//! (four bytes each, big-endian), the added blobs and the removed blobs.

use crate::bytes::{
    lemma_u32_be_roundtrip, lemma_u64_be_roundtrip, spec_u32_from_be_bytes, spec_u32_to_be_bytes,
    read_u32, read_u64, spec_u64_from_be_bytes, spec_u64_to_be_bytes, u32_to_be_bytes, u64_to_be_bytes,
};
use crate::error::{Error, Result};
use crate::state_compressor::CompressedStateEvent;
use crate::state_set::{
    blobs_of, concat, lemma_concat_add, lemma_concat_chunk, lemma_concat_len, lemma_lists_set_unique, lemma_sorted_blobs, push_blobs, push_bytes, sorted_blobs, StateSet,
};
use vstd::prelude::*;

verus! {

/// A snapshot record: what a state adds to and removes from its parent.
pub struct StateDiff {
    /// The snapshot that this one is a diff against; none for a flat record.
    pub parent: Option<u64>,
    /// How many diff records lie between this record and a flat one, itself included.
    pub depth: u32,
    /// The blobs that the state has and its parent has not; of a flat record, the whole state.
    pub added: StateSet,
    /// The blobs that the parent has and the state has not.
    pub removed: StateSet,
}

/// A snapshot record as plain values.
pub struct DiffView {
    pub parent: Option<u64>,
    pub depth: u32,
    pub added: Set<Seq<u8>>,
    pub removed: Set<Seq<u8>>,
}

impl View for StateDiff {
    type V = DiffView;

    open spec fn view(&self) -> DiffView {
        DiffView { parent: self.parent, depth: self.depth, added: self.added@, removed: self.removed@ }
    }
}

/// The number written for a parent: its short state hash, or zero for none.
pub open spec fn parent_word(parent: Option<u64>) -> u64 {
    match parent {
        Some(p) => p,
        None => 0,
    }
}

/// The bytes of a record.
pub open spec fn spec_encode_diff(d: DiffView) -> Seq<u8> {
    spec_u64_to_be_bytes(parent_word(d.parent)) + spec_u32_to_be_bytes(d.depth) + spec_u32_to_be_bytes(
        d.added.len() as u32,
    ) + concat(sorted_blobs(d.added)) + concat(sorted_blobs(d.removed))
}

/// The `i`-th blob after the sixteen bytes of the header.
pub open spec fn chunk(bytes: Seq<u8>, i: int) -> Seq<u8> {
    bytes.subrange(16 + 16 * i, 32 + 16 * i)
}

/// The set of the blobs `from..to` of `bytes`.
pub open spec fn chunk_set(bytes: Seq<u8>, from: int, to: int) -> Set<Seq<u8>> {
    Set::new(|b: Seq<u8>| exists|i: int| from <= i < to && #[trigger] chunk(bytes, i) == b)
}

/// The record that `bytes` hold: a header of sixteen bytes and then whole
/// blobs, at least as many as the header says were added.
pub open spec fn spec_decode_diff(bytes: Seq<u8>) -> Option<DiffView> {
    let n = (bytes.len() - 16) / 16;
    let a = spec_u32_from_be_bytes(bytes.subrange(12, 16));
    let p = spec_u64_from_be_bytes(bytes.subrange(0, 8));
    if bytes.len() >= 16 && (bytes.len() - 16) % 16 == 0 && a <= n {
        Some(
            DiffView {
                parent: if p == 0 {
                    None
                } else {
                    Some(p)
                },
                depth: spec_u32_from_be_bytes(bytes.subrange(8, 12)),
                added: chunk_set(bytes, 0, a as int),
                removed: chunk_set(bytes, a as int, n),
            },
        )
    } else {
        None
    }
}

/// The blobs of a range of whole chunks are finitely many, sixteen bytes each.
pub proof fn lemma_chunk_set(bytes: Seq<u8>, from: int, to: int)
    requires
        0 <= from <= to,
        32 + 16 * (to - 1) <= bytes.len(),
    ensures
        chunk_set(bytes, from, to).finite(),
        forall|b: Seq<u8>| chunk_set(bytes, from, to).contains(b) ==> b.len() == 16,
    decreases to - from,
{
    if from == to {
        assert(chunk_set(bytes, from, to) =~= Set::<Seq<u8>>::empty());
    } else {
        lemma_chunk_set(bytes, from, to - 1);
        assert(chunk_set(bytes, from, to) =~= chunk_set(bytes, from, to - 1).insert(chunk(bytes, to - 1)));
    }
}

/// What a decoded record adds and removes are finite sets of sixteen-byte blobs.
pub proof fn lemma_decoded_sets(bytes: Seq<u8>)
    requires
        spec_decode_diff(bytes).is_some(),
    ensures
        spec_decode_diff(bytes).unwrap().added.finite(),
        spec_decode_diff(bytes).unwrap().removed.finite(),
        forall|b: Seq<u8>| spec_decode_diff(bytes).unwrap().added.contains(b) ==> b.len() == 16,
        forall|b: Seq<u8>| spec_decode_diff(bytes).unwrap().removed.contains(b) ==> b.len() == 16,
{
    let n = (bytes.len() - 16) / 16;
    let a = spec_u32_from_be_bytes(bytes.subrange(12, 16)) as int;
    lemma_chunk_set(bytes, 0, a);
    lemma_chunk_set(bytes, a, n);
}

/// A record that its bytes give back: finite sets of sixteen-byte blobs, not
/// more than `u32::MAX` of them added, and no parent numbered zero.
pub open spec fn encodable(d: DiffView) -> bool {
    &&& d.parent != Some(0u64)
    &&& d.added.finite()
    &&& d.removed.finite()
    &&& d.added.len() <= u32::MAX
    &&& forall|b: Seq<u8>| d.added.contains(b) ==> b.len() == 16
    &&& forall|b: Seq<u8>| d.removed.contains(b) ==> b.len() == 16
}

/// Decoding the bytes of a record gives the record back.
pub proof fn lemma_decode_encode(d: DiffView)
    requires
        encodable(d),
    ensures
        spec_decode_diff(spec_encode_diff(d)) == Some(d),
{
    let la = sorted_blobs(d.added);
    let lr = sorted_blobs(d.removed);
    lemma_sorted_blobs(d.added);
    lemma_sorted_blobs(d.removed);
    let all = la + lr;
    let head = spec_u64_to_be_bytes(parent_word(d.parent)) + spec_u32_to_be_bytes(d.depth)
        + spec_u32_to_be_bytes(d.added.len() as u32);
    let bytes = spec_encode_diff(d);
    lemma_u64_be_roundtrip(parent_word(d.parent));
    lemma_u32_be_roundtrip(d.depth);
    lemma_u32_be_roundtrip(d.added.len() as u32);
    lemma_concat_add(la, lr);
    assert forall|j: int| 0 <= j < all.len() implies (#[trigger] all[j]).len() == 16 by {
        if j < la.len() {
            assert(d.added.contains(la[j]));
        } else {
            assert(d.removed.contains(lr[j - la.len()]));
        }
    }
    lemma_concat_len(all);
    assert(bytes =~= head + concat(all));
    assert(head.len() == 16);
    assert(bytes.subrange(0, 8) =~= spec_u64_to_be_bytes(parent_word(d.parent)));
    assert(bytes.subrange(8, 12) =~= spec_u32_to_be_bytes(d.depth));
    assert(bytes.subrange(12, 16) =~= spec_u32_to_be_bytes(d.added.len() as u32));
    let n = (bytes.len() - 16) / 16;
    assert(n == all.len());
    assert forall|i: int| 0 <= i < n implies #[trigger] chunk(bytes, i) == all[i] by {
        lemma_concat_chunk(all, i);
        assert(chunk(bytes, i) =~= concat(all).subrange(16 * i, 16 * i + 16));
    }
    let a = d.added.len() as int;
    assert(chunk_set(bytes, 0, a) =~= d.added) by {
        assert forall|b: Seq<u8>| d.added.contains(b) implies chunk_set(bytes, 0, a).contains(b) by {
            let i = choose|i: int| 0 <= i < la.len() && la[i] == b;
            assert(chunk(bytes, i) == all[i]);
        }
        assert forall|b: Seq<u8>| chunk_set(bytes, 0, a).contains(b) implies d.added.contains(b) by {
            let i = choose|i: int| 0 <= i < a && #[trigger] chunk(bytes, i) == b;
            assert(all[i] == la[i]);
        }
    }
    assert(chunk_set(bytes, a, n) =~= d.removed) by {
        assert forall|b: Seq<u8>| d.removed.contains(b) implies chunk_set(bytes, a, n).contains(b) by {
            let i = choose|i: int| 0 <= i < lr.len() && lr[i] == b;
            assert(chunk(bytes, i + a) == all[i + a]);
        }
        assert forall|b: Seq<u8>| chunk_set(bytes, a, n).contains(b) implies d.removed.contains(b) by {
            let i = choose|i: int| a <= i < n && #[trigger] chunk(bytes, i) == b;
            assert(all[i] == lr[i - a]);
        }
    }
}

impl StateDiff {
    /// The bytes of the record; none if more blobs are added than the header can count.
    pub fn encode(&self) -> (r: Option<Vec<u8>>)
        ensures
            self.added@.finite(),
            match r {
                Some(bytes) => self.added@.len() <= u32::MAX && bytes@ == spec_encode_diff(self@),
                None => self.added@.len() > u32::MAX,
            },
    {
        let added = self.added.to_vec();
        let removed = self.removed.to_vec();
        if added.len() > u32::MAX as usize {
            return None;
        }
        let parent: u64 = match self.parent {
            Some(p) => p,
            None => 0,
        };
        let mut out: Vec<u8> = Vec::new();
        push_bytes(&mut out, u64_to_be_bytes(parent).as_slice());
        push_bytes(&mut out, u32_to_be_bytes(self.depth).as_slice());
        push_bytes(&mut out, u32_to_be_bytes(added.len() as u32).as_slice());
        push_blobs(&mut out, &added);
        push_blobs(&mut out, &removed);
        proof {
            lemma_lists_set_unique(blobs_of(added@), sorted_blobs(self.added@), self.added@);
            lemma_lists_set_unique(blobs_of(removed@), sorted_blobs(self.removed@), self.removed@);
            assert(out@ =~= spec_encode_diff(self@));
        }
        Some(out)
    }

    /// The record that `bytes` hold. Bytes that hold none are refused.
    pub fn decode(bytes: &[u8]) -> (r: Result<StateDiff>)
        ensures
            match r {
                Ok(d) => spec_decode_diff(bytes@) == Some(d@),
                Err(e) => spec_decode_diff(bytes@).is_none() && e is BadDatabase,
            },
    {
        if bytes.len() < 16 || (bytes.len() - 16) % 16 != 0 {
            return Err(Error::BadDatabase("Invalid state diff in db."));
        }
        let n: usize = (bytes.len() - 16) / 16;
        let p = read_u64(bytes, 0);
        let depth = read_u32(bytes, 8);
        let a = read_u32(bytes, 12);
        if a as usize > n {
            return Err(Error::BadDatabase("Invalid state diff in db."));
        }
        let mut added = StateSet::new();
        let mut removed = StateSet::new();
        let mut i: usize = 0;
        assert(16 + 16 * n == bytes.len());
        assert(added@ =~= chunk_set(bytes@, 0, 0));
        assert(removed@ =~= chunk_set(bytes@, a as int, a as int));
        while i < n
            invariant
                i <= n,
                a <= n,
                bytes@.len() == 16 + 16 * n,
                16 + 16 * n <= usize::MAX,
                added@ == chunk_set(bytes@, 0, if i < a { i as int } else { a as int }),
                removed@ == chunk_set(bytes@, a as int, if i < a { a as int } else { i as int }),
            decreases n - i,
        {
            let at: usize = 16 + 16 * i;
            let blob: CompressedStateEvent = [
                bytes[at],
                bytes[at + 1],
                bytes[at + 2],
                bytes[at + 3],
                bytes[at + 4],
                bytes[at + 5],
                bytes[at + 6],
                bytes[at + 7],
                bytes[at + 8],
                bytes[at + 9],
                bytes[at + 10],
                bytes[at + 11],
                bytes[at + 12],
                bytes[at + 13],
                bytes[at + 14],
                bytes[at + 15],
            ];
            assert(blob@ =~= chunk(bytes@, i as int));
            if i < a as usize {
                added.insert(blob);
                assert(added@ =~= chunk_set(bytes@, 0, i + 1));
            } else {
                removed.insert(blob);
                assert(removed@ =~= chunk_set(bytes@, a as int, i + 1));
            }
            i += 1;
        }
        Ok(
            StateDiff {
                parent: if p == 0 {
                    None
                } else {
                    Some(p)
                },
                depth,
                added,
                removed,
            },
        )
    }
}

} // verus!
