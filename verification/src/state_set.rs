//! Sets of compressed state events, kept in byte order.

use crate::bytes::{has_prefix, lemma_lex_lt_transitive, lex_lt, spec_u64_to_be_bytes, u64_to_be_bytes};
use crate::state_compressor::CompressedStateEvent;
use crate::tree::{lemma_listing_unique, lists, pairs_of, Tree};
use vstd::prelude::*;

verus! {

/// The blobs of `v`, each array taken by its view.
pub open spec fn blobs_of(v: Seq<CompressedStateEvent>) -> Seq<Seq<u8>> {
    Seq::new(v.len(), |i: int| v[i]@)
}

/// `s` lists `set`: strictly ascending in byte order, each member of `s` in
/// `set`, each member of `set` in `s`. A set has at most one listing.
pub open spec fn lists_set(s: Seq<Seq<u8>>, set: Set<Seq<u8>>) -> bool {
    &&& forall|i: int, j: int| 0 <= i < j < s.len() ==> lex_lt(#[trigger] s[i], #[trigger] s[j])
    &&& forall|i: int| 0 <= i < s.len() ==> set.contains(#[trigger] s[i])
    &&& forall|b: Seq<u8>| set.contains(b) ==> s.contains(b)
}

/// The members of `set` in byte order.
pub open spec fn sorted_blobs(set: Set<Seq<u8>>) -> Seq<Seq<u8>> {
    choose|s: Seq<Seq<u8>>| lists_set(s, set)
}

/// The blobs of `s` one after another.
pub open spec fn concat(s: Seq<Seq<u8>>) -> Seq<u8>
    decreases s.len(),
{
    if s.len() == 0 {
        Seq::empty()
    } else {
        concat(s.drop_last()) + s.last()
    }
}

/// Sixteen-byte blobs one after another take sixteen bytes each.
pub proof fn lemma_concat_len(s: Seq<Seq<u8>>)
    requires
        forall|i: int| 0 <= i < s.len() ==> (#[trigger] s[i]).len() == 16,
    ensures
        concat(s).len() == 16 * s.len(),
    decreases s.len(),
{
    if s.len() > 0 {
        lemma_concat_len(s.drop_last());
    }
}

/// The `i`-th sixteen bytes of a concatenation are the `i`-th blob.
pub proof fn lemma_concat_chunk(s: Seq<Seq<u8>>, i: int)
    requires
        forall|j: int| 0 <= j < s.len() ==> (#[trigger] s[j]).len() == 16,
        0 <= i < s.len(),
    ensures
        concat(s).len() == 16 * s.len(),
        concat(s).subrange(16 * i, 16 * i + 16) == s[i],
    decreases s.len(),
{
    lemma_concat_len(s);
    lemma_concat_len(s.drop_last());
    if i == s.len() - 1 {
        assert(concat(s).subrange(16 * i, 16 * i + 16) =~= s.last());
    } else {
        lemma_concat_chunk(s.drop_last(), i);
        assert(concat(s).subrange(16 * i, 16 * i + 16) =~= concat(s.drop_last()).subrange(16 * i, 16 * i + 16));
    }
}

/// Concatenation goes through appending.
pub proof fn lemma_concat_add(a: Seq<Seq<u8>>, b: Seq<Seq<u8>>)
    ensures
        concat(a + b) == concat(a) + concat(b),
    decreases b.len(),
{
    if b.len() == 0 {
        assert(a + b =~= a);
        assert(concat(a) + concat(b) =~= concat(a));
    } else {
        lemma_concat_add(a, b.drop_last());
        assert((a + b).drop_last() =~= a + b.drop_last());
        assert((a + b).last() == b.last());
        assert(concat(a) + (concat(b.drop_last()) + b.last()) =~= (concat(a) + concat(b.drop_last())) + b.last());
    }
}

/// Appends `bytes` to `out`.
pub fn push_bytes(out: &mut Vec<u8>, bytes: &[u8])
    ensures
        final(out)@ == old(out)@ + bytes@,
{
    let mut j: usize = 0;
    assert(out@ =~= old(out)@ + bytes@.take(0));
    while j < bytes.len()
        invariant
            j <= bytes@.len(),
            out@ == old(out)@ + bytes@.take(j as int),
        decreases bytes@.len() - j,
    {
        out.push(bytes[j]);
        assert(bytes@.take(j + 1) =~= bytes@.take(j as int).push(bytes@[j as int]));
        assert(out@ =~= old(out)@ + bytes@.take(j + 1));
        j += 1;
    }
    assert(bytes@.take(j as int) =~= bytes@);
}

/// Appends the blobs of `blobs` to `out`, one after another.
pub fn push_blobs(out: &mut Vec<u8>, blobs: &Vec<CompressedStateEvent>)
    ensures
        final(out)@ == old(out)@ + concat(blobs_of(blobs@)),
{
    let ghost all = blobs_of(blobs@);
    let mut i: usize = 0;
    assert(out@ =~= old(out)@ + concat(all.take(0)));
    while i < blobs.len()
        invariant
            i <= blobs@.len(),
            all == blobs_of(blobs@),
            out@ == old(out)@ + concat(all.take(i as int)),
        decreases blobs@.len() - i,
    {
        let blob = blobs[i];
        push_bytes(out, blob.as_slice());
        proof {
            assert(all.take(i + 1).drop_last() =~= all.take(i as int));
            assert(all.take(i + 1).last() == blob@);
            assert(out@ =~= old(out)@ + concat(all.take(i + 1)));
        }
        i += 1;
    }
    assert(all.take(i as int) =~= all);
}

/// Two listings of one set are the same sequence.
pub proof fn lemma_lists_set_unique(s: Seq<Seq<u8>>, t: Seq<Seq<u8>>, set: Set<Seq<u8>>)
    requires
        lists_set(s, set),
        lists_set(t, set),
    ensures
        s == t,
{
    let none = Seq::<u8>::empty();
    let m = Map::new(|k: Seq<u8>| set.contains(k), |k: Seq<u8>| none);
    let ps = Seq::new(s.len(), |i: int| (s[i], none));
    let pt = Seq::new(t.len(), |i: int| (t[i], none));
    assert(lists(ps, m)) by {
        assert forall|k: Seq<u8>| m.dom().contains(k) implies exists|i: int|
            0 <= i < ps.len() && #[trigger] ps[i].0 == k by {
            let i = choose|i: int| 0 <= i < s.len() && s[i] == k;
            assert(ps[i].0 == k);
        }
        assert forall|i: int, j: int| 0 <= i < j < ps.len() implies lex_lt(#[trigger] ps[i].0, #[trigger] ps[j].0) by {
            assert(lex_lt(s[i], s[j]));
        }
    }
    assert(lists(pt, m)) by {
        assert forall|k: Seq<u8>| m.dom().contains(k) implies exists|i: int|
            0 <= i < pt.len() && #[trigger] pt[i].0 == k by {
            let i = choose|i: int| 0 <= i < t.len() && t[i] == k;
            assert(pt[i].0 == k);
        }
        assert forall|i: int, j: int| 0 <= i < j < pt.len() implies lex_lt(#[trigger] pt[i].0, #[trigger] pt[j].0) by {
            assert(lex_lt(t[i], t[j]));
        }
    }
    lemma_listing_unique(ps, pt, m);
    assert(s.len() == ps.len() && t.len() == pt.len());
    assert forall|i: int| 0 <= i < s.len() implies s[i] == t[i] by {
        assert(ps[i].0 == pt[i].0);
    }
    assert(s =~= t);
}

/// A set with a listing is finite and as large as the listing is long.
pub proof fn lemma_lists_set_len(s: Seq<Seq<u8>>, set: Set<Seq<u8>>)
    requires
        lists_set(s, set),
    ensures
        set.finite(),
        set.len() == s.len(),
{
    let none = Seq::<u8>::empty();
    let m = Map::new(|k: Seq<u8>| set.contains(k), |k: Seq<u8>| none);
    let ps = Seq::new(s.len(), |i: int| (s[i], none));
    assert(lists(ps, m)) by {
        assert forall|k: Seq<u8>| m.dom().contains(k) implies exists|i: int|
            0 <= i < ps.len() && #[trigger] ps[i].0 == k by {
            let i = choose|i: int| 0 <= i < s.len() && s[i] == k;
            assert(ps[i].0 == k);
        }
        assert forall|i: int, j: int| 0 <= i < j < ps.len() implies lex_lt(#[trigger] ps[i].0, #[trigger] ps[j].0) by {
            assert(lex_lt(s[i], s[j]));
        }
    }
    crate::tree::lemma_lists_map_of(ps, m);
    crate::tree::lemma_map_of_lists(ps);
    assert(m.dom() =~= set);
}

/// Where a new blob goes in an ascending sequence.
proof fn lemma_insertion_point(r: Seq<Seq<u8>>, x: Seq<u8>) -> (p: int)
    requires
        forall|i: int, j: int| 0 <= i < j < r.len() ==> lex_lt(#[trigger] r[i], #[trigger] r[j]),
        !r.contains(x),
    ensures
        0 <= p <= r.len(),
        forall|j: int| 0 <= j < p ==> lex_lt(#[trigger] r[j], x),
        forall|j: int| p <= j < r.len() ==> lex_lt(x, #[trigger] r[j]),
    decreases r.len(),
{
    if r.len() == 0 {
        0
    } else {
        let last = r.last();
        assert(r[r.len() - 1] == last);
        crate::bytes::lemma_lex_lt_total(last, x);
        if lex_lt(last, x) {
            assert forall|j: int| 0 <= j < r.len() implies lex_lt(#[trigger] r[j], x) by {
                if j < r.len() - 1 {
                    assert(lex_lt(r[j], r[r.len() - 1]));
                    lemma_lex_lt_transitive(r[j], last, x);
                }
            }
            r.len() as int
        } else {
            let t = r.drop_last();
            assert forall|i: int, j: int| 0 <= i < j < t.len() implies lex_lt(#[trigger] t[i], #[trigger] t[j]) by {
                assert(lex_lt(r[i], r[j]));
            }
            if t.contains(x) {
                let i = choose|i: int| 0 <= i < t.len() && t[i] == x;
                assert(r[i] == x);
            }
            let p = lemma_insertion_point(t, x);
            assert forall|j: int| 0 <= j < p implies lex_lt(#[trigger] r[j], x) by {
                assert(lex_lt(t[j], x));
            }
            assert forall|j: int| p <= j < r.len() implies lex_lt(x, #[trigger] r[j]) by {
                if j < r.len() - 1 {
                    assert(lex_lt(x, t[j]));
                }
            }
            p
        }
    }
}

/// Every finite set of byte strings has a listing, so `sorted_blobs` lists it.
pub proof fn lemma_sorted_blobs(set: Set<Seq<u8>>)
    requires
        set.finite(),
    ensures
        lists_set(sorted_blobs(set), set),
        sorted_blobs(set).len() == set.len(),
    decreases set.len(),
{
    if set.len() == 0 {
        assert(set =~= Set::<Seq<u8>>::empty()) by {
            if !(set =~= Set::<Seq<u8>>::empty()) {
                let b = choose|b: Seq<u8>| set.contains(b);
                vstd::set_lib::lemma_set_empty_equivalency_len(set);
            }
        }
        assert(lists_set(Seq::<Seq<u8>>::empty(), set));
    } else {
        let x = set.choose();
        let rest = set.remove(x);
        lemma_sorted_blobs(rest);
        let r = sorted_blobs(rest);
        if r.contains(x) {
            let i = choose|i: int| 0 <= i < r.len() && r[i] == x;
            assert(rest.contains(r[i]));
        }
        let p = lemma_insertion_point(r, x);
        let s = r.insert(p, x);
        assert forall|i: int, j: int| 0 <= i < j < s.len() implies lex_lt(#[trigger] s[i], #[trigger] s[j]) by {
            if i < p && j > p {
                assert(lex_lt(r[i], x));
                assert(lex_lt(x, r[j - 1]));
                lemma_lex_lt_transitive(r[i], x, r[j - 1]);
            } else if i < p && j < p {
                assert(lex_lt(r[i], r[j]));
            } else if i > p {
                assert(lex_lt(r[i - 1], r[j - 1]));
            } else if i == p {
                assert(lex_lt(x, r[j - 1]));
            } else {
                assert(lex_lt(r[i], x));
            }
        }
        assert forall|i: int| 0 <= i < s.len() implies set.contains(#[trigger] s[i]) by {
            if i < p {
                assert(rest.contains(r[i]));
            } else if i > p {
                assert(rest.contains(r[i - 1]));
            }
        }
        assert forall|b: Seq<u8>| set.contains(b) implies s.contains(b) by {
            if b == x {
                assert(s[p] == b);
            } else {
                assert(rest.contains(b));
                let i = choose|i: int| 0 <= i < r.len() && r[i] == b;
                if i < p {
                    assert(s[i] == b);
                } else {
                    assert(s[i + 1] == b);
                }
            }
        }
        assert(lists_set(s, set));
    }
    lemma_lists_set_len(sorted_blobs(set), set);
}

/// The blobs of `set` that begin with the bytes of `shortstatekey`.
pub open spec fn with_key(set: Set<Seq<u8>>, shortstatekey: u64) -> Set<Seq<u8>> {
    Set::new(|b: Seq<u8>| set.contains(b) && has_prefix(b, spec_u64_to_be_bytes(shortstatekey)))
}

/// The least blob of `set` that begins with the bytes of `shortstatekey`, if any.
pub open spec fn first_with_key(set: Set<Seq<u8>>, shortstatekey: u64) -> Option<Seq<u8>> {
    let found = sorted_blobs(with_key(set, shortstatekey));
    if found.len() > 0 {
        Some(found[0])
    } else {
        None
    }
}

/// What `first_with_key` finds in a finite set: a member with the prefix
/// that comes before every other such member, or nothing where no member
/// has the prefix.
pub proof fn lemma_first_with_key(set: Set<Seq<u8>>, shortstatekey: u64)
    requires
        set.finite(),
    ensures
        match first_with_key(set, shortstatekey) {
            Some(b) => set.contains(b) && has_prefix(b, spec_u64_to_be_bytes(shortstatekey)) && forall|c: Seq<u8>|
                set.contains(c) && has_prefix(c, spec_u64_to_be_bytes(shortstatekey)) && c != b ==> lex_lt(b, c),
            None => forall|c: Seq<u8>| set.contains(c) ==> !has_prefix(c, spec_u64_to_be_bytes(shortstatekey)),
        },
{
    let keyed = with_key(set, shortstatekey);
    assert(keyed.subset_of(set));
    vstd::set_lib::lemma_len_subset(keyed, set);
    lemma_sorted_blobs(keyed);
    let found = sorted_blobs(keyed);
    if found.len() > 0 {
        assert(keyed.contains(found[0]));
        assert forall|c: Seq<u8>|
            set.contains(c) && has_prefix(c, spec_u64_to_be_bytes(shortstatekey)) && c != found[0] implies lex_lt(
            found[0],
            c,
        ) by {
            assert(keyed.contains(c));
            let i = choose|i: int| 0 <= i < found.len() && found[i] == c;
            assert(lex_lt(found[0], found[i]));
        }
    } else {
        assert forall|c: Seq<u8>| set.contains(c) implies !has_prefix(c, spec_u64_to_be_bytes(shortstatekey)) by {
            if has_prefix(c, spec_u64_to_be_bytes(shortstatekey)) {
                assert(keyed.contains(c));
                assert(found.contains(c));
            }
        }
    }
}

/// A blob that alone in a finite set has the prefix of a short state key is
/// the one that `first_with_key` finds.
pub proof fn lemma_only_with_key(set: Set<Seq<u8>>, shortstatekey: u64, blob: Seq<u8>)
    requires
        set.finite(),
        set.contains(blob),
        has_prefix(blob, spec_u64_to_be_bytes(shortstatekey)),
        forall|c: Seq<u8>| set.contains(c) && has_prefix(c, spec_u64_to_be_bytes(shortstatekey)) ==> c == blob,
    ensures
        first_with_key(set, shortstatekey) == Some(blob),
{
    lemma_first_with_key(set, shortstatekey);
}

/// A set of compressed state events.
pub struct StateSet {
    tree: Tree,
}

impl View for StateSet {
    type V = Set<Seq<u8>>;

    closed spec fn view(&self) -> Set<Seq<u8>> {
        self.tree@.dom()
    }
}

impl StateSet {
    #[verifier::type_invariant]
    spec fn shaped(self) -> bool {
        forall|k: Seq<u8>| #[trigger] self.tree@.dom().contains(k) ==> k.len() == 16 && self.tree@[k].len() == 0
    }

    /// An empty set.
    pub fn new() -> (s: StateSet)
        ensures
            s@ == Set::<Seq<u8>>::empty(),
    {
        let s = StateSet { tree: Tree::new() };
        assert(s@ =~= Set::<Seq<u8>>::empty());
        s
    }

    /// The number of blobs; the set is finite and its members are sixteen bytes long.
    pub fn len(&self) -> (n: usize)
        ensures
            self@.finite(),
            n == self@.len(),
            forall|b: Seq<u8>| self@.contains(b) ==> b.len() == 16,
    {
        proof {
            use_type_invariant(self);
        }
        self.tree.len()
    }

    /// Whether the set is empty.
    pub fn is_empty(&self) -> (b: bool)
        ensures
            b == (self@ == Set::<Seq<u8>>::empty()),
    {
        let b = self.tree.is_empty();
        proof {
            if b {
                assert(self@ =~= Set::<Seq<u8>>::empty());
            } else {
                if self@ == Set::<Seq<u8>>::empty() {
                    assert(self.tree@ =~= Map::<Seq<u8>, Seq<u8>>::empty());
                }
            }
        }
        b
    }

    /// Whether `blob` is a member.
    pub fn contains(&self, blob: &CompressedStateEvent) -> (b: bool)
        ensures
            b == self@.contains(blob@),
    {
        self.tree.contains_key(blob.as_slice())
    }

    /// Adds `blob`; says whether it was new.
    pub fn insert(&mut self, blob: CompressedStateEvent) -> (fresh: bool)
        ensures
            final(self)@ == old(self)@.insert(blob@),
            fresh == !old(self)@.contains(blob@),
    {
        proof {
            use_type_invariant(&*self);
        }
        let mut tree = Tree::new();
        core::mem::swap(&mut self.tree, &mut tree);
        let empty: [u8; 0] = [];
        let before = tree.insert(blob.as_slice(), empty.as_slice());
        assert(tree@.dom() =~= old(self)@.insert(blob@));
        core::mem::swap(&mut self.tree, &mut tree);
        before.is_none()
    }

    /// Takes `blob` out; says whether it was a member.
    pub fn remove(&mut self, blob: &CompressedStateEvent) -> (was: bool)
        ensures
            final(self)@ == old(self)@.remove(blob@),
            was == old(self)@.contains(blob@),
    {
        proof {
            use_type_invariant(&*self);
        }
        let mut tree = Tree::new();
        core::mem::swap(&mut self.tree, &mut tree);
        let before = tree.remove(blob.as_slice());
        assert(tree@.dom() =~= old(self)@.remove(blob@));
        core::mem::swap(&mut self.tree, &mut tree);
        before.is_some()
    }

    /// The blobs in byte order.
    pub fn to_vec(&self) -> (out: Vec<CompressedStateEvent>)
        ensures
            lists_set(blobs_of(out@), self@),
            out@.len() == self@.len(),
            self@.finite(),
    {
        proof {
            use_type_invariant(self);
        }
        let n = self.tree.len();
        let entries = self.tree.entries();
        let ghost all = pairs_of(entries@);
        proof {
            crate::tree::lemma_lists_map_of(all, self.tree@);
            crate::tree::lemma_map_of_lists(all);
        }
        let out = Self::keys_of(&entries, Ghost(self.tree@));
        proof {
            let s = blobs_of(out@);
            assert forall|b: Seq<u8>| self@.contains(b) implies s.contains(b) by {
                let i = choose|i: int| 0 <= i < all.len() && #[trigger] all[i].0 == b;
                assert(s[i] == b);
            }
            assert forall|i: int, j: int| 0 <= i < j < s.len() implies lex_lt(#[trigger] s[i], #[trigger] s[j]) by {
                assert(lex_lt(all[i].0, all[j].0));
            }
            assert forall|i: int| 0 <= i < s.len() implies self@.contains(#[trigger] s[i]) by {
                assert(self.tree@.contains_pair(all[i].0, all[i].1));
            }
        }
        out
    }

    /// The keys of `entries` as arrays.
    fn keys_of(entries: &Vec<(Vec<u8>, Vec<u8>)>, Ghost(m): Ghost<Map<Seq<u8>, Seq<u8>>>) -> (out: Vec<
        CompressedStateEvent,
    >)
        requires
            lists(pairs_of(entries@), m),
            forall|k: Seq<u8>| #[trigger] m.dom().contains(k) ==> k.len() == 16,
        ensures
            out@.len() == entries@.len(),
            forall|i: int| 0 <= i < out@.len() ==> (#[trigger] out@[i])@ == entries@[i].0@,
    {
        let mut out: Vec<CompressedStateEvent> = Vec::new();
        let mut i: usize = 0;
        while i < entries.len()
            invariant
                i <= entries@.len(),
                out@.len() == i,
                lists(pairs_of(entries@), m),
                forall|k: Seq<u8>| #[trigger] m.dom().contains(k) ==> k.len() == 16,
                forall|j: int| 0 <= j < i ==> (#[trigger] out@[j])@ == entries@[j].0@,
            decreases entries@.len() - i,
        {
            let k = &entries[i].0;
            proof {
                let all = pairs_of(entries@);
                assert(m.contains_pair(all[i as int].0, all[i as int].1));
                assert(k@.len() == 16);
            }
            let blob: CompressedStateEvent = [
                k[0],
                k[1],
                k[2],
                k[3],
                k[4],
                k[5],
                k[6],
                k[7],
                k[8],
                k[9],
                k[10],
                k[11],
                k[12],
                k[13],
                k[14],
                k[15],
            ];
            assert(blob@ =~= k@);
            out.push(blob);
            i += 1;
        }
        out
    }
    /// The least blob that begins with the bytes of `shortstatekey`, if the set has one.
    pub fn find_by_shortstatekey(&self, shortstatekey: u64) -> (r: Option<CompressedStateEvent>)
        ensures
            match r {
                Some(b) => first_with_key(self@, shortstatekey) == Some(b@),
                None => first_with_key(self@, shortstatekey).is_none(),
            },
    {
        proof {
            use_type_invariant(self);
        }
        let prefix = u64_to_be_bytes(shortstatekey);
        let found = self.tree.scan_prefix(prefix.as_slice());
        let ghost p = spec_u64_to_be_bytes(shortstatekey);
        let ghost wanted = self.tree@.restrict(Set::new(|k: Seq<u8>| has_prefix(k, p)));
        let ghost all = pairs_of(found@);
        let keys = Self::keys_of(&found, Ghost(wanted));
        proof {
            let s = blobs_of(keys@);
            let keyed = with_key(self@, shortstatekey);
            assert(lists_set(s, keyed)) by {
                assert forall|i: int, j: int| 0 <= i < j < s.len() implies lex_lt(#[trigger] s[i], #[trigger] s[j]) by {
                    assert(lex_lt(all[i].0, all[j].0));
                }
                assert forall|i: int| 0 <= i < s.len() implies keyed.contains(#[trigger] s[i]) by {
                    assert(wanted.contains_pair(all[i].0, all[i].1));
                }
                assert forall|b: Seq<u8>| keyed.contains(b) implies s.contains(b) by {
                    assert(wanted.dom().contains(b));
                    let i = choose|i: int| 0 <= i < all.len() && #[trigger] all[i].0 == b;
                    assert(s[i] == b);
                }
            }
            lemma_lists_set_unique(s, sorted_blobs(keyed), keyed);
        }
        if keys.len() == 0 {
            None
        } else {
            Some(keys[0])
        }
    }

    /// Adds every blob of `other`.
    pub fn extend(&mut self, other: &StateSet)
        ensures
            final(self)@ == old(self)@.union(other@),
    {
        let blobs = other.to_vec();
        let mut i: usize = 0;
        while i < blobs.len()
            invariant
                i <= blobs@.len(),
                lists_set(blobs_of(blobs@), other@),
                self@ == old(self)@.union(Set::new(|b: Seq<u8>| exists|j: int| 0 <= j < i && blobs_of(blobs@)[j] == b)),
            decreases blobs@.len() - i,
        {
            self.insert(blobs[i]);
            proof {
                let s = blobs_of(blobs@);
                assert(s[i as int] == blobs@[i as int]@);
                assert(self@ =~= old(self)@.union(Set::new(|b: Seq<u8>| exists|j: int| 0 <= j < i + 1 && s[j] == b)));
            }
            i += 1;
        }
        proof {
            let s = blobs_of(blobs@);
            assert(Set::new(|b: Seq<u8>| exists|j: int| 0 <= j < i && s[j] == b) =~= other@);
        }
    }

    /// Takes out every blob of `other`.
    pub fn subtract(&mut self, other: &StateSet)
        ensures
            final(self)@ == old(self)@.difference(other@),
    {
        let blobs = other.to_vec();
        let mut i: usize = 0;
        while i < blobs.len()
            invariant
                i <= blobs@.len(),
                lists_set(blobs_of(blobs@), other@),
                self@ == old(self)@.difference(
                    Set::new(|b: Seq<u8>| exists|j: int| 0 <= j < i && blobs_of(blobs@)[j] == b),
                ),
            decreases blobs@.len() - i,
        {
            let blob = blobs[i];
            self.remove(&blob);
            proof {
                let s = blobs_of(blobs@);
                assert(s[i as int] == blobs@[i as int]@);
                assert(self@ =~= old(self)@.difference(
                    Set::new(|b: Seq<u8>| exists|j: int| 0 <= j < i + 1 && s[j] == b),
                ));
            }
            i += 1;
        }
        proof {
            let s = blobs_of(blobs@);
            assert(Set::new(|b: Seq<u8>| exists|j: int| 0 <= j < i && s[j] == b) =~= other@);
        }
    }

    /// The blobs of this set that are not in `other`.
    pub fn difference(&self, other: &StateSet) -> (s: StateSet)
        ensures
            s@ == self@.difference(other@),
    {
        let mut s = self.clone();
        s.subtract(other);
        s
    }

    /// The set of the blobs of `blobs`.
    pub fn from_slice(blobs: &[CompressedStateEvent]) -> (s: StateSet)
        ensures
            s@ == blobs_of(blobs@).to_set(),
    {
        let mut s = StateSet::new();
        let mut i: usize = 0;
        assert(s@ =~= Set::new(|b: Seq<u8>| exists|j: int| 0 <= j < 0 && blobs_of(blobs@)[j] == b));
        while i < blobs.len()
            invariant
                i <= blobs@.len(),
                s@ == Set::new(|b: Seq<u8>| exists|j: int| 0 <= j < i && blobs_of(blobs@)[j] == b),
            decreases blobs@.len() - i,
        {
            s.insert(blobs[i]);
            proof {
                let all = blobs_of(blobs@);
                assert(all[i as int] == blobs@[i as int]@);
                assert(s@ =~= Set::new(|b: Seq<u8>| exists|j: int| 0 <= j < i + 1 && all[j] == b));
            }
            i += 1;
        }
        proof {
            let all = blobs_of(blobs@);
            assert(s@ =~= all.to_set());
        }
        s
    }
}

impl Clone for StateSet {
    /// A set with the same blobs.
    fn clone(&self) -> (s: StateSet)
        ensures
            s@ == self@,
    {
        proof {
            use_type_invariant(self);
        }
        StateSet { tree: self.tree.clone() }
    }
}

} // verus!
