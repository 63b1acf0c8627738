//! An ordered keyspace: byte-string keys, byte-string values, keys kept in
//! lexicographic order.

use crate::bytes::{
    has_prefix, lemma_lex_lt_irreflexive, lemma_lex_lt_total, lemma_lex_lt_transitive, lex_lt, position,
    starts_with, to_vec, Position,
};
use vstd::prelude::*;

verus! {

/// One stored pair, as plain sequences.
pub type Pair = (Seq<u8>, Seq<u8>);

/// The pairs of `entries`, each vector taken by its view.
pub open spec fn pairs_of(entries: Seq<(Vec<u8>, Vec<u8>)>) -> Seq<Pair> {
    Seq::new(entries.len(), |i: int| (entries[i].0@, entries[i].1@))
}

/// The byte strings of `v`, each vector taken by its view.
pub open spec fn vecs_of(v: Seq<Vec<u8>>) -> Seq<Seq<u8>> {
    Seq::new(v.len(), |i: int| v[i]@)
}

/// Keys strictly ascending.
pub open spec fn ascending(s: Seq<Pair>) -> bool {
    forall|i: int, j: int| 0 <= i < j < s.len() ==> lex_lt(#[trigger] s[i].0, #[trigger] s[j].0)
}

/// `s` lists `m`: each pair of `s` is a pair of `m`, each key of `m` occurs in
/// `s`, and the keys ascend. A map has at most one listing.
pub open spec fn lists(s: Seq<Pair>, m: Map<Seq<u8>, Seq<u8>>) -> bool {
    &&& ascending(s)
    &&& forall|i: int| 0 <= i < s.len() ==> m.contains_pair(#[trigger] s[i].0, s[i].1)
    &&& forall|k: Seq<u8>| m.dom().contains(k) ==> exists|i: int| 0 <= i < s.len() && #[trigger] s[i].0 == k
}

/// The map that an ascending sequence of pairs stands for.
pub open spec fn map_of(s: Seq<Pair>) -> Map<Seq<u8>, Seq<u8>> {
    Map::new(
        |k: Seq<u8>| exists|i: int| 0 <= i < s.len() && #[trigger] s[i].0 == k,
        |k: Seq<u8>| s[choose|i: int| 0 <= i < s.len() && #[trigger] s[i].0 == k].1,
    )
}

/// In an ascending sequence no key occurs twice.
pub proof fn lemma_ascending_distinct(s: Seq<Pair>, i: int, j: int)
    requires
        ascending(s),
        0 <= i < s.len(),
        0 <= j < s.len(),
        s[i].0 == s[j].0,
    ensures
        i == j,
{
    lemma_lex_lt_irreflexive(s[i].0);
    if i < j {
        assert(lex_lt(s[i].0, s[j].0));
    } else if j < i {
        assert(lex_lt(s[j].0, s[i].0));
    }
}

/// An ascending sequence lists the map it stands for.
pub proof fn lemma_map_of_lists(s: Seq<Pair>)
    requires
        ascending(s),
    ensures
        lists(s, map_of(s)),
        map_of(s).dom().finite(),
        map_of(s).dom().len() == s.len(),
    decreases s.len(),
{
    let m = map_of(s);
    assert forall|i: int| 0 <= i < s.len() implies m.contains_pair(#[trigger] s[i].0, s[i].1) by {
        let c = choose|c: int| 0 <= c < s.len() && #[trigger] s[c].0 == s[i].0;
        lemma_ascending_distinct(s, c, i);
    }
    if s.len() == 0 {
        assert(m.dom() =~= Set::empty());
    } else {
        let t = s.drop_last();
        assert(ascending(t));
        lemma_map_of_lists(t);
        let last = s.last();
        assert forall|k: Seq<u8>| #[trigger] m.dom().contains(k) <==> map_of(t).dom().insert(last.0).contains(k) by {
            if m.dom().contains(k) {
                let c = choose|c: int| 0 <= c < s.len() && #[trigger] s[c].0 == k;
                if c < s.len() - 1 {
                    assert(t[c].0 == k);
                }
            }
            if map_of(t).dom().contains(k) {
                let c = choose|c: int| 0 <= c < t.len() && #[trigger] t[c].0 == k;
                assert(s[c].0 == k);
            }
            if k == last.0 {
                assert(s[s.len() - 1].0 == k);
            }
        }
        assert(m.dom() =~= map_of(t).dom().insert(last.0));
        if map_of(t).dom().contains(last.0) {
            let c = choose|c: int| 0 <= c < t.len() && #[trigger] t[c].0 == last.0;
            assert(s[c].0 == last.0);
            lemma_ascending_distinct(s, c, s.len() - 1);
        }
    }
}

/// A map is the map that any of its listings stands for.
pub proof fn lemma_lists_map_of(s: Seq<Pair>, m: Map<Seq<u8>, Seq<u8>>)
    requires
        lists(s, m),
    ensures
        map_of(s) == m,
{
    lemma_map_of_lists(s);
    let n = map_of(s);
    assert forall|k: Seq<u8>| #[trigger] n.dom().contains(k) <==> m.dom().contains(k) by {
        if n.dom().contains(k) {
            let c = choose|c: int| 0 <= c < s.len() && #[trigger] s[c].0 == k;
            assert(m.contains_pair(s[c].0, s[c].1));
        }
    }
    assert forall|k: Seq<u8>| n.dom().contains(k) implies #[trigger] n[k] == m[k] by {
        let c = choose|c: int| 0 <= c < s.len() && #[trigger] s[c].0 == k;
        assert(m.contains_pair(s[c].0, s[c].1));
        assert(n.contains_pair(s[c].0, s[c].1));
    }
    assert(n =~= m);
}

/// Two listings of one map are the same sequence.
pub proof fn lemma_listing_unique(s: Seq<Pair>, t: Seq<Pair>, m: Map<Seq<u8>, Seq<u8>>)
    requires
        lists(s, m),
        lists(t, m),
    ensures
        s == t,
    decreases s.len(),
{
    if s.len() == 0 {
        if t.len() > 0 {
            assert(m.contains_pair(t[0].0, t[0].1));
            assert(m.dom().contains(t[0].0));
        }
        assert(s =~= t);
    } else {
        // The last key of `s` is the greatest key of `m`, and so is the last key of `t`.
        let ls = s.last();
        assert(m.contains_pair(s[s.len() - 1].0, s[s.len() - 1].1));
        assert(m.dom().contains(ls.0));
        let jt = choose|j: int| 0 <= j < t.len() && #[trigger] t[j].0 == ls.0;
        let lt = t.last();
        assert(m.contains_pair(t[t.len() - 1].0, t[t.len() - 1].1));
        assert(m.dom().contains(lt.0));
        let js = choose|j: int| 0 <= j < s.len() && #[trigger] s[j].0 == lt.0;
        lemma_lex_lt_irreflexive(ls.0);
        if jt < t.len() - 1 {
            assert(lex_lt(t[jt].0, t[t.len() - 1].0));
            if js < s.len() - 1 {
                assert(lex_lt(s[js].0, s[s.len() - 1].0));
                lemma_lex_lt_transitive(ls.0, lt.0, ls.0);
            }
        }
        assert(ls.0 == lt.0);
        assert(ls.1 == m[ls.0] && lt.1 == m[lt.0]);
        let m2 = m.remove(ls.0);
        let s2 = s.drop_last();
        let t2 = t.drop_last();
        assert(lists(s2, m2)) by {
            assert forall|i: int| 0 <= i < s2.len() implies m2.contains_pair(#[trigger] s2[i].0, s2[i].1) by {
                assert(m.contains_pair(s[i].0, s[i].1));
                assert(lex_lt(s[i].0, s[s.len() - 1].0));
            }
            assert forall|k: Seq<u8>| m2.dom().contains(k) implies exists|i: int|
                0 <= i < s2.len() && #[trigger] s2[i].0 == k by {
                let c = choose|c: int| 0 <= c < s.len() && #[trigger] s[c].0 == k;
                assert(s2[c].0 == k);
            }
        }
        assert(lists(t2, m2)) by {
            assert forall|i: int| 0 <= i < t2.len() implies m2.contains_pair(#[trigger] t2[i].0, t2[i].1) by {
                assert(m.contains_pair(t[i].0, t[i].1));
                assert(lex_lt(t[i].0, t[t.len() - 1].0));
            }
            assert forall|k: Seq<u8>| m2.dom().contains(k) implies exists|i: int|
                0 <= i < t2.len() && #[trigger] t2[i].0 == k by {
                let c = choose|c: int| 0 <= c < t.len() && #[trigger] t[c].0 == k;
                assert(t2[c].0 == k);
            }
        }
        lemma_listing_unique(s2, t2, m2);
        assert(s =~= s2.push(ls));
        assert(t =~= t2.push(lt));
    }
}

/// Putting a new key at its place keeps the order and adds one pair to the map.
pub proof fn lemma_insert_at(s: Seq<Pair>, p: int, k: Seq<u8>, v: Seq<u8>)
    requires
        ascending(s),
        0 <= p <= s.len(),
        forall|j: int| 0 <= j < p ==> lex_lt(#[trigger] s[j].0, k),
        forall|j: int| p <= j < s.len() ==> lex_lt(k, #[trigger] s[j].0),
    ensures
        ascending(s.insert(p, (k, v))),
        map_of(s.insert(p, (k, v))) == map_of(s).insert(k, v),
{
    let t = s.insert(p, (k, v));
    assert forall|i: int, j: int| 0 <= i < j < t.len() implies lex_lt(#[trigger] t[i].0, #[trigger] t[j].0) by {
        if i < p && j > p {
            assert(lex_lt(s[i].0, k));
            assert(lex_lt(k, s[j - 1].0));
            lemma_lex_lt_transitive(s[i].0, k, s[j - 1].0);
        } else if i < p && j < p {
            assert(lex_lt(s[i].0, s[j].0));
        } else if i > p {
            assert(lex_lt(s[i - 1].0, s[j - 1].0));
        } else if i == p {
            assert(lex_lt(k, s[j - 1].0));
        } else {
            assert(lex_lt(s[i].0, k));
        }
    }
    lemma_map_of_lists(s);
    lemma_map_of_lists(t);
    let m = map_of(s);
    let n = map_of(t);
    assert(n.contains_pair(t[p].0, t[p].1));
    assert forall|q: Seq<u8>| #[trigger] n.dom().contains(q) <==> m.insert(k, v).dom().contains(q) by {
        if n.dom().contains(q) {
            let c = choose|c: int| 0 <= c < t.len() && #[trigger] t[c].0 == q;
            if c < p {
                assert(m.contains_pair(s[c].0, s[c].1));
            } else if c > p {
                assert(m.contains_pair(s[c - 1].0, s[c - 1].1));
            }
        }
        if m.dom().contains(q) {
            let c = choose|c: int| 0 <= c < s.len() && #[trigger] s[c].0 == q;
            if c < p {
                assert(n.contains_pair(t[c].0, t[c].1));
            } else {
                assert(n.contains_pair(t[c + 1].0, t[c + 1].1));
            }
        }
    }
    assert forall|q: Seq<u8>| n.dom().contains(q) implies #[trigger] n[q] == m.insert(k, v)[q] by {
        let c = choose|c: int| 0 <= c < t.len() && #[trigger] t[c].0 == q;
        assert(n.contains_pair(t[c].0, t[c].1));
        if c < p {
            assert(m.contains_pair(s[c].0, s[c].1));
            lemma_lex_lt_irreflexive(k);
        } else if c > p {
            assert(m.contains_pair(s[c - 1].0, s[c - 1].1));
            lemma_lex_lt_irreflexive(k);
        }
    }
    assert(n =~= m.insert(k, v));
}

/// Taking a pair out keeps the order and removes its key from the map.
pub proof fn lemma_remove_at(s: Seq<Pair>, p: int)
    requires
        ascending(s),
        0 <= p < s.len(),
    ensures
        ascending(s.remove(p)),
        map_of(s.remove(p)) == map_of(s).remove(s[p].0),
{
    let t = s.remove(p);
    let k = s[p].0;
    assert forall|i: int, j: int| 0 <= i < j < t.len() implies lex_lt(#[trigger] t[i].0, #[trigger] t[j].0) by {
        let i0 = if i < p { i } else { i + 1 };
        let j0 = if j < p { j } else { j + 1 };
        assert(lex_lt(s[i0].0, s[j0].0));
    }
    lemma_map_of_lists(s);
    lemma_map_of_lists(t);
    let m = map_of(s);
    let n = map_of(t);
    assert forall|q: Seq<u8>| #[trigger] n.dom().contains(q) <==> m.remove(k).dom().contains(q) by {
        if n.dom().contains(q) {
            let c = choose|c: int| 0 <= c < t.len() && #[trigger] t[c].0 == q;
            let c0 = if c < p { c } else { c + 1 };
            assert(m.contains_pair(s[c0].0, s[c0].1));
            if q == k {
                lemma_ascending_distinct(s, c0, p);
            }
        }
        if m.dom().contains(q) && q != k {
            let c = choose|c: int| 0 <= c < s.len() && #[trigger] s[c].0 == q;
            let c1 = if c < p { c } else { c - 1 };
            assert(n.contains_pair(t[c1].0, t[c1].1));
        }
    }
    assert forall|q: Seq<u8>| n.dom().contains(q) implies #[trigger] n[q] == m.remove(k)[q] by {
        let c = choose|c: int| 0 <= c < t.len() && #[trigger] t[c].0 == q;
        assert(n.contains_pair(t[c].0, t[c].1));
        let c0 = if c < p { c } else { c + 1 };
        assert(m.contains_pair(s[c0].0, s[c0].1));
    }
    assert(n =~= m.remove(k));
}

/// An ordered map from byte strings to byte strings.
pub struct Tree {
    entries: Vec<(Vec<u8>, Vec<u8>)>,
}

impl View for Tree {
    type V = Map<Seq<u8>, Seq<u8>>;

    closed spec fn view(&self) -> Map<Seq<u8>, Seq<u8>> {
        map_of(pairs_of(self.entries@))
    }
}

impl Tree {
    #[verifier::type_invariant]
    spec fn ordered(self) -> bool {
        ascending(pairs_of(self.entries@))
    }

    /// An empty tree.
    pub fn new() -> (t: Tree)
        ensures
            t@ == Map::<Seq<u8>, Seq<u8>>::empty(),
    {
        let t = Tree { entries: Vec::new() };
        assert(t@ =~= Map::<Seq<u8>, Seq<u8>>::empty());
        t
    }

    /// Index of the first entry whose key is not before `key`, and whether
    /// that entry has the key itself.
    fn locate(&self, key: &[u8]) -> (r: (usize, bool))
        ensures
            r.0 <= self.entries@.len(),
            forall|j: int| 0 <= j < r.0 ==> lex_lt(#[trigger] self.entries@[j].0@, key@),
            r.1 ==> r.0 < self.entries@.len() && self.entries@[r.0 as int].0@ == key@,
            !r.1 ==> forall|j: int| r.0 <= j < self.entries@.len() ==> lex_lt(key@, #[trigger] self.entries@[j].0@),
            r.1 == self@.dom().contains(key@),
            r.1 ==> self@[key@] == self.entries@[r.0 as int].1@,
    {
        proof {
            use_type_invariant(self);
            lemma_map_of_lists(pairs_of(self.entries@));
        }
        let ghost s = pairs_of(self.entries@);
        let mut i: usize = 0;
        while i < self.entries.len()
            invariant
                i <= self.entries@.len(),
                s == pairs_of(self.entries@),
                lists(s, self@),
                forall|j: int| 0 <= j < i ==> lex_lt(#[trigger] self.entries@[j].0@, key@),
            decreases self.entries@.len() - i,
        {
            match position(self.entries[i].0.as_slice(), key) {
                Position::Before => {},
                Position::Same => {
                    assert(s[i as int].0 == key@);
                    assert(self@.contains_pair(s[i as int].0, s[i as int].1));
                    return (i, true);
                },
                Position::After => {
                    proof {
                        lemma_lex_lt_total(self.entries@[i as int].0@, key@);
                        assert forall|j: int| i <= j < self.entries@.len() implies lex_lt(
                            key@,
                            #[trigger] self.entries@[j].0@,
                        ) by {
                            if j > i {
                                assert(lex_lt(s[i as int].0, s[j].0));
                                lemma_lex_lt_transitive(key@, s[i as int].0, s[j].0);
                            }
                        }
                        if self@.dom().contains(key@) {
                            let c = choose|c: int| 0 <= c < s.len() && #[trigger] s[c].0 == key@;
                            lemma_lex_lt_irreflexive(key@);
                            assert(self.entries@[c].0@ == key@);
                        }
                    }
                    return (i, false);
                },
            }
            i += 1;
        }
        proof {
            if self@.dom().contains(key@) {
                let c = choose|c: int| 0 <= c < s.len() && #[trigger] s[c].0 == key@;
                lemma_lex_lt_irreflexive(key@);
                assert(self.entries@[c].0@ == key@);
            }
        }
        (i, false)
    }

    /// The value stored under `key`, if any.
    pub fn get(&self, key: &[u8]) -> (r: Option<Vec<u8>>)
        ensures
            match r {
                Some(v) => self@.dom().contains(key@) && v@ == self@[key@],
                None => !self@.dom().contains(key@),
            },
    {
        let (i, found) = self.locate(key);
        if found {
            Some(to_vec(self.entries[i].1.as_slice()))
        } else {
            None
        }
    }

    /// Whether a value is stored under `key`.
    pub fn contains_key(&self, key: &[u8]) -> (r: bool)
        ensures
            r == self@.dom().contains(key@),
    {
        let (_, found) = self.locate(key);
        found
    }

    /// The number of stored pairs.
    pub fn len(&self) -> (n: usize)
        ensures
            self@.dom().finite(),
            n == self@.dom().len(),
    {
        proof {
            use_type_invariant(self);
            lemma_map_of_lists(pairs_of(self.entries@));
        }
        self.entries.len()
    }
    /// Whether the tree holds no pair.
    pub fn is_empty(&self) -> (b: bool)
        ensures
            b == (self@ == Map::<Seq<u8>, Seq<u8>>::empty()),
    {
        proof {
            use_type_invariant(self);
            lemma_map_of_lists(pairs_of(self.entries@));
            if self.entries@.len() == 0 {
                assert(self@ =~= Map::<Seq<u8>, Seq<u8>>::empty());
            } else {
                assert(self@.contains_pair(pairs_of(self.entries@)[0].0, pairs_of(self.entries@)[0].1));
            }
        }
        self.entries.len() == 0
    }

    /// Stores `value` under `key` and hands back the value it replaces.
    pub fn insert(&mut self, key: &[u8], value: &[u8]) -> (r: Option<Vec<u8>>)
        ensures
            final(self)@ == old(self)@.insert(key@, value@),
            match r {
                Some(v) => old(self)@.dom().contains(key@) && v@ == old(self)@[key@],
                None => !old(self)@.dom().contains(key@),
            },
    {
        proof {
            use_type_invariant(&*self);
        }
        let (i, found) = self.locate(key);
        let mut entries: Vec<(Vec<u8>, Vec<u8>)> = Vec::new();
        assert(pairs_of(entries@) =~= Seq::<Pair>::empty());
        core::mem::swap(&mut self.entries, &mut entries);
        let ghost before = pairs_of(entries@);
        let mut r: Option<Vec<u8>> = None;
        if found {
            let gone = entries.remove(i);
            proof {
                assert(pairs_of(entries@) =~= before.remove(i as int));
                lemma_remove_at(before, i as int);
                assert(map_of(before.remove(i as int)).insert(key@, value@) =~= map_of(before).insert(key@, value@));
            }
            r = Some(gone.1);
        }
        let ghost mid = pairs_of(entries@);
        proof {
            assert forall|j: int| 0 <= j < i implies lex_lt(#[trigger] mid[j].0, key@) by {
                assert(mid[j].0 == old(self).entries@[j].0@);
            }
            assert forall|j: int| i <= j < mid.len() implies lex_lt(key@, #[trigger] mid[j].0) by {
                if found {
                    assert(mid[j].0 == old(self).entries@[j + 1].0@);
                    assert(lex_lt(before[i as int].0, before[j + 1].0));
                } else {
                    assert(mid[j].0 == old(self).entries@[j].0@);
                }
            }
        }
        entries.insert(i, (to_vec(key), to_vec(value)));
        proof {
            assert(pairs_of(entries@) =~= mid.insert(i as int, (key@, value@)));
            lemma_insert_at(mid, i as int, key@, value@);
        }
        core::mem::swap(&mut self.entries, &mut entries);
        r
    }

    /// Removes `key` and hands back the value it had.
    pub fn remove(&mut self, key: &[u8]) -> (r: Option<Vec<u8>>)
        ensures
            final(self)@ == old(self)@.remove(key@),
            match r {
                Some(v) => old(self)@.dom().contains(key@) && v@ == old(self)@[key@],
                None => !old(self)@.dom().contains(key@),
            },
    {
        proof {
            use_type_invariant(&*self);
        }
        let (i, found) = self.locate(key);
        if found {
            let mut entries: Vec<(Vec<u8>, Vec<u8>)> = Vec::new();
            assert(pairs_of(entries@) =~= Seq::<Pair>::empty());
            core::mem::swap(&mut self.entries, &mut entries);
            let ghost before = pairs_of(entries@);
            let gone = entries.remove(i);
            proof {
                assert(pairs_of(entries@) =~= before.remove(i as int));
                lemma_remove_at(before, i as int);
            }
            core::mem::swap(&mut self.entries, &mut entries);
            Some(gone.1)
        } else {
            assert(self@.remove(key@) =~= self@);
            None
        }
    }

    /// All pairs, in the order of their keys.
    pub fn entries(&self) -> (out: Vec<(Vec<u8>, Vec<u8>)>)
        ensures
            lists(pairs_of(out@), self@),
    {
        proof {
            use_type_invariant(self);
            lemma_map_of_lists(pairs_of(self.entries@));
        }
        let mut out: Vec<(Vec<u8>, Vec<u8>)> = Vec::new();
        let mut i: usize = 0;
        assert(pairs_of(out@) =~= pairs_of(self.entries@).take(0));
        while i < self.entries.len()
            invariant
                i <= self.entries@.len(),
                pairs_of(out@) == pairs_of(self.entries@).take(i as int),
            decreases self.entries@.len() - i,
        {
            let ghost prev = pairs_of(out@);
            let k = to_vec(self.entries[i].0.as_slice());
            let v = to_vec(self.entries[i].1.as_slice());
            out.push((k, v));
            proof {
                assert(pairs_of(out@) =~= prev.push((k@, v@)));
                assert(pairs_of(self.entries@).take(i + 1) =~= prev.push((k@, v@)));
            }
            i += 1;
        }
        assert(pairs_of(self.entries@).take(i as int) =~= pairs_of(self.entries@));
        out
    }

    /// All keys, in their order.
    pub fn keys(&self) -> (out: Vec<Vec<u8>>)
        ensures
            crate::state_set::lists_set(vecs_of(out@), self@.dom()),
    {
        let entries = self.entries();
        let ghost all = pairs_of(entries@);
        let mut out: Vec<Vec<u8>> = Vec::new();
        let mut i: usize = 0;
        while i < entries.len()
            invariant
                i <= entries@.len(),
                out@.len() == i,
                forall|j: int| 0 <= j < i ==> (#[trigger] out@[j])@ == entries@[j].0@,
            decreases entries@.len() - i,
        {
            out.push(to_vec(entries[i].0.as_slice()));
            i += 1;
        }
        proof {
            let s = vecs_of(out@);
            assert forall|a: int, b: int| 0 <= a < b < s.len() implies lex_lt(#[trigger] s[a], #[trigger] s[b]) by {
                assert(lex_lt(all[a].0, all[b].0));
            }
            assert forall|a: int| 0 <= a < s.len() implies self@.dom().contains(#[trigger] s[a]) by {
                assert(self@.contains_pair(all[a].0, all[a].1));
            }
            assert forall|k: Seq<u8>| self@.dom().contains(k) implies s.contains(k) by {
                let c = choose|c: int| 0 <= c < all.len() && #[trigger] all[c].0 == k;
                assert(s[c] == k);
            }
        }
        out
    }

    /// The pairs whose key begins with `prefix`, in the order of their keys.
    pub fn scan_prefix(&self, prefix: &[u8]) -> (out: Vec<(Vec<u8>, Vec<u8>)>)
        ensures
            lists(pairs_of(out@), self@.restrict(Set::new(|k: Seq<u8>| has_prefix(k, prefix@)))),
    {
        proof {
            use_type_invariant(self);
            lemma_map_of_lists(pairs_of(self.entries@));
        }
        let ghost all = pairs_of(self.entries@);
        let ghost mut at: Seq<int> = Seq::empty();
        let mut out: Vec<(Vec<u8>, Vec<u8>)> = Vec::new();
        let mut i: usize = 0;
        while i < self.entries.len()
            invariant
                i <= self.entries@.len(),
                all == pairs_of(self.entries@),
                at.len() == out@.len(),
                forall|j: int| 0 <= j < at.len() ==> 0 <= #[trigger] at[j] < i,
                forall|j: int| 0 <= j < at.len() ==> pairs_of(out@)[j] == all[#[trigger] at[j]],
                forall|j: int| 0 <= j < at.len() ==> has_prefix(all[#[trigger] at[j]].0, prefix@),
                forall|a: int, b: int| 0 <= a < b < at.len() ==> #[trigger] at[a] < #[trigger] at[b],
                forall|c: int| 0 <= c < i && has_prefix(#[trigger] all[c].0, prefix@) ==> at.contains(c),
            decreases self.entries@.len() - i,
        {
            if starts_with(self.entries[i].0.as_slice(), prefix) {
                let ghost prev = pairs_of(out@);
                let ghost at0 = at;
                let k = to_vec(self.entries[i].0.as_slice());
                let v = to_vec(self.entries[i].1.as_slice());
                out.push((k, v));
                proof {
                    at = at0.push(i as int);
                    assert(pairs_of(out@) =~= prev.push((k@, v@)));
                    assert forall|c: int| 0 <= c < i + 1 && has_prefix(#[trigger] all[c].0, prefix@) implies at.contains(
                        c,
                    ) by {
                        if c < i {
                            let j = choose|j: int| 0 <= j < at0.len() && at0[j] == c;
                            assert(at[j] == c);
                        } else {
                            assert(at[at.len() - 1] == c);
                        }
                    }
                }
            }
            i += 1;
        }
        proof {
            let now = pairs_of(out@);
            let wanted = self@.restrict(Set::new(|k: Seq<u8>| has_prefix(k, prefix@)));
            assert forall|a: int, b: int| 0 <= a < b < now.len() implies lex_lt(
                #[trigger] now[a].0,
                #[trigger] now[b].0,
            ) by {
                assert(at[a] < at[b]);
                assert(lex_lt(all[at[a]].0, all[at[b]].0));
            }
            assert forall|j: int| 0 <= j < now.len() implies wanted.contains_pair(#[trigger] now[j].0, now[j].1) by {
                assert(self@.contains_pair(all[at[j]].0, all[at[j]].1));
            }
            assert forall|k: Seq<u8>| wanted.dom().contains(k) implies exists|j: int|
                0 <= j < now.len() && #[trigger] now[j].0 == k by {
                let c = choose|c: int| 0 <= c < all.len() && #[trigger] all[c].0 == k;
                assert(has_prefix(all[c].0, prefix@));
                let j = choose|j: int| 0 <= j < at.len() && at[j] == c;
                assert(now[j].0 == k);
            }
        }
        out
    }
}

impl Clone for Tree {
    /// A tree with the same pairs.
    fn clone(&self) -> (t: Tree)
        ensures
            t@ == self@,
    {
        let entries = self.entries();
        proof {
            lemma_lists_map_of(pairs_of(entries@), self@);
        }
        Tree { entries }
    }
}

} // verus!
