//! The counter from which every short identifier is taken.

use crate::bytes::{lemma_u64_be_roundtrip, spec_u64_from_be_bytes, spec_u64_to_be_bytes, u64_from_be_bytes, u64_to_be_bytes};
use crate::error::{Error, Result};
use crate::state_compressor::Db;
use crate::tree::Tree;
use vstd::prelude::*;

verus! {

/// The key under which the counter is stored.
pub open spec fn counter_key() -> Seq<u8> {
    seq![0x63u8]
}

/// The last number handed out: zero where none was, nothing where the
/// stored value is not eight bytes.
pub open spec fn spec_current_count(db: Db) -> Option<u64> {
    if !db.dom().contains(counter_key()) {
        Some(0)
    } else if db[counter_key()].len() == 8 {
        Some(spec_u64_from_be_bytes(db[counter_key()]))
    } else {
        None
    }
}

/// The number handed out next: one more than the last, nothing where the
/// counter is unreadable or has reached the greatest number.
pub open spec fn spec_next_count(db: Db) -> Option<u64> {
    match spec_current_count(db) {
        Some(c) => if c < u64::MAX {
            Some((c + 1) as u64)
        } else {
            None
        },
        None => None,
    }
}

/// The keyspace after `count` was handed out.
pub open spec fn spec_counted(db: Db, count: u64) -> Db {
    db.insert(counter_key(), spec_u64_to_be_bytes(count))
}

/// After a number is handed out it is the last number handed out.
pub proof fn lemma_counted(db: Db, count: u64)
    ensures
        spec_current_count(spec_counted(db, count)) == Some(count),
{
    lemma_u64_be_roundtrip(count);
}

/// The keyspace of server-wide values; it holds the counter.
pub struct Globals {
    global: Tree,
}

impl View for Globals {
    type V = Db;

    closed spec fn view(&self) -> Db {
        self.global@
    }
}

impl Globals {
    /// A keyspace in which nothing was counted yet.
    pub fn new() -> (g: Globals)
        ensures
            g@ == Db::empty(),
    {
        Globals { global: Tree::new() }
    }

    /// The keyspace over stored values.
    pub fn from_tree(global: Tree) -> (g: Globals)
        ensures
            g@ == global@,
    {
        Globals { global }
    }

    /// The stored values.
    pub fn tree(&self) -> (t: &Tree)
        ensures
            t@ == self@,
    {
        &self.global
    }

    /// The last number handed out.
    pub fn current_count(&self) -> (r: Result<u64>)
        ensures
            match r {
                Ok(c) => spec_current_count(self@) == Some(c),
                Err(e) => spec_current_count(self@).is_none() && e is BadDatabase,
            },
    {
        let key: [u8; 1] = [0x63];
        assert(key@ =~= counter_key());
        match self.global.get(key.as_slice()) {
            None => Ok(0),
            Some(bytes) => match u64_from_be_bytes(bytes.as_slice()) {
                Some(c) => Ok(c),
                None => Err(Error::BadDatabase("Count has invalid bytes.")),
            },
        }
    }

    /// Hands out the next number and stores it as the last one handed out.
    pub fn next_count(&mut self) -> (r: Result<u64>)
        ensures
            match r {
                Ok(c) => spec_next_count(old(self)@) == Some(c) && final(self)@ == spec_counted(old(self)@, c),
                Err(e) => spec_next_count(old(self)@).is_none() && final(self)@ == old(self)@ && e is BadDatabase,
            },
    {
        let current = match self.current_count() {
            Ok(c) => c,
            Err(e) => {
                return Err(e);
            },
        };
        if current == u64::MAX {
            return Err(Error::BadDatabase("Count has reached its limit."));
        }
        let next = current + 1;
        let key: [u8; 1] = [0x63];
        assert(key@ =~= counter_key());
        self.global.insert(key.as_slice(), u64_to_be_bytes(next).as_slice());
        Ok(next)
    }
}

} // verus!
