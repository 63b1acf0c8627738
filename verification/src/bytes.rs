//! Byte-level building blocks: big-endian integers and the lexicographic
//! order on byte strings.

use vstd::prelude::*;
use vstd::utf8::{
    decode_utf8, encode_utf8, encode_utf8_decode_utf8, encode_utf8_valid_utf8, length_of_first_scalar,
    pop_first_scalar, valid_first_scalar, valid_utf8,
};

verus! {

/// The eight bytes of `x`, most significant first.
pub open spec fn spec_u64_to_be_bytes(x: u64) -> Seq<u8> {
    seq![
        ((x >> 56) & 0xff) as u8,
        ((x >> 48) & 0xff) as u8,
        ((x >> 40) & 0xff) as u8,
        ((x >> 32) & 0xff) as u8,
        ((x >> 24) & 0xff) as u8,
        ((x >> 16) & 0xff) as u8,
        ((x >> 8) & 0xff) as u8,
        (x & 0xff) as u8,
    ]
}

/// The integer whose big-endian bytes are the first eight bytes of `s`.
pub open spec fn spec_u64_from_be_bytes(s: Seq<u8>) -> u64 {
    (s[0] as u64) << 56 | (s[1] as u64) << 48 | (s[2] as u64) << 40 | (s[3] as u64) << 32
        | (s[4] as u64) << 24 | (s[5] as u64) << 16 | (s[6] as u64) << 8 | (s[7] as u64)
}

/// Decoding undoes encoding.
pub proof fn lemma_u64_be_roundtrip(x: u64)
    ensures
        spec_u64_to_be_bytes(x).len() == 8,
        spec_u64_from_be_bytes(spec_u64_to_be_bytes(x)) == x,
{
    assert((((x >> 56) & 0xff) as u8 as u64) << 56 | (((x >> 48) & 0xff) as u8 as u64) << 48 | (((x
        >> 40) & 0xff) as u8 as u64) << 40 | (((x >> 32) & 0xff) as u8 as u64) << 32 | (((x >> 24)
        & 0xff) as u8 as u64) << 24 | (((x >> 16) & 0xff) as u8 as u64) << 16 | (((x >> 8) & 0xff) as u8 as u64)
        << 8 | ((x & 0xff) as u8 as u64) == x) by (bit_vector);
}

/// Encoding undoes decoding on eight bytes.
pub proof fn lemma_u64_be_bytes_roundtrip(s: Seq<u8>)
    requires
        s.len() == 8,
    ensures
        spec_u64_to_be_bytes(spec_u64_from_be_bytes(s)) == s,
{
    let (b0, b1, b2, b3, b4, b5, b6, b7) = (s[0], s[1], s[2], s[3], s[4], s[5], s[6], s[7]);
    let x = spec_u64_from_be_bytes(s);
    assert(x == (b0 as u64) << 56 | (b1 as u64) << 48 | (b2 as u64) << 40 | (b3 as u64) << 32 | (b4 as u64) << 24
        | (b5 as u64) << 16 | (b6 as u64) << 8 | (b7 as u64));
    assert(((x >> 56) & 0xff) as u8 == b0 && ((x >> 48) & 0xff) as u8 == b1 && ((x >> 40) & 0xff) as u8 == b2 && ((x
        >> 32) & 0xff) as u8 == b3 && ((x >> 24) & 0xff) as u8 == b4 && ((x >> 16) & 0xff) as u8 == b5 && ((x >> 8)
        & 0xff) as u8 == b6 && (x & 0xff) as u8 == b7) by (bit_vector)
        requires
            x == (b0 as u64) << 56 | (b1 as u64) << 48 | (b2 as u64) << 40 | (b3 as u64) << 32 | (b4 as u64) << 24
                | (b5 as u64) << 16 | (b6 as u64) << 8 | (b7 as u64),
    ;
    assert(spec_u64_to_be_bytes(x) =~= s);
}

/// Encodes `x` as eight bytes, most significant first.
pub fn u64_to_be_bytes(x: u64) -> (out: [u8; 8])
    ensures
        out@ == spec_u64_to_be_bytes(x),
{
    let out = [
        ((x >> 56) & 0xff) as u8,
        ((x >> 48) & 0xff) as u8,
        ((x >> 40) & 0xff) as u8,
        ((x >> 32) & 0xff) as u8,
        ((x >> 24) & 0xff) as u8,
        ((x >> 16) & 0xff) as u8,
        ((x >> 8) & 0xff) as u8,
        (x & 0xff) as u8,
    ];
    assert(out@ =~= spec_u64_to_be_bytes(x));
    out
}

/// Decodes the eight big-endian bytes of `bytes` that begin at `at`.
pub(crate) fn read_u64(bytes: &[u8], at: usize) -> (out: u64)
    requires
        at + 8 <= bytes@.len(),
    ensures
        out == spec_u64_from_be_bytes(bytes@.subrange(at as int, at + 8)),
{
    (bytes[at] as u64) << 56 | (bytes[at + 1] as u64) << 48 | (bytes[at + 2] as u64) << 40 | (bytes[at + 3] as u64)
        << 32 | (bytes[at + 4] as u64) << 24 | (bytes[at + 5] as u64) << 16 | (bytes[at + 6] as u64) << 8 | (bytes[at
        + 7] as u64)
}

/// Decodes the four big-endian bytes of `bytes` that begin at `at`.
pub(crate) fn read_u32(bytes: &[u8], at: usize) -> (out: u32)
    requires
        at + 4 <= bytes@.len(),
    ensures
        out == spec_u32_from_be_bytes(bytes@.subrange(at as int, at + 4)),
{
    (bytes[at] as u32) << 24 | (bytes[at + 1] as u32) << 16 | (bytes[at + 2] as u32) << 8 | (bytes[at + 3] as u32)
}

/// Decodes eight big-endian bytes; anything but eight bytes is refused.
pub fn u64_from_be_bytes(bytes: &[u8]) -> (out: Option<u64>)
    ensures
        out == if bytes@.len() == 8 {
            Some(spec_u64_from_be_bytes(bytes@))
        } else {
            None
        },
{
    if bytes.len() != 8 {
        return None;
    }
    assert(bytes@.subrange(0, 8) =~= bytes@);
    Some(read_u64(bytes, 0))
}

/// The four bytes of `x`, most significant first.
pub open spec fn spec_u32_to_be_bytes(x: u32) -> Seq<u8> {
    seq![((x >> 24) & 0xff) as u8, ((x >> 16) & 0xff) as u8, ((x >> 8) & 0xff) as u8, (x & 0xff) as u8]
}

/// The integer whose big-endian bytes are the first four bytes of `s`.
pub open spec fn spec_u32_from_be_bytes(s: Seq<u8>) -> u32 {
    (s[0] as u32) << 24 | (s[1] as u32) << 16 | (s[2] as u32) << 8 | (s[3] as u32)
}

/// Decoding undoes encoding.
pub proof fn lemma_u32_be_roundtrip(x: u32)
    ensures
        spec_u32_to_be_bytes(x).len() == 4,
        spec_u32_from_be_bytes(spec_u32_to_be_bytes(x)) == x,
{
    assert((((x >> 24) & 0xff) as u8 as u32) << 24 | (((x >> 16) & 0xff) as u8 as u32) << 16 | (((x >> 8) & 0xff) as u8 as u32)
        << 8 | ((x & 0xff) as u8 as u32) == x) by (bit_vector);
}

/// Encodes `x` as four bytes, most significant first.
pub fn u32_to_be_bytes(x: u32) -> (out: [u8; 4])
    ensures
        out@ == spec_u32_to_be_bytes(x),
{
    let out = [((x >> 24) & 0xff) as u8, ((x >> 16) & 0xff) as u8, ((x >> 8) & 0xff) as u8, (x & 0xff) as u8];
    assert(out@ =~= spec_u32_to_be_bytes(x));
    out
}

/// Decodes four big-endian bytes; anything but four bytes is refused.
pub fn u32_from_be_bytes(bytes: &[u8]) -> (out: Option<u32>)
    ensures
        out == if bytes@.len() == 4 {
            Some(spec_u32_from_be_bytes(bytes@))
        } else {
            None
        },
{
    if bytes.len() != 4 {
        return None;
    }
    assert(bytes@.subrange(0, 4) =~= bytes@);
    Some(read_u32(bytes, 0))
}

/// The order of byte strings as a dictionary lists them: the first byte on
/// which two strings differ decides, and a proper prefix comes first.
pub open spec fn lex_lt(a: Seq<u8>, b: Seq<u8>) -> bool
    decreases a.len(),
{
    if b.len() == 0 {
        false
    } else if a.len() == 0 {
        true
    } else if a[0] != b[0] {
        a[0] < b[0]
    } else {
        lex_lt(a.skip(1), b.skip(1))
    }
}

/// Whether `s` begins with the bytes of `prefix`.
pub open spec fn has_prefix(s: Seq<u8>, prefix: Seq<u8>) -> bool {
    prefix.len() <= s.len() && s.take(prefix.len() as int) == prefix
}

/// No byte string comes before itself.
pub proof fn lemma_lex_lt_irreflexive(a: Seq<u8>)
    ensures
        !lex_lt(a, a),
    decreases a.len(),
{
    if a.len() > 0 {
        lemma_lex_lt_irreflexive(a.skip(1));
    }
}

/// The order is transitive.
pub proof fn lemma_lex_lt_transitive(a: Seq<u8>, b: Seq<u8>, c: Seq<u8>)
    requires
        lex_lt(a, b),
        lex_lt(b, c),
    ensures
        lex_lt(a, c),
    decreases a.len(),
{
    if a.len() > 0 && a[0] == b[0] && b[0] == c[0] {
        lemma_lex_lt_transitive(a.skip(1), b.skip(1), c.skip(1));
    }
}

/// Of two different byte strings one comes before the other.
pub proof fn lemma_lex_lt_total(a: Seq<u8>, b: Seq<u8>)
    ensures
        lex_lt(a, b) || lex_lt(b, a) || a == b,
    decreases a.len(),
{
    if a.len() == 0 || b.len() == 0 {
        if a.len() == 0 && b.len() == 0 {
            assert(a =~= b);
        }
    } else if a[0] == b[0] {
        lemma_lex_lt_total(a.skip(1), b.skip(1));
        if a.skip(1) == b.skip(1) {
            assert(a =~= seq![a[0]] + a.skip(1));
            assert(b =~= seq![b[0]] + b.skip(1));
        }
    }
}

/// How two byte strings stand to each other in the lexicographic order.
#[derive(Debug, Clone, Copy, PartialEq, Eq, Structural)]
pub enum Position {
    Before,
    Same,
    After,
}

/// The position of `a` relative to `b`.
pub open spec fn spec_position(a: Seq<u8>, b: Seq<u8>) -> Position {
    if a == b {
        Position::Same
    } else if lex_lt(a, b) {
        Position::Before
    } else {
        Position::After
    }
}

proof fn lemma_lex_lt_skip(a: Seq<u8>, b: Seq<u8>, i: int)
    requires
        0 <= i <= a.len(),
        i <= b.len(),
        a.take(i) == b.take(i),
    ensures
        lex_lt(a, b) == lex_lt(a.skip(i), b.skip(i)),
        (a == b) == (a.skip(i) == b.skip(i)),
    decreases i,
{
    if i > 0 {
        assert(a.take(i - 1) =~= a.take(i).take(i - 1));
        assert(b.take(i - 1) =~= b.take(i).take(i - 1));
        lemma_lex_lt_skip(a, b, i - 1);
        let a1 = a.skip(i - 1);
        let b1 = b.skip(i - 1);
        assert(a1[0] == a.take(i)[i - 1]);
        assert(b1[0] == b.take(i)[i - 1]);
        assert(a1.skip(1) =~= a.skip(i));
        assert(b1.skip(1) =~= b.skip(i));
        if a.skip(i) == b.skip(i) {
            assert(a1 =~= seq![a1[0]] + a1.skip(1));
            assert(b1 =~= seq![b1[0]] + b1.skip(1));
        }
    } else {
        assert(a.skip(0) =~= a);
        assert(b.skip(0) =~= b);
    }
}

/// Compares two byte strings lexicographically.
pub fn position(a: &[u8], b: &[u8]) -> (r: Position)
    ensures
        r == spec_position(a@, b@),
{
    let mut i: usize = 0;
    while i < a.len() && i < b.len()
        invariant
            i <= a.len(),
            i <= b.len(),
            a@.take(i as int) == b@.take(i as int),
        decreases a.len() - i,
    {
        if a[i] != b[i] {
            proof {
                lemma_lex_lt_skip(a@, b@, i as int);
                lemma_lex_lt_irreflexive(a@);
            }
            return if a[i] < b[i] {
                Position::Before
            } else {
                Position::After
            };
        }
        assert(a@.take(i + 1) =~= a@.take(i as int).push(a@[i as int]));
        assert(b@.take(i + 1) =~= b@.take(i as int).push(b@[i as int]));
        i += 1;
    }
    proof {
        lemma_lex_lt_skip(a@, b@, i as int);
        lemma_lex_lt_irreflexive(a@);
        if a@.len() == b@.len() {
            assert(a@.skip(i as int) =~= b@.skip(i as int));
        }
    }
    if a.len() == b.len() {
        Position::Same
    } else if a.len() < b.len() {
        Position::Before
    } else {
        Position::After
    }
}

/// Whether `s` begins with `prefix`.
pub fn starts_with(s: &[u8], prefix: &[u8]) -> (r: bool)
    ensures
        r == has_prefix(s@, prefix@),
{
    if prefix.len() > s.len() {
        return false;
    }
    let mut i: usize = 0;
    while i < prefix.len()
        invariant
            i <= prefix.len(),
            prefix.len() <= s.len(),
            s@.take(i as int) == prefix@.take(i as int),
        decreases prefix.len() - i,
    {
        if s[i] != prefix[i] {
            assert(s@.take(prefix@.len() as int)[i as int] != prefix@[i as int]);
            return false;
        }
        assert(s@.take(i + 1) =~= s@.take(i as int).push(s@[i as int]));
        assert(prefix@.take(i + 1) =~= prefix@.take(i as int).push(prefix@[i as int]));
        i += 1;
    }
    assert(prefix@.take(i as int) =~= prefix@);
    true
}

/// A fresh vector holding the bytes of `s`.
pub fn to_vec(s: &[u8]) -> (out: Vec<u8>)
    ensures
        out@ == s@,
{
    let mut out: Vec<u8> = Vec::new();
    let mut i: usize = 0;
    while i < s.len()
        invariant
            i <= s.len(),
            out@ == s@.take(i as int),
        decreases s.len() - i,
    {
        out.push(s[i]);
        assert(s@.take(i + 1) =~= s@.take(i as int).push(s@[i as int]));
        i += 1;
    }
    assert(s@.take(i as int) =~= s@);
    out
}

/// Whether two byte strings are the same.
pub fn bytes_eq(a: &[u8], b: &[u8]) -> (r: bool)
    ensures
        r == (a@ == b@),
{
    match position(a, b) {
        Position::Same => true,
        _ => false,
    }
}

/// Whether two strings are the same.
pub fn str_eq(a: &str, b: &str) -> (r: bool)
    ensures
        r == (a@ == b@),
{
    proof {
        encode_utf8_decode_utf8(a@);
        encode_utf8_decode_utf8(b@);
    }
    bytes_eq(a.as_bytes(), b.as_bytes())
}

/// Calls `String::from_utf8` on a copy of `bytes`: the string that the bytes
/// encode, or nothing if they are not UTF-8.
#[verifier::external_body]
pub(crate) fn decode_string(bytes: &[u8]) -> (r: Option<String>)
    ensures
        match r {
            Some(s) => valid_utf8(bytes@) && s@ == decode_utf8(bytes@),
            None => !valid_utf8(bytes@),
        },
{
    String::from_utf8(bytes.to_vec()).ok()
}

/// The string that `bytes` encode in UTF-8, if they encode one.
pub fn string_from_bytes(bytes: &[u8]) -> (r: Option<String>)
    ensures
        match r {
            Some(s) => valid_utf8(bytes@) && s@ == decode_utf8(bytes@),
            None => !valid_utf8(bytes@),
        },
{
    decode_string(bytes)
}

/// The place of the first `byte` in `s`; the length of `s` where it has none.
pub open spec fn spec_index_of(s: Seq<u8>, byte: u8) -> int
    decreases s.len(),
{
    if s.len() == 0 || s[0] == byte {
        0
    } else {
        1 + spec_index_of(s.skip(1), byte)
    }
}

/// What `spec_index_of` gives: no `byte` before that place, and `byte` at it if it is in `s`.
pub proof fn lemma_index_of(s: Seq<u8>, byte: u8)
    ensures
        0 <= spec_index_of(s, byte) <= s.len(),
        forall|j: int| 0 <= j < spec_index_of(s, byte) ==> s[j] != byte,
        spec_index_of(s, byte) < s.len() ==> s[spec_index_of(s, byte)] == byte,
    decreases s.len(),
{
    if s.len() > 0 && s[0] != byte {
        lemma_index_of(s.skip(1), byte);
        assert forall|j: int| 0 <= j < spec_index_of(s, byte) implies s[j] != byte by {
            if j > 0 {
                assert(s.skip(1)[j - 1] == s[j]);
            }
        }
    }
}

/// The first place of `byte` is the one place before which there is none and at which it stands.
pub proof fn lemma_index_of_is(s: Seq<u8>, byte: u8, at: int)
    requires
        0 <= at <= s.len(),
        forall|j: int| 0 <= j < at ==> s[j] != byte,
        at < s.len() ==> s[at] == byte,
    ensures
        spec_index_of(s, byte) == at,
{
    lemma_index_of(s, byte);
}

/// The place of the first `byte` in `s`; the length of `s` where it has none.
pub fn index_of(s: &[u8], byte: u8) -> (at: usize)
    ensures
        at == spec_index_of(s@, byte),
        at <= s@.len(),
{
    let mut i: usize = 0;
    while i < s.len() && s[i] != byte
        invariant
            i <= s@.len(),
            forall|j: int| 0 <= j < i ==> s@[j] != byte,
        decreases s@.len() - i,
    {
        i += 1;
    }
    proof {
        lemma_index_of_is(s@, byte, i as int);
    }
    i
}

/// No byte of UTF-8 text is `0xff`.
pub proof fn lemma_utf8_no_ff(bytes: Seq<u8>)
    requires
        valid_utf8(bytes),
    ensures
        forall|i: int| 0 <= i < bytes.len() ==> bytes[i] != 0xff,
    decreases bytes.len(),
{
    if bytes.len() > 0 {
        let k = length_of_first_scalar(bytes);
        let rest = pop_first_scalar(bytes);
        assert(valid_first_scalar(bytes));
        assert(1 <= k <= bytes.len());
        lemma_utf8_no_ff(rest);
        assert forall|i: int| 0 <= i < bytes.len() implies bytes[i] != 0xff by {
            if i >= k {
                assert(rest[i - k] == bytes[i]);
            }
        }
    }
}

/// No byte of the UTF-8 encoding of a string is `0xff`.
pub proof fn lemma_text_no_ff(text: Seq<char>)
    ensures
        forall|i: int| 0 <= i < encode_utf8(text).len() ==> encode_utf8(text)[i] != 0xff,
{
    encode_utf8_valid_utf8(text);
    lemma_utf8_no_ff(encode_utf8(text));
}

} // verus!
