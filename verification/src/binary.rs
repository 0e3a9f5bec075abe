//! The binary codec: a deterministic, self-describing mapping between a
//! [`Value`] and a compact byte encoding. Every payload is preceded by a
//! one-byte type tag, so a decoder reconstructs the exact variant without
//! external schema. Encoding is canonical: decoding any byte sequence and
//! re-encoding the result reproduces the input bytes exactly.
//!
//! Layout, per variant (all integers little-endian, text as an 8-byte
//! character count followed by one 4-byte Unicode scalar per character):
//! tag 0 null; 1 false; 2 true; 3 integer (8 bytes, two's complement);
//! 4 float text; 5 decimal text; 6 string text; 7 byte string (8-byte
//! length + raw bytes); 8 duration (8-byte seconds + 4-byte nanoseconds);
//! 9 record identifier (table text + key text); 10 array (8-byte count +
//! encoded elements); 11 object (8-byte count + key text / encoded value
//! pairs); 12 sub-query text.

use vstd::prelude::*;
use vstd::bytes::{
    spec_u32_from_le_bytes, spec_u32_to_le_bytes, spec_u64_from_le_bytes, spec_u64_to_le_bytes,
    lemma_auto_spec_u32_to_from_le_bytes, lemma_auto_spec_u64_to_from_le_bytes,
    u32_from_le_bytes, u32_to_le_bytes, u64_from_le_bytes, u64_to_le_bytes,
};
use vstd::utf8::{char_is_scalar, char_u32_cast, is_scalar};
use vstd::slice::{slice_subrange, slice_to_vec};
use crate::value::{Entry, Value, ValueModel, model_of, models_of, entry_models_of,
    lemma_models_of_index, lemma_models_of_len, lemma_models_of_push, lemma_entry_models_of_push, lemma_entry_models_of_index,
    lemma_entry_models_of_len};
use crate::errors::{BinaryDecodeError, EncodeError};

verus! {

broadcast use {vstd::std_specs::vec::group_vec_axioms, vstd::seq::axiom_seq_index_decreases};

/// One more than the largest length that the encoding's 8-byte counts can
/// carry.
pub open spec fn len_limit() -> nat {
    0x1_0000_0000_0000_0000
}

/// Whether every sequence length inside the model fits the encoding's
/// 8-byte counts. Every `Value` built by executable code satisfies this.
pub open spec fn bounded(m: ValueModel) -> bool
    decreases m,
{
    match m {
        ValueModel::Null => true,
        ValueModel::Bool(_) => true,
        ValueModel::Int(_) => true,
        ValueModel::Float(s) => s.len() < len_limit(),
        ValueModel::Decimal(s) => s.len() < len_limit(),
        ValueModel::Strand(s) => s.len() < len_limit(),
        ValueModel::Bytes(b) => b.len() < len_limit(),
        ValueModel::Duration(_, _) => true,
        ValueModel::Thing(t, i) => t.len() < len_limit() && i.len() < len_limit(),
        ValueModel::Array(items) => items.len() < len_limit() && bounded_list(items),
        ValueModel::Object(es) => es.len() < len_limit() && bounded_entries(es),
        ValueModel::Query(s) => s.len() < len_limit(),
    }
}

/// `bounded`, over each element of a sequence of models.
pub open spec fn bounded_list(items: Seq<ValueModel>) -> bool
    decreases items,
{
    if items.len() == 0 {
        true
    } else {
        bounded(items.first()) && bounded_list(items.drop_first())
    }
}

/// `bounded`, over each entry of an object model.
pub open spec fn bounded_entries(es: Seq<(Seq<char>, ValueModel)>) -> bool
    decreases es,
{
    if es.len() == 0 {
        true
    } else {
        es.first().0.len() < len_limit() && bounded(es.first().1) && bounded_entries(
            es.drop_first(),
        )
    }
}

/// The 4-byte encoding of one character: its Unicode scalar value,
/// little-endian.
pub open spec fn enc_char(c: char) -> Seq<u8> {
    spec_u32_to_le_bytes(c as u32)
}

/// The encoding of a character sequence: each character in order.
pub open spec fn enc_chars(s: Seq<char>) -> Seq<u8>
    decreases s,
{
    if s.len() == 0 {
        Seq::empty()
    } else {
        enc_char(s.first()) + enc_chars(s.drop_first())
    }
}

/// The encoding of a text payload: character count, then the characters.
pub open spec fn enc_text(s: Seq<char>) -> Seq<u8> {
    spec_u64_to_le_bytes(s.len() as u64) + enc_chars(s)
}

/// The encoding of one value model.
pub open spec fn enc(m: ValueModel) -> Seq<u8>
    decreases m,
{
    match m {
        ValueModel::Null => seq![0u8],
        ValueModel::Bool(b) => if b {
            seq![2u8]
        } else {
            seq![1u8]
        },
        ValueModel::Int(i) => seq![3u8] + spec_u64_to_le_bytes(i as u64),
        ValueModel::Float(s) => seq![4u8] + enc_text(s),
        ValueModel::Decimal(s) => seq![5u8] + enc_text(s),
        ValueModel::Strand(s) => seq![6u8] + enc_text(s),
        ValueModel::Bytes(b) => seq![7u8] + spec_u64_to_le_bytes(b.len() as u64) + b,
        ValueModel::Duration(secs, nanos) => seq![8u8] + spec_u64_to_le_bytes(secs)
            + spec_u32_to_le_bytes(nanos),
        ValueModel::Thing(t, i) => seq![9u8] + enc_text(t) + enc_text(i),
        ValueModel::Array(items) => seq![10u8] + spec_u64_to_le_bytes(items.len() as u64)
            + enc_list(items),
        ValueModel::Object(es) => seq![11u8] + spec_u64_to_le_bytes(es.len() as u64)
            + enc_entries(es),
        ValueModel::Query(s) => seq![12u8] + enc_text(s),
    }
}

/// The encodings of a sequence of models, concatenated in order.
pub open spec fn enc_list(items: Seq<ValueModel>) -> Seq<u8>
    decreases items,
{
    if items.len() == 0 {
        Seq::empty()
    } else {
        enc(items.first()) + enc_list(items.drop_first())
    }
}

/// The encodings of an object's entries, concatenated in order: key text,
/// then the value.
pub open spec fn enc_entries(es: Seq<(Seq<char>, ValueModel)>) -> Seq<u8>
    decreases es,
{
    if es.len() == 0 {
        Seq::empty()
    } else {
        enc_text(es.first().0) + enc(es.first().1) + enc_entries(es.drop_first())
    }
}

/// Reading an 8-byte little-endian count from the front of `s`.
pub open spec fn dec_u64(s: Seq<u8>) -> Option<(u64, Seq<u8>)> {
    if s.len() >= 8 {
        Some((spec_u64_from_le_bytes(s.take(8)), s.skip(8)))
    } else {
        None
    }
}

/// Reading a 4-byte little-endian word from the front of `s`.
pub open spec fn dec_u32(s: Seq<u8>) -> Option<(u32, Seq<u8>)> {
    if s.len() >= 4 {
        Some((spec_u32_from_le_bytes(s.take(4)), s.skip(4)))
    } else {
        None
    }
}

/// Reading `n` characters from the front of `s`; fails on truncation or
/// on a word that is not a Unicode scalar value.
pub open spec fn dec_chars(s: Seq<u8>, n: nat) -> Option<(Seq<char>, Seq<u8>)>
    decreases n,
{
    if n == 0 {
        Some((Seq::empty(), s))
    } else {
        match dec_u32(s) {
            None => None,
            Some((u, r)) => if is_scalar(u) {
                match dec_chars(r, (n - 1) as nat) {
                    None => None,
                    Some((cs, r2)) => Some((seq![u as char] + cs, r2)),
                }
            } else {
                None
            },
        }
    }
}

/// Reading a text payload from the front of `s`.
pub open spec fn dec_text(s: Seq<u8>) -> Option<(Seq<char>, Seq<u8>)> {
    match dec_u64(s) {
        None => None,
        Some((n, r)) => dec_chars(r, n as nat),
    }
}

/// Reading one encoded value from the front of `s`: the inverse of
/// [`enc`]. `None` on a truncated payload, an unknown tag, or a
/// malformed character.
pub open spec fn dec(s: Seq<u8>) -> Option<(ValueModel, Seq<u8>)>
    decreases s.len(), 0int,
{
    if s.len() == 0 {
        None
    } else {
        let tag = s.first();
        let p = s.drop_first();
        if tag == 0 {
            Some((ValueModel::Null, p))
        } else if tag == 1 {
            Some((ValueModel::Bool(false), p))
        } else if tag == 2 {
            Some((ValueModel::Bool(true), p))
        } else if tag == 3 {
            match dec_u64(p) {
                None => None,
                Some((u, r)) => Some((ValueModel::Int(u as i64), r)),
            }
        } else if tag == 4 {
            match dec_text(p) {
                None => None,
                Some((cs, r)) => Some((ValueModel::Float(cs), r)),
            }
        } else if tag == 5 {
            match dec_text(p) {
                None => None,
                Some((cs, r)) => Some((ValueModel::Decimal(cs), r)),
            }
        } else if tag == 6 {
            match dec_text(p) {
                None => None,
                Some((cs, r)) => Some((ValueModel::Strand(cs), r)),
            }
        } else if tag == 7 {
            match dec_u64(p) {
                None => None,
                Some((n, r)) => if r.len() >= n as int {
                    Some((ValueModel::Bytes(r.take(n as int)), r.skip(n as int)))
                } else {
                    None
                },
            }
        } else if tag == 8 {
            match dec_u64(p) {
                None => None,
                Some((secs, r)) => match dec_u32(r) {
                    None => None,
                    Some((nanos, r2)) => Some((ValueModel::Duration(secs, nanos), r2)),
                },
            }
        } else if tag == 9 {
            match dec_text(p) {
                None => None,
                Some((t, r)) => match dec_text(r) {
                    None => None,
                    Some((i, r2)) => Some((ValueModel::Thing(t, i), r2)),
                },
            }
        } else if tag == 10 {
            match dec_u64(p) {
                None => None,
                Some((n, r)) => if r.len() < s.len() {
                    match dec_list(r, n as nat) {
                        None => None,
                        Some((items, r2)) => Some((ValueModel::Array(items), r2)),
                    }
                } else {
                    None
                },
            }
        } else if tag == 11 {
            match dec_u64(p) {
                None => None,
                Some((n, r)) => if r.len() < s.len() {
                    match dec_entries(r, n as nat) {
                        None => None,
                        Some((es, r2)) => Some((ValueModel::Object(es), r2)),
                    }
                } else {
                    None
                },
            }
        } else if tag == 12 {
            match dec_text(p) {
                None => None,
                Some((cs, r)) => Some((ValueModel::Query(cs), r)),
            }
        } else {
            None
        }
    }
}

/// Reading `n` encoded values from the front of `s`, in order.
pub open spec fn dec_list(s: Seq<u8>, n: nat) -> Option<(Seq<ValueModel>, Seq<u8>)>
    decreases s.len(), 1int,
{
    if n == 0 {
        Some((Seq::empty(), s))
    } else {
        match dec(s) {
            None => None,
            Some((m, r)) => if r.len() < s.len() {
                match dec_list(r, (n - 1) as nat) {
                    None => None,
                    Some((ms, r2)) => Some((seq![m] + ms, r2)),
                }
            } else {
                None
            },
        }
    }
}

/// Reading `n` encoded object entries from the front of `s`, in order.
pub open spec fn dec_entries(s: Seq<u8>, n: nat) -> Option<
    (Seq<(Seq<char>, ValueModel)>, Seq<u8>),
>
    decreases s.len(), 1int,
{
    if n == 0 {
        Some((Seq::empty(), s))
    } else {
        match dec_text(s) {
            None => None,
            Some((k, r1)) => if r1.len() < s.len() {
                match dec(r1) {
                    None => None,
                    Some((m, r2)) => if r2.len() < s.len() {
                        match dec_entries(r2, (n - 1) as nat) {
                            None => None,
                            Some((es, r3)) => Some((seq![(k, m)] + es, r3)),
                        }
                    } else {
                        None
                    },
                }
            } else {
                None
            },
        }
    }
}

proof fn lemma_dec_u64_enc(x: u64, rest: Seq<u8>)
    ensures
        dec_u64(spec_u64_to_le_bytes(x) + rest) == Some((x, rest)),
{
    lemma_auto_spec_u64_to_from_le_bytes();
    assert((spec_u64_to_le_bytes(x) + rest).take(8) =~= spec_u64_to_le_bytes(x));
    assert((spec_u64_to_le_bytes(x) + rest).skip(8) =~= rest);
}

proof fn lemma_dec_u32_enc(x: u32, rest: Seq<u8>)
    ensures
        dec_u32(spec_u32_to_le_bytes(x) + rest) == Some((x, rest)),
{
    lemma_auto_spec_u32_to_from_le_bytes();
    assert((spec_u32_to_le_bytes(x) + rest).take(4) =~= spec_u32_to_le_bytes(x));
    assert((spec_u32_to_le_bytes(x) + rest).skip(4) =~= rest);
}

proof fn lemma_dec_chars_enc(s: Seq<char>, rest: Seq<u8>)
    ensures
        dec_chars(enc_chars(s) + rest, s.len()) == Some((s, rest)),
    decreases s,
{
    if s.len() == 0 {
        assert(enc_chars(s) + rest =~= rest);
    } else {
        let c = s.first();
        char_is_scalar(c);
        assert(enc_chars(s) + rest =~= spec_u32_to_le_bytes(c as u32) + (enc_chars(
            s.drop_first(),
        ) + rest));
        lemma_dec_u32_enc(c as u32, enc_chars(s.drop_first()) + rest);
        lemma_dec_chars_enc(s.drop_first(), rest);
        char_u32_cast(c, c as u32);
        assert(seq![c] + s.drop_first() =~= s);
    }
}

proof fn lemma_dec_text_enc(s: Seq<char>, rest: Seq<u8>)
    requires
        s.len() < len_limit(),
    ensures
        dec_text(enc_text(s) + rest) == Some((s, rest)),
{
    assert(enc_text(s) + rest =~= spec_u64_to_le_bytes(s.len() as u64) + (enc_chars(s) + rest));
    lemma_dec_u64_enc(s.len() as u64, enc_chars(s) + rest);
    lemma_dec_chars_enc(s, rest);
}

/// Every encoding is at least one byte long: the tag.
proof fn lemma_enc_len_pos(m: ValueModel)
    ensures
        enc(m).len() >= 1,
{
}

/// Binary round trip: reading an encoded value back from the front of a
/// byte sequence yields exactly the value that was encoded, and consumes
/// exactly its encoding.
pub proof fn lemma_dec_enc(m: ValueModel, rest: Seq<u8>)
    requires
        bounded(m),
    ensures
        dec(enc(m) + rest) == Some((m, rest)),
    decreases m, 0int,
{
    let s = enc(m) + rest;
    match m {
        ValueModel::Null => {
            assert(s.drop_first() =~= rest);
        },
        ValueModel::Bool(b) => {
            assert(s.drop_first() =~= rest);
        },
        ValueModel::Int(i) => {
            assert(s.drop_first() =~= spec_u64_to_le_bytes(i as u64) + rest);
            lemma_dec_u64_enc(i as u64, rest);
            assert((i as u64) as i64 == i) by (bit_vector);
        },
        ValueModel::Float(t) => {
            assert(s.drop_first() =~= enc_text(t) + rest);
            lemma_dec_text_enc(t, rest);
        },
        ValueModel::Decimal(t) => {
            assert(s.drop_first() =~= enc_text(t) + rest);
            lemma_dec_text_enc(t, rest);
        },
        ValueModel::Strand(t) => {
            assert(s.drop_first() =~= enc_text(t) + rest);
            lemma_dec_text_enc(t, rest);
        },
        ValueModel::Bytes(b) => {
            assert(s.drop_first() =~= spec_u64_to_le_bytes(b.len() as u64) + (b + rest));
            lemma_dec_u64_enc(b.len() as u64, b + rest);
            assert((b + rest).take(b.len() as int) =~= b);
            assert((b + rest).skip(b.len() as int) =~= rest);
        },
        ValueModel::Duration(secs, nanos) => {
            assert(s.drop_first() =~= spec_u64_to_le_bytes(secs) + (spec_u32_to_le_bytes(nanos)
                + rest));
            lemma_dec_u64_enc(secs, spec_u32_to_le_bytes(nanos) + rest);
            lemma_dec_u32_enc(nanos, rest);
        },
        ValueModel::Thing(t, i) => {
            assert(s.drop_first() =~= enc_text(t) + (enc_text(i) + rest));
            lemma_dec_text_enc(t, enc_text(i) + rest);
            lemma_dec_text_enc(i, rest);
        },
        ValueModel::Array(items) => {
            assert(s.drop_first() =~= spec_u64_to_le_bytes(items.len() as u64) + (enc_list(items)
                + rest));
            lemma_dec_u64_enc(items.len() as u64, enc_list(items) + rest);
            lemma_dec_list_enc(items, rest);
        },
        ValueModel::Object(es) => {
            assert(s.drop_first() =~= spec_u64_to_le_bytes(es.len() as u64) + (enc_entries(es)
                + rest));
            lemma_dec_u64_enc(es.len() as u64, enc_entries(es) + rest);
            lemma_dec_entries_enc(es, rest);
        },
        ValueModel::Query(t) => {
            assert(s.drop_first() =~= enc_text(t) + rest);
            lemma_dec_text_enc(t, rest);
        },
    }
}

/// Round trip for a concatenated list of encoded values.
proof fn lemma_dec_list_enc(items: Seq<ValueModel>, rest: Seq<u8>)
    requires
        bounded_list(items),
    ensures
        dec_list(enc_list(items) + rest, items.len()) == Some((items, rest)),
    decreases items, 1int,
{
    if items.len() == 0 {
        assert(enc_list(items) + rest =~= rest);
    } else {
        let m0 = items.first();
        let tail = items.drop_first();
        assert(enc_list(items) + rest =~= enc(m0) + (enc_list(tail) + rest));
        lemma_dec_enc(m0, enc_list(tail) + rest);
        lemma_enc_len_pos(m0);
        lemma_dec_list_enc(tail, rest);
        assert(seq![m0] + tail =~= items);
    }
}

/// Round trip for a concatenated list of encoded object entries.
proof fn lemma_dec_entries_enc(es: Seq<(Seq<char>, ValueModel)>, rest: Seq<u8>)
    requires
        bounded_entries(es),
    ensures
        dec_entries(enc_entries(es) + rest, es.len()) == Some((es, rest)),
    decreases es, 1int,
{
    if es.len() == 0 {
        assert(enc_entries(es) + rest =~= rest);
    } else {
        let (k0, m0) = es.first();
        let tail = es.drop_first();
        lemma_auto_spec_u64_to_from_le_bytes();
        assert(enc_entries(es) + rest =~= enc_text(k0) + (enc(m0) + (enc_entries(tail) + rest)));
        lemma_dec_text_enc(k0, enc(m0) + (enc_entries(tail) + rest));
        lemma_dec_enc(m0, enc_entries(tail) + rest);
        lemma_enc_len_pos(m0);
        lemma_dec_entries_enc(tail, rest);
        assert(seq![(k0, m0)] + tail =~= es);
    }
}

proof fn lemma_canon_u64(s: Seq<u8>, x: u64, r: Seq<u8>)
    requires
        dec_u64(s) == Some((x, r)),
    ensures
        s == spec_u64_to_le_bytes(x) + r,
        r.len() == s.len() - 8,
{
    lemma_auto_spec_u64_to_from_le_bytes();
    assert(s.take(8).len() == 8);
    assert(s =~= s.take(8) + s.skip(8));
}

proof fn lemma_canon_u32(s: Seq<u8>, x: u32, r: Seq<u8>)
    requires
        dec_u32(s) == Some((x, r)),
    ensures
        s == spec_u32_to_le_bytes(x) + r,
        r.len() == s.len() - 4,
{
    lemma_auto_spec_u32_to_from_le_bytes();
    assert(s.take(4).len() == 4);
    assert(s =~= s.take(4) + s.skip(4));
}

proof fn lemma_canon_chars(s: Seq<u8>, n: nat, cs: Seq<char>, r: Seq<u8>)
    requires
        dec_chars(s, n) == Some((cs, r)),
    ensures
        cs.len() == n,
        s == enc_chars(cs) + r,
        r.len() == s.len() - 4 * n,
    decreases n,
{
    if n == 0 {
        assert(s =~= enc_chars(cs) + r);
    } else {
        let (u, r1) = dec_u32(s).unwrap();
        let (tail, r2) = dec_chars(r1, (n - 1) as nat).unwrap();
        lemma_canon_u32(s, u, r1);
        lemma_canon_chars(r1, (n - 1) as nat, tail, r2);
        assert(cs.first() == u as char);
        assert(cs.drop_first() =~= tail);
        assert(s =~= enc_char(cs.first()) + (enc_chars(tail) + r));
        assert(enc_chars(cs) + r =~= enc_char(cs.first()) + (enc_chars(tail) + r));
    }
}

proof fn lemma_canon_text(s: Seq<u8>, cs: Seq<char>, r: Seq<u8>)
    requires
        dec_text(s) == Some((cs, r)),
    ensures
        cs.len() < len_limit(),
        s == enc_text(cs) + r,
        r.len() < s.len(),
{
    let (n, r1) = dec_u64(s).unwrap();
    lemma_canon_u64(s, n, r1);
    lemma_canon_chars(r1, n as nat, cs, r);
    assert(s =~= enc_text(cs) + r);
}

/// Canonicity: a successful read of one value pins the bytes it consumed
/// to be exactly the value's encoding, and the value to be bounded.
pub proof fn lemma_enc_dec(s: Seq<u8>, m: ValueModel, rest: Seq<u8>)
    requires
        dec(s) == Some((m, rest)),
    ensures
        bounded(m),
        s == enc(m) + rest,
        rest.len() < s.len(),
    decreases s.len(), 0int,
{
    let tag = s.first();
    let p = s.drop_first();
    assert(s =~= seq![tag] + p);
    if tag == 0 || tag == 1 || tag == 2 {
        assert(s =~= enc(m) + rest);
    } else if tag == 3 {
        let (u, r) = dec_u64(p).unwrap();
        lemma_canon_u64(p, u, r);
        assert(((u as i64) as u64) == u) by (bit_vector);
        assert(s =~= enc(m) + rest);
    } else if tag == 4 || tag == 5 || tag == 6 || tag == 12 {
        let (cs, r) = dec_text(p).unwrap();
        lemma_canon_text(p, cs, r);
        assert(s =~= enc(m) + rest);
    } else if tag == 7 {
        let (n, r) = dec_u64(p).unwrap();
        lemma_canon_u64(p, n, r);
        assert(r.take(n as int).len() == n as int);
        assert(r =~= r.take(n as int) + r.skip(n as int));
        assert(s =~= enc(m) + rest);
    } else if tag == 8 {
        let (secs, r) = dec_u64(p).unwrap();
        let (nanos, r2) = dec_u32(r).unwrap();
        lemma_canon_u64(p, secs, r);
        lemma_canon_u32(r, nanos, r2);
        assert(s =~= enc(m) + rest);
    } else if tag == 9 {
        let (t, r) = dec_text(p).unwrap();
        let (i, r2) = dec_text(r).unwrap();
        lemma_canon_text(p, t, r);
        lemma_canon_text(r, i, r2);
        assert(s =~= enc(m) + rest);
    } else if tag == 10 {
        let (n, r) = dec_u64(p).unwrap();
        let (items, r2) = dec_list(r, n as nat).unwrap();
        lemma_canon_u64(p, n, r);
        lemma_canon_list(r, n as nat, items, r2);
        assert(s =~= enc(m) + rest);
    } else {
        let (n, r) = dec_u64(p).unwrap();
        let (es, r2) = dec_entries(r, n as nat).unwrap();
        lemma_canon_u64(p, n, r);
        lemma_canon_entries(r, n as nat, es, r2);
        assert(s =~= enc(m) + rest);
    }
}

proof fn lemma_canon_list(s: Seq<u8>, n: nat, items: Seq<ValueModel>, rest: Seq<u8>)
    requires
        dec_list(s, n) == Some((items, rest)),
    ensures
        items.len() == n,
        bounded_list(items),
        s == enc_list(items) + rest,
        rest.len() <= s.len(),
    decreases s.len(), 1int,
{
    if n == 0 {
        assert(s =~= enc_list(items) + rest);
    } else {
        let (m0, r) = dec(s).unwrap();
        let (tail, r2) = dec_list(r, (n - 1) as nat).unwrap();
        lemma_enc_dec(s, m0, r);
        lemma_canon_list(r, (n - 1) as nat, tail, r2);
        assert(items.first() == m0);
        assert(items.drop_first() =~= tail);
        assert(s =~= enc(m0) + (enc_list(tail) + rest));
        assert(enc_list(items) + rest =~= enc(m0) + (enc_list(tail) + rest));
    }
}

proof fn lemma_canon_entries(s: Seq<u8>, n: nat, es: Seq<(Seq<char>, ValueModel)>, rest: Seq<u8>)
    requires
        dec_entries(s, n) == Some((es, rest)),
    ensures
        es.len() == n,
        bounded_entries(es),
        s == enc_entries(es) + rest,
        rest.len() <= s.len(),
    decreases s.len(), 1int,
{
    if n == 0 {
        assert(s =~= enc_entries(es) + rest);
    } else {
        let (k0, r1) = dec_text(s).unwrap();
        let (m0, r2) = dec(r1).unwrap();
        let (tail, r3) = dec_entries(r2, (n - 1) as nat).unwrap();
        lemma_canon_text(s, k0, r1);
        lemma_enc_dec(r1, m0, r2);
        lemma_canon_entries(r2, (n - 1) as nat, tail, r3);
        assert(es.first() == (k0, m0));
        assert(es.drop_first() =~= tail);
        assert(s =~= enc_text(k0) + (enc(m0) + (enc_entries(tail) + rest)));
        assert(enc_entries(es) + rest =~= enc_text(k0) + (enc(m0) + (enc_entries(tail) + rest)));
    }
}

/// Determinism of the encoding as a corollary: re-encoding a decoded
/// byte sequence yields the sequence itself.
pub proof fn lemma_decode_encode(s: Seq<u8>, m: ValueModel)
    requires
        dec(s) == Some((m, Seq::<u8>::empty())),
    ensures
        enc(m) == s,
        bounded(m),
{
    lemma_enc_dec(s, m, Seq::<u8>::empty());
    assert(enc(m) + Seq::<u8>::empty() =~= enc(m));
}

proof fn lemma_enc_chars_push(s: Seq<char>, c: char)
    ensures
        enc_chars(s.push(c)) == enc_chars(s) + enc_char(c),
    decreases s,
{
    if s.len() == 0 {
        assert(s.push(c).drop_first() =~= Seq::<char>::empty());
        assert(enc_chars(Seq::<char>::empty()) == Seq::<u8>::empty());
        assert(s.push(c).first() == c);
        assert(enc_chars(s.push(c)) =~= enc_chars(s) + enc_char(c));
    } else {
        assert(s.push(c).drop_first() =~= s.drop_first().push(c));
        lemma_enc_chars_push(s.drop_first(), c);
        assert(enc_char(s.first()) + (enc_chars(s.drop_first()) + enc_char(c)) =~= (enc_char(
            s.first(),
        ) + enc_chars(s.drop_first())) + enc_char(c));
    }
}

proof fn lemma_enc_list_push(s: Seq<ValueModel>, m: ValueModel)
    ensures
        enc_list(s.push(m)) == enc_list(s) + enc(m),
        bounded_list(s.push(m)) == (bounded_list(s) && bounded(m)),
    decreases s,
{
    if s.len() == 0 {
        assert(s.push(m).drop_first() =~= Seq::<ValueModel>::empty());
        assert(enc_list(Seq::<ValueModel>::empty()) == Seq::<u8>::empty());
        assert(bounded_list(Seq::<ValueModel>::empty()));
        assert(s.push(m).first() == m);
        assert(enc_list(s.push(m)) =~= enc_list(s) + enc(m));
    } else {
        assert(s.push(m).drop_first() =~= s.drop_first().push(m));
        lemma_enc_list_push(s.drop_first(), m);
        assert(enc(s.first()) + (enc_list(s.drop_first()) + enc(m)) =~= (enc(s.first()) + enc_list(
            s.drop_first(),
        )) + enc(m));
    }
}

proof fn lemma_enc_entries_push(s: Seq<(Seq<char>, ValueModel)>, k: Seq<char>, m: ValueModel)
    ensures
        enc_entries(s.push((k, m))) == enc_entries(s) + (enc_text(k) + enc(m)),
        bounded_entries(s.push((k, m))) == (bounded_entries(s) && k.len() < len_limit() && bounded(
            m,
        )),
    decreases s,
{
    if s.len() == 0 {
        assert(s.push((k, m)).drop_first() =~= Seq::<(Seq<char>, ValueModel)>::empty());
        assert(enc_entries(Seq::<(Seq<char>, ValueModel)>::empty()) == Seq::<u8>::empty());
        assert(bounded_entries(Seq::<(Seq<char>, ValueModel)>::empty()));
        assert(s.push((k, m)).first() == (k, m));
        assert(enc_entries(s.push((k, m))) =~= enc_entries(s) + (enc_text(k) + enc(m)));
    } else {
        assert(s.push((k, m)).drop_first() =~= s.drop_first().push((k, m)));
        lemma_enc_entries_push(s.drop_first(), k, m);
        let head = enc_text(s.first().0) + enc(s.first().1);
        assert(head + (enc_entries(s.drop_first()) + (enc_text(k) + enc(m))) =~= (head
            + enc_entries(s.drop_first())) + (enc_text(k) + enc(m)));
        assert(enc_entries(s) =~= head + enc_entries(s.drop_first()));
        assert(enc_entries(s.push((k, m))) =~= enc_text(s.first().0) + enc(s.first().1)
            + (enc_entries(s.drop_first()) + (enc_text(k) + enc(m))));
    }
}

fn encode_u64_into(out: &mut Vec<u8>, x: u64)
    ensures
        final(out)@ == old(out)@ + spec_u64_to_le_bytes(x),
{
    let mut tmp = u64_to_le_bytes(x);
    out.append(&mut tmp);
}

fn encode_u32_into(out: &mut Vec<u8>, x: u32)
    ensures
        final(out)@ == old(out)@ + spec_u32_to_le_bytes(x),
{
    let mut tmp = u32_to_le_bytes(x);
    out.append(&mut tmp);
}

fn encode_text_into(out: &mut Vec<u8>, s: &String)
    ensures
        final(out)@ == old(out)@ + enc_text(s@),
        s@.len() < len_limit(),
{
    let n = s.as_str().unicode_len();
    encode_u64_into(out, n as u64);
    let ghost mid = out@;
    let mut i: usize = 0;
    while i < n
        invariant
            i <= n,
            n == s@.len(),
            out@ == mid + enc_chars(s@.take(i as int)),
        decreases n - i,
    {
        let c = s.as_str().get_char(i);
        encode_u32_into(out, c as u32);
        proof {
            lemma_enc_chars_push(s@.take(i as int), s@[i as int]);
            assert(s@.take(i + 1) =~= s@.take(i as int).push(s@[i as int]));
            assert(mid + enc_chars(s@.take(i as int)) + enc_char(s@[i as int]) =~= mid + (enc_chars(
                s@.take(i as int),
            ) + enc_char(s@[i as int])));
        }
        i += 1;
    }
    proof {
        assert(s@.take(n as int) =~= s@);
        assert(old(out)@ + spec_u64_to_le_bytes(n as u64) + enc_chars(s@) =~= old(out)@ + enc_text(
            s@,
        ));
    }
}

/// Appends the encoding of `v` to `out`; the workhorse behind
/// [`Value::to_binary`].
#[verifier::loop_isolation(false)]
fn encode_into(v: &Value, out: &mut Vec<u8>)
    ensures
        final(out)@ == old(out)@ + enc(v@),
        bounded(v@),
    decreases v,
{
    match v {
        Value::Null => {
            out.push(0u8);
            proof {
                assert(old(out)@.push(0u8) =~= old(out)@ + enc(v@));
            }
        },
        Value::Bool(b) => {
            let t: u8 = if *b {
                2
            } else {
                1
            };
            out.push(t);
            proof {
                assert(old(out)@.push(t) =~= old(out)@ + enc(v@));
            }
        },
        Value::Int(i) => {
            out.push(3u8);
            encode_u64_into(out, #[verifier::truncate] (*i as u64));
            proof {
                assert(old(out)@.push(3u8) + spec_u64_to_le_bytes(*i as u64) =~= old(out)@ + enc(
                    v@,
                ));
            }
        },
        Value::Float(s) => {
            out.push(4u8);
            encode_text_into(out, s);
            proof {
                assert(old(out)@.push(4u8) + enc_text(s@) =~= old(out)@ + enc(v@));
            }
        },
        Value::Decimal(s) => {
            out.push(5u8);
            encode_text_into(out, s);
            proof {
                assert(old(out)@.push(5u8) + enc_text(s@) =~= old(out)@ + enc(v@));
            }
        },
        Value::Strand(s) => {
            out.push(6u8);
            encode_text_into(out, s);
            proof {
                assert(old(out)@.push(6u8) + enc_text(s@) =~= old(out)@ + enc(v@));
            }
        },
        Value::Bytes(b) => {
            out.push(7u8);
            encode_u64_into(out, b.len() as u64);
            let mut tmp = slice_to_vec(b.as_slice());
            out.append(&mut tmp);
            proof {
                assert(old(out)@.push(7u8) + spec_u64_to_le_bytes(b@.len() as u64) + b@ =~= old(
                    out,
                )@ + enc(v@));
            }
        },
        Value::Duration(secs, nanos) => {
            out.push(8u8);
            encode_u64_into(out, *secs);
            encode_u32_into(out, *nanos);
            proof {
                assert(old(out)@.push(8u8) + spec_u64_to_le_bytes(*secs) + spec_u32_to_le_bytes(
                    *nanos,
                ) =~= old(out)@ + enc(v@));
            }
        },
        Value::Thing(t, i) => {
            out.push(9u8);
            encode_text_into(out, t);
            encode_text_into(out, i);
            proof {
                assert(old(out)@.push(9u8) + enc_text(t@) + enc_text(i@) =~= old(out)@ + enc(v@));
            }
        },
        Value::Array(items) => {
            out.push(10u8);
            let n = items.len();
            encode_u64_into(out, n as u64);
            let ghost mid = out@;
            proof {
                lemma_models_of_len(items@);
                assert forall|q: int| 0 <= q < n implies models_of(items@)[q] == model_of(
                    items@[q],
                ) by {
                    lemma_models_of_index(items@, q);
                }
                assert(mid + enc_list(models_of(items@).take(0)) =~= mid);
            }
            let mut j: usize = 0;
            while j < n
                invariant
                    j <= n,
                    n == items@.len(),
                    out@ == mid + enc_list(models_of(items@).take(j as int)),
                    bounded_list(models_of(items@).take(j as int)),
                    forall|q: int| 0 <= q < n ==> models_of(items@)[q] == model_of(items@[q]),
                    models_of(items@).len() == n,
                decreases n - j,
            {
                proof {
                    assert(decreases_to!(*items => items@));
                    assert(decreases_to!(items@ => items@[j as int]));
                }
                encode_into(&items[j], out);
                proof {
                    lemma_enc_list_push(
                        models_of(items@).take(j as int),
                        model_of(items@[j as int]),
                    );
                    assert(models_of(items@).take(j + 1) =~= models_of(items@).take(
                        j as int,
                    ).push(models_of(items@)[j as int]));
                    assert(mid + enc_list(models_of(items@).take(j as int)) + enc(
                        model_of(items@[j as int]),
                    ) =~= mid + (enc_list(models_of(items@).take(j as int)) + enc(
                        model_of(items@[j as int]),
                    )));
                }
                j += 1;
            }
            proof {
                assert(models_of(items@).take(n as int) =~= models_of(items@));
                assert(old(out)@.push(10u8) + spec_u64_to_le_bytes(n as u64) + enc_list(
                    models_of(items@),
                ) =~= old(out)@ + enc(v@));
            }
        },
        Value::Object(entries) => {
            out.push(11u8);
            let n = entries.len();
            encode_u64_into(out, n as u64);
            let ghost mid = out@;
            proof {
                lemma_entry_models_of_len(entries@);
                assert forall|q: int| 0 <= q < n implies entry_models_of(entries@)[q] == (
                entries@[q].key@,
                model_of(entries@[q].value),
                ) by {
                    lemma_entry_models_of_index(entries@, q);
                }
                assert(mid + enc_entries(entry_models_of(entries@).take(0)) =~= mid);
            }
            let mut j: usize = 0;
            while j < n
                invariant
                    j <= n,
                    n == entries@.len(),
                    out@ == mid + enc_entries(entry_models_of(entries@).take(j as int)),
                    bounded_entries(entry_models_of(entries@).take(j as int)),
                    forall|q: int|
                        0 <= q < n ==> entry_models_of(entries@)[q] == (
                        entries@[q].key@,
                        model_of(entries@[q].value),
                        ),
                    entry_models_of(entries@).len() == n,
                decreases n - j,
            {
                let e = &entries[j];
                proof {
                    assert(decreases_to!(*entries => entries@));
                    assert(decreases_to!(entries@ => entries@[j as int]));
                    assert(decreases_to!(entries@[j as int] => entries@[j as int].value));
                }
                encode_text_into(out, &e.key);
                encode_into(&e.value, out);
                proof {
                    lemma_enc_entries_push(
                        entry_models_of(entries@).take(j as int),
                        entries@[j as int].key@,
                        model_of(entries@[j as int].value),
                    );
                    assert(entry_models_of(entries@).take(j + 1) =~= entry_models_of(
                        entries@,
                    ).take(j as int).push(entry_models_of(entries@)[j as int]));
                    assert(mid + enc_entries(entry_models_of(entries@).take(j as int)) + enc_text(
                        entries@[j as int].key@,
                    ) + enc(model_of(entries@[j as int].value)) =~= mid + (enc_entries(
                        entry_models_of(entries@).take(j as int),
                    ) + (enc_text(entries@[j as int].key@) + enc(
                        model_of(entries@[j as int].value),
                    ))));
                }
                j += 1;
            }
            proof {
                assert(entry_models_of(entries@).take(n as int) =~= entry_models_of(entries@));
                assert(old(out)@.push(11u8) + spec_u64_to_le_bytes(n as u64) + enc_entries(
                    entry_models_of(entries@),
                ) =~= old(out)@ + enc(v@));
            }
        },
        Value::Query(s) => {
            out.push(12u8);
            encode_text_into(out, s);
            proof {
                assert(old(out)@.push(12u8) + enc_text(s@) =~= old(out)@ + enc(v@));
            }
        },
    }
}

fn read_u64(bytes: &Vec<u8>, pos: usize) -> (r: Option<(u64, usize)>)
    requires
        pos <= bytes@.len(),
    ensures
        match r {
            Some((x, end)) => dec_u64(bytes@.skip(pos as int)) == Some(
                (x, bytes@.skip(end as int)),
            ) && pos < end <= bytes@.len(),
            None => dec_u64(bytes@.skip(pos as int)) is None,
        },
{
    if bytes.len() - pos >= 8 {
        let sl = slice_subrange(bytes.as_slice(), pos, pos + 8);
        let x = u64_from_le_bytes(sl);
        proof {
            assert(bytes@.skip(pos as int).take(8) =~= bytes@.subrange(pos as int, pos + 8));
            assert(bytes@.skip(pos as int).skip(8) =~= bytes@.skip(pos + 8));
        }
        Some((x, pos + 8))
    } else {
        None
    }
}

fn read_u32(bytes: &Vec<u8>, pos: usize) -> (r: Option<(u32, usize)>)
    requires
        pos <= bytes@.len(),
    ensures
        match r {
            Some((x, end)) => dec_u32(bytes@.skip(pos as int)) == Some(
                (x, bytes@.skip(end as int)),
            ) && pos < end <= bytes@.len(),
            None => dec_u32(bytes@.skip(pos as int)) is None,
        },
{
    if bytes.len() - pos >= 4 {
        let sl = slice_subrange(bytes.as_slice(), pos, pos + 4);
        let x = u32_from_le_bytes(sl);
        proof {
            assert(bytes@.skip(pos as int).take(4) =~= bytes@.subrange(pos as int, pos + 4));
            assert(bytes@.skip(pos as int).skip(4) =~= bytes@.skip(pos + 4));
        }
        Some((x, pos + 4))
    } else {
        None
    }
}

#[verifier::loop_isolation(false)]
fn read_text(bytes: &Vec<u8>, pos: usize) -> (r: Option<(String, usize)>)
    requires
        pos <= bytes@.len(),
    ensures
        match r {
            Some((s, end)) => dec_text(bytes@.skip(pos as int)) == Some(
                (s@, bytes@.skip(end as int)),
            ) && pos < end <= bytes@.len(),
            None => dec_text(bytes@.skip(pos as int)) is None,
        },
{
    match read_u64(bytes, pos) {
        None => None,
        Some((n, start)) => {
            let mut s = String::new();
            let mut p = start;
            let mut k: u64 = 0;
            loop
                invariant
                    start <= p <= bytes@.len(),
                    k <= n,
                    s@.len() == k,
                    dec_chars(bytes@.skip(start as int), n as nat) == (match dec_chars(
                        bytes@.skip(p as int),
                        (n - k) as nat,
                    ) {
                        None => None::<(Seq<char>, Seq<u8>)>,
                        Some((cs, r)) => Some((s@ + cs, r)),
                    }),
                decreases n - k,
            {
                if k == n {
                    proof {
                        assert(s@ + Seq::<char>::empty() =~= s@);
                    }
                    return Some((s, p));
                }
                match read_u32(bytes, p) {
                    None => {
                        return None;
                    },
                    Some((u, end)) => {
                        match crate::chars::char_from_u32(u) {
                            None => {
                                return None;
                            },
                            Some(c) => {
                                crate::chars::push_char(&mut s, c);
                                proof {
                                    let ghost old_s = s@.drop_last();
                                    assert forall|cs: Seq<char>|
                                        true implies old_s + (seq![c] + cs) == (old_s.push(c))
                                        + cs by {
                                        assert(old_s + (seq![c] + cs) =~= (old_s.push(c)) + cs);
                                    }
                                }
                                p = end;
                                k = k + 1;
                            },
                        }
                    },
                }
            }
        },
    }
}

/// Reads one encoded value starting at `pos`; the workhorse behind
/// [`Value::from_binary`].
#[verifier::loop_isolation(false)]
fn decode_at(bytes: &Vec<u8>, pos: usize) -> (r: Result<(Value, usize), BinaryDecodeError>)
    requires
        pos <= bytes@.len(),
    ensures
        match r {
            Ok((v, end)) => dec(bytes@.skip(pos as int)) == Some(
                (v@, bytes@.skip(end as int)),
            ) && pos < end <= bytes@.len(),
            Err(_) => dec(bytes@.skip(pos as int)) is None,
        },
    decreases bytes@.len() - pos,
{
    if pos == bytes.len() {
        return Err(BinaryDecodeError {});
    }
    let tag = bytes[pos];
    let p = pos + 1;
    proof {
        assert(bytes@.skip(pos as int).first() == tag);
        assert(bytes@.skip(pos as int).drop_first() =~= bytes@.skip(p as int));
    }
    if tag == 0 {
        Ok((Value::Null, p))
    } else if tag == 1 {
        Ok((Value::Bool(false), p))
    } else if tag == 2 {
        Ok((Value::Bool(true), p))
    } else if tag == 3 {
        match read_u64(bytes, p) {
            None => Err(BinaryDecodeError {}),
            Some((u, end)) => Ok((Value::Int(#[verifier::truncate] (u as i64)), end)),
        }
    } else if tag == 4 {
        match read_text(bytes, p) {
            None => Err(BinaryDecodeError {}),
            Some((s, end)) => Ok((Value::Float(s), end)),
        }
    } else if tag == 5 {
        match read_text(bytes, p) {
            None => Err(BinaryDecodeError {}),
            Some((s, end)) => Ok((Value::Decimal(s), end)),
        }
    } else if tag == 6 {
        match read_text(bytes, p) {
            None => Err(BinaryDecodeError {}),
            Some((s, end)) => Ok((Value::Strand(s), end)),
        }
    } else if tag == 7 {
        match read_u64(bytes, p) {
            None => Err(BinaryDecodeError {}),
            Some((n, start)) => {
                if n <= (bytes.len() - start) as u64 {
                    let end = start + (n as usize);
                    let b = slice_to_vec(slice_subrange(bytes.as_slice(), start, end));
                    proof {
                        assert(bytes@.skip(start as int).take(n as int) =~= bytes@.subrange(
                            start as int,
                            end as int,
                        ));
                        assert(bytes@.skip(start as int).skip(n as int) =~= bytes@.skip(
                            end as int,
                        ));
                    }
                    Ok((Value::Bytes(b), end))
                } else {
                    Err(BinaryDecodeError {})
                }
            },
        }
    } else if tag == 8 {
        match read_u64(bytes, p) {
            None => Err(BinaryDecodeError {}),
            Some((secs, mid)) => match read_u32(bytes, mid) {
                None => Err(BinaryDecodeError {}),
                Some((nanos, end)) => Ok((Value::Duration(secs, nanos), end)),
            },
        }
    } else if tag == 9 {
        match read_text(bytes, p) {
            None => Err(BinaryDecodeError {}),
            Some((t, mid)) => match read_text(bytes, mid) {
                None => Err(BinaryDecodeError {}),
                Some((i, end)) => Ok((Value::Thing(t, i), end)),
            },
        }
    } else if tag == 10 {
        match read_u64(bytes, p) {
            None => Err(BinaryDecodeError {}),
            Some((n, start)) => {
                let ghost s0 = bytes@.skip(start as int);
                let mut items: Vec<Value> = Vec::new();
                let mut q = start;
                let mut k: u64 = 0;
                proof {
                    assert(models_of(items@) =~= Seq::<ValueModel>::empty());
                }
                loop
                    invariant
                        start <= q <= bytes@.len(),
                        k <= n,
                        items@.len() == k,
                        dec_list(s0, n as nat) == (match dec_list(
                            bytes@.skip(q as int),
                            (n - k) as nat,
                        ) {
                            None => None::<(Seq<ValueModel>, Seq<u8>)>,
                            Some((ms, r)) => Some((models_of(items@) + ms, r)),
                        }),
                    decreases n - k,
                {
                    if k == n {
                        proof {
                            assert(models_of(items@) + Seq::<ValueModel>::empty() =~= models_of(
                                items@,
                            ));
                        }
                        return Ok((Value::Array(items), q));
                    }
                    match decode_at(bytes, q) {
                        Err(e) => {
                            return Err(e);
                        },
                        Ok((v, end)) => {
                            proof {
                                lemma_models_of_push(items@, v);
                                let ghost ms0 = models_of(items@);
                                assert forall|ms: Seq<ValueModel>|
                                    true implies ms0 + (seq![v@] + ms) == (ms0.push(v@))
                                    + ms by {
                                    assert(ms0 + (seq![v@] + ms) =~= (ms0.push(v@)) + ms);
                                }
                            }
                            items.push(v);
                            q = end;
                            k = k + 1;
                        },
                    }
                }
            },
        }
    } else if tag == 11 {
        match read_u64(bytes, p) {
            None => Err(BinaryDecodeError {}),
            Some((n, start)) => {
                let ghost s0 = bytes@.skip(start as int);
                let mut entries: Vec<Entry> = Vec::new();
                let mut q = start;
                let mut k: u64 = 0;
                proof {
                    assert(entry_models_of(entries@) =~= Seq::<(Seq<char>, ValueModel)>::empty());
                }
                loop
                    invariant
                        start <= q <= bytes@.len(),
                        k <= n,
                        entries@.len() == k,
                        dec_entries(s0, n as nat) == (match dec_entries(
                            bytes@.skip(q as int),
                            (n - k) as nat,
                        ) {
                            None => None::<(Seq<(Seq<char>, ValueModel)>, Seq<u8>)>,
                            Some((es, r)) => Some((entry_models_of(entries@) + es, r)),
                        }),
                    decreases n - k,
                {
                    if k == n {
                        proof {
                            assert(entry_models_of(entries@) + Seq::<
                                (Seq<char>, ValueModel),
                            >::empty() =~= entry_models_of(entries@));
                        }
                        return Ok((Value::Object(entries), q));
                    }
                    match read_text(bytes, q) {
                        None => {
                            return Err(BinaryDecodeError {});
                        },
                        Some((key, mid)) => {
                            match decode_at(bytes, mid) {
                                Err(e) => {
                                    return Err(e);
                                },
                                Ok((v, end)) => {
                                    let e = Entry { key, value: v };
                                    proof {
                                        lemma_entry_models_of_push(entries@, e);
                                        let ghost es0 = entry_models_of(entries@);
                                        let ghost pair = (e.key@, model_of(e.value));
                                        assert forall|es: Seq<(Seq<char>, ValueModel)>|
                                            true implies es0 + (seq![pair] + es) == (es0.push(
                                            pair,
                                        )) + es by {
                                            assert(es0 + (seq![pair] + es) =~= (es0.push(pair))
                                                + es);
                                        }
                                    }
                                    entries.push(e);
                                    q = end;
                                    k = k + 1;
                                },
                            }
                        },
                    }
                }
            },
        }
    } else if tag == 12 {
        match read_text(bytes, p) {
            None => Err(BinaryDecodeError {}),
            Some((s, end)) => Ok((Value::Query(s), end)),
        }
    } else {
        Err(BinaryDecodeError {})
    }
}

impl Value {
    /// Encode this value into the binary interchange format. Total over
    /// the Value model: the error result never occurs, which the
    /// contract states outright.
    pub fn to_binary(&self) -> (r: Result<Vec<u8>, EncodeError>)
        ensures
            r is Ok,
            r matches Ok(b) ==> b@ == enc(self@),
            bounded(self@),
    {
        let mut out: Vec<u8> = Vec::new();
        encode_into(self, &mut out);
        proof {
            assert(Seq::<u8>::empty() + enc(self@) =~= enc(self@));
        }
        Ok(out)
    }

    /// Decode a byte buffer produced by [`Value::to_binary`]. Succeeds
    /// exactly when the whole buffer is one well-formed encoded value;
    /// any truncated, trailing or malformed input yields the typed
    /// decode error, never a fault.
    pub fn from_binary(bytes: &Vec<u8>) -> (r: Result<Value, BinaryDecodeError>)
        ensures
            r matches Ok(v) ==> dec(bytes@) == Some((v@, Seq::<u8>::empty())),
            r is Err ==> forall|m: ValueModel|
                dec(bytes@) != Some((m, Seq::<u8>::empty())),
    {
        proof {
            assert(bytes@.skip(0) =~= bytes@);
        }
        match decode_at(bytes, 0) {
            Err(e) => Err(e),
            Ok((v, end)) => {
                if end == bytes.len() {
                    proof {
                        assert(bytes@.skip(end as int) =~= Seq::<u8>::empty());
                    }
                    Ok(v)
                } else {
                    proof {
                        assert(bytes@.skip(end as int).len() > 0);
                    }
                    Err(BinaryDecodeError {})
                }
            },
        }
    }
}

/// The binary round-trip law at the level of whole buffers: decoding an
/// encoded value yields the value back, and re-encoding a decoded buffer
/// yields the buffer back ([`lemma_decode_encode`]).
pub proof fn lemma_encode_decode(m: ValueModel)
    requires
        bounded(m),
    ensures
        dec(enc(m)) == Some((m, Seq::<u8>::empty())),
{
    lemma_dec_enc(m, Seq::<u8>::empty());
    assert(enc(m) + Seq::<u8>::empty() =~= enc(m));
}

} // verus!
