//! The wire format of the AMQP 1.0 type system, as mathematics.
//!
//! `enc` gives the exact byte sequence the encoder emits for a value model,
//! with the size-class selection rules (smallest legal code wins).  The `dec`
//! family gives the meaning of any byte sequence: it accepts every legal
//! encoding, including wide forms the encoder never emits.  The executable
//! codec is verified against these functions, and `lemma_dec_enc` proves the
//! round-trip law connecting the two.

use vstd::prelude::*;
use vstd::utf8::{valid_utf8, decode_utf8, encode_utf8, encode_utf8_valid_utf8, encode_utf8_decode_utf8};
use crate::types::ValueModel;

verus! {

broadcast use vstd::seq::axiom_seq_index_decreases, vstd::seq::axiom_seq_subrange_decreases, vstd::seq::group_seq_axioms;

/// Largest body length that still fits the one-byte size field of a list or
/// map (the size field itself counts the count field, hence one less than the
/// `u8` maximum).
pub const LIST8_MAX: usize = 254;

/// Largest body length that still fits the four-byte size field of a list or
/// map.
pub const LIST32_MAX: usize = 4294967291;

/// Largest stripped-element body length of an array in the one-byte form
/// (the size field additionally counts the element-code byte).
pub const ARRAY8_MAX: usize = 253;

/// Largest stripped-element body length of an array in the four-byte form.
pub const ARRAY32_MAX: usize = 4294967290;

/// The two big-endian bytes of a 16-bit integer.
pub open spec fn be16(v: u16) -> Seq<u8> {
    seq![(v >> 8) as u8, v as u8]
}

/// The four big-endian bytes of a 32-bit integer.
pub open spec fn be32(v: u32) -> Seq<u8> {
    seq![(v >> 24) as u8, (v >> 16) as u8, (v >> 8) as u8, v as u8]
}

/// The eight big-endian bytes of a 64-bit integer.
pub open spec fn be64(v: u64) -> Seq<u8> {
    seq![
        (v >> 56) as u8,
        (v >> 48) as u8,
        (v >> 40) as u8,
        (v >> 32) as u8,
        (v >> 24) as u8,
        (v >> 16) as u8,
        (v >> 8) as u8,
        v as u8,
    ]
}

/// The 16-bit integer read big-endian from the first two bytes.
pub open spec fn r_u16(b: Seq<u8>) -> u16
    recommends
        b.len() >= 2,
{
    (((b[0] as u16) << 8) | (b[1] as u16)) as u16
}

/// The 32-bit integer read big-endian from the first four bytes.
pub open spec fn r_u32(b: Seq<u8>) -> u32
    recommends
        b.len() >= 4,
{
    (((b[0] as u32) << 24) | ((b[1] as u32) << 16) | ((b[2] as u32) << 8) | (b[3] as u32)) as u32
}

/// The 64-bit integer read big-endian from the first eight bytes.
pub open spec fn r_u64(b: Seq<u8>) -> u64
    recommends
        b.len() >= 8,
{
    (((b[0] as u64) << 56) | ((b[1] as u64) << 48) | ((b[2] as u64) << 40) | ((b[3] as u64) << 32)
        | ((b[4] as u64) << 24) | ((b[5] as u64) << 16) | ((b[6] as u64) << 8) | (b[7] as u64)) as u64
}

pub proof fn lemma_be16_r(v: u16)
    ensures
        r_u16(be16(v)) == v,
{
    assert((((((v >> 8) as u8) as u16) << 8) | ((v as u8) as u16)) as u16 == v) by (bit_vector);
}

pub proof fn lemma_be32_r(v: u32)
    ensures
        r_u32(be32(v)) == v,
{
    assert((((((v >> 24) as u8) as u32) << 24) | ((((v >> 16) as u8) as u32) << 16)
        | ((((v >> 8) as u8) as u32) << 8) | ((v as u8) as u32)) as u32 == v) by (bit_vector);
}

pub proof fn lemma_be64_r(v: u64)
    ensures
        r_u64(be64(v)) == v,
{
    assert((((((v >> 56) as u8) as u64) << 56) | ((((v >> 48) as u8) as u64) << 48)
        | ((((v >> 40) as u8) as u64) << 40) | ((((v >> 32) as u8) as u64) << 32)
        | ((((v >> 24) as u8) as u64) << 24) | ((((v >> 16) as u8) as u64) << 16)
        | ((((v >> 8) as u8) as u64) << 8) | ((v as u8) as u64)) as u64 == v) by (bit_vector);
}

/// The variable-width encoding shared by binaries, strings and symbols: the
/// one-byte-length form when the payload fits, else the four-byte-length form.
pub open spec fn enc_var(c8: u8, c32: u8, payload: Seq<u8>) -> Seq<u8> {
    if payload.len() > 255 {
        seq![c32] + be32(payload.len() as u32) + payload
    } else {
        seq![c8, payload.len() as u8] + payload
    }
}

/// The bytes the encoder emits for a value: a self-describing encoding using
/// the smallest legal code for each value.  Only meaningful on values for
/// which `encodable` holds.
pub open spec fn enc(m: ValueModel) -> Seq<u8>
    decreases m, 1int,
{
    match m {
        ValueModel::Described(d, b) => seq![0x00u8] + enc(*d) + enc(*b),
        ValueModel::Null => seq![0x40u8],
        ValueModel::Bool(b) => if b {
            seq![0x41u8]
        } else {
            seq![0x42u8]
        },
        ValueModel::Ubyte(n) => seq![0x50u8, n],
        ValueModel::Ushort(n) => seq![0x60u8] + be16(n),
        ValueModel::Uint(n) => if n == 0 {
            seq![0x43u8]
        } else if n <= 255 {
            seq![0x52u8, n as u8]
        } else {
            seq![0x70u8] + be32(n)
        },
        ValueModel::Ulong(n) => if n == 0 {
            seq![0x44u8]
        } else if n <= 255 {
            seq![0x53u8, n as u8]
        } else {
            seq![0x80u8] + be64(n)
        },
        ValueModel::Byte(n) => seq![0x51u8, n as u8],
        ValueModel::Short(n) => seq![0x61u8] + be16(n as u16),
        ValueModel::Int(n) => if -128 <= n && n <= 127 {
            seq![0x54u8, n as u8]
        } else {
            seq![0x71u8] + be32(n as u32)
        },
        ValueModel::Long(n) => if -128 <= n && n <= 127 {
            seq![0x55u8, n as u8]
        } else {
            seq![0x81u8] + be64(n as u64)
        },
        ValueModel::String(cs) => enc_var(0xA1u8, 0xB1u8, encode_utf8(cs)),
        ValueModel::Binary(bs) => enc_var(0xA0u8, 0xB0u8, bs),
        ValueModel::Symbol(bs) => enc_var(0xA3u8, 0xB3u8, bs),
        ValueModel::Array(es) => {
            let body = enc_stripped(es);
            if body.len() > ARRAY8_MAX {
                seq![0xF0u8] + be32((5 + body.len()) as u32) + be32(es.len() as u32)
                    + seq![elem_code(es)] + body
            } else if body.len() > 0 {
                seq![0xE0u8, (2 + body.len()) as u8, es.len() as u8, elem_code(es)] + body
            } else {
                seq![0x40u8]
            }
        },
        ValueModel::List(es) => {
            let body = enc_seq(es);
            if body.len() > LIST8_MAX {
                seq![0xD0u8] + be32((4 + body.len()) as u32) + be32(es.len() as u32) + body
            } else if body.len() > 0 {
                seq![0xC0u8, (1 + body.len()) as u8, es.len() as u8] + body
            } else {
                seq![0x45u8]
            }
        },
        ValueModel::Mapping(ps) => {
            let body = enc_pairs(ps);
            if body.len() > LIST8_MAX || 2 * ps.len() > 255 {
                seq![0xD1u8] + be32((4 + body.len()) as u32) + be32((2 * ps.len()) as u32) + body
            } else {
                seq![0xC1u8, (1 + body.len()) as u8, (2 * ps.len()) as u8] + body
            }
        },
    }
}

/// The concatenated encodings of a sequence of values, as a list body.
pub open spec fn enc_seq(es: Seq<ValueModel>) -> Seq<u8>
    decreases es, 0int,
{
    if es.len() == 0 {
        Seq::empty()
    } else {
        enc(es[0]) + enc_seq(es.subrange(1, es.len() as int))
    }
}

/// The concatenated encodings of a sequence of key/value entries, as a map
/// body.
pub open spec fn enc_pairs(ps: Seq<(ValueModel, ValueModel)>) -> Seq<u8>
    decreases ps, 0int,
{
    if ps.len() == 0 {
        Seq::empty()
    } else {
        enc(ps[0].0) + enc(ps[0].1) + enc_pairs(ps.subrange(1, ps.len() as int))
    }
}

/// The concatenated encodings of a sequence of array elements, each with its
/// leading constructor byte stripped.
pub open spec fn enc_stripped(es: Seq<ValueModel>) -> Seq<u8>
    decreases es, 0int,
{
    if es.len() == 0 {
        Seq::empty()
    } else {
        enc(es[0]).subrange(1, enc(es[0]).len() as int)
            + enc_stripped(es.subrange(1, es.len() as int))
    }
}

/// The shared constructor byte of the elements of an array: the first byte of
/// the first element's encoding.
pub open spec fn elem_code(es: Seq<ValueModel>) -> u8
    decreases es, 0int,
{
    if es.len() == 0 {
        0u8
    } else {
        enc(es[0])[0]
    }
}

/// Holds when every element of an array emits the same constructor byte.
pub open spec fn homogeneous(es: Seq<ValueModel>) -> bool {
    forall|i: int| 0 <= i < es.len() ==> (#[trigger] enc(es[i]))[0] == elem_code(es)
}

/// Holds when every element of the sequence is encodable.
pub open spec fn all_encodable(es: Seq<ValueModel>) -> bool
    decreases es, 1int,
{
    if es.len() == 0 {
        true
    } else {
        encodable(es[0]) && all_encodable(es.subrange(1, es.len() as int))
    }
}

/// Holds when every key and value of the entry sequence is encodable.
pub open spec fn all_pairs_encodable(ps: Seq<(ValueModel, ValueModel)>) -> bool
    decreases ps, 1int,
{
    if ps.len() == 0 {
        true
    } else {
        encodable(ps[0].0) && encodable(ps[0].1) && all_pairs_encodable(
            ps.subrange(1, ps.len() as int),
        )
    }
}

/// `all_encodable` holds exactly when each element is encodable.
pub proof fn lemma_all_encodable(es: Seq<ValueModel>)
    ensures
        all_encodable(es) <==> (forall|i: int| 0 <= i < es.len() ==> #[trigger] encodable(es[i])),
    decreases es,
{
    if es.len() > 0 {
        let tail = es.subrange(1, es.len() as int);
        lemma_all_encodable(tail);
        assert forall|i: int| 1 <= i < es.len() implies es[i] == tail[i - 1] by {}
        if encodable(es[0]) && all_encodable(tail) {
            assert forall|i: int| 0 <= i < es.len() implies encodable(es[i]) by {
                if i >= 1 {
                    assert(encodable(tail[i - 1]));
                }
            }
        }
    }
}

/// `all_pairs_encodable` holds exactly when each key and value is encodable.
pub proof fn lemma_all_pairs_encodable(ps: Seq<(ValueModel, ValueModel)>)
    ensures
        all_pairs_encodable(ps) <==> (forall|i: int|
            0 <= i < ps.len() ==> #[trigger] encodable(ps[i].0) && encodable(ps[i].1)),
    decreases ps,
{
    if ps.len() > 0 {
        let tail = ps.subrange(1, ps.len() as int);
        lemma_all_pairs_encodable(tail);
        assert forall|i: int| 1 <= i < ps.len() implies ps[i] == tail[i - 1] by {}
        if encodable(ps[0].0) && encodable(ps[0].1) && all_pairs_encodable(tail) {
            assert forall|i: int| 0 <= i < ps.len() implies encodable(ps[i].0) && encodable(
                ps[i].1,
            ) by {
                if i >= 1 {
                    assert(encodable(tail[i - 1].0) && encodable(tail[i - 1].1));
                }
            }
        }
    }
}

/// Holds exactly on the values the encoder can emit: every variable-width
/// payload and every composite body fits its size field, and array elements
/// share one constructor byte.
pub open spec fn encodable(m: ValueModel) -> bool
    decreases m, 0int,
{
    match m {
        ValueModel::Described(d, b) => encodable(*d) && encodable(*b),
        ValueModel::String(cs) => encode_utf8(cs).len() <= LIST32_MAX,
        ValueModel::Binary(bs) => bs.len() <= LIST32_MAX,
        ValueModel::Symbol(bs) => bs.len() <= LIST32_MAX,
        ValueModel::Array(es) => all_encodable(es) && homogeneous(es) && enc_stripped(es).len()
            <= ARRAY32_MAX,
        ValueModel::List(es) => all_encodable(es) && enc_seq(es).len() <= LIST32_MAX,
        ValueModel::Mapping(ps) => all_pairs_encodable(ps) && enc_pairs(ps).len() <= LIST32_MAX,
        _ => true,
    }
}

/// Every encoding starts with a constructor byte, so is never empty.
pub proof fn lemma_enc_len_pos(m: ValueModel)
    ensures
        enc(m).len() >= 1,
{
}

/// A list body is at least as long as its element count, and a map body at
/// least twice its entry count: every element encoding takes a byte or more.
pub proof fn lemma_enc_seq_len(es: Seq<ValueModel>)
    ensures
        enc_seq(es).len() >= es.len(),
    decreases es,
{
    if es.len() > 0 {
        lemma_enc_len_pos(es[0]);
        lemma_enc_seq_len(es.subrange(1, es.len() as int));
    }
}

/// See `lemma_enc_seq_len`: the map-body bound.
pub proof fn lemma_enc_pairs_len(ps: Seq<(ValueModel, ValueModel)>)
    ensures
        enc_pairs(ps).len() >= 2 * ps.len(),
    decreases ps,
{
    if ps.len() > 0 {
        lemma_enc_len_pos(ps[0].0);
        lemma_enc_len_pos(ps[0].1);
        lemma_enc_pairs_len(ps.subrange(1, ps.len() as int));
    }
}



/// The meaning of a byte sequence: the first self-describing value it holds
/// and how many bytes that value occupied, or `Fail` on an unknown
/// constructor, a short read, or an invalid UTF-8 string payload.  Accepts
/// every legal encoding, including wide forms `enc` never produces.
pub open spec fn dec(b: Seq<u8>) -> Option<(ValueModel, int)>
    decreases b.len(), 1int, 0int,
{
    if b.len() == 0 {
        None
    } else {
        match dec_ctor(b[0], b.subrange(1, b.len() as int)) {
            Some((m, n)) => Some((m, n + 1)),
            None => None,
        }
    }
}

/// The meaning of a payload read under an already-known constructor byte
/// `code`; `b` holds the bytes following the constructor.
pub open spec fn dec_ctor(code: u8, b: Seq<u8>) -> Option<(ValueModel, int)>
    decreases b.len(), 2int, 0int,
{
    match code {
        0x00u8 => match dec(b) {
            Some((d, n)) => if 0 <= n <= b.len() {
                match dec(b.subrange(n, b.len() as int)) {
                    Some((v, m)) => Some(
                        (ValueModel::Described(Box::new(d), Box::new(v)), n + m),
                    ),
                    None => None,
                }
            } else {
                None
            },
            None => None,
        },
        0x40u8 => Some((ValueModel::Null, 0)),
        0x41u8 => Some((ValueModel::Bool(true), 0)),
        0x42u8 => Some((ValueModel::Bool(false), 0)),
        0x43u8 => Some((ValueModel::Uint(0), 0)),
        0x44u8 => Some((ValueModel::Ulong(0), 0)),
        0x45u8 => Some((ValueModel::List(Seq::empty()), 0)),
        0x56u8 => if b.len() >= 1 {
            Some((ValueModel::Bool(b[0] == 1), 1))
        } else {
            None
        },
        0x50u8 => if b.len() >= 1 {
            Some((ValueModel::Ubyte(b[0]), 1))
        } else {
            None
        },
        0x51u8 => if b.len() >= 1 {
            Some((ValueModel::Byte(b[0] as i8), 1))
        } else {
            None
        },
        0x52u8 => if b.len() >= 1 {
            Some((ValueModel::Uint(b[0] as u32), 1))
        } else {
            None
        },
        0x53u8 => if b.len() >= 1 {
            Some((ValueModel::Ulong(b[0] as u64), 1))
        } else {
            None
        },
        0x54u8 => if b.len() >= 1 {
            Some((ValueModel::Int((b[0] as i8) as i32), 1))
        } else {
            None
        },
        0x55u8 => if b.len() >= 1 {
            Some((ValueModel::Long((b[0] as i8) as i64), 1))
        } else {
            None
        },
        0x60u8 => if b.len() >= 2 {
            Some((ValueModel::Ushort(r_u16(b)), 2))
        } else {
            None
        },
        0x61u8 => if b.len() >= 2 {
            Some((ValueModel::Short(r_u16(b) as i16), 2))
        } else {
            None
        },
        0x70u8 => if b.len() >= 4 {
            Some((ValueModel::Uint(r_u32(b)), 4))
        } else {
            None
        },
        0x71u8 => if b.len() >= 4 {
            Some((ValueModel::Int(r_u32(b) as i32), 4))
        } else {
            None
        },
        0x80u8 => if b.len() >= 8 {
            Some((ValueModel::Ulong(r_u64(b)), 8))
        } else {
            None
        },
        0x81u8 => if b.len() >= 8 {
            Some((ValueModel::Long(r_u64(b) as i64), 8))
        } else {
            None
        },
        0xA0u8 => if b.len() >= 1 && 1 + (b[0] as int) <= b.len() {
            Some((ValueModel::Binary(b.subrange(1, 1 + b[0] as int)), 1 + b[0] as int))
        } else {
            None
        },
        0xA1u8 => if b.len() >= 1 && 1 + (b[0] as int) <= b.len() {
            dec_text(b.subrange(1, 1 + b[0] as int), 1 + b[0] as int)
        } else {
            None
        },
        0xA3u8 => if b.len() >= 1 && 1 + (b[0] as int) <= b.len() {
            Some((ValueModel::Symbol(b.subrange(1, 1 + b[0] as int)), 1 + b[0] as int))
        } else {
            None
        },
        0xB0u8 => if b.len() >= 4 && 4 + (r_u32(b) as int) <= b.len() {
            Some((ValueModel::Binary(b.subrange(4, 4 + r_u32(b) as int)), 4 + r_u32(b) as int))
        } else {
            None
        },
        0xB1u8 => if b.len() >= 4 && 4 + (r_u32(b) as int) <= b.len() {
            dec_text(b.subrange(4, 4 + r_u32(b) as int), 4 + r_u32(b) as int)
        } else {
            None
        },
        0xB3u8 => if b.len() >= 4 && 4 + (r_u32(b) as int) <= b.len() {
            Some((ValueModel::Symbol(b.subrange(4, 4 + r_u32(b) as int)), 4 + r_u32(b) as int))
        } else {
            None
        },
        0xC0u8 => if b.len() >= 2 {
            match dec_n(b.subrange(2, b.len() as int), b[1] as int) {
                Some((vs, n)) => Some((ValueModel::List(vs), 2 + n)),
                None => None,
            }
        } else {
            None
        },
        0xD0u8 => if b.len() >= 8 {
            match dec_n(b.subrange(8, b.len() as int), r_u32(b.subrange(4, 8)) as int) {
                Some((vs, n)) => Some((ValueModel::List(vs), 8 + n)),
                None => None,
            }
        } else {
            None
        },
        0xC1u8 => if b.len() >= 2 {
            match dec_pairs(b.subrange(2, b.len() as int), (b[1] as int) / 2) {
                Some((ps, n)) => Some((ValueModel::Mapping(ps), 2 + n)),
                None => None,
            }
        } else {
            None
        },
        0xD1u8 => if b.len() >= 8 {
            match dec_pairs(b.subrange(8, b.len() as int), (r_u32(b.subrange(4, 8)) as int) / 2) {
                Some((ps, n)) => Some((ValueModel::Mapping(ps), 8 + n)),
                None => None,
            }
        } else {
            None
        },
        0xE0u8 => if b.len() >= 3 {
            match dec_elems(b[2], b.subrange(3, b.len() as int), b[1] as int) {
                Some((vs, n)) => Some((ValueModel::Array(vs), 3 + n)),
                None => None,
            }
        } else {
            None
        },
        0xF0u8 => if b.len() >= 9 {
            match dec_elems(b[8], b.subrange(9, b.len() as int), r_u32(b.subrange(4, 8)) as int) {
                Some((vs, n)) => Some((ValueModel::Array(vs), 9 + n)),
                None => None,
            }
        } else {
            None
        },
        _ => None,
    }
}

/// A string payload decoded as UTF-8: the value on success, `None` on
/// ill-formed bytes.
pub open spec fn dec_text(payload: Seq<u8>, n: int) -> Option<(ValueModel, int)> {
    if valid_utf8(payload) {
        Some((ValueModel::String(decode_utf8(payload)), n))
    } else {
        None
    }
}

/// `count` consecutive self-describing values read from the front of `b`.
pub open spec fn dec_n(b: Seq<u8>, count: int) -> Option<(Seq<ValueModel>, int)>
    decreases b.len(), 3int, count,
{
    if count <= 0 {
        Some((Seq::empty(), 0))
    } else {
        match dec(b) {
            Some((v, n)) => if 0 <= n <= b.len() {
                match dec_n(b.subrange(n, b.len() as int), count - 1) {
                    Some((vs, m)) => Some((seq![v] + vs, n + m)),
                    None => None,
                }
            } else {
                None
            },
            None => None,
        }
    }
}

/// `count` consecutive key/value entries read from the front of `b`.
pub open spec fn dec_pairs(b: Seq<u8>, count: int) -> Option<(Seq<(ValueModel, ValueModel)>, int)>
    decreases b.len(), 3int, count,
{
    if count <= 0 {
        Some((Seq::empty(), 0))
    } else {
        match dec(b) {
            Some((k, n)) => if 0 <= n <= b.len() {
                match dec(b.subrange(n, b.len() as int)) {
                    Some((v, m)) => if 0 <= n + m <= b.len() {
                        match dec_pairs(b.subrange(n + m, b.len() as int), count - 1) {
                            Some((ps, q)) => Some((seq![(k, v)] + ps, n + m + q)),
                            None => None,
                        }
                    } else {
                        None
                    },
                    None => None,
                }
            } else {
                None
            },
            None => None,
        }
    }
}

/// `count` consecutive array elements read from the front of `b`, each under
/// the shared constructor byte `code`.
pub open spec fn dec_elems(code: u8, b: Seq<u8>, count: int) -> Option<(Seq<ValueModel>, int)>
    decreases b.len(), 3int, count,
{
    if count <= 0 {
        Some((Seq::empty(), 0))
    } else {
        match dec_ctor(code, b) {
            Some((v, n)) => if 0 <= n <= b.len() {
                match dec_elems(code, b.subrange(n, b.len() as int), count - 1) {
                    Some((vs, m)) => Some((seq![v] + vs, n + m)),
                    None => None,
                }
            } else {
                None
            },
            None => None,
        }
    }
}

/// Appending one value to a list extends the list body by its encoding.
pub proof fn lemma_enc_seq_snoc(s: Seq<ValueModel>, v: ValueModel)
    ensures
        enc_seq(s.push(v)) == enc_seq(s) + enc(v),
    decreases s,
{
    reveal_with_fuel(enc_seq, 3);
    let t = s.push(v);
    if s.len() == 0 {
        assert(t.subrange(1, t.len() as int) =~= Seq::<ValueModel>::empty());
        assert(enc_seq(t) =~= enc_seq(s) + enc(v));
    } else {
        assert(t.subrange(1, t.len() as int) =~= s.subrange(1, s.len() as int).push(v));
        lemma_enc_seq_snoc(s.subrange(1, s.len() as int), v);
        assert(t[0] == s[0]);
        assert(enc_seq(t) == enc(t[0]) + enc_seq(t.subrange(1, t.len() as int)));
        assert(enc_seq(s) == enc(s[0]) + enc_seq(s.subrange(1, s.len() as int)));
        assert(enc_seq(t) =~= enc_seq(s) + enc(v));
    }
}

/// Appending one entry to a map extends the map body by both encodings.
pub proof fn lemma_enc_pairs_snoc(s: Seq<(ValueModel, ValueModel)>, p: (ValueModel, ValueModel))
    ensures
        enc_pairs(s.push(p)) == enc_pairs(s) + enc(p.0) + enc(p.1),
    decreases s,
{
    reveal_with_fuel(enc_pairs, 3);
    let t = s.push(p);
    if s.len() == 0 {
        assert(t.subrange(1, t.len() as int) =~= Seq::<(ValueModel, ValueModel)>::empty());
        assert(enc_pairs(t) =~= enc_pairs(s) + enc(p.0) + enc(p.1));
    } else {
        assert(t.subrange(1, t.len() as int) =~= s.subrange(1, s.len() as int).push(p));
        lemma_enc_pairs_snoc(s.subrange(1, s.len() as int), p);
        assert(t[0] == s[0]);
        assert(enc_pairs(t) == enc(t[0].0) + enc(t[0].1) + enc_pairs(t.subrange(1, t.len() as int)));
        assert(enc_pairs(s) == enc(s[0].0) + enc(s[0].1) + enc_pairs(s.subrange(1, s.len() as int)));
        assert(enc_pairs(t) =~= enc_pairs(s) + enc(p.0) + enc(p.1));
    }
}

/// Appending one element to an array extends the stripped body by the
/// element's encoding without its constructor byte.
pub proof fn lemma_enc_stripped_snoc(s: Seq<ValueModel>, v: ValueModel)
    ensures
        enc_stripped(s.push(v)) == enc_stripped(s) + enc(v).subrange(1, enc(v).len() as int),
    decreases s,
{
    reveal_with_fuel(enc_stripped, 3);
    let t = s.push(v);
    if s.len() == 0 {
        assert(t.subrange(1, t.len() as int) =~= Seq::<ValueModel>::empty());
        assert(enc_stripped(t) =~= enc_stripped(s) + enc(v).subrange(1, enc(v).len() as int));
    } else {
        assert(t.subrange(1, t.len() as int) =~= s.subrange(1, s.len() as int).push(v));
        lemma_enc_stripped_snoc(s.subrange(1, s.len() as int), v);
        assert(t[0] == s[0]);
        assert(enc_stripped(t) == enc(t[0]).subrange(1, enc(t[0]).len() as int)
            + enc_stripped(t.subrange(1, t.len() as int)));
        assert(enc_stripped(s) == enc(s[0]).subrange(1, enc(s[0]).len() as int)
            + enc_stripped(s.subrange(1, s.len() as int)));
        assert(enc_stripped(t) =~= enc_stripped(s) + enc(v).subrange(1, enc(v).len() as int));
    }
}

/// A list or array containing one unencodable element is itself unencodable.
pub proof fn lemma_unencodable_elem(es: Seq<ValueModel>, i: int)
    requires
        0 <= i < es.len(),
        !encodable(es[i]),
    ensures
        !encodable(ValueModel::List(es)),
        !encodable(ValueModel::Array(es)),
{
    lemma_all_encodable(es);
}

/// A map containing one unencodable key or value is itself unencodable.
pub proof fn lemma_unencodable_entry(ps: Seq<(ValueModel, ValueModel)>, i: int)
    requires
        0 <= i < ps.len(),
        !encodable(ps[i].0) || !encodable(ps[i].1),
    ensures
        !encodable(ValueModel::Mapping(ps)),
{
    lemma_all_pairs_encodable(ps);
    if all_pairs_encodable(ps) {
        assert(encodable(ps[i].0) && encodable(ps[i].1));
    }
}

/// An array with an element whose constructor byte differs from the first
/// element's is not homogeneous, so not encodable.
pub proof fn lemma_unencodable_mixed(es: Seq<ValueModel>, i: int)
    requires
        0 <= i < es.len(),
        enc(es[i])[0] != elem_code(es),
    ensures
        !encodable(ValueModel::Array(es)),
{
}


/// The constructor bytes whose encodings carry no payload at all.
pub open spec fn zero_payload_code(c: u8) -> bool {
    c == 0x40 || c == 0x41 || c == 0x42 || c == 0x43 || c == 0x44 || c == 0x45
}

/// An encoding is a single byte exactly when its constructor byte is one of
/// the zero-payload codes.
pub proof fn lemma_enc_shape(m: ValueModel)
    ensures
        enc(m).len() >= 1,
        enc(m).len() == 1 <==> zero_payload_code(enc(m)[0]),
{
    match m {
        ValueModel::Described(d, b) => {
            lemma_enc_len_pos(*d);
            lemma_enc_len_pos(*b);
        },
        _ => {},
    }
}

/// In a homogeneous array whose shared constructor is zero-payload, the
/// stripped body is empty.
#[verifier::rlimit(60)]
pub proof fn lemma_stripped_zero(es: Seq<ValueModel>)
    requires
        homogeneous(es),
        es.len() > 0,
        zero_payload_code(elem_code(es)),
    ensures
        enc_stripped(es).len() == 0,
    decreases es,
{
    lemma_enc_shape(es[0]);
    assert(enc(es[0])[0] == elem_code(es));
    assert(enc(es[0]).len() == 1);
    assert(enc(es[0]).subrange(1, enc(es[0]).len() as int) =~= Seq::<u8>::empty());
    let tail = es.subrange(1, es.len() as int);
    if tail.len() > 0 {
        assert(tail[0] == es[1]);
        assert(enc(es[1])[0] == elem_code(es));
        assert(elem_code(tail) == elem_code(es));
        assert forall|i: int| 0 <= i < tail.len() implies (#[trigger] enc(tail[i]))[0]
            == elem_code(tail) by {
            assert(tail[i] == es[i + 1]);
            assert(enc(es[i + 1])[0] == elem_code(es));
        }
        assert(homogeneous(tail));
        lemma_stripped_zero(tail);
    } else {
        assert(enc_stripped(tail) =~= Seq::<u8>::empty());
    }
    assert(enc_stripped(es) =~= enc(es[0]).subrange(1, enc(es[0]).len() as int) + enc_stripped(
        tail,
    ));
}

/// In a homogeneous array whose shared constructor carries payload, every
/// element strips to at least one byte, so the element count never exceeds
/// the stripped body length.
#[verifier::rlimit(60)]
pub proof fn lemma_stripped_count(es: Seq<ValueModel>)
    requires
        homogeneous(es),
        !zero_payload_code(elem_code(es)),
    ensures
        enc_stripped(es).len() >= es.len(),
    decreases es,
{
    if es.len() > 0 {
        lemma_enc_shape(es[0]);
        assert(enc(es[0])[0] == elem_code(es));
        let tail = es.subrange(1, es.len() as int);
        if tail.len() > 0 {
            assert(tail[0] == es[1]);
            assert(enc(es[1])[0] == elem_code(es));
            assert(elem_code(tail) == elem_code(es));
            assert forall|i: int| 0 <= i < tail.len() implies (#[trigger] enc(tail[i]))[0]
                == elem_code(tail) by {
                assert(tail[i] == es[i + 1]);
                assert(enc(es[i + 1])[0] == elem_code(es));
            }
            assert(homogeneous(tail));
        }
        lemma_stripped_count(tail);
    }
}

/// Holds when every element of the sequence is faithful.
pub open spec fn all_faithful(es: Seq<ValueModel>) -> bool
    decreases es, 1int,
{
    if es.len() == 0 {
        true
    } else {
        faithful(es[0]) && all_faithful(es.subrange(1, es.len() as int))
    }
}

/// Holds when every key and value of the entry sequence is faithful.
pub open spec fn all_pairs_faithful(ps: Seq<(ValueModel, ValueModel)>) -> bool
    decreases ps, 1int,
{
    if ps.len() == 0 {
        true
    } else {
        faithful(ps[0].0) && faithful(ps[0].1) && all_pairs_faithful(
            ps.subrange(1, ps.len() as int),
        )
    }
}

/// Holds on the values whose wire form reads back as the same value: every
/// value except those containing an array that encodes to an empty stripped
/// body, which the encoder collapses to `Null` on the wire.
pub open spec fn faithful(m: ValueModel) -> bool
    decreases m, 0int,
{
    match m {
        ValueModel::Described(d, b) => faithful(*d) && faithful(*b),
        ValueModel::Array(es) => enc_stripped(es).len() > 0 && all_faithful(es),
        ValueModel::List(es) => all_faithful(es),
        ValueModel::Mapping(ps) => all_pairs_faithful(ps),
        _ => true,
    }
}

/// `all_faithful` holds exactly when each element is faithful.
pub proof fn lemma_all_faithful(es: Seq<ValueModel>)
    ensures
        all_faithful(es) <==> (forall|i: int| 0 <= i < es.len() ==> #[trigger] faithful(es[i])),
    decreases es,
{
    if es.len() > 0 {
        let tail = es.subrange(1, es.len() as int);
        lemma_all_faithful(tail);
        assert forall|i: int| 1 <= i < es.len() implies es[i] == tail[i - 1] by {}
        if faithful(es[0]) && all_faithful(tail) {
            assert forall|i: int| 0 <= i < es.len() implies faithful(es[i]) by {
                if i >= 1 {
                    assert(faithful(tail[i - 1]));
                }
            }
        }
    }
}

/// `all_pairs_faithful` holds exactly when each key and value is faithful.
pub proof fn lemma_all_pairs_faithful(ps: Seq<(ValueModel, ValueModel)>)
    ensures
        all_pairs_faithful(ps) <==> (forall|i: int|
            0 <= i < ps.len() ==> #[trigger] faithful(ps[i].0) && faithful(ps[i].1)),
    decreases ps,
{
    if ps.len() > 0 {
        let tail = ps.subrange(1, ps.len() as int);
        lemma_all_pairs_faithful(tail);
        assert forall|i: int| 1 <= i < ps.len() implies ps[i] == tail[i - 1] by {}
        if faithful(ps[0].0) && faithful(ps[0].1) && all_pairs_faithful(tail) {
            assert forall|i: int| 0 <= i < ps.len() implies faithful(ps[i].0) && faithful(
                ps[i].1,
            ) by {
                if i >= 1 {
                    assert(0 <= i - 1 < tail.len());
                    assert(ps[i] == tail[i - 1]);
                    assert(faithful(tail[i - 1].0));
                    assert(faithful(tail[i - 1].1));
                }
            }
        }
    }
}

/// Round-trip identity with an arbitrary continuation: decoding bytes that
/// begin with the encoding of a faithful, encodable value yields exactly
/// that value and consumes exactly its encoding.
#[verifier::rlimit(100)]
pub proof fn lemma_dec_enc(m: ValueModel, rest: Seq<u8>)
    requires
        encodable(m),
        faithful(m),
    ensures
        dec(enc(m) + rest) == Some((m, enc(m).len() as int)),
    decreases m, 1int,
{
    let w = enc(m) + rest;
    lemma_enc_shape(m);
    assert(w.subrange(1, w.len() as int) =~= enc(m).subrange(1, enc(m).len() as int) + rest);
    let b = w.subrange(1, w.len() as int);
    match m {
        ValueModel::Described(d, b2) => {
            lemma_enc_len_pos(*d);
            lemma_enc_len_pos(*b2);
            assert(b =~= enc(*d) + (enc(*b2) + rest));
            lemma_dec_enc(*d, enc(*b2) + rest);
            let nd = enc(*d).len() as int;
            assert(b.subrange(nd, b.len() as int) =~= enc(*b2) + rest);
            lemma_dec_enc(*b2, rest);
        },
        ValueModel::Null => {},
        ValueModel::Bool(v) => {},
        ValueModel::Ubyte(n) => {
            assert(b[0] == n);
        },
        ValueModel::Ushort(n) => {
            assert(b.subrange(0, 2) =~= be16(n));
            lemma_be16_r(n);
            assert(r_u16(b) == r_u16(be16(n)));
        },
        ValueModel::Uint(n) => {
            if n == 0 {
            } else if n <= 255 {
                assert(b[0] == n as u8);
                assert(n <= 255 ==> ((n as u8) as u32) == n) by (bit_vector);
            } else {
                assert(b.subrange(0, 4) =~= be32(n));
                lemma_be32_r(n);
                assert(r_u32(b) == r_u32(be32(n)));
            }
        },
        ValueModel::Ulong(n) => {
            if n == 0 {
            } else if n <= 255 {
                assert(b[0] == n as u8);
                assert(n <= 255 ==> ((n as u8) as u64) == n) by (bit_vector);
            } else {
                assert(b.subrange(0, 8) =~= be64(n));
                lemma_be64_r(n);
                assert(r_u64(b) == r_u64(be64(n)));
            }
        },
        ValueModel::Byte(n) => {
            assert(b[0] == n as u8);
            assert(((n as u8) as i8) == n) by (bit_vector);
        },
        ValueModel::Short(n) => {
            assert(b.subrange(0, 2) =~= be16(n as u16));
            lemma_be16_r(n as u16);
            assert(r_u16(b) == r_u16(be16(n as u16)));
            assert(((n as u16) as i16) == n) by (bit_vector);
        },
        ValueModel::Int(n) => {
            if -128 <= n && n <= 127 {
                assert(b[0] == n as u8);
                assert(-128 <= n && n <= 127 ==> (((n as u8) as i8) as i32) == n)
                    by (bit_vector);
            } else {
                assert(b.subrange(0, 4) =~= be32(n as u32));
                lemma_be32_r(n as u32);
                assert(r_u32(b) == r_u32(be32(n as u32)));
                assert(((n as u32) as i32) == n) by (bit_vector);
            }
        },
        ValueModel::Long(n) => {
            if -128 <= n && n <= 127 {
                assert(b[0] == n as u8);
                assert(-128 <= n && n <= 127 ==> (((n as u8) as i8) as i64) == n)
                    by (bit_vector);
            } else {
                assert(b.subrange(0, 8) =~= be64(n as u64));
                lemma_be64_r(n as u64);
                assert(r_u64(b) == r_u64(be64(n as u64)));
                assert(((n as u64) as i64) == n) by (bit_vector);
            }
        },
        ValueModel::String(cs) => {
            let payload = encode_utf8(cs);
            encode_utf8_valid_utf8(cs);
            encode_utf8_decode_utf8(cs);
            if payload.len() > 255 {
                assert(b.subrange(0, 4) =~= be32(payload.len() as u32));
                lemma_be32_r(payload.len() as u32);
                assert(r_u32(b) == payload.len());
                assert(b.subrange(4, 4 + payload.len() as int) =~= payload);
            } else {
                assert(b[0] == payload.len() as u8);
                assert(b.subrange(1, 1 + payload.len() as int) =~= payload);
            }
        },
        ValueModel::Binary(bs) => {
            if bs.len() > 255 {
                assert(b.subrange(0, 4) =~= be32(bs.len() as u32));
                lemma_be32_r(bs.len() as u32);
                assert(r_u32(b) == bs.len());
                assert(b.subrange(4, 4 + bs.len() as int) =~= bs);
            } else {
                assert(b[0] == bs.len() as u8);
                assert(b.subrange(1, 1 + bs.len() as int) =~= bs);
            }
        },
        ValueModel::Symbol(bs) => {
            if bs.len() > 255 {
                assert(b.subrange(0, 4) =~= be32(bs.len() as u32));
                lemma_be32_r(bs.len() as u32);
                assert(r_u32(b) == bs.len());
                assert(b.subrange(4, 4 + bs.len() as int) =~= bs);
            } else {
                assert(b[0] == bs.len() as u8);
                assert(b.subrange(1, 1 + bs.len() as int) =~= bs);
            }
        },
        ValueModel::List(es) => {
            let body = enc_seq(es);
            lemma_enc_seq_len(es);
            lemma_dec_enc_seq(es, rest);
            if body.len() > LIST8_MAX {
                assert(b.subrange(0, 4) =~= be32((4 + body.len()) as u32));
                assert(b.subrange(4, 8) =~= be32(es.len() as u32));
                lemma_be32_r(es.len() as u32);
                assert(r_u32(b.subrange(4, 8)) == es.len());
                assert(b.subrange(8, b.len() as int) =~= body + rest);
            } else if body.len() > 0 {
                assert(b[1] == es.len() as u8);
                assert(b.subrange(2, b.len() as int) =~= body + rest);
            } else {
                assert(es.len() == 0);
                assert(es =~= Seq::<ValueModel>::empty());
            }
        },
        ValueModel::Mapping(ps) => {
            let body = enc_pairs(ps);
            lemma_enc_pairs_len(ps);
            lemma_dec_enc_pairs(ps, rest);
            if body.len() > LIST8_MAX || 2 * ps.len() > 255 {
                assert(b.subrange(0, 4) =~= be32((4 + body.len()) as u32));
                assert(b.subrange(4, 8) =~= be32((2 * ps.len()) as u32));
                lemma_be32_r((2 * ps.len()) as u32);
                assert(r_u32(b.subrange(4, 8)) == 2 * ps.len());
                assert((2 * ps.len()) as int / 2 == ps.len());
                assert(b.subrange(8, b.len() as int) =~= body + rest);
            } else {
                assert(b[1] == (2 * ps.len()) as u8);
                assert((2 * ps.len()) as int / 2 == ps.len());
                assert(b.subrange(2, b.len() as int) =~= body + rest);
            }
        },
        ValueModel::Array(es) => {
            let body = enc_stripped(es);
            assert(body.len() > 0);
            if es.len() > 0 && zero_payload_code(elem_code(es)) {
                lemma_stripped_zero(es);
            }
            assert(!zero_payload_code(elem_code(es)) || es.len() == 0);
            lemma_stripped_count(es);
            lemma_dec_enc_elems(es, rest, elem_code(es));
            if body.len() > ARRAY8_MAX {
                assert(b.subrange(0, 4) =~= be32((5 + body.len()) as u32));
                assert(b.subrange(4, 8) =~= be32(es.len() as u32));
                lemma_be32_r(es.len() as u32);
                assert(r_u32(b.subrange(4, 8)) == es.len());
                assert(b[8] == elem_code(es));
                assert(b.subrange(9, b.len() as int) =~= body + rest);
            } else {
                assert(b[1] == es.len() as u8);
                assert(b[2] == elem_code(es));
                assert(b.subrange(3, b.len() as int) =~= body + rest);
            }
        },
    }
}

/// Round-trip identity for list bodies: reading back as many values as were
/// encoded yields the same values in order.
pub proof fn lemma_dec_enc_seq(es: Seq<ValueModel>, rest: Seq<u8>)
    requires
        all_encodable(es),
        all_faithful(es),
    ensures
        dec_n(enc_seq(es) + rest, es.len() as int) == Some((es, enc_seq(es).len() as int)),
    decreases es, 0int,
{
    if es.len() == 0 {
        assert(enc_seq(es) + rest =~= rest);
        assert(es =~= Seq::<ValueModel>::empty());
    } else {
        let hd = es[0];
        let tail = es.subrange(1, es.len() as int);
        let w = enc_seq(es) + rest;
        assert(w =~= enc(hd) + (enc_seq(tail) + rest));
        lemma_dec_enc(hd, enc_seq(tail) + rest);
        let n = enc(hd).len() as int;
        assert(w.subrange(n, w.len() as int) =~= enc_seq(tail) + rest);
        lemma_dec_enc_seq(tail, rest);
        assert(seq![hd] + tail =~= es);
    }
}

/// Round-trip identity for map bodies: reading back as many entries as were
/// encoded yields the same entries in order.
pub proof fn lemma_dec_enc_pairs(ps: Seq<(ValueModel, ValueModel)>, rest: Seq<u8>)
    requires
        all_pairs_encodable(ps),
        all_pairs_faithful(ps),
    ensures
        dec_pairs(enc_pairs(ps) + rest, ps.len() as int) == Some(
            (ps, enc_pairs(ps).len() as int),
        ),
    decreases ps, 0int,
{
    if ps.len() == 0 {
        assert(enc_pairs(ps) + rest =~= rest);
        assert(ps =~= Seq::<(ValueModel, ValueModel)>::empty());
    } else {
        let k = ps[0].0;
        let v = ps[0].1;
        let tail = ps.subrange(1, ps.len() as int);
        let w = enc_pairs(ps) + rest;
        assert(w =~= enc(k) + (enc(v) + (enc_pairs(tail) + rest)));
        lemma_dec_enc(k, enc(v) + (enc_pairs(tail) + rest));
        let nk = enc(k).len() as int;
        assert(w.subrange(nk, w.len() as int) =~= enc(v) + (enc_pairs(tail) + rest));
        lemma_dec_enc(v, enc_pairs(tail) + rest);
        let nv = enc(v).len() as int;
        assert(w.subrange(nk + nv, w.len() as int) =~= enc_pairs(tail) + rest);
        lemma_dec_enc_pairs(tail, rest);
        assert(seq![(k, v)] + tail =~= ps);
        assert(ps[0] == (k, v));
    }
}

/// Round-trip identity for array bodies: reading back as many stripped
/// elements as were encoded, under their shared constructor byte, yields the
/// same elements in order.
pub proof fn lemma_dec_enc_elems(es: Seq<ValueModel>, rest: Seq<u8>, code: u8)
    requires
        all_encodable(es),
        all_faithful(es),
        forall|i: int| 0 <= i < es.len() ==> (#[trigger] enc(es[i]))[0] == code,
    ensures
        dec_elems(code, enc_stripped(es) + rest, es.len() as int) == Some(
            (es, enc_stripped(es).len() as int),
        ),
    decreases es, 0int,
{
    if es.len() == 0 {
        assert(enc_stripped(es) + rest =~= rest);
        assert(es =~= Seq::<ValueModel>::empty());
    } else {
        let hd = es[0];
        let tail = es.subrange(1, es.len() as int);
        lemma_enc_len_pos(hd);
        let stripped = enc(hd).subrange(1, enc(hd).len() as int);
        let w = enc_stripped(es) + rest;
        assert(w =~= stripped + (enc_stripped(tail) + rest));
        lemma_dec_enc(hd, enc_stripped(tail) + rest);
        let full = enc(hd) + (enc_stripped(tail) + rest);
        assert(full[0] == code);
        assert(full.subrange(1, full.len() as int) =~= w);
        assert(dec_ctor(code, w) == Some((hd, enc(hd).len() - 1)));
        let n = enc(hd).len() as int - 1;
        assert(w.subrange(n, w.len() as int) =~= enc_stripped(tail) + rest);
        lemma_dec_enc_elems(tail, rest, code);
        assert(seq![hd] + tail =~= es);
    }
}

/// Round-trip identity: decoding the encoding of a faithful, encodable value
/// yields the value itself, consuming the whole encoding.
pub proof fn lemma_round_trip(m: ValueModel)
    requires
        encodable(m),
        faithful(m),
    ensures
        dec(enc(m)) == Some((m, enc(m).len() as int)),
{
    lemma_dec_enc(m, Seq::empty());
    assert(enc(m) + Seq::<u8>::empty() =~= enc(m));
}


/// Size-class minimality for unsigned longs: zero takes the one-byte
/// `Ulong0` form, byte-sized values the two-byte `Ulongsmall` form, and
/// larger values the nine-byte wide form.
pub proof fn lemma_ulong_size_class(n: u64)
    ensures
        n == 0 ==> enc(ValueModel::Ulong(n)) =~= seq![0x44u8],
        1 <= n <= 255 ==> enc(ValueModel::Ulong(n)) =~= seq![0x53u8, n as u8],
        n > 255 ==> enc(ValueModel::Ulong(n)).len() == 9 && enc(ValueModel::Ulong(n))[0]
            == 0x80,
{
}

/// Size-class minimality for unsigned ints: zero takes the one-byte `Uint0`
/// form, byte-sized values the two-byte `Uintsmall` form, and larger values
/// the five-byte wide form.
pub proof fn lemma_uint_size_class(n: u32)
    ensures
        n == 0 ==> enc(ValueModel::Uint(n)) =~= seq![0x43u8],
        1 <= n <= 255 ==> enc(ValueModel::Uint(n)) =~= seq![0x52u8, n as u8],
        n > 255 ==> enc(ValueModel::Uint(n)).len() == 5 && enc(ValueModel::Uint(n))[0] == 0x70,
{
}

/// Size-class minimality for strings: a UTF-8 payload of up to 255 bytes is
/// framed by `Str8` with one length byte, a longer one by `Str32` with four.
pub proof fn lemma_string_size_class(cs: Seq<char>)
    ensures
        encode_utf8(cs).len() <= 255 ==> enc(ValueModel::String(cs)).len() == 2 + encode_utf8(
            cs,
        ).len() && enc(ValueModel::String(cs))[0] == 0xA1,
        encode_utf8(cs).len() > 255 ==> enc(ValueModel::String(cs)).len() == 5 + encode_utf8(
            cs,
        ).len() && enc(ValueModel::String(cs))[0] == 0xB1,
{
}

/// Decode tolerance: the wide one-payload-byte boolean form, which the
/// encoder never emits, decodes to the boolean it denotes.
pub proof fn lemma_decode_wide_bool(v: u8, rest: Seq<u8>)
    ensures
        dec(seq![0x56u8, v] + rest) == Some((ValueModel::Bool(v == 1), 2int)),
{
    let w = seq![0x56u8, v] + rest;
    assert(w.subrange(1, w.len() as int) =~= seq![v] + rest);
}

/// Decode tolerance: the wide four-byte unsigned-int form decodes to the
/// integer it denotes, however small the value.
pub proof fn lemma_decode_wide_uint(n: u32, rest: Seq<u8>)
    ensures
        dec(seq![0x70u8] + be32(n) + rest) == Some((ValueModel::Uint(n), 5int)),
{
    let w = seq![0x70u8] + be32(n) + rest;
    assert(w.subrange(1, w.len() as int) =~= be32(n) + rest);
    let b = w.subrange(1, w.len() as int);
    assert(b.subrange(0, 4) =~= be32(n));
    lemma_be32_r(n);
    assert(r_u32(b) == r_u32(be32(n)));
}

/// Decode tolerance: the wide eight-byte unsigned-long form decodes to the
/// integer it denotes, however small the value.
pub proof fn lemma_decode_wide_ulong(n: u64, rest: Seq<u8>)
    ensures
        dec(seq![0x80u8] + be64(n) + rest) == Some((ValueModel::Ulong(n), 9int)),
{
    let w = seq![0x80u8] + be64(n) + rest;
    assert(w.subrange(1, w.len() as int) =~= be64(n) + rest);
    let b = w.subrange(1, w.len() as int);
    assert(b.subrange(0, 8) =~= be64(n));
    lemma_be64_r(n);
    assert(r_u64(b) == r_u64(be64(n)));
}

/// Decode tolerance: the `Uintsmall` form carrying zero decodes to zero,
/// although the encoder would have chosen `Uint0`.
pub proof fn lemma_decode_small_uint(v: u8, rest: Seq<u8>)
    ensures
        dec(seq![0x52u8, v] + rest) == Some((ValueModel::Uint(v as u32), 2int)),
{
    let w = seq![0x52u8, v] + rest;
    assert(w.subrange(1, w.len() as int) =~= seq![v] + rest);
}

} // verus!
