//! The executable codec: encoding values to bytes and decoding bytes back.
//!
//! Encoding is specified exactly by `wire::enc`: a call either extends the
//! output with precisely those bytes, or fails on the values `wire::encodable`
//! rules out (oversized payloads, arrays whose elements do not share one
//! constructor byte).  Decoding is specified exactly by `wire::dec`.

use vstd::prelude::*;
use crate::error::{AmqpError, is_decode_error};
use crate::types::{
    Value, ValueModel, Symbol, MapEntry, TypeCode, seq_model, pair_seq_model,
    lemma_model_of_list, lemma_model_of_array, lemma_model_of_mapping,
};
use crate::wire::{
    dec, dec_ctor, dec_n, dec_pairs, dec_elems, r_u16, r_u32, r_u64,
    enc, enc_var, enc_seq, enc_pairs, enc_stripped, elem_code, encodable, homogeneous,
    lemma_all_encodable, lemma_all_pairs_encodable,
    lemma_unencodable_elem, lemma_unencodable_entry, lemma_unencodable_mixed,
    be16, be32, be64, lemma_enc_seq_snoc, lemma_enc_pairs_snoc, lemma_enc_stripped_snoc,
    lemma_enc_pairs_len, lemma_enc_len_pos, LIST8_MAX, LIST32_MAX, ARRAY8_MAX, ARRAY32_MAX,
};

verus! {

/// The type code the encoder reports for a value: the code of the size class
/// `enc` chooses (`Described` for described values, `Null` for an array whose
/// stripped body is empty).
pub open spec fn wire_code(m: ValueModel) -> TypeCode {
    match m {
        ValueModel::Described(_, _) => TypeCode::Described,
        ValueModel::Null => TypeCode::Null,
        ValueModel::Bool(b) => if b {
            TypeCode::Booleantrue
        } else {
            TypeCode::Booleanfalse
        },
        ValueModel::Ubyte(_) => TypeCode::Ubyte,
        ValueModel::Ushort(_) => TypeCode::Ushort,
        ValueModel::Uint(n) => if n == 0 {
            TypeCode::Uint0
        } else if n <= 255 {
            TypeCode::Uintsmall
        } else {
            TypeCode::Uint
        },
        ValueModel::Ulong(n) => if n == 0 {
            TypeCode::Ulong0
        } else if n <= 255 {
            TypeCode::Ulongsmall
        } else {
            TypeCode::Ulong
        },
        ValueModel::Byte(_) => TypeCode::Byte,
        ValueModel::Short(_) => TypeCode::Short,
        ValueModel::Int(n) => if -128 <= n && n <= 127 {
            TypeCode::Intsmall
        } else {
            TypeCode::Int
        },
        ValueModel::Long(n) => if -128 <= n && n <= 127 {
            TypeCode::Longsmall
        } else {
            TypeCode::Long
        },
        ValueModel::String(cs) => if vstd::utf8::encode_utf8(cs).len() > 255 {
            TypeCode::Str32
        } else {
            TypeCode::Str8
        },
        ValueModel::Binary(bs) => if bs.len() > 255 {
            TypeCode::Bin32
        } else {
            TypeCode::Bin8
        },
        ValueModel::Symbol(bs) => if bs.len() > 255 {
            TypeCode::Sym32
        } else {
            TypeCode::Sym8
        },
        ValueModel::Array(es) => if enc_stripped(es).len() > ARRAY8_MAX {
            TypeCode::Array32
        } else if enc_stripped(es).len() > 0 {
            TypeCode::Array8
        } else {
            TypeCode::Null
        },
        ValueModel::List(es) => if enc_seq(es).len() > LIST8_MAX {
            TypeCode::List32
        } else if enc_seq(es).len() > 0 {
            TypeCode::List8
        } else {
            TypeCode::List0
        },
        ValueModel::Mapping(ps) => if enc_pairs(ps).len() > LIST8_MAX || 2 * ps.len() > 255 {
            TypeCode::Map32
        } else {
            TypeCode::Map8
        },
    }
}

/// The capability of writing oneself as one self-describing AMQP value.
///
/// A successful call appends exactly `enc(enc_model())` to the buffer and
/// reports the constructor the size-class rules chose; a call fails exactly
/// when the value is not `encodable`, leaving anything already written in
/// place.
pub trait Encoder {
    /// The value this object encodes as.
    spec fn enc_model(&self) -> ValueModel;

    /// The well-formedness the encoding call relies on.
    spec fn enc_wf(&self) -> bool;

    /// Appends the encoding of `self` to `buf`.
    fn encode(&self, buf: &mut Vec<u8>) -> (r: Result<TypeCode, AmqpError>)
        requires
            self.enc_wf(),
        ensures
            r is Ok <==> encodable(self.enc_model()),
            r matches Ok(c) ==> final(buf)@ == old(buf)@ + enc(self.enc_model()) && c
                == wire_code(self.enc_model()),
            r matches Err(e) ==> old(buf)@.is_prefix_of(final(buf)@) && is_decode_error(e),
    ;
}

/// Appends the two big-endian bytes of `v`.
pub(crate) fn push_be16(buf: &mut Vec<u8>, v: u16)
    ensures
        final(buf)@ == old(buf)@ + be16(v),
{
    buf.push((v >> 8) as u8);
    buf.push(v as u8);
    assert(buf@ =~= old(buf)@ + be16(v));
}

/// Appends the four big-endian bytes of `v`.
pub(crate) fn push_be32(buf: &mut Vec<u8>, v: u32)
    ensures
        final(buf)@ == old(buf)@ + be32(v),
{
    buf.push((v >> 24) as u8);
    buf.push((v >> 16) as u8);
    buf.push((v >> 8) as u8);
    buf.push(v as u8);
    assert(buf@ =~= old(buf)@ + be32(v));
}

/// Appends the eight big-endian bytes of `v`.
pub(crate) fn push_be64(buf: &mut Vec<u8>, v: u64)
    ensures
        final(buf)@ == old(buf)@ + be64(v),
{
    buf.push((v >> 56) as u8);
    buf.push((v >> 48) as u8);
    buf.push((v >> 40) as u8);
    buf.push((v >> 32) as u8);
    buf.push((v >> 24) as u8);
    buf.push((v >> 16) as u8);
    buf.push((v >> 8) as u8);
    buf.push(v as u8);
    assert(buf@ =~= old(buf)@ + be64(v));
}

/// Appends every byte of `data`.
pub(crate) fn push_bytes(buf: &mut Vec<u8>, data: &[u8])
    ensures
        final(buf)@ == old(buf)@ + data@,
{
    let mut i: usize = 0;
    while i < data.len()
        invariant
            i <= data@.len(),
            buf@ == old(buf)@ + data@.subrange(0, i as int),
        decreases data@.len() - i,
    {
        let b = data[i];
        buf.push(b);
        assert(buf@ =~= old(buf)@ + data@.subrange(0, i + 1 as int));
        i = i + 1;
    }
    assert(data@.subrange(0, data@.len() as int) =~= data@);
}

/// Appends a variable-width payload under the given narrow and wide codes,
/// choosing the narrow form when the payload fits in one length byte.
/// Reports whether the wide form was used.
pub(crate) fn push_var(buf: &mut Vec<u8>, c8: u8, c32: u8, payload: &[u8]) -> (r: Result<bool, AmqpError>)
    ensures
        r is Ok <==> payload@.len() <= LIST32_MAX,
        r matches Ok(wide) ==> final(buf)@ == old(buf)@ + enc_var(c8, c32, payload@) && (wide
            <==> payload@.len() > 255),
        r is Err ==> final(buf)@ == old(buf)@,
        r matches Err(e) ==> is_decode_error(e),
    {
    if payload.len() > LIST32_MAX {
        return Err(AmqpError::decode_error(
            "Encoded size cannot be longer than 4294967291 bytes",
        ));
    }
    if payload.len() > 255 {
        buf.push(c32);
        push_be32(buf, payload.len() as u32);
        push_bytes(buf, payload);
        assert(buf@ =~= old(buf)@ + enc_var(c8, c32, payload@));
        Ok(true)
    } else {
        buf.push(c8);
        buf.push(payload.len() as u8);
        push_bytes(buf, payload);
        assert(buf@ =~= old(buf)@ + enc_var(c8, c32, payload@));
        Ok(false)
    }
}

impl Encoder for Value {
    open spec fn enc_model(&self) -> ValueModel {
        self@
    }

    open spec fn enc_wf(&self) -> bool {
        true
    }

    /// Appends the self-describing encoding of this value, choosing the
    /// smallest legal size class for each variant.
    #[verifier::loop_isolation(false)]
    #[verifier::rlimit(100)]
    fn encode(&self, buf: &mut Vec<u8>) -> (r: Result<TypeCode, AmqpError>)
        decreases self,
    {
        match self {
            Value::Described(d, v) => {
                buf.push(0x00u8);
                let c = d.encode(buf);
                if let Err(e) = c {
                    return Err(e);
                }
                let c = v.encode(buf);
                if let Err(e) = c {
                    return Err(e);
                }
                assert(buf@ =~= old(buf)@ + enc(self@));
                Ok(TypeCode::Described)
            },
            Value::Null => {
                buf.push(0x40u8);
                assert(buf@ =~= old(buf)@ + enc(self@));
                Ok(TypeCode::Null)
            },
            Value::Bool(b) => {
                if *b {
                    buf.push(0x41u8);
                    assert(buf@ =~= old(buf)@ + enc(self@));
                    Ok(TypeCode::Booleantrue)
                } else {
                    buf.push(0x42u8);
                    assert(buf@ =~= old(buf)@ + enc(self@));
                    Ok(TypeCode::Booleanfalse)
                }
            },
            Value::Ubyte(n) => {
                buf.push(0x50u8);
                buf.push(*n);
                assert(buf@ =~= old(buf)@ + enc(self@));
                Ok(TypeCode::Ubyte)
            },
            Value::Ushort(n) => {
                buf.push(0x60u8);
                push_be16(buf, *n);
                assert(buf@ =~= old(buf)@ + enc(self@));
                Ok(TypeCode::Ushort)
            },
            Value::Uint(n) => {
                if *n == 0 {
                    buf.push(0x43u8);
                    assert(buf@ =~= old(buf)@ + enc(self@));
                    Ok(TypeCode::Uint0)
                } else if *n <= 255 {
                    buf.push(0x52u8);
                    buf.push(*n as u8);
                    assert(buf@ =~= old(buf)@ + enc(self@));
                    Ok(TypeCode::Uintsmall)
                } else {
                    buf.push(0x70u8);
                    push_be32(buf, *n);
                    assert(buf@ =~= old(buf)@ + enc(self@));
                    Ok(TypeCode::Uint)
                }
            },
            Value::Ulong(n) => {
                if *n == 0 {
                    buf.push(0x44u8);
                    assert(buf@ =~= old(buf)@ + enc(self@));
                    Ok(TypeCode::Ulong0)
                } else if *n <= 255 {
                    buf.push(0x53u8);
                    buf.push(*n as u8);
                    assert(buf@ =~= old(buf)@ + enc(self@));
                    Ok(TypeCode::Ulongsmall)
                } else {
                    buf.push(0x80u8);
                    push_be64(buf, *n);
                    assert(buf@ =~= old(buf)@ + enc(self@));
                    Ok(TypeCode::Ulong)
                }
            },
            Value::Byte(n) => {
                buf.push(0x51u8);
                buf.push(*n as u8);
                assert(buf@ =~= old(buf)@ + enc(self@));
                Ok(TypeCode::Byte)
            },
            Value::Short(n) => {
                buf.push(0x61u8);
                push_be16(buf, *n as u16);
                assert(buf@ =~= old(buf)@ + enc(self@));
                Ok(TypeCode::Short)
            },
            Value::Int(n) => {
                if -128 <= *n && *n <= 127 {
                    buf.push(0x54u8);
                    buf.push(*n as u8);
                    assert(buf@ =~= old(buf)@ + enc(self@));
                    Ok(TypeCode::Intsmall)
                } else {
                    buf.push(0x71u8);
                    push_be32(buf, *n as u32);
                    assert(buf@ =~= old(buf)@ + enc(self@));
                    Ok(TypeCode::Int)
                }
            },
            Value::Long(n) => {
                if -128 <= *n && *n <= 127 {
                    buf.push(0x55u8);
                    buf.push(*n as u8);
                    assert(buf@ =~= old(buf)@ + enc(self@));
                    Ok(TypeCode::Longsmall)
                } else {
                    buf.push(0x81u8);
                    push_be64(buf, *n as u64);
                    assert(buf@ =~= old(buf)@ + enc(self@));
                    Ok(TypeCode::Long)
                }
            },
            Value::String(s) => {
                match push_var(buf, 0xA1u8, 0xB1u8, s.as_str().as_bytes()) {
                    Ok(wide) => {
                        assert(buf@ =~= old(buf)@ + enc(self@));
                        if wide {
                            Ok(TypeCode::Str32)
                        } else {
                            Ok(TypeCode::Str8)
                        }
                    },
                    Err(e) => Err(e),
                }
            },
            Value::Binary(bs) => {
                match push_var(buf, 0xA0u8, 0xB0u8, bs.as_slice()) {
                    Ok(wide) => {
                        assert(buf@ =~= old(buf)@ + enc(self@));
                        if wide {
                            Ok(TypeCode::Bin32)
                        } else {
                            Ok(TypeCode::Bin8)
                        }
                    },
                    Err(e) => Err(e),
                }
            },
            Value::Symbol(sym) => {
                match push_var(buf, 0xA3u8, 0xB3u8, sym.to_slice()) {
                    Ok(wide) => {
                        assert(buf@ =~= old(buf)@ + enc(self@));
                        if wide {
                            Ok(TypeCode::Sym32)
                        } else {
                            Ok(TypeCode::Sym8)
                        }
                    },
                    Err(e) => Err(e),
                }
            },
            Value::List(es) => {
                proof {
                    lemma_model_of_list(*es);
                }
                let mut listbuf: Vec<u8> = Vec::new();
                let mut i: usize = 0;
                while i < es.len()
                    invariant
                        i <= es@.len(),
                        listbuf@ == enc_seq(seq_model(es@).subrange(0, i as int)),
                        forall|j: int| 0 <= j < i ==> encodable(#[trigger] seq_model(es@)[j]),
                    decreases es@.len() - i,
                {
                    let ghost pre = seq_model(es@).subrange(0, i as int);
                    match es[i].encode(&mut listbuf) {
                        Ok(_) => {},
                        Err(e) => {
                            proof {
                                lemma_unencodable_elem(seq_model(es@), i as int);
                            }
                            return Err(e);
                        },
                    }
                    proof {
                        lemma_enc_seq_snoc(pre, seq_model(es@)[i as int]);
                        assert(seq_model(es@).subrange(0, i + 1 as int) =~= pre.push(
                            seq_model(es@)[i as int],
                        ));
                    }
                    i = i + 1;
                }
                proof {
                    assert(seq_model(es@).subrange(0, es@.len() as int) =~= seq_model(es@));
                    lemma_all_encodable(seq_model(es@));
                }
                if listbuf.len() > LIST32_MAX {
                    return Err(AmqpError::decode_error(
                        "Encoded list size cannot be longer than 4294967291 bytes",
                    ));
                }
                if listbuf.len() > LIST8_MAX {
                    buf.push(0xD0u8);
                    push_be32(buf, (4 + listbuf.len()) as u32);
                    push_be32(buf, es.len() as u32);
                    push_bytes(buf, listbuf.as_slice());
                    assert(buf@ =~= old(buf)@ + enc(self@));
                    Ok(TypeCode::List32)
                } else if listbuf.len() > 0 {
                    buf.push(0xC0u8);
                    buf.push((1 + listbuf.len()) as u8);
                    buf.push(es.len() as u8);
                    push_bytes(buf, listbuf.as_slice());
                    assert(buf@ =~= old(buf)@ + enc(self@));
                    Ok(TypeCode::List8)
                } else {
                    buf.push(0x45u8);
                    assert(buf@ =~= old(buf)@ + enc(self@));
                    Ok(TypeCode::List0)
                }
            },
            Value::Mapping(ps) => {
                proof {
                    lemma_model_of_mapping(*ps);
                }
                let mut mbuf: Vec<u8> = Vec::new();
                let mut i: usize = 0;
                while i < ps.len()
                    invariant
                        i <= ps@.len(),
                        mbuf@ == enc_pairs(pair_seq_model(ps@).subrange(0, i as int)),
                        forall|j: int|
                            0 <= j < i ==> encodable((#[trigger] pair_seq_model(ps@)[j]).0)
                                && encodable(pair_seq_model(ps@)[j].1),
                    decreases ps@.len() - i,
                {
                    let ghost pre = pair_seq_model(ps@).subrange(0, i as int);
                    let ghost mid = mbuf@;
                    match ps[i].key.encode(&mut mbuf) {
                        Ok(_) => {},
                        Err(e) => {
                            proof {
                                lemma_unencodable_entry(pair_seq_model(ps@), i as int);
                            }
                            return Err(e);
                        },
                    }
                    match ps[i].value.encode(&mut mbuf) {
                        Ok(_) => {},
                        Err(e) => {
                            proof {
                                lemma_unencodable_entry(pair_seq_model(ps@), i as int);
                            }
                            return Err(e);
                        },
                    }
                    proof {
                        lemma_enc_pairs_snoc(pre, pair_seq_model(ps@)[i as int]);
                        assert(pair_seq_model(ps@).subrange(0, i + 1 as int) =~= pre.push(
                            pair_seq_model(ps@)[i as int],
                        ));
                        assert(mbuf@ =~= enc_pairs(pair_seq_model(ps@).subrange(0, i + 1 as int)));
                    }
                    i = i + 1;
                }
                proof {
                    assert(pair_seq_model(ps@).subrange(0, ps@.len() as int) =~= pair_seq_model(
                        ps@,
                    ));
                    lemma_all_pairs_encodable(pair_seq_model(ps@));
                }
                if mbuf.len() > LIST32_MAX {
                    return Err(AmqpError::decode_error(
                        "Encoded map size cannot be longer than 4294967291 bytes",
                    ));
                }
                proof {
                    lemma_enc_pairs_len(pair_seq_model(ps@));
                }
                let n_items = ps.len() * 2;
                if mbuf.len() > LIST8_MAX || n_items > 255 {
                    buf.push(0xD1u8);
                    push_be32(buf, (4 + mbuf.len()) as u32);
                    push_be32(buf, n_items as u32);
                    push_bytes(buf, mbuf.as_slice());
                    assert(buf@ =~= old(buf)@ + enc(self@));
                    Ok(TypeCode::Map32)
                } else {
                    buf.push(0xC1u8);
                    buf.push((1 + mbuf.len()) as u8);
                    buf.push(n_items as u8);
                    push_bytes(buf, mbuf.as_slice());
                    assert(buf@ =~= old(buf)@ + enc(self@));
                    Ok(TypeCode::Map8)
                }
            },
            Value::Array(es) => {
                proof {
                    lemma_model_of_array(*es);
                }
                let mut arraybuf: Vec<u8> = Vec::new();
                let mut code: u8 = 0;
                let mut i: usize = 0;
                while i < es.len()
                    invariant
                        i <= es@.len(),
                        arraybuf@ == enc_stripped(seq_model(es@).subrange(0, i as int)),
                        forall|j: int| 0 <= j < i ==> encodable(#[trigger] seq_model(es@)[j]),
                        forall|j: int|
                            0 <= j < i ==> (#[trigger] enc(seq_model(es@)[j]))[0] == code,
                        i > 0 ==> code == elem_code(seq_model(es@)),
                    decreases es@.len() - i,
                {
                    let ghost pre = seq_model(es@).subrange(0, i as int);
                    let mut valuebuf: Vec<u8> = Vec::new();
                    match es[i].encode(&mut valuebuf) {
                        Ok(_) => {},
                        Err(e) => {
                            proof {
                                lemma_unencodable_elem(seq_model(es@), i as int);
                            }
                            return Err(e);
                        },
                    }
                    proof {
                        lemma_enc_len_pos(seq_model(es@)[i as int]);
                    }
                    if i == 0 {
                        code = valuebuf[0];
                        assert(code == elem_code(seq_model(es@)));
                    } else if valuebuf[0] != code {
                        proof {
                            lemma_unencodable_mixed(seq_model(es@), i as int);
                        }
                        return Err(AmqpError::decode_error(
                            "Array elements must share one constructor",
                        ));
                    }
                    let mut j: usize = 1;
                    while j < valuebuf.len()
                        invariant
                            1 <= j <= valuebuf@.len(),
                            arraybuf@ == enc_stripped(pre) + valuebuf@.subrange(1, j as int),
                            valuebuf@ == enc(seq_model(es@)[i as int]),
                            i < es@.len(),
                            pre == seq_model(es@).subrange(0, i as int),
                        decreases valuebuf@.len() - j,
                    {
                        let b = valuebuf[j];
                        arraybuf.push(b);
                        assert(arraybuf@ =~= enc_stripped(pre) + valuebuf@.subrange(
                            1,
                            j + 1 as int,
                        ));
                        j = j + 1;
                    }
                    proof {
                        lemma_enc_stripped_snoc(pre, seq_model(es@)[i as int]);
                        assert(seq_model(es@).subrange(0, i + 1 as int) =~= pre.push(
                            seq_model(es@)[i as int],
                        ));
                        assert(arraybuf@ =~= enc_stripped(seq_model(es@).subrange(0, i + 1 as int)));
                    }
                    i = i + 1;
                }
                proof {
                    assert(seq_model(es@).subrange(0, es@.len() as int) =~= seq_model(es@));
                    lemma_all_encodable(seq_model(es@));
                    assert(homogeneous(seq_model(es@))) by {
                        if es@.len() > 0 {
                            assert(enc(seq_model(es@)[0])[0] == code);
                        }
                    }
                }
                if arraybuf.len() > ARRAY32_MAX {
                    return Err(AmqpError::decode_error(
                        "Encoded array size cannot be longer than 4294967291 bytes",
                    ));
                }
                if arraybuf.len() > ARRAY8_MAX {
                    buf.push(0xF0u8);
                    push_be32(buf, (5 + arraybuf.len()) as u32);
                    push_be32(buf, es.len() as u32);
                    buf.push(code);
                    push_bytes(buf, arraybuf.as_slice());
                    assert(buf@ =~= old(buf)@ + enc(self@));
                    Ok(TypeCode::Array32)
                } else if arraybuf.len() > 0 {
                    buf.push(0xE0u8);
                    buf.push((2 + arraybuf.len()) as u8);
                    buf.push(es.len() as u8);
                    buf.push(code);
                    push_bytes(buf, arraybuf.as_slice());
                    assert(buf@ =~= old(buf)@ + enc(self@));
                    Ok(TypeCode::Array8)
                } else {
                    buf.push(0x40u8);
                    assert(buf@ =~= old(buf)@ + enc(self@));
                    Ok(TypeCode::Null)
                }
            },
        }
    }
}


/// Reads the big-endian 16-bit integer at `pos`.
fn read_be16(bytes: &[u8], pos: usize) -> (r: u16)
    requires
        pos + 2 <= bytes@.len(),
    ensures
        r == r_u16(bytes@.subrange(pos as int, pos + 2 as int)),
{
    ((bytes[pos] as u16) << 8) | (bytes[pos + 1] as u16)
}

/// Reads the big-endian 32-bit integer at `pos`.
fn read_be32(bytes: &[u8], pos: usize) -> (r: u32)
    requires
        pos + 4 <= bytes@.len(),
    ensures
        r == r_u32(bytes@.subrange(pos as int, pos + 4 as int)),
{
    ((bytes[pos] as u32) << 24) | ((bytes[pos + 1] as u32) << 16) | ((bytes[pos + 2] as u32) << 8)
        | (bytes[pos + 3] as u32)
}

/// Reads the big-endian 64-bit integer at `pos`.
fn read_be64(bytes: &[u8], pos: usize) -> (r: u64)
    requires
        pos + 8 <= bytes@.len(),
    ensures
        r == r_u64(bytes@.subrange(pos as int, pos + 8 as int)),
{
    ((bytes[pos] as u64) << 56) | ((bytes[pos + 1] as u64) << 48) | ((bytes[pos + 2] as u64) << 40)
        | ((bytes[pos + 3] as u64) << 32) | ((bytes[pos + 4] as u64) << 24) | ((bytes[pos
        + 5] as u64) << 16) | ((bytes[pos + 6] as u64) << 8) | (bytes[pos + 7] as u64)
}

/// Copies `n` bytes starting at `start` into a fresh vector.
fn copy_range(bytes: &[u8], start: usize, n: usize) -> (r: Vec<u8>)
    requires
        start + n <= bytes@.len(),
    ensures
        r@ == bytes@.subrange(start as int, start + n as int),
{
    let total = bytes.len();
    let mut out: Vec<u8> = Vec::new();
    let mut i: usize = 0;
    while i < n
        invariant
            i <= n,
            start + n <= total == bytes@.len(),
            out@ == bytes@.subrange(start as int, start + i as int),
        decreases n - i,
    {
        let b = bytes[start + i];
        out.push(b);
        assert(out@ =~= bytes@.subrange(start as int, start + (i + 1) as int));
        i = i + 1;
    }
    out
}

/// Relies on `String::from_utf8`: it succeeds exactly on well-formed UTF-8
/// input and yields the character sequence the bytes encode.
#[verifier::external_body]
pub(crate) fn string_from_utf8(bytes: Vec<u8>) -> (r: Option<String>)
    ensures
        r is Some <==> vstd::utf8::valid_utf8(bytes@),
        r matches Some(s) ==> s@ == vstd::utf8::decode_utf8(bytes@),
{
    match String::from_utf8(bytes) {
        Ok(s) => Some(s),
        Err(_) => None,
    }
}

/// Reads one self-describing value starting at `pos`, returning the value
/// and the position just past its encoding.  The result is exactly what the
/// wire-format meaning `wire::dec` assigns to the bytes at `pos`: the call
/// fails precisely on input that `dec` rejects (unknown constructor, short
/// read, or ill-formed UTF-8 in a string payload).
pub fn decode_value(bytes: &[u8], pos: usize) -> (r: Result<(Value, usize), AmqpError>)
    requires
        pos <= bytes@.len(),
    ensures
        match r {
            Ok(p) => pos < p.1 <= bytes@.len() && dec(
                bytes@.subrange(pos as int, bytes@.len() as int),
            ) == Some((p.0@, p.1 - pos as int)),
            Err(e) => dec(bytes@.subrange(pos as int, bytes@.len() as int)) is None
                && is_decode_error(e),
        },
    decreases bytes@.len() - pos, 1int,
{
    let len = bytes.len();
    let ghost tail = bytes@.subrange(pos as int, bytes@.len() as int);
    if pos >= len {
        return Err(AmqpError::decode_error("Unexpected end of input"));
    }
    let code = bytes[pos];
    proof {
        assert(tail[0] == code);
        assert(tail.subrange(1, tail.len() as int) =~= bytes@.subrange(
            pos + 1 as int,
            bytes@.len() as int,
        ));
    }
    match decode_value_with_ctor(code, bytes, pos + 1) {
        Ok(p) => Ok(p),
        Err(e) => Err(e),
    }
}


/// Reads a length-prefixed binary payload; `wide` selects the four-byte
/// length form.  Mirrors the binary arms of `wire::dec_ctor`.
fn decode_binary_payload(bytes: &[u8], pos: usize, wide: bool) -> (r: Result<
    (Value, usize),
    AmqpError,
>)
    requires
        pos <= bytes@.len(),
    ensures
        ({
            let code: u8 = if wide { 0xB0u8 } else { 0xA0u8 };
            match r {
                Ok(p) => pos <= p.1 <= bytes@.len() && dec_ctor(
                    code,
                    bytes@.subrange(pos as int, bytes@.len() as int),
                ) == Some((p.0@, p.1 - pos as int)),
                Err(e) => dec_ctor(code, bytes@.subrange(pos as int, bytes@.len() as int))
                    is None && is_decode_error(e),
            }
        }),
{
    let len = bytes.len();
    let ghost b = bytes@.subrange(pos as int, bytes@.len() as int);
    let avail = len - pos;
    if wide {
        if avail < 4 {
            return Err(AmqpError::decode_error("Unexpected end of input"));
        }
        let n32 = read_be32(bytes, pos);
        proof {
            assert(bytes@.subrange(pos as int, pos + 4 as int) =~= b.subrange(0, 4));
            assert(r_u32(b.subrange(0, 4)) == r_u32(b));
        }
        let n = n32 as usize;
        if n > avail - 4 {
            return Err(AmqpError::decode_error("Unexpected end of input"));
        }
        let payload = copy_range(bytes, pos + 4, n);
        proof {
            assert(payload@ =~= b.subrange(4, 4 + n as int));
        }
        Ok((Value::Binary(payload), pos + 4 + n))
    } else {
        if avail < 1 {
            return Err(AmqpError::decode_error("Unexpected end of input"));
        }
        let n = bytes[pos] as usize;
        if n > avail - 1 {
            return Err(AmqpError::decode_error("Unexpected end of input"));
        }
        let payload = copy_range(bytes, pos + 1, n);
        proof {
            assert(payload@ =~= b.subrange(1, 1 + n as int));
        }
        Ok((Value::Binary(payload), pos + 1 + n))
    }
}

/// Reads a length-prefixed UTF-8 string payload; `wide` selects the
/// four-byte length form.  Mirrors the string arms of `wire::dec_ctor`.
fn decode_string_payload(bytes: &[u8], pos: usize, wide: bool) -> (r: Result<
    (Value, usize),
    AmqpError,
>)
    requires
        pos <= bytes@.len(),
    ensures
        ({
            let code: u8 = if wide { 0xB1u8 } else { 0xA1u8 };
            match r {
                Ok(p) => pos <= p.1 <= bytes@.len() && dec_ctor(
                    code,
                    bytes@.subrange(pos as int, bytes@.len() as int),
                ) == Some((p.0@, p.1 - pos as int)),
                Err(e) => dec_ctor(code, bytes@.subrange(pos as int, bytes@.len() as int))
                    is None && is_decode_error(e),
            }
        }),
{
    let len = bytes.len();
    let ghost b = bytes@.subrange(pos as int, bytes@.len() as int);
    let avail = len - pos;
    if wide {
        if avail < 4 {
            return Err(AmqpError::decode_error("Unexpected end of input"));
        }
        let n32 = read_be32(bytes, pos);
        proof {
            assert(bytes@.subrange(pos as int, pos + 4 as int) =~= b.subrange(0, 4));
            assert(r_u32(b.subrange(0, 4)) == r_u32(b));
        }
        let n = n32 as usize;
        if n > avail - 4 {
            return Err(AmqpError::decode_error("Unexpected end of input"));
        }
        let payload = copy_range(bytes, pos + 4, n);
        proof {
            assert(payload@ =~= b.subrange(4, 4 + n as int));
        }
        match string_from_utf8(payload) {
            Some(st) => Ok((Value::String(st), pos + 4 + n)),
            None => Err(AmqpError::decode_error("Invalid UTF-8 in string payload")),
        }
    } else {
        if avail < 1 {
            return Err(AmqpError::decode_error("Unexpected end of input"));
        }
        let n = bytes[pos] as usize;
        if n > avail - 1 {
            return Err(AmqpError::decode_error("Unexpected end of input"));
        }
        let payload = copy_range(bytes, pos + 1, n);
        proof {
            assert(payload@ =~= b.subrange(1, 1 + n as int));
        }
        match string_from_utf8(payload) {
            Some(st) => Ok((Value::String(st), pos + 1 + n)),
            None => Err(AmqpError::decode_error("Invalid UTF-8 in string payload")),
        }
    }
}

/// Reads a length-prefixed symbol payload; `wide` selects the four-byte
/// length form.  Mirrors the symbol arms of `wire::dec_ctor`.
fn decode_symbol_payload(bytes: &[u8], pos: usize, wide: bool) -> (r: Result<
    (Value, usize),
    AmqpError,
>)
    requires
        pos <= bytes@.len(),
    ensures
        ({
            let code: u8 = if wide { 0xB3u8 } else { 0xA3u8 };
            match r {
                Ok(p) => pos <= p.1 <= bytes@.len() && dec_ctor(
                    code,
                    bytes@.subrange(pos as int, bytes@.len() as int),
                ) == Some((p.0@, p.1 - pos as int)),
                Err(e) => dec_ctor(code, bytes@.subrange(pos as int, bytes@.len() as int))
                    is None && is_decode_error(e),
            }
        }),
{
    let len = bytes.len();
    let ghost b = bytes@.subrange(pos as int, bytes@.len() as int);
    let avail = len - pos;
    if wide {
        if avail < 4 {
            return Err(AmqpError::decode_error("Unexpected end of input"));
        }
        let n32 = read_be32(bytes, pos);
        proof {
            assert(bytes@.subrange(pos as int, pos + 4 as int) =~= b.subrange(0, 4));
            assert(r_u32(b.subrange(0, 4)) == r_u32(b));
        }
        let n = n32 as usize;
        if n > avail - 4 {
            return Err(AmqpError::decode_error("Unexpected end of input"));
        }
        let payload = copy_range(bytes, pos + 4, n);
        proof {
            assert(payload@ =~= b.subrange(4, 4 + n as int));
        }
        Ok((Value::Symbol(Symbol::from_vec(payload)), pos + 4 + n))
    } else {
        if avail < 1 {
            return Err(AmqpError::decode_error("Unexpected end of input"));
        }
        let n = bytes[pos] as usize;
        if n > avail - 1 {
            return Err(AmqpError::decode_error("Unexpected end of input"));
        }
        let payload = copy_range(bytes, pos + 1, n);
        proof {
            assert(payload@ =~= b.subrange(1, 1 + n as int));
        }
        Ok((Value::Symbol(Symbol::from_vec(payload)), pos + 1 + n))
    }
}

/// Reads the payload of one value whose constructor byte `code` has already
/// been consumed; `pos` points at the first payload byte.  Mirrors
/// `wire::dec_ctor`.
#[verifier::loop_isolation(false)]
#[verifier::rlimit(100)]
fn decode_value_with_ctor(code: u8, bytes: &[u8], pos: usize) -> (r: Result<
    (Value, usize),
    AmqpError,
>)
    requires
        pos <= bytes@.len(),
    ensures
        match r {
            Ok(p) => pos <= p.1 <= bytes@.len() && dec_ctor(
                code,
                bytes@.subrange(pos as int, bytes@.len() as int),
            ) == Some((p.0@, p.1 - pos as int)),
            Err(e) => dec_ctor(code, bytes@.subrange(pos as int, bytes@.len() as int)) is None
                && is_decode_error(e),
        },
    decreases bytes@.len() - pos, 2int,
{
    let len = bytes.len();
    let ghost b = bytes@.subrange(pos as int, bytes@.len() as int);
    let avail = len - pos;
    match code {
        0x00u8 => {
            let (d, dend) = match decode_value(bytes, pos) {
                Ok(p) => p,
                Err(e) => {
                    return Err(e);
                },
            };
            proof {
                assert(b.subrange(dend - pos as int, b.len() as int) =~= bytes@.subrange(
                    dend as int,
                    bytes@.len() as int,
                ));
            }
            let (v, vend) = match decode_value(bytes, dend) {
                Ok(p) => p,
                Err(e) => {
                    return Err(e);
                },
            };
            Ok((Value::Described(Box::new(d), Box::new(v)), vend))
        },
        0x40u8 => Ok((Value::Null, pos)),
        0x41u8 => Ok((Value::Bool(true), pos)),
        0x42u8 => Ok((Value::Bool(false), pos)),
        0x43u8 => Ok((Value::Uint(0), pos)),
        0x44u8 => Ok((Value::Ulong(0), pos)),
        0x45u8 => {
            let items: Vec<Value> = Vec::new();
            proof {
                lemma_model_of_list(items);
                assert(seq_model(items@) =~= Seq::<ValueModel>::empty());
            }
            Ok((Value::List(items), pos))
        },
        0x56u8 => {
            if avail < 1 {
                return Err(AmqpError::decode_error("Unexpected end of input"));
            }
            let v = bytes[pos];
            Ok((Value::Bool(v == 1), pos + 1))
        },
        0x50u8 => {
            if avail < 1 {
                return Err(AmqpError::decode_error("Unexpected end of input"));
            }
            let v = bytes[pos];
            Ok((Value::Ubyte(v), pos + 1))
        },
        0x51u8 => {
            if avail < 1 {
                return Err(AmqpError::decode_error("Unexpected end of input"));
            }
            let v = bytes[pos];
            Ok((Value::Byte(v as i8), pos + 1))
        },
        0x52u8 => {
            if avail < 1 {
                return Err(AmqpError::decode_error("Unexpected end of input"));
            }
            let v = bytes[pos];
            Ok((Value::Uint(v as u32), pos + 1))
        },
        0x53u8 => {
            if avail < 1 {
                return Err(AmqpError::decode_error("Unexpected end of input"));
            }
            let v = bytes[pos];
            Ok((Value::Ulong(v as u64), pos + 1))
        },
        0x54u8 => {
            if avail < 1 {
                return Err(AmqpError::decode_error("Unexpected end of input"));
            }
            let v = bytes[pos];
            Ok((Value::Int((v as i8) as i32), pos + 1))
        },
        0x55u8 => {
            if avail < 1 {
                return Err(AmqpError::decode_error("Unexpected end of input"));
            }
            let v = bytes[pos];
            Ok((Value::Long((v as i8) as i64), pos + 1))
        },
        0x60u8 => {
            if avail < 2 {
                return Err(AmqpError::decode_error("Unexpected end of input"));
            }
            let v = read_be16(bytes, pos);
            proof {
                assert(bytes@.subrange(pos as int, pos + 2 as int) =~= b.subrange(0, 2));
                assert(r_u16(b.subrange(0, 2)) == r_u16(b));
            }
            Ok((Value::Ushort(v), pos + 2))
        },
        0x61u8 => {
            if avail < 2 {
                return Err(AmqpError::decode_error("Unexpected end of input"));
            }
            let v = read_be16(bytes, pos);
            proof {
                assert(bytes@.subrange(pos as int, pos + 2 as int) =~= b.subrange(0, 2));
                assert(r_u16(b.subrange(0, 2)) == r_u16(b));
            }
            Ok((Value::Short(v as i16), pos + 2))
        },
        0x70u8 => {
            if avail < 4 {
                return Err(AmqpError::decode_error("Unexpected end of input"));
            }
            let v = read_be32(bytes, pos);
            proof {
                assert(bytes@.subrange(pos as int, pos + 4 as int) =~= b.subrange(0, 4));
                assert(r_u32(b.subrange(0, 4)) == r_u32(b));
            }
            Ok((Value::Uint(v), pos + 4))
        },
        0x71u8 => {
            if avail < 4 {
                return Err(AmqpError::decode_error("Unexpected end of input"));
            }
            let v = read_be32(bytes, pos);
            proof {
                assert(bytes@.subrange(pos as int, pos + 4 as int) =~= b.subrange(0, 4));
                assert(r_u32(b.subrange(0, 4)) == r_u32(b));
            }
            Ok((Value::Int(v as i32), pos + 4))
        },
        0x80u8 => {
            if avail < 8 {
                return Err(AmqpError::decode_error("Unexpected end of input"));
            }
            let v = read_be64(bytes, pos);
            proof {
                assert(bytes@.subrange(pos as int, pos + 8 as int) =~= b.subrange(0, 8));
                assert(r_u64(b.subrange(0, 8)) == r_u64(b));
            }
            Ok((Value::Ulong(v), pos + 8))
        },
        0x81u8 => {
            if avail < 8 {
                return Err(AmqpError::decode_error("Unexpected end of input"));
            }
            let v = read_be64(bytes, pos);
            proof {
                assert(bytes@.subrange(pos as int, pos + 8 as int) =~= b.subrange(0, 8));
                assert(r_u64(b.subrange(0, 8)) == r_u64(b));
            }
            Ok((Value::Long(v as i64), pos + 8))
        },
        0xA0u8 => decode_binary_payload(bytes, pos, false),
        0xA1u8 => decode_string_payload(bytes, pos, false),
        0xA3u8 => decode_symbol_payload(bytes, pos, false),
        0xB0u8 => decode_binary_payload(bytes, pos, true),
        0xB1u8 => decode_string_payload(bytes, pos, true),
        0xB3u8 => decode_symbol_payload(bytes, pos, true),
        0xC0u8 => {
            if avail < 2 {
                return Err(AmqpError::decode_error("Unexpected end of input"));
            }
            let count = bytes[pos + 1] as usize;
            match decode_list_elems(bytes, pos + 2, count) {
                Ok(p) => {
                    let (items, end) = p;
                    proof {
                        lemma_model_of_list(items);
                        assert(b.subrange(2, b.len() as int) =~= bytes@.subrange(
                            pos + 2 as int,
                            bytes@.len() as int,
                        ));
                    }
                    Ok((Value::List(items), end))
                },
                Err(e) => {
                    proof {
                        assert(b.subrange(2, b.len() as int) =~= bytes@.subrange(
                            pos + 2 as int,
                            bytes@.len() as int,
                        ));
                    }
                    Err(e)
                },
            }
        },
        0xD0u8 => {
            if avail < 8 {
                return Err(AmqpError::decode_error("Unexpected end of input"));
            }
            let count32 = read_be32(bytes, pos + 4);
            proof {
                assert(bytes@.subrange(pos + 4 as int, pos + 8 as int) =~= b.subrange(4, 8));
            }
            match decode_list_elems(bytes, pos + 8, count32 as usize) {
                Ok(p) => {
                    let (items, end) = p;
                    proof {
                        lemma_model_of_list(items);
                        assert(b.subrange(8, b.len() as int) =~= bytes@.subrange(
                            pos + 8 as int,
                            bytes@.len() as int,
                        ));
                    }
                    Ok((Value::List(items), end))
                },
                Err(e) => {
                    proof {
                        assert(b.subrange(8, b.len() as int) =~= bytes@.subrange(
                            pos + 8 as int,
                            bytes@.len() as int,
                        ));
                    }
                    Err(e)
                },
            }
        },
        0xC1u8 => {
            if avail < 2 {
                return Err(AmqpError::decode_error("Unexpected end of input"));
            }
            let count = (bytes[pos + 1] as usize) / 2;
            match decode_map_entries(bytes, pos + 2, count) {
                Ok(p) => {
                    let (items, end) = p;
                    proof {
                        lemma_model_of_mapping(items);
                        assert(b.subrange(2, b.len() as int) =~= bytes@.subrange(
                            pos + 2 as int,
                            bytes@.len() as int,
                        ));
                    }
                    Ok((Value::Mapping(items), end))
                },
                Err(e) => {
                    proof {
                        assert(b.subrange(2, b.len() as int) =~= bytes@.subrange(
                            pos + 2 as int,
                            bytes@.len() as int,
                        ));
                    }
                    Err(e)
                },
            }
        },
        0xD1u8 => {
            if avail < 8 {
                return Err(AmqpError::decode_error("Unexpected end of input"));
            }
            let count32 = read_be32(bytes, pos + 4);
            proof {
                assert(bytes@.subrange(pos + 4 as int, pos + 8 as int) =~= b.subrange(4, 8));
            }
            match decode_map_entries(bytes, pos + 8, (count32 as usize) / 2) {
                Ok(p) => {
                    let (items, end) = p;
                    proof {
                        lemma_model_of_mapping(items);
                        assert(b.subrange(8, b.len() as int) =~= bytes@.subrange(
                            pos + 8 as int,
                            bytes@.len() as int,
                        ));
                    }
                    Ok((Value::Mapping(items), end))
                },
                Err(e) => {
                    proof {
                        assert(b.subrange(8, b.len() as int) =~= bytes@.subrange(
                            pos + 8 as int,
                            bytes@.len() as int,
                        ));
                    }
                    Err(e)
                },
            }
        },
        0xE0u8 => {
            if avail < 3 {
                return Err(AmqpError::decode_error("Unexpected end of input"));
            }
            let count = bytes[pos + 1] as usize;
            let ecode = bytes[pos + 2];
            match decode_array_elems(bytes, pos + 3, count, ecode) {
                Ok(p) => {
                    let (items, end) = p;
                    proof {
                        lemma_model_of_array(items);
                        assert(b.subrange(3, b.len() as int) =~= bytes@.subrange(
                            pos + 3 as int,
                            bytes@.len() as int,
                        ));
                    }
                    Ok((Value::Array(items), end))
                },
                Err(e) => {
                    proof {
                        assert(b.subrange(3, b.len() as int) =~= bytes@.subrange(
                            pos + 3 as int,
                            bytes@.len() as int,
                        ));
                    }
                    Err(e)
                },
            }
        },
        0xF0u8 => {
            if avail < 9 {
                return Err(AmqpError::decode_error("Unexpected end of input"));
            }
            let count32 = read_be32(bytes, pos + 4);
            let ecode = bytes[pos + 8];
            proof {
                assert(bytes@.subrange(pos + 4 as int, pos + 8 as int) =~= b.subrange(4, 8));
            }
            match decode_array_elems(bytes, pos + 9, count32 as usize, ecode) {
                Ok(p) => {
                    let (items, end) = p;
                    proof {
                        lemma_model_of_array(items);
                        assert(b.subrange(9, b.len() as int) =~= bytes@.subrange(
                            pos + 9 as int,
                            bytes@.len() as int,
                        ));
                    }
                    Ok((Value::Array(items), end))
                },
                Err(e) => {
                    proof {
                        assert(b.subrange(9, b.len() as int) =~= bytes@.subrange(
                            pos + 9 as int,
                            bytes@.len() as int,
                        ));
                    }
                    Err(e)
                },
            }
        },
        _ => Err(AmqpError::decode_error("Unknown type code")),
    }
}


/// Reads `count` consecutive self-describing values starting at `start`,
/// as the body of a list.  Mirrors `wire::dec_n`.
#[verifier::loop_isolation(false)]
#[verifier::rlimit(60)]
fn decode_list_elems(bytes: &[u8], start: usize, count: usize) -> (r: Result<
    (Vec<Value>, usize),
    AmqpError,
>)
    requires
        start <= bytes@.len(),
    ensures
        match r {
            Ok(p) => start <= p.1 <= bytes@.len() && dec_n(
                bytes@.subrange(start as int, bytes@.len() as int),
                count as int,
            ) == Some((seq_model(p.0@), p.1 - start as int)),
            Err(e) => dec_n(bytes@.subrange(start as int, bytes@.len() as int), count as int)
                is None && is_decode_error(e),
        },
    decreases bytes@.len() - start, 3int,
{
    let ghost b0 = bytes@.subrange(start as int, bytes@.len() as int);
    let mut items: Vec<Value> = Vec::new();
    let mut cur = start;
    let mut k: usize = 0;
    proof {
        assert(seq_model(items@) =~= Seq::<ValueModel>::empty());
    }
    while k < count
        invariant
            k <= count,
            start <= cur <= bytes@.len(),
            ({
                let rest = bytes@.subrange(cur as int, bytes@.len() as int);
                match dec_n(rest, count as int - k as int) {
                    Some(p) => dec_n(b0, count as int) == Some(
                        (seq_model(items@) + p.0, cur - start + p.1),
                    ),
                    None => dec_n(b0, count as int) is None,
                }
            }),
        decreases count - k,
    {
        let ghost rest = bytes@.subrange(cur as int, bytes@.len() as int);
        let ghost olditems = items@;
        match decode_value(bytes, cur) {
            Ok(p) => {
                let (v, end) = p;
                proof {
                    assert(rest.subrange(end - cur as int, rest.len() as int) =~= bytes@.subrange(
                        end as int,
                        bytes@.len() as int,
                    ));
                    assert(seq_model(olditems.push(v)) =~= seq_model(olditems) + seq![v@]);
                }
                items.push(v);
                cur = end;
                proof {
                    let newrest = bytes@.subrange(cur as int, bytes@.len() as int);
                    match dec_n(newrest, count as int - k as int - 1) {
                        Some(q) => {
                            assert(seq_model(olditems) + (seq![v@] + q.0) =~= seq_model(items@)
                                + q.0);
                        },
                        None => {},
                    }
                }
            },
            Err(e) => {
                return Err(e);
            },
        }
        k = k + 1;
    }
    proof {
        let rest = bytes@.subrange(cur as int, bytes@.len() as int);
        assert(dec_n(rest, 0) == Some((Seq::<ValueModel>::empty(), 0int)));
        assert(seq_model(items@) + Seq::<ValueModel>::empty() =~= seq_model(items@));
    }
    Ok((items, cur))
}

/// Reads `count` consecutive key/value entries starting at `start`, as the
/// body of a map.  Mirrors `wire::dec_pairs`.
#[verifier::loop_isolation(false)]
#[verifier::rlimit(60)]
fn decode_map_entries(bytes: &[u8], start: usize, count: usize) -> (r: Result<
    (Vec<MapEntry>, usize),
    AmqpError,
>)
    requires
        start <= bytes@.len(),
    ensures
        match r {
            Ok(p) => start <= p.1 <= bytes@.len() && dec_pairs(
                bytes@.subrange(start as int, bytes@.len() as int),
                count as int,
            ) == Some((pair_seq_model(p.0@), p.1 - start as int)),
            Err(e) => dec_pairs(bytes@.subrange(start as int, bytes@.len() as int), count as int)
                is None && is_decode_error(e),
        },
    decreases bytes@.len() - start, 3int,
{
    let ghost b0 = bytes@.subrange(start as int, bytes@.len() as int);
    let mut items: Vec<MapEntry> = Vec::new();
    let mut cur = start;
    let mut k: usize = 0;
    proof {
        assert(pair_seq_model(items@) =~= Seq::<(ValueModel, ValueModel)>::empty());
    }
    while k < count
        invariant
            k <= count,
            start <= cur <= bytes@.len(),
            ({
                let rest = bytes@.subrange(cur as int, bytes@.len() as int);
                match dec_pairs(rest, count as int - k as int) {
                    Some(p) => dec_pairs(b0, count as int) == Some(
                        (pair_seq_model(items@) + p.0, cur - start + p.1),
                    ),
                    None => dec_pairs(b0, count as int) is None,
                }
            }),
        decreases count - k,
    {
        let ghost rest = bytes@.subrange(cur as int, bytes@.len() as int);
        let ghost olditems = items@;
        let (key, kend) = match decode_value(bytes, cur) {
            Ok(p) => p,
            Err(e) => {
                return Err(e);
            },
        };
        proof {
            assert(rest.subrange(kend - cur as int, rest.len() as int) =~= bytes@.subrange(
                kend as int,
                bytes@.len() as int,
            ));
        }
        let (val, vend) = match decode_value(bytes, kend) {
            Ok(p) => p,
            Err(e) => {
                return Err(e);
            },
        };
        proof {
            assert(rest.subrange(vend - cur as int, rest.len() as int) =~= bytes@.subrange(
                vend as int,
                bytes@.len() as int,
            ));
            let entry = MapEntry { key: key, value: val };
            assert(pair_seq_model(olditems.push(entry)) =~= pair_seq_model(olditems) + seq![
                (key@, val@),
            ]);
        }
        items.push(MapEntry { key, value: val });
        cur = vend;
        proof {
            let newrest = bytes@.subrange(cur as int, bytes@.len() as int);
            match dec_pairs(newrest, count as int - k as int - 1) {
                Some(q) => {
                    assert(pair_seq_model(olditems) + (seq![(key@, val@)] + q.0)
                        =~= pair_seq_model(items@) + q.0);
                },
                None => {},
            }
        }
        k = k + 1;
    }
    proof {
        let rest = bytes@.subrange(cur as int, bytes@.len() as int);
        assert(dec_pairs(rest, 0) == Some((Seq::<(ValueModel, ValueModel)>::empty(), 0int)));
        assert(pair_seq_model(items@) + Seq::<(ValueModel, ValueModel)>::empty()
            =~= pair_seq_model(items@));
    }
    Ok((items, cur))
}

/// Reads `count` consecutive array elements starting at `start`, each under
/// the shared constructor byte `ecode`.  Mirrors `wire::dec_elems`.
#[verifier::loop_isolation(false)]
#[verifier::rlimit(60)]
fn decode_array_elems(bytes: &[u8], start: usize, count: usize, ecode: u8) -> (r: Result<
    (Vec<Value>, usize),
    AmqpError,
>)
    requires
        start <= bytes@.len(),
    ensures
        match r {
            Ok(p) => start <= p.1 <= bytes@.len() && dec_elems(
                ecode,
                bytes@.subrange(start as int, bytes@.len() as int),
                count as int,
            ) == Some((seq_model(p.0@), p.1 - start as int)),
            Err(e) => dec_elems(
                ecode,
                bytes@.subrange(start as int, bytes@.len() as int),
                count as int,
            ) is None && is_decode_error(e),
        },
    decreases bytes@.len() - start, 3int,
{
    let ghost b0 = bytes@.subrange(start as int, bytes@.len() as int);
    let mut items: Vec<Value> = Vec::new();
    let mut cur = start;
    let mut k: usize = 0;
    proof {
        assert(seq_model(items@) =~= Seq::<ValueModel>::empty());
    }
    while k < count
        invariant
            k <= count,
            start <= cur <= bytes@.len(),
            ({
                let rest = bytes@.subrange(cur as int, bytes@.len() as int);
                match dec_elems(ecode, rest, count as int - k as int) {
                    Some(p) => dec_elems(ecode, b0, count as int) == Some(
                        (seq_model(items@) + p.0, cur - start + p.1),
                    ),
                    None => dec_elems(ecode, b0, count as int) is None,
                }
            }),
        decreases count - k,
    {
        let ghost rest = bytes@.subrange(cur as int, bytes@.len() as int);
        let ghost olditems = items@;
        match decode_value_with_ctor(ecode, bytes, cur) {
            Ok(p) => {
                let (v, end) = p;
                proof {
                    assert(rest.subrange(end - cur as int, rest.len() as int) =~= bytes@.subrange(
                        end as int,
                        bytes@.len() as int,
                    ));
                    assert(seq_model(olditems.push(v)) =~= seq_model(olditems) + seq![v@]);
                }
                items.push(v);
                cur = end;
                proof {
                    let newrest = bytes@.subrange(cur as int, bytes@.len() as int);
                    match dec_elems(ecode, newrest, count as int - k as int - 1) {
                        Some(q) => {
                            assert(seq_model(olditems) + (seq![v@] + q.0) =~= seq_model(items@)
                                + q.0);
                        },
                        None => {},
                    }
                }
            },
            Err(e) => {
                return Err(e);
            },
        }
        k = k + 1;
    }
    proof {
        let rest = bytes@.subrange(cur as int, bytes@.len() as int);
        assert(dec_elems(ecode, rest, 0) == Some((Seq::<ValueModel>::empty(), 0int)));
        assert(seq_model(items@) + Seq::<ValueModel>::empty() =~= seq_model(items@));
    }
    Ok((items, cur))
}


/// The constructor byte of each type code.
pub open spec fn code_byte(c: TypeCode) -> u8 {
    match c {
        TypeCode::Described => 0x00u8,
        TypeCode::Null => 0x40u8,
        TypeCode::Boolean => 0x56u8,
        TypeCode::Booleantrue => 0x41u8,
        TypeCode::Booleanfalse => 0x42u8,
        TypeCode::Ubyte => 0x50u8,
        TypeCode::Ushort => 0x60u8,
        TypeCode::Uint => 0x70u8,
        TypeCode::Uintsmall => 0x52u8,
        TypeCode::Uint0 => 0x43u8,
        TypeCode::Ulong => 0x80u8,
        TypeCode::Ulongsmall => 0x53u8,
        TypeCode::Ulong0 => 0x44u8,
        TypeCode::Byte => 0x51u8,
        TypeCode::Short => 0x61u8,
        TypeCode::Int => 0x71u8,
        TypeCode::Intsmall => 0x54u8,
        TypeCode::Long => 0x81u8,
        TypeCode::Longsmall => 0x55u8,
        TypeCode::Bin8 => 0xA0u8,
        TypeCode::Bin32 => 0xB0u8,
        TypeCode::Str8 => 0xA1u8,
        TypeCode::Str32 => 0xB1u8,
        TypeCode::Sym8 => 0xA3u8,
        TypeCode::Sym32 => 0xB3u8,
        TypeCode::List0 => 0x45u8,
        TypeCode::List8 => 0xC0u8,
        TypeCode::List32 => 0xD0u8,
        TypeCode::Map8 => 0xC1u8,
        TypeCode::Map32 => 0xD1u8,
        TypeCode::Array8 => 0xE0u8,
        TypeCode::Array32 => 0xF0u8,
    }
}

/// The type code a constructor byte denotes, or nothing for an unknown byte.
pub open spec fn byte_code(code: u8) -> Option<TypeCode> {
    match code {
        0x00u8 => Some(TypeCode::Described),
        0x40u8 => Some(TypeCode::Null),
        0x56u8 => Some(TypeCode::Boolean),
        0x41u8 => Some(TypeCode::Booleantrue),
        0x42u8 => Some(TypeCode::Booleanfalse),
        0x50u8 => Some(TypeCode::Ubyte),
        0x60u8 => Some(TypeCode::Ushort),
        0x70u8 => Some(TypeCode::Uint),
        0x52u8 => Some(TypeCode::Uintsmall),
        0x43u8 => Some(TypeCode::Uint0),
        0x80u8 => Some(TypeCode::Ulong),
        0x53u8 => Some(TypeCode::Ulongsmall),
        0x44u8 => Some(TypeCode::Ulong0),
        0x51u8 => Some(TypeCode::Byte),
        0x61u8 => Some(TypeCode::Short),
        0x71u8 => Some(TypeCode::Int),
        0x54u8 => Some(TypeCode::Intsmall),
        0x81u8 => Some(TypeCode::Long),
        0x55u8 => Some(TypeCode::Longsmall),
        0xA0u8 => Some(TypeCode::Bin8),
        0xA1u8 => Some(TypeCode::Str8),
        0xA3u8 => Some(TypeCode::Sym8),
        0xB0u8 => Some(TypeCode::Bin32),
        0xB1u8 => Some(TypeCode::Str32),
        0xB3u8 => Some(TypeCode::Sym32),
        0x45u8 => Some(TypeCode::List0),
        0xC0u8 => Some(TypeCode::List8),
        0xD0u8 => Some(TypeCode::List32),
        0xC1u8 => Some(TypeCode::Map8),
        0xD1u8 => Some(TypeCode::Map32),
        0xE0u8 => Some(TypeCode::Array8),
        0xF0u8 => Some(TypeCode::Array32),
        _ => None,
    }
}

impl TypeCode {
    /// The constructor byte this type code is written as on the wire.
    pub fn to_byte(&self) -> (r: u8)
        ensures
            r == code_byte(*self),
    {
        match self {
            TypeCode::Described => 0x00u8,
            TypeCode::Null => 0x40u8,
            TypeCode::Boolean => 0x56u8,
            TypeCode::Booleantrue => 0x41u8,
            TypeCode::Booleanfalse => 0x42u8,
            TypeCode::Ubyte => 0x50u8,
            TypeCode::Ushort => 0x60u8,
            TypeCode::Uint => 0x70u8,
            TypeCode::Uintsmall => 0x52u8,
            TypeCode::Uint0 => 0x43u8,
            TypeCode::Ulong => 0x80u8,
            TypeCode::Ulongsmall => 0x53u8,
            TypeCode::Ulong0 => 0x44u8,
            TypeCode::Byte => 0x51u8,
            TypeCode::Short => 0x61u8,
            TypeCode::Int => 0x71u8,
            TypeCode::Intsmall => 0x54u8,
            TypeCode::Long => 0x81u8,
            TypeCode::Longsmall => 0x55u8,
            TypeCode::Bin8 => 0xA0u8,
            TypeCode::Bin32 => 0xB0u8,
            TypeCode::Str8 => 0xA1u8,
            TypeCode::Str32 => 0xB1u8,
            TypeCode::Sym8 => 0xA3u8,
            TypeCode::Sym32 => 0xB3u8,
            TypeCode::List0 => 0x45u8,
            TypeCode::List8 => 0xC0u8,
            TypeCode::List32 => 0xD0u8,
            TypeCode::Map8 => 0xC1u8,
            TypeCode::Map32 => 0xD1u8,
            TypeCode::Array8 => 0xE0u8,
            TypeCode::Array32 => 0xF0u8,
        }
    }
}

/// Looks a constructor byte up in the type-code table, failing on bytes the
/// wire format does not define.
pub fn decode_type(code: u8) -> (r: Result<TypeCode, AmqpError>)
    ensures
        r is Ok <==> byte_code(code) is Some,
        r matches Ok(c) ==> byte_code(code) == Some(c) && code_byte(c) == code,
        r matches Err(e) ==> is_decode_error(e),
{
    match byte_code_lookup(code) {
        Some(c) => Ok(c),
        None => Err(AmqpError::decode_error("Unknown type code")),
    }
}

/// The table lookup shared by `decode_type`.
fn byte_code_lookup(code: u8) -> (r: Option<TypeCode>)
    ensures
        r == byte_code(code),
{
    match code {
        0x00u8 => Some(TypeCode::Described),
        0x40u8 => Some(TypeCode::Null),
        0x56u8 => Some(TypeCode::Boolean),
        0x41u8 => Some(TypeCode::Booleantrue),
        0x42u8 => Some(TypeCode::Booleanfalse),
        0x50u8 => Some(TypeCode::Ubyte),
        0x60u8 => Some(TypeCode::Ushort),
        0x70u8 => Some(TypeCode::Uint),
        0x52u8 => Some(TypeCode::Uintsmall),
        0x43u8 => Some(TypeCode::Uint0),
        0x80u8 => Some(TypeCode::Ulong),
        0x53u8 => Some(TypeCode::Ulongsmall),
        0x44u8 => Some(TypeCode::Ulong0),
        0x51u8 => Some(TypeCode::Byte),
        0x61u8 => Some(TypeCode::Short),
        0x71u8 => Some(TypeCode::Int),
        0x54u8 => Some(TypeCode::Intsmall),
        0x81u8 => Some(TypeCode::Long),
        0x55u8 => Some(TypeCode::Longsmall),
        0xA0u8 => Some(TypeCode::Bin8),
        0xA1u8 => Some(TypeCode::Str8),
        0xA3u8 => Some(TypeCode::Sym8),
        0xB0u8 => Some(TypeCode::Bin32),
        0xB1u8 => Some(TypeCode::Str32),
        0xB3u8 => Some(TypeCode::Sym32),
        0x45u8 => Some(TypeCode::List0),
        0xC0u8 => Some(TypeCode::List8),
        0xD0u8 => Some(TypeCode::List32),
        0xC1u8 => Some(TypeCode::Map8),
        0xD1u8 => Some(TypeCode::Map32),
        0xE0u8 => Some(TypeCode::Array8),
        0xF0u8 => Some(TypeCode::Array32),
        _ => None,
    }
}

} // verus!
