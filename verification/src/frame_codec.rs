//! Helpers for the described-list pattern used by AMQP frames, the
//! conversion family from decoded values to plain types, and the error
//! condition as the worked example of a described composite.
//!
//! `FrameEncoder` accumulates positional arguments and emits exactly the
//! bytes of `Described(descriptor, List(arguments))`; `FrameDecoder` consumes
//! the slots of a decoded list in order.

use vstd::prelude::*;
use vstd::pervasive::unreached;
use crate::error::{AmqpError, is_decode_error};
use crate::types::{
    Value, ValueModel, Symbol, TypeCode, seq_model, has_text, text_of, lemma_model_of_list,
    lemma_model_of_array,
};
use crate::codec::{Encoder, wire_code, push_be16, push_be32, push_be64, push_bytes, push_var, string_from_utf8};
use crate::wire::{
    enc, enc_var, enc_seq, encodable, all_encodable, lemma_all_encodable, lemma_enc_seq_snoc,
    lemma_enc_seq_len, lemma_unencodable_elem, LIST8_MAX, LIST32_MAX,
};

verus! {

impl Value {
    /// The unsigned 32-bit payload of the value, when it carries one.
    pub fn try_to_u32(&self) -> (r: Option<u32>)
        ensures
            r is Some <==> self@ is Uint,
            r matches Some(n) ==> self@ == ValueModel::Uint(n),
    {
        match self {
            Value::Uint(n) => Some(*n),
            _ => None,
        }
    }

    /// The unsigned 16-bit payload of the value, when it carries one.
    pub fn try_to_u16(&self) -> (r: Option<u16>)
        ensures
            r is Some <==> self@ is Ushort,
            r matches Some(n) ==> self@ == ValueModel::Ushort(n),
    {
        match self {
            Value::Ushort(n) => Some(*n),
            _ => None,
        }
    }

    /// The text carried by the value: the payload of a string, or of a
    /// symbol whose bytes are well-formed UTF-8.
    pub fn try_to_string(&self) -> (r: Option<String>)
        ensures
            r is Some <==> has_text(self@),
            r matches Some(s) ==> s@ == text_of(self@),
    {
        match self {
            Value::String(s) => Some(s.clone()),
            Value::Symbol(sym) => string_from_utf8(vstd::slice::slice_to_vec(sym.to_slice())),
            _ => None,
        }
    }

    /// The text carried by a value known to hold text.
    pub fn to_string(&self) -> (r: String)
        requires
            has_text(self@),
        ensures
            r@ == text_of(self@),
    {
        match self.try_to_string() {
            Some(s) => s,
            None => unreached(),
        }
    }
}

/// An encoder for described lists: a descriptor and an accumulator onto
/// which positional arguments are encoded one by one.  Its `Encoder`
/// implementation emits exactly the bytes of encoding
/// `Described(descriptor, List(arguments))`, which is the composition law
/// the frame layer relies on.
pub struct FrameEncoder {
    desc: Value,
    args: Vec<u8>,
    nelems: usize,
    models: Ghost<Seq<ValueModel>>,
}

impl FrameEncoder {
    /// The accumulator invariant: the buffer holds exactly the concatenated
    /// encodings of the arguments taken so far.
    pub closed spec fn wf(&self) -> bool {
        &&& self.args@ == enc_seq(self.models@)
        &&& self.nelems == self.models@.len()
        &&& all_encodable(self.models@)
    }

    /// The descriptor this encoder was started with.
    pub closed spec fn descriptor_model(&self) -> ValueModel {
        self.desc@
    }

    /// The models of the arguments encoded so far, in order.
    pub closed spec fn arg_models(&self) -> Seq<ValueModel> {
        self.models@
    }

    /// Starts a fresh accumulator for a described list with the given
    /// descriptor.
    pub fn new(desc: Value) -> (r: FrameEncoder)
        ensures
            r.wf(),
            r.descriptor_model() == desc@,
            r.arg_models() == Seq::<ValueModel>::empty(),
    {
        FrameEncoder { desc, args: Vec::new(), nelems: 0, models: Ghost(Seq::empty()) }
    }

    /// Encodes one positional argument onto the accumulator.  On failure the
    /// accumulator is unchanged.
    pub fn encode_arg<T: Encoder>(&mut self, arg: &T) -> (r: Result<(), AmqpError>)
        requires
            old(self).wf(),
            arg.enc_wf(),
        ensures
            r is Ok <==> encodable(arg.enc_model()),
            r is Ok ==> final(self).wf() && final(self).arg_models() == old(self).arg_models().push(
                arg.enc_model(),
            ) && final(self).descriptor_model() == old(self).descriptor_model(),
            r is Err ==> *final(self) == *old(self),
            r matches Err(e) ==> is_decode_error(e),
    {
        let mut tmp: Vec<u8> = Vec::new();
        match arg.encode(&mut tmp) {
            Ok(_) => {
                proof {
                    lemma_enc_seq_snoc(self.models@, arg.enc_model());
                    lemma_all_encodable(self.models@);
                    lemma_all_encodable(self.models@.push(arg.enc_model()));
                    lemma_enc_seq_len(self.models@.push(arg.enc_model()));
                }
                self.args.append(&mut tmp);
                let n = self.args.len();
                proof {
                    self.models@ = self.models@.push(arg.enc_model());
                    assert(self.nelems + 1 <= n);
                }
                self.nelems = self.nelems + 1;
                Ok(())
            },
            Err(e) => Err(e),
        }
    }
}

/// Described-list composition: a `FrameEncoder` encodes as the value
/// `Described(descriptor, List(arguments))`, so finalizing it emits exactly
/// the bytes that encoding that value would.
pub proof fn lemma_frame_encoder_model(fe: FrameEncoder)
    ensures
        fe.enc_model() == ValueModel::Described(
            Box::new(fe.descriptor_model()),
            Box::new(ValueModel::List(fe.arg_models())),
        ),
{
}

impl Encoder for FrameEncoder {
    closed spec fn enc_model(&self) -> ValueModel {
        ValueModel::Described(
            Box::new(self.desc@),
            Box::new(ValueModel::List(self.models@)),
        )
    }

    closed spec fn enc_wf(&self) -> bool {
        self.wf()
    }

    /// Writes the described-list envelope: the described constructor, the
    /// descriptor, then the buffered arguments under the list size class
    /// the accumulated length calls for.
    fn encode(&self, buf: &mut Vec<u8>) -> (r: Result<TypeCode, AmqpError>) {
        buf.push(0x00u8);
        match self.desc.encode(buf) {
            Ok(_) => {},
            Err(e) => {
                return Err(e);
            },
        }
        proof {
            lemma_enc_seq_len(self.models@);
            reveal_with_fuel(enc, 3);
            reveal_with_fuel(encodable, 3);
        }
        if self.args.len() > LIST32_MAX {
            return Err(AmqpError::decode_error(
                "Encoded list size cannot be longer than 4294967291 bytes",
            ));
        }
        if self.args.len() > LIST8_MAX {
            buf.push(0xD0u8);
            push_be32(buf, (4 + self.args.len()) as u32);
            push_be32(buf, self.nelems as u32);
            push_bytes(buf, self.args.as_slice());
            assert(buf@ =~= old(buf)@ + enc(self.enc_model()));
        } else if self.args.len() > 0 {
            buf.push(0xC0u8);
            buf.push((1 + self.args.len()) as u8);
            buf.push(self.nelems as u8);
            push_bytes(buf, self.args.as_slice());
            assert(buf@ =~= old(buf)@ + enc(self.enc_model()));
        } else {
            buf.push(0x45u8);
            assert(buf@ =~= old(buf)@ + enc(self.enc_model()));
        }
        Ok(TypeCode::Described)
    }
}

/// The capability of being built from one decoded value: a partial
/// conversion whose domain and meaning each implementation states exactly.
pub trait TryFromValue: Sized {
    /// Holds on the values the conversion accepts.
    spec fn convertible(v: ValueModel) -> bool;

    /// Relates a conversion result to the value it came from.
    spec fn converted_from(&self, v: ValueModel) -> bool;

    /// Converts a decoded value, failing exactly outside `convertible`.
    fn try_from(v: Value) -> (r: Result<Self, AmqpError>)
        ensures
            r is Ok <==> Self::convertible(v@),
            r matches Ok(t) ==> t.converted_from(v@),
            r matches Err(e) ==> is_decode_error(e),
    ;
}

impl TryFromValue for u32 {
    open spec fn convertible(v: ValueModel) -> bool {
        v is Uint
    }

    open spec fn converted_from(&self, v: ValueModel) -> bool {
        v == ValueModel::Uint(*self)
    }

    fn try_from(v: Value) -> (r: Result<Self, AmqpError>) {
        match v {
            Value::Uint(n) => Ok(n),
            _ => Err(AmqpError::decode_error("Error converting value to u32")),
        }
    }
}

impl TryFromValue for u16 {
    open spec fn convertible(v: ValueModel) -> bool {
        v is Ushort
    }

    open spec fn converted_from(&self, v: ValueModel) -> bool {
        v == ValueModel::Ushort(*self)
    }

    fn try_from(v: Value) -> (r: Result<Self, AmqpError>) {
        match v {
            Value::Ushort(n) => Ok(n),
            _ => Err(AmqpError::decode_error("Error converting value to u16")),
        }
    }
}

impl TryFromValue for String {
    open spec fn convertible(v: ValueModel) -> bool {
        v is String
    }

    open spec fn converted_from(&self, v: ValueModel) -> bool {
        v == ValueModel::String(self@)
    }

    fn try_from(v: Value) -> (r: Result<Self, AmqpError>) {
        match v {
            Value::String(s) => Ok(s),
            _ => Err(AmqpError::decode_error("Error converting value to String")),
        }
    }
}

impl TryFromValue for Symbol {
    open spec fn convertible(v: ValueModel) -> bool {
        v is Symbol
    }

    open spec fn converted_from(&self, v: ValueModel) -> bool {
        v == ValueModel::Symbol(self@)
    }

    fn try_from(v: Value) -> (r: Result<Self, AmqpError>) {
        match v {
            Value::Symbol(s) => Ok(s),
            _ => Err(AmqpError::decode_error("Error converting value to Symbol")),
        }
    }
}

impl<T: TryFromValue> TryFromValue for Option<T> {
    open spec fn convertible(v: ValueModel) -> bool {
        v is Null || T::convertible(v)
    }

    open spec fn converted_from(&self, v: ValueModel) -> bool {
        if v is Null {
            *self is None
        } else {
            match self {
                Some(t) => t.converted_from(v),
                None => false,
            }
        }
    }

    fn try_from(v: Value) -> (r: Result<Self, AmqpError>) {
        match v {
            Value::Null => Ok(None),
            other => match T::try_from(other) {
                Ok(t) => Ok(Some(t)),
                Err(e) => Err(e),
            },
        }
    }
}

/// A decoder for described lists: holds the positional arguments of a
/// decoded list and hands them out strictly in order.
#[derive(Debug)]
pub struct FrameDecoder {
    desc: Value,
    args: Vec<Value>,
}

impl FrameDecoder {
    /// The models of the arguments not yet consumed, head first.
    pub closed spec fn remaining(&self) -> Seq<ValueModel> {
        seq_model(self.args@)
    }

    /// The descriptor this decoder was started with.
    pub closed spec fn descriptor_model(&self) -> ValueModel {
        self.desc@
    }

    /// Starts consuming the arguments of a decoded list.  Anything but a
    /// list is rejected; the descriptor is recorded but not checked, as
    /// descriptor dispatch is the caller's job.
    pub fn new(desc: Value, input: Value) -> (r: Result<FrameDecoder, AmqpError>)
        ensures
            r is Ok <==> input@ is List,
            r matches Ok(fd) ==> input@ == ValueModel::List(fd.remaining()) && fd.descriptor_model()
                == desc@,
            r matches Err(e) ==> is_decode_error(e),
    {
        match input {
            Value::List(args) => {
                proof {
                    lemma_model_of_list(args);
                }
                Ok(FrameDecoder { desc, args })
            },
            _ => Err(AmqpError::decode_error("Error decoding frame arguments")),
        }
    }

    /// Consumes the next slot and converts it; an exhausted list is an
    /// error.
    pub fn decode_required<T: TryFromValue>(&mut self, value: &mut T) -> (r: Result<
        (),
        AmqpError,
    >)
        ensures
            old(self).remaining().len() == 0 ==> r is Err,
            old(self).remaining().len() == 0 ==> *final(self) == *old(self) && *final(value)
                == *old(value),
            old(self).remaining().len() > 0 ==> final(self).remaining()
                == old(self).remaining().drop_first(),
            old(self).remaining().len() > 0 ==> final(self).descriptor_model()
                == old(self).descriptor_model(),
            old(self).remaining().len() > 0 ==> (r is Ok <==> T::convertible(
                old(self).remaining()[0],
            )),
            old(self).remaining().len() > 0 && r is Ok ==> final(value).converted_from(
                old(self).remaining()[0],
            ),
            old(self).remaining().len() > 0 && r is Err ==> *final(value) == *old(value),
            r matches Err(e) ==> is_decode_error(e),
    {
        self.decode(value, true)
    }

    /// Consumes the next slot and converts it; an exhausted list is silently
    /// accepted, leaving `value` unchanged.
    pub fn decode_optional<T: TryFromValue>(&mut self, value: &mut T) -> (r: Result<
        (),
        AmqpError,
    >)
        ensures
            old(self).remaining().len() == 0 ==> r is Ok,
            old(self).remaining().len() == 0 ==> *final(self) == *old(self) && *final(value)
                == *old(value),
            old(self).remaining().len() > 0 ==> final(self).remaining()
                == old(self).remaining().drop_first(),
            old(self).remaining().len() > 0 ==> final(self).descriptor_model()
                == old(self).descriptor_model(),
            old(self).remaining().len() > 0 ==> (r is Ok <==> T::convertible(
                old(self).remaining()[0],
            )),
            old(self).remaining().len() > 0 && r is Ok ==> final(value).converted_from(
                old(self).remaining()[0],
            ),
            old(self).remaining().len() > 0 && r is Err ==> *final(value) == *old(value),
            r matches Err(e) ==> is_decode_error(e),
    {
        self.decode(value, false)
    }

    /// The shared slot consumer: takes the head of the list and converts it;
    /// on an exhausted list fails when the slot is required and is a no-op
    /// otherwise.
    pub fn decode<T: TryFromValue>(&mut self, value: &mut T, required: bool) -> (r: Result<
        (),
        AmqpError,
    >)
        ensures
            old(self).remaining().len() == 0 ==> (r is Ok <==> !required),
            old(self).remaining().len() == 0 ==> *final(self) == *old(self) && *final(value)
                == *old(value),
            old(self).remaining().len() > 0 ==> final(self).remaining()
                == old(self).remaining().drop_first(),
            old(self).remaining().len() > 0 ==> final(self).descriptor_model()
                == old(self).descriptor_model(),
            old(self).remaining().len() > 0 ==> (r is Ok <==> T::convertible(
                old(self).remaining()[0],
            )),
            old(self).remaining().len() > 0 && r is Ok ==> final(value).converted_from(
                old(self).remaining()[0],
            ),
            old(self).remaining().len() > 0 && r is Err ==> *final(value) == *old(value),
            r matches Err(e) ==> is_decode_error(e),
    {
        if self.args.len() == 0 {
            if required {
                return Err(AmqpError::decode_error("Unexpected end of list"));
            } else {
                return Ok(());
            }
        }
        let ghost oldargs = self.args@;
        let arg = self.args.remove(0);
        proof {
            assert(seq_model(self.args@) =~= seq_model(oldargs).drop_first());
        }
        match T::try_from(arg) {
            Ok(t) => {
                *value = t;
                Ok(())
            },
            Err(e) => Err(e),
        }
    }
}

/// The described error type of the protocol: a condition name and a
/// description, carried on the wire as descriptor `Ulong(0x1D)` over a list
/// whose first two slots are the condition and the description.
#[derive(Debug, PartialEq)]
pub struct ErrorCondition {
    pub condition: String,
    pub description: String,
}

/// The body slots of an error-condition described list are text when
/// present: a string, or a symbol holding well-formed UTF-8.
pub open spec fn error_condition_convertible(v: ValueModel) -> bool {
    match v {
        ValueModel::Described(d, body) => {
            &&& *d == ValueModel::Ulong(0x1D)
            &&& match *body {
                ValueModel::List(vs) => {
                    &&& (vs.len() >= 1 ==> has_text(vs[0]))
                    &&& (vs.len() >= 2 ==> has_text(vs[1]))
                },
                _ => false,
            }
        },
        _ => false,
    }
}

/// Relates an `ErrorCondition` to the described list it was read from:
/// missing slots read as empty text.
pub open spec fn error_condition_from(ec: ErrorCondition, v: ValueModel) -> bool {
    match v {
        ValueModel::Described(_, body) => match *body {
            ValueModel::List(vs) => {
                &&& ec.condition@ == if vs.len() >= 1 {
                    text_of(vs[0])
                } else {
                    Seq::<char>::empty()
                }
                &&& ec.description@ == if vs.len() >= 2 {
                    text_of(vs[1])
                } else {
                    Seq::<char>::empty()
                }
            },
            _ => false,
        },
        _ => false,
    }
}

impl TryFromValue for ErrorCondition {
    open spec fn convertible(v: ValueModel) -> bool {
        error_condition_convertible(v)
    }

    open spec fn converted_from(&self, v: ValueModel) -> bool {
        error_condition_from(*self, v)
    }

    fn try_from(v: Value) -> (r: Result<Self, AmqpError>) {
        match v {
            Value::Described(descriptor, body) => {
                let ghost dm = descriptor@;
                let ghost bm = body@;
                proof {
                    assert(v@ == ValueModel::Described(Box::new(dm), Box::new(bm)));
                }
                let code_ok = match &*descriptor {
                    Value::Ulong(code) => *code == 0x1D,
                    _ => false,
                };
                proof {
                    assert(code_ok == (dm == ValueModel::Ulong(0x1D)));
                }
                if !code_ok {
                    return Err(AmqpError::decode_error("Expected error descriptor"));
                }
                match *body {
                    Value::List(args) => {
                        proof {
                            lemma_model_of_list(args);
                            assert(bm == ValueModel::List(seq_model(args@)));
                        }
                        let mut condition = String::new();
                        let mut description = String::new();
                        if args.len() >= 1 {
                            match args[0].try_to_string() {
                                Some(s) => {
                                    condition = s;
                                },
                                None => {
                                    return Err(AmqpError::decode_error(
                                        "Expected text for error condition",
                                    ));
                                },
                            }
                        }
                        if args.len() >= 2 {
                            match args[1].try_to_string() {
                                Some(s) => {
                                    description = s;
                                },
                                None => {
                                    return Err(AmqpError::decode_error(
                                        "Expected text for error description",
                                    ));
                                },
                            }
                        }
                        Ok(ErrorCondition { condition, description })
                    },
                    _ => Err(AmqpError::decode_error(
                        "Expected list with condition and description",
                    )),
                }
            },
            _ => Err(AmqpError::decode_error("Missing expected error descriptor")),
        }
    }
}


impl Encoder for bool {
    open spec fn enc_model(&self) -> ValueModel {
        ValueModel::Bool(*self)
    }

    open spec fn enc_wf(&self) -> bool {
        true
    }

    /// Writes the compact one-byte boolean form.
    fn encode(&self, buf: &mut Vec<u8>) -> (r: Result<TypeCode, AmqpError>) {
        if *self {
            buf.push(0x41u8);
            assert(buf@ =~= old(buf)@ + enc(self.enc_model()));
            Ok(TypeCode::Booleantrue)
        } else {
            buf.push(0x42u8);
            assert(buf@ =~= old(buf)@ + enc(self.enc_model()));
            Ok(TypeCode::Booleanfalse)
        }
    }
}

impl Encoder for u16 {
    open spec fn enc_model(&self) -> ValueModel {
        ValueModel::Ushort(*self)
    }

    open spec fn enc_wf(&self) -> bool {
        true
    }

    /// Writes the two-byte big-endian unsigned short form.
    fn encode(&self, buf: &mut Vec<u8>) -> (r: Result<TypeCode, AmqpError>) {
        buf.push(0x60u8);
        push_be16(buf, *self);
        assert(buf@ =~= old(buf)@ + enc(self.enc_model()));
        Ok(TypeCode::Ushort)
    }
}

impl Encoder for u32 {
    open spec fn enc_model(&self) -> ValueModel {
        ValueModel::Uint(*self)
    }

    open spec fn enc_wf(&self) -> bool {
        true
    }

    /// Writes the smallest legal unsigned-int form.
    fn encode(&self, buf: &mut Vec<u8>) -> (r: Result<TypeCode, AmqpError>) {
        if *self == 0 {
            buf.push(0x43u8);
            assert(buf@ =~= old(buf)@ + enc(self.enc_model()));
            Ok(TypeCode::Uint0)
        } else if *self <= 255 {
            buf.push(0x52u8);
            buf.push(*self as u8);
            assert(buf@ =~= old(buf)@ + enc(self.enc_model()));
            Ok(TypeCode::Uintsmall)
        } else {
            buf.push(0x70u8);
            push_be32(buf, *self);
            assert(buf@ =~= old(buf)@ + enc(self.enc_model()));
            Ok(TypeCode::Uint)
        }
    }
}

impl Encoder for u64 {
    open spec fn enc_model(&self) -> ValueModel {
        ValueModel::Ulong(*self)
    }

    open spec fn enc_wf(&self) -> bool {
        true
    }

    /// Writes the smallest legal unsigned-long form.
    fn encode(&self, buf: &mut Vec<u8>) -> (r: Result<TypeCode, AmqpError>) {
        if *self == 0 {
            buf.push(0x44u8);
            assert(buf@ =~= old(buf)@ + enc(self.enc_model()));
            Ok(TypeCode::Ulong0)
        } else if *self <= 255 {
            buf.push(0x53u8);
            buf.push(*self as u8);
            assert(buf@ =~= old(buf)@ + enc(self.enc_model()));
            Ok(TypeCode::Ulongsmall)
        } else {
            buf.push(0x80u8);
            push_be64(buf, *self);
            assert(buf@ =~= old(buf)@ + enc(self.enc_model()));
            Ok(TypeCode::Ulong)
        }
    }
}

impl Encoder for String {
    open spec fn enc_model(&self) -> ValueModel {
        ValueModel::String(self@)
    }

    open spec fn enc_wf(&self) -> bool {
        true
    }

    /// Writes the string under the narrow or wide length form, whichever
    /// the UTF-8 payload calls for.
    fn encode(&self, buf: &mut Vec<u8>) -> (r: Result<TypeCode, AmqpError>) {
        match push_var(buf, 0xA1u8, 0xB1u8, self.as_str().as_bytes()) {
            Ok(wide) => {
                assert(buf@ =~= old(buf)@ + enc(self.enc_model()));
                if wide {
                    Ok(TypeCode::Str32)
                } else {
                    Ok(TypeCode::Str8)
                }
            },
            Err(e) => Err(e),
        }
    }
}

impl Encoder for Symbol {
    open spec fn enc_model(&self) -> ValueModel {
        ValueModel::Symbol(self@)
    }

    open spec fn enc_wf(&self) -> bool {
        true
    }

    /// Writes the symbol under the narrow or wide length form.
    fn encode(&self, buf: &mut Vec<u8>) -> (r: Result<TypeCode, AmqpError>) {
        match push_var(buf, 0xA3u8, 0xB3u8, self.to_slice()) {
            Ok(wide) => {
                assert(buf@ =~= old(buf)@ + enc(self.enc_model()));
                if wide {
                    Ok(TypeCode::Sym32)
                } else {
                    Ok(TypeCode::Sym8)
                }
            },
            Err(e) => Err(e),
        }
    }
}

impl Encoder for Vec<u8> {
    open spec fn enc_model(&self) -> ValueModel {
        ValueModel::Binary(self@)
    }

    open spec fn enc_wf(&self) -> bool {
        true
    }

    /// Writes the bytes as a binary value under the narrow or wide length
    /// form.
    fn encode(&self, buf: &mut Vec<u8>) -> (r: Result<TypeCode, AmqpError>) {
        match push_var(buf, 0xA0u8, 0xB0u8, self.as_slice()) {
            Ok(wide) => {
                assert(buf@ =~= old(buf)@ + enc(self.enc_model()));
                if wide {
                    Ok(TypeCode::Bin32)
                } else {
                    Ok(TypeCode::Bin8)
                }
            },
            Err(e) => Err(e),
        }
    }
}

impl<T: Encoder> Encoder for Option<T> {
    open spec fn enc_model(&self) -> ValueModel {
        match self {
            Some(t) => t.enc_model(),
            None => ValueModel::Null,
        }
    }

    open spec fn enc_wf(&self) -> bool {
        match self {
            Some(t) => t.enc_wf(),
            None => true,
        }
    }

    /// Writes the inner value, or `Null` for an absent one.
    fn encode(&self, buf: &mut Vec<u8>) -> (r: Result<TypeCode, AmqpError>) {
        match self {
            Some(t) => t.encode(buf),
            None => {
                buf.push(0x40u8);
                assert(buf@ =~= old(buf)@ + enc(self.enc_model()));
                Ok(TypeCode::Null)
            },
        }
    }
}

impl Encoder for ErrorCondition {
    open spec fn enc_model(&self) -> ValueModel {
        ValueModel::Described(
            Box::new(ValueModel::Ulong(0x1D)),
            Box::new(
                ValueModel::List(
                    seq![
                        ValueModel::String(self.condition@),
                        ValueModel::String(self.description@),
                    ],
                ),
            ),
        )
    }

    open spec fn enc_wf(&self) -> bool {
        true
    }

    /// Writes the error as a described list under descriptor `Ulong(0x1D)`,
    /// with the condition and the description as its two slots.
    fn encode(&self, buf: &mut Vec<u8>) -> (r: Result<TypeCode, AmqpError>) {
        let ghost slots = seq![
            ValueModel::String(self.condition@),
            ValueModel::String(self.description@),
        ];
        let mut framer = FrameEncoder::new(Value::Ulong(0x1D));
        match framer.encode_arg(&self.condition) {
            Ok(_) => {},
            Err(e) => {
                proof {
                    lemma_unencodable_elem(slots, 0);
                }
                return Err(e);
            },
        }
        match framer.encode_arg(&self.description) {
            Ok(_) => {},
            Err(e) => {
                proof {
                    lemma_unencodable_elem(slots, 1);
                }
                return Err(e);
            },
        }
        proof {
            assert(framer.arg_models() =~= slots);
            lemma_frame_encoder_model(framer);
        }
        framer.encode(buf)
    }
}


/// The array model of a sequence of symbols.
pub open spec fn symbol_array_model(syms: Seq<Symbol>) -> ValueModel {
    ValueModel::Array(Seq::new(syms.len(), |i: int| ValueModel::Symbol(syms[i]@)))
}

/// The array model of a sequence of strings.
pub open spec fn string_array_model(strs: Seq<String>) -> ValueModel {
    ValueModel::Array(Seq::new(strs.len(), |i: int| ValueModel::String(strs[i]@)))
}

impl Encoder for Vec<Symbol> {
    open spec fn enc_model(&self) -> ValueModel {
        symbol_array_model(self@)
    }

    open spec fn enc_wf(&self) -> bool {
        true
    }

    /// Writes the symbols as one array value.
    #[verifier::loop_isolation(false)]
    fn encode(&self, buf: &mut Vec<u8>) -> (r: Result<TypeCode, AmqpError>) {
        let mut values: Vec<Value> = Vec::new();
        let mut i: usize = 0;
        while i < self.len()
            invariant
                i <= self@.len(),
                values@.len() == i,
                forall|j: int|
                    0 <= j < i ==> crate::types::value_model(#[trigger] values@[j])
                        == ValueModel::Symbol(self@[j]@),
            decreases self@.len() - i,
        {
            values.push(Value::Symbol(Symbol::from_slice(self[i].to_slice())));
            i = i + 1;
        }
        proof {
            lemma_model_of_array(values);
            assert(seq_model(values@) =~= Seq::new(
                self@.len(),
                |j: int| ValueModel::Symbol(self@[j]@),
            ));
        }
        Value::Array(values).encode(buf)
    }
}

impl Encoder for Vec<String> {
    open spec fn enc_model(&self) -> ValueModel {
        string_array_model(self@)
    }

    open spec fn enc_wf(&self) -> bool {
        true
    }

    /// Writes the strings as one array value.
    #[verifier::loop_isolation(false)]
    fn encode(&self, buf: &mut Vec<u8>) -> (r: Result<TypeCode, AmqpError>) {
        let mut values: Vec<Value> = Vec::new();
        let mut i: usize = 0;
        while i < self.len()
            invariant
                i <= self@.len(),
                values@.len() == i,
                forall|j: int|
                    0 <= j < i ==> crate::types::value_model(#[trigger] values@[j])
                        == ValueModel::String(self@[j]@),
            decreases self@.len() - i,
        {
            values.push(Value::String(self[i].clone()));
            i = i + 1;
        }
        proof {
            lemma_model_of_array(values);
            assert(seq_model(values@) =~= Seq::new(
                self@.len(),
                |j: int| ValueModel::String(self@[j]@),
            ));
        }
        Value::Array(values).encode(buf)
    }
}

/// Holds when every element of the sequence is a symbol value.
pub open spec fn all_symbols(es: Seq<ValueModel>) -> bool {
    forall|i: int| 0 <= i < es.len() ==> (#[trigger] es[i]) is Symbol
}

impl TryFromValue for Vec<Symbol> {
    open spec fn convertible(v: ValueModel) -> bool {
        match v {
            ValueModel::Array(es) => all_symbols(es),
            _ => false,
        }
    }

    open spec fn converted_from(&self, v: ValueModel) -> bool {
        match v {
            ValueModel::Array(es) => self@.len() == es.len() && (forall|i: int|
                0 <= i < es.len() ==> ValueModel::Symbol(self@[i]@) == #[trigger] es[i]),
            _ => false,
        }
    }

    /// Converts an array whose elements are all symbols; any other element
    /// fails the whole conversion.
    #[verifier::loop_isolation(false)]
    fn try_from(v: Value) -> (r: Result<Self, AmqpError>) {
        match v {
            Value::Array(arr) => {
                proof {
                    lemma_model_of_array(arr);
                }
                let ghost models = seq_model(arr@);
                let mut es = arr;
                let mut syms: Vec<Symbol> = Vec::new();
                while es.len() > 0
                    invariant
                        syms@.len() + es@.len() == models.len(),
                        forall|j: int|
                            0 <= j < syms@.len() ==> (#[trigger] models[j]) is Symbol
                                && ValueModel::Symbol(syms@[j]@) == models[j],
                        forall|j: int|
                            0 <= j < es@.len() ==> crate::types::value_model(#[trigger] es@[j])
                                == models[j + syms@.len()],
                    decreases es@.len(),
                {
                    let ghost done = syms@.len() as int;
                    let ghost olde = es@;
                    let x = es.remove(0);
                    proof {
                        assert(x == olde[0]);
                        assert(crate::types::value_model(olde[0]) == models[0 + done]);
                        assert(es@ =~= olde.drop_first());
                        assert forall|j: int|
                            0 <= j < es@.len() implies crate::types::value_model(
                            #[trigger] es@[j],
                        ) == models[j + (done + 1)] by {
                            assert(es@[j] == olde[j + 1]);
                            assert(crate::types::value_model(olde[j + 1]) == models[(j + 1)
                                + done]);
                        }
                    }
                    match x {
                        Value::Symbol(s) => {
                            syms.push(s);
                        },
                        _ => {
                            proof {
                                assert(!(models[done] is Symbol));
                                if all_symbols(models) {
                                    assert(models[done] is Symbol);
                                }
                                assert(!all_symbols(models));
                            }
                            return Err(AmqpError::decode_error("Error decoding some elements"));
                        },
                    }
                }
                Ok(syms)
            },
            _ => Err(AmqpError::decode_error("Error converting value to Vec<Symbol>")),
        }
    }
}

} // verus!
