//! The wire format of envelopes: the message's fields in declaration order
//! (id as 16 bytes, sender and recipient as u32, priority as u8, the kind's
//! tag byte and body, the timestamp as u64), then the payload's kind byte,
//! its length as u64 and its bytes. Integers are little-endian; strings and
//! byte strings are a u64 length followed by their (UTF-8) bytes; sequences
//! are a u64 count followed by their elements.

use vstd::bytes::*;
use vstd::prelude::*;
use vstd::slice::{slice_subrange, slice_to_vec};
use vstd::utf8::{decode_utf8, encode_utf8, valid_utf8};

use crate::message::{Message, MessageEnvelope, MessageId, MessagePayload, MessageType, Priority};
use crate::object::ObjectId;
use crate::parameter::{ParameterType, ParameterValue};

verus! {

pub open spec fn enc_u32(x: u32) -> Seq<u8> {
    spec_u32_to_le_bytes(x)
}

pub open spec fn enc_i32(x: i32) -> Seq<u8> {
    spec_u32_to_le_bytes(x as u32)
}

pub open spec fn enc_u64(x: u64) -> Seq<u8> {
    spec_u64_to_le_bytes(x)
}

pub open spec fn enc_u128(x: u128) -> Seq<u8> {
    spec_u128_to_le_bytes(x)
}

pub open spec fn enc_bytes(b: Seq<u8>) -> Seq<u8> {
    enc_u64(b.len() as u64) + b
}

pub open spec fn enc_str(s: Seq<char>) -> Seq<u8> {
    enc_bytes(encode_utf8(s))
}

/// The elements' encodings, one after the other.
pub open spec fn enc_items<T>(s: Seq<T>, f: spec_fn(T) -> Seq<u8>) -> Seq<u8>
    decreases s.len(),
{
    if s.len() == 0 {
        Seq::empty()
    } else {
        enc_items(s.drop_last(), f) + f(s.last())
    }
}

pub open spec fn u32_item() -> spec_fn(u32) -> Seq<u8> {
    |x: u32| enc_u32(x)
}

pub open spec fn i32_item() -> spec_fn(i32) -> Seq<u8> {
    |x: i32| enc_i32(x)
}

pub open spec fn str_item() -> spec_fn(String) -> Seq<u8> {
    |x: String| enc_str(x@)
}

pub open spec fn id_item() -> spec_fn(ObjectId) -> Seq<u8> {
    |x: ObjectId| enc_u128(x.0)
}

pub open spec fn enc_u32_items(s: Seq<u32>) -> Seq<u8> {
    enc_items(s, u32_item())
}

pub open spec fn enc_i32_items(s: Seq<i32>) -> Seq<u8> {
    enc_items(s, i32_item())
}

pub open spec fn enc_str_items(s: Seq<String>) -> Seq<u8> {
    enc_items(s, str_item())
}

pub open spec fn enc_id_items(s: Seq<ObjectId>) -> Seq<u8> {
    enc_items(s, id_item())
}

proof fn lemma_items_prefix<T>(s: Seq<T>, f: spec_fn(T) -> Seq<u8>, k: int)
    requires
        0 <= k <= s.len(),
    ensures
        enc_items(s.take(k), f).len() <= enc_items(s, f).len(),
        enc_items(s, f).subrange(0, enc_items(s.take(k), f).len() as int) == enc_items(s.take(k), f),
    decreases s.len(),
{
    if k == s.len() {
        assert(s.take(k) =~= s);
        assert(enc_items(s, f).subrange(0, enc_items(s, f).len() as int) =~= enc_items(s, f));
    } else {
        lemma_items_prefix(s.drop_last(), f, k);
        assert(s.drop_last().take(k) =~= s.take(k));
        let whole = enc_items(s, f);
        let front = enc_items(s.drop_last(), f);
        let m = enc_items(s.take(k), f).len() as int;
        assert(whole == front + f(s.last()));
        assert(whole.subrange(0, m) =~= front.subrange(0, m));
    }
}

proof fn lemma_items_step<T>(s: Seq<T>, f: spec_fn(T) -> Seq<u8>, i: int)
    requires
        0 <= i < s.len(),
    ensures
        enc_items(s.take(i + 1), f) == enc_items(s.take(i), f) + f(s[i]),
{
    assert(s.take(i + 1).drop_last() =~= s.take(i));
}

proof fn lemma_holds_prefix(buf: Seq<u8>, a: int, x: Seq<u8>, y: Seq<u8>)
    requires
        holds_at(buf, a, x),
        y.len() <= x.len(),
        x.subrange(0, y.len() as int) == y,
    ensures
        holds_at(buf, a, y),
{
    assert(buf.subrange(a, a + y.len()) =~= buf.subrange(a, a + x.len()).subrange(0, y.len() as int));
}

pub open spec fn enc_opt_i32(o: Option<i32>) -> Seq<u8> {
    match o {
        None => seq![0u8],
        Some(x) => seq![1u8] + enc_i32(x),
    }
}

pub open spec fn enc_opt_u32(o: Option<u32>) -> Seq<u8> {
    match o {
        None => seq![0u8],
        Some(x) => seq![1u8] + enc_u32(x),
    }
}

pub open spec fn enc_value(v: ParameterValue) -> Seq<u8> {
    match v {
        ParameterValue::Int(x) => seq![0u8] + enc_i32(x),
        ParameterValue::Float(x) => seq![1u8] + enc_u32(x),
        ParameterValue::String(s) => seq![2u8] + enc_str(s@),
        ParameterValue::Bool(b) => seq![3u8, if b { 1u8 } else { 0u8 }],
        ParameterValue::VecInt(xs) => seq![4u8] + enc_u64(xs@.len() as u64) + enc_i32_items(xs@),
        ParameterValue::VecFloat(xs) => seq![5u8] + enc_u64(xs@.len() as u64) + enc_u32_items(xs@),
        ParameterValue::VecString(xs) => seq![6u8] + enc_u64(xs@.len() as u64) + enc_str_items(xs@),
    }
}

pub open spec fn enc_type(t: ParameterType) -> Seq<u8> {
    match t {
        ParameterType::Int { min, max } => seq![0u8] + enc_opt_i32(min) + enc_opt_i32(max),
        ParameterType::Float { min, max } => seq![1u8] + enc_opt_u32(min) + enc_opt_u32(max),
        ParameterType::String => seq![2u8],
        ParameterType::Bool => seq![3u8],
        ParameterType::VectorInt { min, max } => seq![4u8] + enc_opt_i32(min) + enc_opt_i32(max),
        ParameterType::VectorFloat { min, max } => seq![5u8] + enc_opt_u32(min) + enc_opt_u32(max),
        ParameterType::VectorString => seq![6u8],
    }
}

pub open spec fn enc_kind(k: MessageType) -> Seq<u8> {
    match k {
        MessageType::Execute { module_id, timestep } => seq![0u8] + enc_u32(module_id) + enc_i32(timestep),
        MessageType::CancelExecute { module_id } => seq![1u8] + enc_u32(module_id),
        MessageType::Quit => seq![2u8],
        MessageType::AddObject { object_id, port_name } => seq![3u8] + enc_u128(object_id.0) + enc_str(port_name@),
        MessageType::RemoveObject { object_id } => seq![4u8] + enc_u128(object_id.0),
        MessageType::SetParameter { module_id, param_name, value } =>
            seq![5u8] + enc_u32(module_id) + enc_str(param_name@) + enc_value(value),
        MessageType::AddParameter { module_id, param_name, param_type } =>
            seq![6u8] + enc_u32(module_id) + enc_str(param_name@) + enc_type(param_type),
        MessageType::ConnectPorts { from_module, from_port, to_module, to_port } =>
            seq![7u8] + enc_u32(from_module) + enc_str(from_port@) + enc_u32(to_module) + enc_str(to_port@),
        MessageType::DisconnectPorts { from_module, from_port, to_module, to_port } =>
            seq![8u8] + enc_u32(from_module) + enc_str(from_port@) + enc_u32(to_module) + enc_str(to_port@),
        MessageType::ModuleReady { module_id } => seq![9u8] + enc_u32(module_id),
        MessageType::ComputationComplete { module_id, objects_created } =>
            seq![10u8] + enc_u32(module_id) + enc_u64(objects_created@.len() as u64) + enc_id_items(objects_created@),
        MessageType::Error { module_id, message } => seq![11u8] + enc_u32(module_id) + enc_str(message@),
        MessageType::Custom { type_id, data } => seq![12u8] + enc_u32(type_id) + enc_bytes(data@),
    }
}

pub open spec fn priority_code(p: Priority) -> u8 {
    match p {
        Priority::Low => 0,
        Priority::Normal => 1,
        Priority::High => 2,
        Priority::Critical => 3,
    }
}

pub open spec fn enc_message(m: Message) -> Seq<u8> {
    enc_u128(m.id.0) + enc_u32(m.sender) + enc_u32(m.recipient) + seq![priority_code(m.priority)]
        + enc_kind(m.message_type) + enc_u64(m.timestamp_ns)
}

pub open spec fn enc_payload(p: MessagePayload) -> Seq<u8> {
    match p {
        MessagePayload::Empty => seq![0u8] + enc_bytes(Seq::empty()),
        MessagePayload::ObjectData(b) => seq![1u8] + enc_bytes(b@),
        MessagePayload::ParameterData(b) => seq![2u8] + enc_bytes(b@),
        MessagePayload::Custom(b) => seq![3u8] + enc_bytes(b@),
    }
}

/// The bytes of an envelope on the wire.
pub open spec fn enc_envelope(e: MessageEnvelope) -> Seq<u8> {
    enc_message(e.message) + enc_payload(e.payload)
}

// ---- writing ----

fn put_u8(out: &mut Vec<u8>, x: u8)
    ensures
        final(out)@ == old(out)@ + seq![x],
{
    out.push(x);
    assert(out@ =~= old(out)@ + seq![x]);
}

fn put_u32(out: &mut Vec<u8>, x: u32)
    ensures
        final(out)@ == old(out)@ + enc_u32(x),
{
    let mut b = u32_to_le_bytes(x);
    out.append(&mut b);
}

fn put_i32(out: &mut Vec<u8>, x: i32)
    ensures
        final(out)@ == old(out)@ + enc_i32(x),
{
    put_u32(out, x as u32);
}

fn put_u64(out: &mut Vec<u8>, x: u64)
    ensures
        final(out)@ == old(out)@ + enc_u64(x),
{
    let mut b = u64_to_le_bytes(x);
    out.append(&mut b);
}

fn put_u128(out: &mut Vec<u8>, x: u128)
    ensures
        final(out)@ == old(out)@ + enc_u128(x),
{
    let mut b = u128_to_le_bytes(x);
    out.append(&mut b);
}

fn put_bytes(out: &mut Vec<u8>, b: &[u8])
    ensures
        final(out)@ == old(out)@ + enc_bytes(b@),
{
    put_u64(out, b.len() as u64);
    let mut v = slice_to_vec(b);
    let ghost mid = out@;
    out.append(&mut v);
    assert(out@ =~= old(out)@ + enc_bytes(b@));
}

fn put_str(out: &mut Vec<u8>, s: &String)
    ensures
        final(out)@ == old(out)@ + enc_str(s@),
{
    let b = s.as_str().as_bytes();
    put_bytes(out, b);
}

fn put_value(out: &mut Vec<u8>, v: &ParameterValue)
    ensures
        final(out)@ == old(out)@ + enc_value(*v),
{
    match v {
        ParameterValue::Int(x) => {
            put_u8(out, 0);
            put_i32(out, *x);
        },
        ParameterValue::Float(x) => {
            put_u8(out, 1);
            put_u32(out, *x);
        },
        ParameterValue::String(s) => {
            put_u8(out, 2);
            put_str(out, s);
        },
        ParameterValue::Bool(b) => {
            put_u8(out, 3);
            put_u8(out, if *b { 1 } else { 0 });
        },
        ParameterValue::VecInt(xs) => {
            put_u8(out, 4);
            put_u64(out, xs.len() as u64);
            let n = xs.len();
            let ghost start = out@;
            let mut i: usize = 0;
            while i < n
                invariant
                    n == xs@.len(),
                    0 <= i <= n,
                    out@ == start + enc_i32_items(xs@.take(i as int)),
                decreases n - i,
            {
                put_i32(out, xs[i]);
                assert(xs@.take(i + 1).drop_last() =~= xs@.take(i as int));
                i += 1;
            }
            assert(xs@.take(n as int) =~= xs@);
        },
        ParameterValue::VecFloat(xs) => {
            put_u8(out, 5);
            put_u64(out, xs.len() as u64);
            let n = xs.len();
            let ghost start = out@;
            let mut i: usize = 0;
            while i < n
                invariant
                    n == xs@.len(),
                    0 <= i <= n,
                    out@ == start + enc_u32_items(xs@.take(i as int)),
                decreases n - i,
            {
                put_u32(out, xs[i]);
                assert(xs@.take(i + 1).drop_last() =~= xs@.take(i as int));
                i += 1;
            }
            assert(xs@.take(n as int) =~= xs@);
        },
        ParameterValue::VecString(xs) => {
            put_u8(out, 6);
            put_u64(out, xs.len() as u64);
            let n = xs.len();
            let ghost start = out@;
            let mut i: usize = 0;
            while i < n
                invariant
                    n == xs@.len(),
                    0 <= i <= n,
                    out@ == start + enc_str_items(xs@.take(i as int)),
                decreases n - i,
            {
                put_str(out, &xs[i]);
                assert(xs@.take(i + 1).drop_last() =~= xs@.take(i as int));
                i += 1;
            }
            assert(xs@.take(n as int) =~= xs@);
        },
    }
}

fn put_opt_i32(out: &mut Vec<u8>, o: Option<i32>)
    ensures
        final(out)@ == old(out)@ + enc_opt_i32(o),
{
    match o {
        None => put_u8(out, 0),
        Some(x) => {
            put_u8(out, 1);
            put_i32(out, x);
        },
    }
}

fn put_opt_u32(out: &mut Vec<u8>, o: Option<u32>)
    ensures
        final(out)@ == old(out)@ + enc_opt_u32(o),
{
    match o {
        None => put_u8(out, 0),
        Some(x) => {
            put_u8(out, 1);
            put_u32(out, x);
        },
    }
}

fn put_type(out: &mut Vec<u8>, t: &ParameterType)
    ensures
        final(out)@ == old(out)@ + enc_type(*t),
{
    match t {
        ParameterType::Int { min, max } => {
            put_u8(out, 0);
            put_opt_i32(out, *min);
            put_opt_i32(out, *max);
        },
        ParameterType::Float { min, max } => {
            put_u8(out, 1);
            put_opt_u32(out, *min);
            put_opt_u32(out, *max);
        },
        ParameterType::String => put_u8(out, 2),
        ParameterType::Bool => put_u8(out, 3),
        ParameterType::VectorInt { min, max } => {
            put_u8(out, 4);
            put_opt_i32(out, *min);
            put_opt_i32(out, *max);
        },
        ParameterType::VectorFloat { min, max } => {
            put_u8(out, 5);
            put_opt_u32(out, *min);
            put_opt_u32(out, *max);
        },
        ParameterType::VectorString => put_u8(out, 6),
    }
}

fn put_kind(out: &mut Vec<u8>, k: &MessageType)
    ensures
        final(out)@ == old(out)@ + enc_kind(*k),
{
    match k {
        MessageType::Execute { module_id, timestep } => {
            put_u8(out, 0);
            put_u32(out, *module_id);
            put_i32(out, *timestep);
        },
        MessageType::CancelExecute { module_id } => {
            put_u8(out, 1);
            put_u32(out, *module_id);
        },
        MessageType::Quit => put_u8(out, 2),
        MessageType::AddObject { object_id, port_name } => {
            put_u8(out, 3);
            put_u128(out, object_id.0);
            put_str(out, port_name);
        },
        MessageType::RemoveObject { object_id } => {
            put_u8(out, 4);
            put_u128(out, object_id.0);
        },
        MessageType::SetParameter { module_id, param_name, value } => {
            put_u8(out, 5);
            put_u32(out, *module_id);
            put_str(out, param_name);
            put_value(out, value);
        },
        MessageType::AddParameter { module_id, param_name, param_type } => {
            put_u8(out, 6);
            put_u32(out, *module_id);
            put_str(out, param_name);
            put_type(out, param_type);
        },
        MessageType::ConnectPorts { from_module, from_port, to_module, to_port } => {
            put_u8(out, 7);
            put_u32(out, *from_module);
            put_str(out, from_port);
            put_u32(out, *to_module);
            put_str(out, to_port);
        },
        MessageType::DisconnectPorts { from_module, from_port, to_module, to_port } => {
            put_u8(out, 8);
            put_u32(out, *from_module);
            put_str(out, from_port);
            put_u32(out, *to_module);
            put_str(out, to_port);
        },
        MessageType::ModuleReady { module_id } => {
            put_u8(out, 9);
            put_u32(out, *module_id);
        },
        MessageType::ComputationComplete { module_id, objects_created } => {
            put_u8(out, 10);
            put_u32(out, *module_id);
            put_u64(out, objects_created.len() as u64);
            let n = objects_created.len();
            let ghost start = out@;
            let mut i: usize = 0;
            while i < n
                invariant
                    n == objects_created@.len(),
                    0 <= i <= n,
                    out@ == start + enc_id_items(objects_created@.take(i as int)),
                decreases n - i,
            {
                put_u128(out, objects_created[i].0);
                assert(objects_created@.take(i + 1).drop_last() =~= objects_created@.take(i as int));
                i += 1;
            }
            assert(objects_created@.take(n as int) =~= objects_created@);
        },
        MessageType::Error { module_id, message } => {
            put_u8(out, 11);
            put_u32(out, *module_id);
            put_str(out, message);
        },
        MessageType::Custom { type_id, data } => {
            put_u8(out, 12);
            put_u32(out, *type_id);
            put_bytes(out, data.as_slice());
        },
    }
}

fn priority_to_code(p: Priority) -> (r: u8)
    ensures
        r == priority_code(p),
{
    match p {
        Priority::Low => 0,
        Priority::Normal => 1,
        Priority::High => 2,
        Priority::Critical => 3,
    }
}

/// The bytes of an envelope.
pub fn encode_envelope(e: &MessageEnvelope) -> (r: Vec<u8>)
    ensures
        r@ == enc_envelope(*e),
{
    let mut out: Vec<u8> = Vec::new();
    let m = &e.message;
    put_u128(&mut out, m.id.0);
    put_u32(&mut out, m.sender);
    put_u32(&mut out, m.recipient);
    put_u8(&mut out, priority_to_code(m.priority));
    put_kind(&mut out, &m.message_type);
    put_u64(&mut out, m.timestamp_ns);
    match &e.payload {
        MessagePayload::Empty => {
            put_u8(&mut out, 0);
            let empty: Vec<u8> = Vec::new();
            put_bytes(&mut out, empty.as_slice());
            assert(empty@ =~= Seq::<u8>::empty());
        },
        MessagePayload::ObjectData(b) => {
            put_u8(&mut out, 1);
            put_bytes(&mut out, b.as_slice());
        },
        MessagePayload::ParameterData(b) => {
            put_u8(&mut out, 2);
            put_bytes(&mut out, b.as_slice());
        },
        MessagePayload::Custom(b) => {
            put_u8(&mut out, 3);
            put_bytes(&mut out, b.as_slice());
        },
    }
    assert(out@ =~= enc_envelope(*e));
    out
}

// ---- reading ----

/// Why bytes could not be read as an envelope.
#[derive(Debug, Clone, Copy, PartialEq, Eq, Structural)]
pub enum CodecError {
    /// The bytes end inside a field.
    Truncated,
    /// A tag byte names no variant; for the message kind this is a kind
    /// unknown to this version.
    UnknownTag(u8),
    /// A string's bytes are not UTF-8.
    InvalidUtf8,
    /// Bytes follow the envelope.
    TrailingBytes,
}

/// What each decoding failure is reported as.
pub open spec fn codec_error_text(e: CodecError) -> Seq<char> {
    match e {
        CodecError::Truncated => "truncated envelope"@,
        CodecError::UnknownTag(_) => "unknown message kind or tag"@,
        CodecError::InvalidUtf8 => "string is not UTF-8"@,
        CodecError::TrailingBytes => "bytes after the envelope"@,
    }
}

impl CodecError {
    pub fn describe(&self) -> (r: &'static str)
        ensures
            r@ == codec_error_text(*self),
    {
        match self {
            CodecError::Truncated => "truncated envelope",
            CodecError::UnknownTag(_) => "unknown message kind or tag",
            CodecError::InvalidUtf8 => "string is not UTF-8",
            CodecError::TrailingBytes => "bytes after the envelope",
        }
    }
}

/// The `Error` message that replaces an envelope that could not be read:
/// from the system (sender 0) to everyone, with the failure's text.
pub fn undecodable_message(err: CodecError, now_ns: u64) -> (r: Message)
    ensures
        r.sender == 0 && r.recipient == 0 && r.timestamp_ns == now_ns,
        r.message_type matches MessageType::Error { module_id: m, message: t } && m == 0 && t@ == codec_error_text(err),
{
    let text = err.describe().to_string();
    Message::new(0, 0, MessageType::Error { module_id: 0, message: text }, now_ns)
}

/// Relies on `String::from_utf8`: the string whose UTF-8 bytes these are,
/// if they are valid UTF-8.
#[verifier::external_body]
fn utf8_to_string(b: Vec<u8>) -> (r: Option<String>)
    ensures
        r is Some <==> valid_utf8(b@),
        r matches Some(s) ==> s@ == decode_utf8(b@),
{
    String::from_utf8(b).ok()
}

/// `bytes` lie in `buf` from `pos` to `p`.
pub open spec fn read_at(buf: Seq<u8>, pos: int, p: int, bytes: Seq<u8>) -> bool {
    0 <= pos <= p <= buf.len() && buf.subrange(pos, p) == bytes
}

proof fn lemma_join(buf: Seq<u8>, a: int, b: int, c: int, x: Seq<u8>, y: Seq<u8>)
    requires
        read_at(buf, a, b, x),
        read_at(buf, b, c, y),
    ensures
        read_at(buf, a, c, x + y),
{
    assert(buf.subrange(a, c) =~= buf.subrange(a, b) + buf.subrange(b, c));
}

/// The bytes `x` lie in `buf` from `pos` on.
pub open spec fn holds_at(buf: Seq<u8>, pos: int, x: Seq<u8>) -> bool {
    read_at(buf, pos, pos + x.len(), x)
}

proof fn lemma_split(buf: Seq<u8>, a: int, x: Seq<u8>, y: Seq<u8>)
    requires
        holds_at(buf, a, x + y),
    ensures
        holds_at(buf, a, x),
        holds_at(buf, a + x.len(), y),
{
    let w = buf.subrange(a, a + x.len() + y.len());
    assert(w == x + y);
    assert(buf.subrange(a, a + x.len()) =~= w.subrange(0, x.len() as int));
    assert((x + y).subrange(0, x.len() as int) =~= x);
    assert(buf.subrange(a + x.len(), a + x.len() + y.len()) =~= w.subrange(x.len() as int, w.len() as int));
    assert((x + y).subrange(x.len() as int, (x + y).len() as int) =~= y);
}

/// Two byte strings read at the same place, of the same length, agree.
proof fn lemma_same_read(buf: Seq<u8>, a: int, p: int, x: Seq<u8>, y: Seq<u8>)
    requires
        read_at(buf, a, p, x),
        holds_at(buf, a, y),
        p == a + y.len(),
    ensures
        x == y,
{
}

fn get_u8(buf: &[u8], pos: usize, Ghost(g): Ghost<u8>) -> (r: Result<(u8, usize), CodecError>)
    ensures
        r matches Ok((x, p)) ==> read_at(buf@, pos as int, p as int, seq![x]),
        holds_at(buf@, pos as int, seq![g]) ==> r == Ok::<(u8, usize), CodecError>((g, (pos + 1) as usize)),
{
    if pos >= buf.len() {
        return Err(CodecError::Truncated);
    }
    let x = buf[pos];
    assert(buf@.subrange(pos as int, pos + 1) =~= seq![x]);
    proof {
        if holds_at(buf@, pos as int, seq![g]) {
            assert(buf@.subrange(pos as int, pos + 1)[0] == g);
        }
    }
    Ok((x, pos + 1))
}

fn get_u32(buf: &[u8], pos: usize, Ghost(g): Ghost<u32>) -> (r: Result<(u32, usize), CodecError>)
    ensures
        r matches Ok((x, p)) ==> read_at(buf@, pos as int, p as int, enc_u32(x)),
        holds_at(buf@, pos as int, enc_u32(g)) ==> r == Ok::<(u32, usize), CodecError>((g, (pos + 4) as usize)),
{
    proof {
        lemma_auto_spec_u32_to_from_le_bytes();
    }
    if pos > buf.len() || buf.len() - pos < 4 {
        return Err(CodecError::Truncated);
    }
    let s = slice_subrange(buf, pos, pos + 4);
    let x = u32_from_le_bytes(s);
    Ok((x, pos + 4))
}

fn get_i32(buf: &[u8], pos: usize, Ghost(g): Ghost<i32>) -> (r: Result<(i32, usize), CodecError>)
    ensures
        r matches Ok((x, p)) ==> read_at(buf@, pos as int, p as int, enc_i32(x)),
        holds_at(buf@, pos as int, enc_i32(g)) ==> r == Ok::<(i32, usize), CodecError>((g, (pos + 4) as usize)),
{
    let (u, p) = get_u32(buf, pos, Ghost(g as u32))?;
    assert((u as i32) as u32 == u) by (bit_vector);
    proof {
        let gu = g as u32;
        assert((gu as i32) == g) by (bit_vector)
            requires gu == g as u32;
    }
    Ok((u as i32, p))
}

fn get_u64(buf: &[u8], pos: usize, Ghost(g): Ghost<u64>) -> (r: Result<(u64, usize), CodecError>)
    ensures
        r matches Ok((x, p)) ==> read_at(buf@, pos as int, p as int, enc_u64(x)),
        holds_at(buf@, pos as int, enc_u64(g)) ==> r == Ok::<(u64, usize), CodecError>((g, (pos + 8) as usize)),
{
    proof {
        lemma_auto_spec_u64_to_from_le_bytes();
    }
    if pos > buf.len() || buf.len() - pos < 8 {
        return Err(CodecError::Truncated);
    }
    let s = slice_subrange(buf, pos, pos + 8);
    let x = u64_from_le_bytes(s);
    Ok((x, pos + 8))
}

fn get_u128(buf: &[u8], pos: usize, Ghost(g): Ghost<u128>) -> (r: Result<(u128, usize), CodecError>)
    ensures
        r matches Ok((x, p)) ==> read_at(buf@, pos as int, p as int, enc_u128(x)),
        holds_at(buf@, pos as int, enc_u128(g)) ==> r == Ok::<(u128, usize), CodecError>((g, (pos + 16) as usize)),
{
    proof {
        lemma_auto_spec_u128_to_from_le_bytes();
    }
    if pos > buf.len() || buf.len() - pos < 16 {
        return Err(CodecError::Truncated);
    }
    let s = slice_subrange(buf, pos, pos + 16);
    let x = u128_from_le_bytes(s);
    Ok((x, pos + 16))
}

fn get_bytes(buf: &[u8], pos: usize, Ghost(g): Ghost<Seq<u8>>) -> (r: Result<(Vec<u8>, usize), CodecError>)
    ensures
        r matches Ok((b, p)) ==> read_at(buf@, pos as int, p as int, enc_bytes(b@)),
        holds_at(buf@, pos as int, enc_bytes(g)) ==> (r matches Ok((b, p)) && b@ == g
            && p == pos + enc_bytes(g).len()),
{
    let blen = buf.len();
    proof {
        lemma_auto_spec_u64_to_from_le_bytes();
        if holds_at(buf@, pos as int, enc_bytes(g)) {
            lemma_split(buf@, pos as int, enc_u64(g.len() as u64), g);
        }
    }
    let (n, p) = get_u64(buf, pos, Ghost(g.len() as u64))?;
    if (n as u128) > ((buf.len() - p) as u128) {
        return Err(CodecError::Truncated);
    }
    let end = p + n as usize;
    let b = slice_to_vec(slice_subrange(buf, p, end));
    proof {
        assert(b@.len() as u64 == n);
        lemma_join(buf@, pos as int, p as int, end as int, enc_u64(n), b@);
    }
    Ok((b, end))
}

fn get_str(buf: &[u8], pos: usize, Ghost(g): Ghost<Seq<char>>) -> (r: Result<(String, usize), CodecError>)
    ensures
        r matches Ok((s, p)) ==> read_at(buf@, pos as int, p as int, enc_str(s@)),
        holds_at(buf@, pos as int, enc_str(g)) ==> (r matches Ok((s, p)) && s@ == g
            && p == pos + enc_str(g).len()),
{
    let (b, p) = get_bytes(buf, pos, Ghost(encode_utf8(g)))?;
    let ghost bv = b@;
    proof {
        vstd::utf8::encode_utf8_valid_utf8(g);
        vstd::utf8::encode_utf8_decode_utf8(g);
    }
    match utf8_to_string(b) {
        Some(s) => {
            proof {
                vstd::utf8::decode_utf8_encode_utf8(bv);
            }
            Ok((s, p))
        },
        None => Err(CodecError::InvalidUtf8),
    }
}

fn get_opt_i32(buf: &[u8], pos: usize, Ghost(g): Ghost<Option<i32>>) -> (r: Result<(Option<i32>, usize), CodecError>)
    ensures
        r matches Ok((o, p)) ==> read_at(buf@, pos as int, p as int, enc_opt_i32(o)),
        holds_at(buf@, pos as int, enc_opt_i32(g)) ==> (r matches Ok((o, p)) && o == g
            && p == pos + enc_opt_i32(g).len()),
{
    let ghost gt: u8 = if g is Some { 1 } else { 0 };
    let ghost gv: i32 = match g { Some(v) => v, None => 0 };
    proof {
        if holds_at(buf@, pos as int, enc_opt_i32(g)) && g is Some {
            lemma_split(buf@, pos as int, seq![1u8], enc_i32(gv));
        }
        if holds_at(buf@, pos as int, enc_opt_i32(g)) && g is None {
            assert(enc_opt_i32(g) == seq![0u8]);
        }
    }
    let (t, p) = get_u8(buf, pos, Ghost(gt))?;
    if t == 0 {
        Ok((None, p))
    } else if t == 1 {
        let (x, q) = get_i32(buf, p, Ghost(gv))?;
        proof {
            lemma_join(buf@, pos as int, p as int, q as int, seq![t], enc_i32(x));
        }
        Ok((Some(x), q))
    } else {
        Err(CodecError::UnknownTag(t))
    }
}

fn get_opt_u32(buf: &[u8], pos: usize, Ghost(g): Ghost<Option<u32>>) -> (r: Result<(Option<u32>, usize), CodecError>)
    ensures
        r matches Ok((o, p)) ==> read_at(buf@, pos as int, p as int, enc_opt_u32(o)),
        holds_at(buf@, pos as int, enc_opt_u32(g)) ==> (r matches Ok((o, p)) && o == g
            && p == pos + enc_opt_u32(g).len()),
{
    let ghost gt: u8 = if g is Some { 1 } else { 0 };
    let ghost gv: u32 = match g { Some(v) => v, None => 0 };
    proof {
        if holds_at(buf@, pos as int, enc_opt_u32(g)) && g is Some {
            lemma_split(buf@, pos as int, seq![1u8], enc_u32(gv));
        }
        if holds_at(buf@, pos as int, enc_opt_u32(g)) && g is None {
            assert(enc_opt_u32(g) == seq![0u8]);
        }
    }
    let (t, p) = get_u8(buf, pos, Ghost(gt))?;
    if t == 0 {
        Ok((None, p))
    } else if t == 1 {
        let (x, q) = get_u32(buf, p, Ghost(gv))?;
        proof {
            lemma_join(buf@, pos as int, p as int, q as int, seq![t], enc_u32(x));
        }
        Ok((Some(x), q))
    } else {
        Err(CodecError::UnknownTag(t))
    }
}

fn get_i32_items(buf: &[u8], pos: usize, n: u64, Ghost(g): Ghost<Seq<i32>>) -> (r: Result<(Vec<i32>, usize), CodecError>)
    ensures
        r matches Ok((xs, p)) ==> xs@.len() == n && read_at(buf@, pos as int, p as int, enc_i32_items(xs@)),
        g.len() == n && holds_at(buf@, pos as int, enc_i32_items(g)) ==> (r matches Ok((xs, p)) && enc_i32_items(xs@) == enc_i32_items(g)
            && p == pos + enc_i32_items(g).len()),
{
    let mut xs: Vec<i32> = Vec::new();
    let mut p = pos;
    let mut i: u64 = 0;
    if pos > buf.len() {
        return Err(CodecError::Truncated);
    }
    assert(buf@.subrange(pos as int, pos as int) =~= Seq::<u8>::empty());
    let ghost guided = g.len() == n && holds_at(buf@, pos as int, enc_i32_items(g));
    proof {
        assert(g.take(0) =~= Seq::<i32>::empty());
    }
    while i < n
        invariant
            0 <= i <= n,
            xs@.len() == i,
            read_at(buf@, pos as int, p as int, enc_i32_items(xs@)),
            guided == (g.len() == n && holds_at(buf@, pos as int, enc_i32_items(g))),
            guided ==> enc_i32_items(xs@) == enc_i32_items(g.take(i as int)) && p == pos + enc_i32_items(g.take(i as int)).len(),
        decreases n - i,
    {
        let ghost gi: i32 = if guided { g[i as int] } else { 0i32 };
        proof {
            if guided {
                lemma_items_prefix(g, i32_item(), i + 1);
                lemma_items_step(g, i32_item(), i as int);
                lemma_holds_prefix(buf@, pos as int, enc_i32_items(g), enc_i32_items(g.take(i + 1)));
                lemma_split(buf@, pos as int, enc_i32_items(g.take(i as int)), enc_i32(gi));
            }
        }
        let (x, q) = get_i32(buf, p, Ghost(gi))?;
        proof {
            lemma_join(buf@, pos as int, p as int, q as int, enc_i32_items(xs@), enc_i32(x));
        }
        let ghost prev = xs@;
        xs.push(x);
        assert(xs@.drop_last() =~= prev);
        proof {
            if guided {
                lemma_items_step(xs@, i32_item(), i as int);
                assert(xs@.take(i as int) =~= prev);
                assert(xs@.take(i + 1) =~= xs@);
            }
        }
        p = q;
        i += 1;
    }
    proof {
        if guided {
            assert(g.take(n as int) =~= g);
        }
    }
    Ok((xs, p))
}

fn get_str_items(buf: &[u8], pos: usize, n: u64, Ghost(g): Ghost<Seq<String>>) -> (r: Result<(Vec<String>, usize), CodecError>)
    ensures
        r matches Ok((xs, p)) ==> xs@.len() == n && read_at(buf@, pos as int, p as int, enc_str_items(xs@)),
        g.len() == n && holds_at(buf@, pos as int, enc_str_items(g)) ==> (r matches Ok((xs, p)) && enc_str_items(xs@) == enc_str_items(g)
            && p == pos + enc_str_items(g).len()),
{
    let mut xs: Vec<String> = Vec::new();
    let mut p = pos;
    let mut i: u64 = 0;
    if pos > buf.len() {
        return Err(CodecError::Truncated);
    }
    assert(buf@.subrange(pos as int, pos as int) =~= Seq::<u8>::empty());
    let ghost guided = g.len() == n && holds_at(buf@, pos as int, enc_str_items(g));
    proof {
        assert(g.take(0) =~= Seq::<String>::empty());
    }
    while i < n
        invariant
            0 <= i <= n,
            xs@.len() == i,
            read_at(buf@, pos as int, p as int, enc_str_items(xs@)),
            guided == (g.len() == n && holds_at(buf@, pos as int, enc_str_items(g))),
            guided ==> enc_str_items(xs@) == enc_str_items(g.take(i as int)) && p == pos + enc_str_items(g.take(i as int)).len(),
        decreases n - i,
    {
        let ghost gi: String = g[i as int];
        proof {
            if guided {
                lemma_items_prefix(g, str_item(), i + 1);
                lemma_items_step(g, str_item(), i as int);
                lemma_holds_prefix(buf@, pos as int, enc_str_items(g), enc_str_items(g.take(i + 1)));
                lemma_split(buf@, pos as int, enc_str_items(g.take(i as int)), enc_str(gi@));
            }
        }
        let (x, q) = get_str(buf, p, Ghost(gi@))?;
        proof {
            lemma_join(buf@, pos as int, p as int, q as int, enc_str_items(xs@), enc_str(x@));
        }
        let ghost prev = xs@;
        xs.push(x);
        assert(xs@.drop_last() =~= prev);
        proof {
            if guided {
                lemma_items_step(xs@, str_item(), i as int);
                assert(xs@.take(i as int) =~= prev);
                assert(xs@.take(i + 1) =~= xs@);
            }
        }
        p = q;
        i += 1;
    }
    proof {
        if guided {
            assert(g.take(n as int) =~= g);
        }
    }
    Ok((xs, p))
}

fn get_u32_items(buf: &[u8], pos: usize, n: u64, Ghost(g): Ghost<Seq<u32>>) -> (r: Result<(Vec<u32>, usize), CodecError>)
    ensures
        r matches Ok((xs, p)) ==> xs@.len() == n && read_at(buf@, pos as int, p as int, enc_u32_items(xs@)),
        g.len() == n && holds_at(buf@, pos as int, enc_u32_items(g)) ==> (r matches Ok((xs, p)) && enc_u32_items(xs@) == enc_u32_items(g)
            && p == pos + enc_u32_items(g).len()),
{
    let mut xs: Vec<u32> = Vec::new();
    let mut p = pos;
    let mut i: u64 = 0;
    if pos > buf.len() {
        return Err(CodecError::Truncated);
    }
    assert(buf@.subrange(pos as int, pos as int) =~= Seq::<u8>::empty());
    let ghost guided = g.len() == n && holds_at(buf@, pos as int, enc_u32_items(g));
    proof {
        assert(g.take(0) =~= Seq::<u32>::empty());
    }
    while i < n
        invariant
            0 <= i <= n,
            xs@.len() == i,
            read_at(buf@, pos as int, p as int, enc_u32_items(xs@)),
            guided == (g.len() == n && holds_at(buf@, pos as int, enc_u32_items(g))),
            guided ==> enc_u32_items(xs@) == enc_u32_items(g.take(i as int)) && p == pos + enc_u32_items(g.take(i as int)).len(),
        decreases n - i,
    {
        let ghost gi: u32 = if guided { g[i as int] } else { 0u32 };
        proof {
            if guided {
                lemma_items_prefix(g, u32_item(), i + 1);
                lemma_items_step(g, u32_item(), i as int);
                lemma_holds_prefix(buf@, pos as int, enc_u32_items(g), enc_u32_items(g.take(i + 1)));
                lemma_split(buf@, pos as int, enc_u32_items(g.take(i as int)), enc_u32(gi));
            }
        }
        let (x, q) = get_u32(buf, p, Ghost(gi))?;
        proof {
            lemma_join(buf@, pos as int, p as int, q as int, enc_u32_items(xs@), enc_u32(x));
        }
        let ghost prev = xs@;
        xs.push(x);
        assert(xs@.drop_last() =~= prev);
        proof {
            if guided {
                lemma_items_step(xs@, u32_item(), i as int);
                assert(xs@.take(i as int) =~= prev);
                assert(xs@.take(i + 1) =~= xs@);
            }
        }
        p = q;
        i += 1;
    }
    proof {
        if guided {
            assert(g.take(n as int) =~= g);
        }
    }
    Ok((xs, p))
}

fn get_id_items(buf: &[u8], pos: usize, n: u64, Ghost(g): Ghost<Seq<ObjectId>>) -> (r: Result<(Vec<ObjectId>, usize), CodecError>)
    ensures
        r matches Ok((xs, p)) ==> xs@.len() == n && read_at(buf@, pos as int, p as int, enc_id_items(xs@)),
        g.len() == n && holds_at(buf@, pos as int, enc_id_items(g)) ==> (r matches Ok((xs, p)) && enc_id_items(xs@) == enc_id_items(g)
            && p == pos + enc_id_items(g).len()),
{
    let mut xs: Vec<ObjectId> = Vec::new();
    let mut p = pos;
    let mut i: u64 = 0;
    if pos > buf.len() {
        return Err(CodecError::Truncated);
    }
    assert(buf@.subrange(pos as int, pos as int) =~= Seq::<u8>::empty());
    let ghost guided = g.len() == n && holds_at(buf@, pos as int, enc_id_items(g));
    proof {
        assert(g.take(0) =~= Seq::<ObjectId>::empty());
    }
    while i < n
        invariant
            0 <= i <= n,
            xs@.len() == i,
            read_at(buf@, pos as int, p as int, enc_id_items(xs@)),
            guided == (g.len() == n && holds_at(buf@, pos as int, enc_id_items(g))),
            guided ==> enc_id_items(xs@) == enc_id_items(g.take(i as int)) && p == pos + enc_id_items(g.take(i as int)).len(),
        decreases n - i,
    {
        let ghost gi: ObjectId = if guided { g[i as int] } else { ObjectId(0) };
        proof {
            if guided {
                lemma_items_prefix(g, id_item(), i + 1);
                lemma_items_step(g, id_item(), i as int);
                lemma_holds_prefix(buf@, pos as int, enc_id_items(g), enc_id_items(g.take(i + 1)));
                lemma_split(buf@, pos as int, enc_id_items(g.take(i as int)), enc_u128(gi.0));
            }
        }
        let (x, q) = get_u128(buf, p, Ghost(gi.0))?;
        proof {
            lemma_join(buf@, pos as int, p as int, q as int, enc_id_items(xs@), enc_u128(x));
        }
        let ghost prev = xs@;
        xs.push(ObjectId(x));
        assert(xs@.drop_last() =~= prev);
        proof {
            if guided {
                lemma_items_step(xs@, id_item(), i as int);
                assert(xs@.take(i as int) =~= prev);
                assert(xs@.take(i + 1) =~= xs@);
            }
        }
        p = q;
        i += 1;
    }
    proof {
        if guided {
            assert(g.take(n as int) =~= g);
        }
    }
    Ok((xs, p))
}

proof fn lemma_split_at(buf: Seq<u8>, a: int, x: Seq<u8>, k: int)
    requires
        holds_at(buf, a, x),
        0 <= k <= x.len(),
    ensures
        holds_at(buf, a, x.subrange(0, k)),
        holds_at(buf, a + k, x.subrange(k, x.len() as int)),
{
    assert(x.subrange(0, k) + x.subrange(k, x.len() as int) =~= x);
    lemma_split(buf, a, x.subrange(0, k), x.subrange(k, x.len() as int));
}

fn get_value(buf: &[u8], pos: usize, Ghost(g): Ghost<ParameterValue>) -> (r: Result<(ParameterValue, usize), CodecError>)
    ensures
        r matches Ok((v, p)) ==> read_at(buf@, pos as int, p as int, enc_value(v)),
        holds_at(buf@, pos as int, enc_value(g)) ==> (r matches Ok((v, p)) && p == pos + enc_value(g).len()),
{
    let ghost e = enc_value(g);
    let ghost guided = holds_at(buf@, pos as int, e);
    let ghost body = e.subrange(1, e.len() as int);
    proof {
        if guided {
            lemma_split_at(buf@, pos as int, e, 1);
            assert(e.subrange(0, 1) =~= seq![e[0]]);
        }
    }
    let (t, p) = get_u8(buf, pos, Ghost(e[0]))?;
    if t == 0 {
        let ghost gx: i32 = match g { ParameterValue::Int(x) => x, _ => 0 };
        proof { if guided { assert(g is Int); assert(body =~= enc_i32(gx)); } }
        let (x, q) = get_i32(buf, p, Ghost(gx))?;
        proof { lemma_join(buf@, pos as int, p as int, q as int, seq![t], enc_i32(x)); }
        Ok((ParameterValue::Int(x), q))
    } else if t == 1 {
        let ghost gx: u32 = match g { ParameterValue::Float(x) => x, _ => 0 };
        proof { if guided { assert(g is Float); assert(body =~= enc_u32(gx)); } }
        let (x, q) = get_u32(buf, p, Ghost(gx))?;
        proof { lemma_join(buf@, pos as int, p as int, q as int, seq![t], enc_u32(x)); }
        Ok((ParameterValue::Float(x), q))
    } else if t == 2 {
        let ghost gx: Seq<char> = match g { ParameterValue::String(x) => x@, _ => Seq::empty() };
        proof { if guided { assert(g is String); assert(body =~= enc_str(gx)); } }
        let (x, q) = get_str(buf, p, Ghost(gx))?;
        proof { lemma_join(buf@, pos as int, p as int, q as int, seq![t], enc_str(x@)); }
        Ok((ParameterValue::String(x), q))
    } else if t == 3 {
        let ghost gb: u8 = match g { ParameterValue::Bool(x) => if x { 1u8 } else { 0u8 }, _ => 0 };
        proof { if guided { assert(g is Bool); assert(body =~= seq![gb]); } }
        let (b, q) = get_u8(buf, p, Ghost(gb))?;
        if b > 1 {
            return Err(CodecError::UnknownTag(b));
        }
        proof {
            lemma_join(buf@, pos as int, p as int, q as int, seq![t], seq![b]);
            assert(seq![t] + seq![b] =~= seq![3u8, if b == 1 { 1u8 } else { 0u8 }]);
        }
        Ok((ParameterValue::Bool(b == 1), q))
    } else if t == 4 || t == 5 || t == 6 {
        let ghost glen: u64 = match g {
            ParameterValue::VecInt(xs) => xs@.len() as u64,
            ParameterValue::VecFloat(xs) => xs@.len() as u64,
            ParameterValue::VecString(xs) => xs@.len() as u64,
            _ => 0,
        };
        let ghost rest: Seq<u8> = match g {
            ParameterValue::VecInt(xs) => enc_i32_items(xs@),
            ParameterValue::VecFloat(xs) => enc_u32_items(xs@),
            ParameterValue::VecString(xs) => enc_str_items(xs@),
            _ => Seq::empty(),
        };
        proof {
            if guided {
                assert(g is VecInt || g is VecFloat || g is VecString);
                assert(body =~= enc_u64(glen) + rest);
                lemma_split(buf@, p as int, enc_u64(glen), rest);
                match g {
                    ParameterValue::VecInt(xs) => { assert(xs@.len() == xs.len()); },
                    ParameterValue::VecFloat(xs) => { assert(xs@.len() == xs.len()); },
                    ParameterValue::VecString(xs) => { assert(xs@.len() == xs.len()); },
                    _ => {},
                }
            }
        }
        let (n, q) = get_u64(buf, p, Ghost(glen))?;
        proof {
            lemma_join(buf@, pos as int, p as int, q as int, seq![t], enc_u64(n));
        }
        if t == 4 {
            let ghost gs: Seq<i32> = match g { ParameterValue::VecInt(xs) => xs@, _ => Seq::empty() };
            proof {
                if guided {
                    assert(g is VecInt);
                    assert(rest == enc_i32_items(gs));
                    match g {
                        ParameterValue::VecInt(xs) => { assert(xs@.len() == xs.len()); },
                        _ => {},
                    }
                    assert(gs.len() == n);
                }
            }
            let (xs, end) = get_i32_items(buf, q, n, Ghost(gs))?;
            proof { lemma_join(buf@, pos as int, q as int, end as int, seq![t] + enc_u64(n), enc_i32_items(xs@)); }
            Ok((ParameterValue::VecInt(xs), end))
        } else if t == 5 {
            let ghost gs: Seq<u32> = match g { ParameterValue::VecFloat(xs) => xs@, _ => Seq::empty() };
            proof {
                if guided {
                    assert(g is VecFloat);
                    assert(rest == enc_u32_items(gs));
                    match g {
                        ParameterValue::VecFloat(xs) => { assert(xs@.len() == xs.len()); },
                        _ => {},
                    }
                    assert(gs.len() == n);
                }
            }
            let (xs, end) = get_u32_items(buf, q, n, Ghost(gs))?;
            proof { lemma_join(buf@, pos as int, q as int, end as int, seq![t] + enc_u64(n), enc_u32_items(xs@)); }
            Ok((ParameterValue::VecFloat(xs), end))
        } else {
            let ghost gs: Seq<String> = match g { ParameterValue::VecString(xs) => xs@, _ => Seq::empty() };
            proof {
                if guided {
                    assert(g is VecString);
                    assert(rest == enc_str_items(gs));
                    match g {
                        ParameterValue::VecString(xs) => { assert(xs@.len() == xs.len()); },
                        _ => {},
                    }
                    assert(gs.len() == n);
                }
            }
            let (xs, end) = get_str_items(buf, q, n, Ghost(gs))?;
            proof { lemma_join(buf@, pos as int, q as int, end as int, seq![t] + enc_u64(n), enc_str_items(xs@)); }
            Ok((ParameterValue::VecString(xs), end))
        }
    } else {
        Err(CodecError::UnknownTag(t))
    }
}

fn get_type(buf: &[u8], pos: usize, Ghost(g): Ghost<ParameterType>) -> (r: Result<(ParameterType, usize), CodecError>)
    ensures
        r matches Ok((v, p)) ==> read_at(buf@, pos as int, p as int, enc_type(v)),
        holds_at(buf@, pos as int, enc_type(g)) ==> (r matches Ok((v, p)) && p == pos + enc_type(g).len()),
{
    let ghost e = enc_type(g);
    let ghost guided = holds_at(buf@, pos as int, e);
    let ghost body = e.subrange(1, e.len() as int);
    proof {
        if guided {
            lemma_split_at(buf@, pos as int, e, 1);
            assert(e.subrange(0, 1) =~= seq![e[0]]);
        }
    }
    let (t, p) = get_u8(buf, pos, Ghost(e[0]))?;
    if t == 2 {
        return Ok((ParameterType::String, p));
    } else if t == 3 {
        return Ok((ParameterType::Bool, p));
    } else if t == 6 {
        return Ok((ParameterType::VectorString, p));
    }
    if t == 0 || t == 4 {
        let ghost glo: Option<i32> = match g {
            ParameterType::Int { min, max } => min,
            ParameterType::VectorInt { min, max } => min,
            _ => None,
        };
        let ghost ghi: Option<i32> = match g {
            ParameterType::Int { min, max } => max,
            ParameterType::VectorInt { min, max } => max,
            _ => None,
        };
        proof {
            if guided {
                assert(g is Int || g is VectorInt);
                assert(body =~= enc_opt_i32(glo) + enc_opt_i32(ghi));
                lemma_split(buf@, p as int, enc_opt_i32(glo), enc_opt_i32(ghi));
            }
        }
        let (lo, q) = get_opt_i32(buf, p, Ghost(glo))?;
        let (hi, end) = get_opt_i32(buf, q, Ghost(ghi))?;
        proof {
            lemma_join(buf@, pos as int, p as int, q as int, seq![t], enc_opt_i32(lo));
            lemma_join(buf@, pos as int, q as int, end as int, seq![t] + enc_opt_i32(lo), enc_opt_i32(hi));
        }
        if t == 0 {
            Ok((ParameterType::Int { min: lo, max: hi }, end))
        } else {
            Ok((ParameterType::VectorInt { min: lo, max: hi }, end))
        }
    } else if t == 1 || t == 5 {
        let ghost glo: Option<u32> = match g {
            ParameterType::Float { min, max } => min,
            ParameterType::VectorFloat { min, max } => min,
            _ => None,
        };
        let ghost ghi: Option<u32> = match g {
            ParameterType::Float { min, max } => max,
            ParameterType::VectorFloat { min, max } => max,
            _ => None,
        };
        proof {
            if guided {
                assert(g is Float || g is VectorFloat);
                assert(body =~= enc_opt_u32(glo) + enc_opt_u32(ghi));
                lemma_split(buf@, p as int, enc_opt_u32(glo), enc_opt_u32(ghi));
            }
        }
        let (lo, q) = get_opt_u32(buf, p, Ghost(glo))?;
        let (hi, end) = get_opt_u32(buf, q, Ghost(ghi))?;
        proof {
            lemma_join(buf@, pos as int, p as int, q as int, seq![t], enc_opt_u32(lo));
            lemma_join(buf@, pos as int, q as int, end as int, seq![t] + enc_opt_u32(lo), enc_opt_u32(hi));
        }
        if t == 1 {
            Ok((ParameterType::Float { min: lo, max: hi }, end))
        } else {
            Ok((ParameterType::VectorFloat { min: lo, max: hi }, end))
        }
    } else {
        Err(CodecError::UnknownTag(t))
    }
}

/// The first field of a kind that has one: its module or type id.
spec fn kind_first_u32(k: MessageType) -> u32 {
    match k {
        MessageType::Execute { module_id, .. } => module_id,
        MessageType::CancelExecute { module_id } => module_id,
        MessageType::SetParameter { module_id, .. } => module_id,
        MessageType::AddParameter { module_id, .. } => module_id,
        MessageType::ConnectPorts { from_module, .. } => from_module,
        MessageType::DisconnectPorts { from_module, .. } => from_module,
        MessageType::ModuleReady { module_id } => module_id,
        MessageType::ComputationComplete { module_id, .. } => module_id,
        MessageType::Error { module_id, .. } => module_id,
        MessageType::Custom { type_id, .. } => type_id,
        _ => 0,
    }
}

/// The bytes after the first u32 field of a kind that has one.
spec fn kind_tail(k: MessageType) -> Seq<u8> {
    match k {
        MessageType::Execute { timestep, .. } => enc_i32(timestep),
        MessageType::SetParameter { param_name, value, .. } => enc_str(param_name@) + enc_value(value),
        MessageType::AddParameter { param_name, param_type, .. } => enc_str(param_name@) + enc_type(param_type),
        MessageType::ConnectPorts { from_port, to_module, to_port, .. } =>
            enc_str(from_port@) + enc_u32(to_module) + enc_str(to_port@),
        MessageType::DisconnectPorts { from_port, to_module, to_port, .. } =>
            enc_str(from_port@) + enc_u32(to_module) + enc_str(to_port@),
        MessageType::ComputationComplete { objects_created, .. } =>
            enc_u64(objects_created@.len() as u64) + enc_id_items(objects_created@),
        MessageType::Error { message, .. } => enc_str(message@),
        MessageType::Custom { data, .. } => enc_bytes(data@),
        _ => Seq::empty(),
    }
}

#[verifier::rlimit(100)]
fn get_kind(buf: &[u8], pos: usize, Ghost(g): Ghost<MessageType>) -> (r: Result<(MessageType, usize), CodecError>)
    ensures
        r matches Ok((k, p)) ==> read_at(buf@, pos as int, p as int, enc_kind(k)),
        holds_at(buf@, pos as int, enc_kind(g)) ==> (r matches Ok((k, p)) && p == pos + enc_kind(g).len()),
{
    let ghost e = enc_kind(g);
    let ghost guided = holds_at(buf@, pos as int, e);
    let ghost body = e.subrange(1, e.len() as int);
    proof {
        if guided {
            lemma_split_at(buf@, pos as int, e, 1);
            assert(e.subrange(0, 1) =~= seq![e[0]]);
        }
    }
    let (t, p) = get_u8(buf, pos, Ghost(e[0]))?;
    if t == 2 {
        return Ok((MessageType::Quit, p));
    }
    if t == 3 || t == 4 {
        let ghost gid: u128 = match g {
            MessageType::AddObject { object_id, .. } => object_id.0,
            MessageType::RemoveObject { object_id } => object_id.0,
            _ => 0,
        };
        let ghost gname: Seq<char> = match g {
            MessageType::AddObject { port_name, .. } => port_name@,
            _ => Seq::empty(),
        };
        proof {
            if guided {
                assert(g is AddObject || g is RemoveObject);
                if t == 3 {
                    assert(body =~= enc_u128(gid) + enc_str(gname));
                    lemma_split(buf@, p as int, enc_u128(gid), enc_str(gname));
                } else {
                    assert(body =~= enc_u128(gid));
                }
            }
        }
        let (id, q) = get_u128(buf, p, Ghost(gid))?;
        proof { lemma_join(buf@, pos as int, p as int, q as int, seq![t], enc_u128(id)); }
        if t == 4 {
            return Ok((MessageType::RemoveObject { object_id: ObjectId(id) }, q));
        }
        let (name, end) = get_str(buf, q, Ghost(gname))?;
        proof { lemma_join(buf@, pos as int, q as int, end as int, seq![t] + enc_u128(id), enc_str(name@)); }
        return Ok((MessageType::AddObject { object_id: ObjectId(id), port_name: name }, end));
    }
    if t > 12 {
        return Err(CodecError::UnknownTag(t));
    }
    let ghost ga = kind_first_u32(g);
    let ghost tail = kind_tail(g);
    proof {
        if guided {
            assert(!(g is Quit) && !(g is AddObject) && !(g is RemoveObject));
            assert(body =~= enc_u32(ga) + tail);
            lemma_split(buf@, p as int, enc_u32(ga), tail);
        }
    }
    let (a, q) = get_u32(buf, p, Ghost(ga))?;
    proof { lemma_join(buf@, pos as int, p as int, q as int, seq![t], enc_u32(a)); }
    let ghost head = seq![t] + enc_u32(a);
    if t == 0 {
        let ghost gts: i32 = match g { MessageType::Execute { timestep, .. } => timestep, _ => 0 };
        proof { if guided { assert(g is Execute); assert(tail == enc_i32(gts)); } }
        let (ts, end) = get_i32(buf, q, Ghost(gts))?;
        proof { lemma_join(buf@, pos as int, q as int, end as int, head, enc_i32(ts)); }
        Ok((MessageType::Execute { module_id: a, timestep: ts }, end))
    } else if t == 1 {
        proof { if guided { assert(g is CancelExecute); } }
        Ok((MessageType::CancelExecute { module_id: a }, q))
    } else if t == 9 {
        proof { if guided { assert(g is ModuleReady); } }
        Ok((MessageType::ModuleReady { module_id: a }, q))
    } else if t == 5 || t == 6 {
        let ghost gname: Seq<char> = match g {
            MessageType::SetParameter { param_name, .. } => param_name@,
            MessageType::AddParameter { param_name, .. } => param_name@,
            _ => Seq::empty(),
        };
        let ghost gv: ParameterValue = match g {
            MessageType::SetParameter { value, .. } => value,
            _ => ParameterValue::Bool(false),
        };
        let ghost gty: ParameterType = match g {
            MessageType::AddParameter { param_type, .. } => param_type,
            _ => ParameterType::Bool,
        };
        proof {
            if guided {
                if t == 5 {
                    assert(g is SetParameter);
                    assert(tail == enc_str(gname) + enc_value(gv));
                    lemma_split(buf@, q as int, enc_str(gname), enc_value(gv));
                } else {
                    assert(g is AddParameter);
                    assert(tail == enc_str(gname) + enc_type(gty));
                    lemma_split(buf@, q as int, enc_str(gname), enc_type(gty));
                }
            }
        }
        let (name, q2) = get_str(buf, q, Ghost(gname))?;
        proof { lemma_join(buf@, pos as int, q as int, q2 as int, head, enc_str(name@)); }
        if t == 5 {
            let (v, end) = get_value(buf, q2, Ghost(gv))?;
            proof { lemma_join(buf@, pos as int, q2 as int, end as int, head + enc_str(name@), enc_value(v)); }
            Ok((MessageType::SetParameter { module_id: a, param_name: name, value: v }, end))
        } else {
            let (ty, end) = get_type(buf, q2, Ghost(gty))?;
            proof { lemma_join(buf@, pos as int, q2 as int, end as int, head + enc_str(name@), enc_type(ty)); }
            Ok((MessageType::AddParameter { module_id: a, param_name: name, param_type: ty }, end))
        }
    } else if t == 7 || t == 8 {
        let ghost gfp: Seq<char> = match g {
            MessageType::ConnectPorts { from_port, .. } => from_port@,
            MessageType::DisconnectPorts { from_port, .. } => from_port@,
            _ => Seq::empty(),
        };
        let ghost gto: u32 = match g {
            MessageType::ConnectPorts { to_module, .. } => to_module,
            MessageType::DisconnectPorts { to_module, .. } => to_module,
            _ => 0,
        };
        let ghost gtp: Seq<char> = match g {
            MessageType::ConnectPorts { to_port, .. } => to_port@,
            MessageType::DisconnectPorts { to_port, .. } => to_port@,
            _ => Seq::empty(),
        };
        proof {
            if guided {
                assert(g is ConnectPorts || g is DisconnectPorts);
                assert(tail == enc_str(gfp) + enc_u32(gto) + enc_str(gtp));
                lemma_split(buf@, q as int, enc_str(gfp) + enc_u32(gto), enc_str(gtp));
                lemma_split(buf@, q as int, enc_str(gfp), enc_u32(gto));
            }
        }
        let (fp, q2) = get_str(buf, q, Ghost(gfp))?;
        proof { lemma_join(buf@, pos as int, q as int, q2 as int, head, enc_str(fp@)); }
        let (to, q3) = get_u32(buf, q2, Ghost(gto))?;
        proof { lemma_join(buf@, pos as int, q2 as int, q3 as int, head + enc_str(fp@), enc_u32(to)); }
        let (tp, end) = get_str(buf, q3, Ghost(gtp))?;
        proof { lemma_join(buf@, pos as int, q3 as int, end as int, head + enc_str(fp@) + enc_u32(to), enc_str(tp@)); }
        if t == 7 {
            Ok((MessageType::ConnectPorts { from_module: a, from_port: fp, to_module: to, to_port: tp }, end))
        } else {
            Ok((MessageType::DisconnectPorts { from_module: a, from_port: fp, to_module: to, to_port: tp }, end))
        }
    } else if t == 10 {
        let ghost gids: Seq<ObjectId> = match g {
            MessageType::ComputationComplete { objects_created, .. } => objects_created@,
            _ => Seq::empty(),
        };
        proof {
            if guided {
                assert(g is ComputationComplete);
                match g {
                    MessageType::ComputationComplete { objects_created, .. } => {
                        assert(objects_created@.len() == objects_created.len());
                    },
                    _ => {},
                }
                assert(tail == enc_u64(gids.len() as u64) + enc_id_items(gids));
                lemma_split(buf@, q as int, enc_u64(gids.len() as u64), enc_id_items(gids));
            }
        }
        let (n, q2) = get_u64(buf, q, Ghost(gids.len() as u64))?;
        proof { lemma_join(buf@, pos as int, q as int, q2 as int, head, enc_u64(n)); }
        let (ids, end) = get_id_items(buf, q2, n, Ghost(gids))?;
        proof { lemma_join(buf@, pos as int, q2 as int, end as int, head + enc_u64(n), enc_id_items(ids@)); }
        Ok((MessageType::ComputationComplete { module_id: a, objects_created: ids }, end))
    } else if t == 11 {
        let ghost gm: Seq<char> = match g { MessageType::Error { message, .. } => message@, _ => Seq::empty() };
        proof { if guided { assert(g is Error); assert(tail == enc_str(gm)); } }
        let (text, end) = get_str(buf, q, Ghost(gm))?;
        proof { lemma_join(buf@, pos as int, q as int, end as int, head, enc_str(text@)); }
        Ok((MessageType::Error { module_id: a, message: text }, end))
    } else {
        let ghost gd: Seq<u8> = match g { MessageType::Custom { data, .. } => data@, _ => Seq::empty() };
        proof { if guided { assert(g is Custom); assert(tail == enc_bytes(gd)); } }
        let (data, end) = get_bytes(buf, q, Ghost(gd))?;
        proof { lemma_join(buf@, pos as int, q as int, end as int, head, enc_bytes(data@)); }
        Ok((MessageType::Custom { type_id: a, data }, end))
    }
}

fn priority_from_code(c: u8) -> (r: Option<Priority>)
    ensures
        r matches Some(p) ==> priority_code(p) == c,
        r is None <==> c > 3,
{
    match c {
        0 => Some(Priority::Low),
        1 => Some(Priority::Normal),
        2 => Some(Priority::High),
        3 => Some(Priority::Critical),
        _ => None,
    }
}

fn get_message(buf: &[u8], pos: usize, Ghost(g): Ghost<Message>) -> (r: Result<(Message, usize), CodecError>)
    ensures
        r matches Ok((m, p)) ==> read_at(buf@, pos as int, p as int, enc_message(m)),
        holds_at(buf@, pos as int, enc_message(g)) ==> (r matches Ok((m, p)) && p == pos + enc_message(g).len()),
{
    let ghost guided = holds_at(buf@, pos as int, enc_message(g));
    let ghost a1 = enc_u128(g.id.0);
    let ghost a2 = enc_u32(g.sender);
    let ghost a3 = enc_u32(g.recipient);
    let ghost a4 = seq![priority_code(g.priority)];
    let ghost a5 = enc_kind(g.message_type);
    let ghost a6 = enc_u64(g.timestamp_ns);
    proof {
        if guided {
            lemma_split(buf@, pos as int, a1 + a2 + a3 + a4 + a5, a6);
            lemma_split(buf@, pos as int, a1 + a2 + a3 + a4, a5);
            lemma_split(buf@, pos as int, a1 + a2 + a3, a4);
            lemma_split(buf@, pos as int, a1 + a2, a3);
            lemma_split(buf@, pos as int, a1, a2);
        }
    }
    let (id, p1) = get_u128(buf, pos, Ghost(g.id.0))?;
    let (sender, p2) = get_u32(buf, p1, Ghost(g.sender))?;
    let (recipient, p3) = get_u32(buf, p2, Ghost(g.recipient))?;
    let (pc, p4) = get_u8(buf, p3, Ghost(priority_code(g.priority)))?;
    let priority = match priority_from_code(pc) {
        Some(pr) => pr,
        None => {
            return Err(CodecError::UnknownTag(pc));
        },
    };
    let (kind, p5) = get_kind(buf, p4, Ghost(g.message_type))?;
    let (ts, p6) = get_u64(buf, p5, Ghost(g.timestamp_ns))?;
    proof {
        lemma_join(buf@, pos as int, p1 as int, p2 as int, enc_u128(id), enc_u32(sender));
        lemma_join(buf@, pos as int, p2 as int, p3 as int, enc_u128(id) + enc_u32(sender), enc_u32(recipient));
        lemma_join(buf@, pos as int, p3 as int, p4 as int, enc_u128(id) + enc_u32(sender) + enc_u32(recipient), seq![pc]);
        lemma_join(buf@, pos as int, p4 as int, p5 as int,
            enc_u128(id) + enc_u32(sender) + enc_u32(recipient) + seq![pc], enc_kind(kind));
        lemma_join(buf@, pos as int, p5 as int, p6 as int,
            enc_u128(id) + enc_u32(sender) + enc_u32(recipient) + seq![pc] + enc_kind(kind), enc_u64(ts));
        if guided {
            lemma_same_read(buf@, pos as int, p1 as int, enc_u128(id), a1);
        }
    }
    let m = Message { id: MessageId(id), sender, recipient, priority, message_type: kind, timestamp_ns: ts };
    Ok((m, p6))
}

/// Reads an envelope. What is accepted is exactly the encoding of the
/// envelope returned, and the encoding of any envelope is accepted and
/// gives back that envelope.
pub fn decode_envelope(buf: &[u8]) -> (r: Result<MessageEnvelope, CodecError>)
    ensures
        r matches Ok(e) ==> enc_envelope(e) == buf@,
        (exists|e: MessageEnvelope| enc_envelope(e) == buf@) ==> r is Ok,
        forall|e: MessageEnvelope| enc_envelope(e) == buf@ ==> (r matches Ok(d) && same_envelope(d, e)),
{
    let ghost g: MessageEnvelope = choose|e: MessageEnvelope| enc_envelope(e) == buf@;
    let ghost guided = enc_envelope(g) == buf@;
    let ghost gdata: Seq<u8> = match g.payload {
        MessagePayload::Empty => Seq::empty(),
        MessagePayload::ObjectData(b) => b@,
        MessagePayload::ParameterData(b) => b@,
        MessagePayload::Custom(b) => b@,
    };
    let ghost gt: u8 = match g.payload {
        MessagePayload::Empty => 0,
        MessagePayload::ObjectData(_) => 1,
        MessagePayload::ParameterData(_) => 2,
        MessagePayload::Custom(_) => 3,
    };
    proof {
        if guided {
            assert(buf@.subrange(0, buf@.len() as int) =~= buf@);
            assert(enc_payload(g.payload) == seq![gt] + enc_bytes(gdata));
            lemma_split(buf@, 0, enc_message(g.message), seq![gt] + enc_bytes(gdata));
            lemma_split(buf@, enc_message(g.message).len() as int, seq![gt], enc_bytes(gdata));
        }
    }
    let (message, p) = get_message(buf, 0, Ghost(g.message))?;
    let (t, q) = get_u8(buf, p, Ghost(gt))?;
    if t > 3 {
        return Err(CodecError::UnknownTag(t));
    }
    let (data, e) = get_bytes(buf, q, Ghost(gdata))?;
    if e != buf.len() {
        return Err(CodecError::TrailingBytes);
    }
    proof {
        lemma_join(buf@, 0, p as int, q as int, enc_message(message), seq![t]);
        lemma_join(buf@, 0, q as int, e as int, enc_message(message) + seq![t], enc_bytes(data@));
        assert(buf@.subrange(0, buf@.len() as int) =~= buf@);
    }
    let payload = if t == 0 {
        if data.len() != 0 {
            return Err(CodecError::UnknownTag(t));
        }
        assert(data@ =~= Seq::<u8>::empty());
        MessagePayload::Empty
    } else if t == 1 {
        MessagePayload::ObjectData(data)
    } else if t == 2 {
        MessagePayload::ParameterData(data)
    } else {
        MessagePayload::Custom(data)
    };
    let env = MessageEnvelope { message, payload };
    assert(enc_envelope(env) =~= buf@);
    proof {
        assert forall|e: MessageEnvelope| enc_envelope(e) == buf@ implies same_envelope(env, e) by {
            law_encoding_injective(env, e);
        }
    }
    Ok(env)
}

// ---- the encoding is injective ----

proof fn lemma_cat_eq(x1: Seq<u8>, y1: Seq<u8>, x2: Seq<u8>, y2: Seq<u8>)
    requires
        x1 + y1 == x2 + y2,
        x1.len() == x2.len(),
    ensures
        x1 == x2,
        y1 == y2,
{
    assert(x1 =~= (x1 + y1).subrange(0, x1.len() as int));
    assert(x2 =~= (x2 + y2).subrange(0, x2.len() as int));
    assert(y1 =~= (x1 + y1).subrange(x1.len() as int, (x1 + y1).len() as int));
    assert(y2 =~= (x2 + y2).subrange(x2.len() as int, (x2 + y2).len() as int));
}

proof fn lemma_u32_inj(a: u32, b: u32, r1: Seq<u8>, r2: Seq<u8>)
    requires
        enc_u32(a) + r1 == enc_u32(b) + r2,
    ensures
        a == b,
        r1 == r2,
{
    lemma_auto_spec_u32_to_from_le_bytes();
    lemma_cat_eq(enc_u32(a), r1, enc_u32(b), r2);
}

proof fn lemma_i32_inj(a: i32, b: i32, r1: Seq<u8>, r2: Seq<u8>)
    requires
        enc_i32(a) + r1 == enc_i32(b) + r2,
    ensures
        a == b,
        r1 == r2,
{
    lemma_u32_inj(a as u32, b as u32, r1, r2);
    assert(a == b) by (bit_vector)
        requires a as u32 == b as u32;
}

proof fn lemma_u64_inj(a: u64, b: u64, r1: Seq<u8>, r2: Seq<u8>)
    requires
        enc_u64(a) + r1 == enc_u64(b) + r2,
    ensures
        a == b,
        r1 == r2,
{
    lemma_auto_spec_u64_to_from_le_bytes();
    lemma_cat_eq(enc_u64(a), r1, enc_u64(b), r2);
}

proof fn lemma_u128_inj(a: u128, b: u128, r1: Seq<u8>, r2: Seq<u8>)
    requires
        enc_u128(a) + r1 == enc_u128(b) + r2,
    ensures
        a == b,
        r1 == r2,
{
    lemma_auto_spec_u128_to_from_le_bytes();
    lemma_cat_eq(enc_u128(a), r1, enc_u128(b), r2);
}

proof fn lemma_u8_inj(a: u8, b: u8, r1: Seq<u8>, r2: Seq<u8>)
    requires
        seq![a] + r1 == seq![b] + r2,
    ensures
        a == b,
        r1 == r2,
{
    lemma_cat_eq(seq![a], r1, seq![b], r2);
    assert(seq![a][0] == seq![b][0]);
}

proof fn lemma_bytes_inj(a: Seq<u8>, b: Seq<u8>, r1: Seq<u8>, r2: Seq<u8>)
    requires
        enc_bytes(a) + r1 == enc_bytes(b) + r2,
        (enc_bytes(a) + r1).len() <= u64::MAX,
    ensures
        a == b,
        r1 == r2,
{
    lemma_auto_spec_u64_to_from_le_bytes();
    assert(enc_bytes(a) + r1 =~= enc_u64(a.len() as u64) + (a + r1));
    assert(enc_bytes(b) + r2 =~= enc_u64(b.len() as u64) + (b + r2));
    lemma_u64_inj(a.len() as u64, b.len() as u64, a + r1, b + r2);
    lemma_cat_eq(a, r1, b, r2);
}

proof fn lemma_str_inj(a: Seq<char>, b: Seq<char>, r1: Seq<u8>, r2: Seq<u8>)
    requires
        enc_str(a) + r1 == enc_str(b) + r2,
        (enc_str(a) + r1).len() <= u64::MAX,
    ensures
        a == b,
        r1 == r2,
{
    lemma_bytes_inj(encode_utf8(a), encode_utf8(b), r1, r2);
    vstd::utf8::encode_utf8_decode_utf8(a);
    vstd::utf8::encode_utf8_decode_utf8(b);
}

proof fn lemma_items_front<T>(s: Seq<T>, f: spec_fn(T) -> Seq<u8>)
    requires
        s.len() > 0,
    ensures
        enc_items(s, f) == f(s[0]) + enc_items(s.drop_first(), f),
    decreases s.len(),
{
    if s.len() == 1 {
        assert(s.drop_first() =~= Seq::<T>::empty());
        assert(s.drop_last() =~= Seq::<T>::empty());
        assert(enc_items(s, f) =~= f(s[0]) + enc_items(s.drop_first(), f));
    } else {
        lemma_items_front(s.drop_last(), f);
        assert(s.drop_last().drop_first() =~= s.drop_first().drop_last());
        assert(s.drop_first().last() == s.last());
        assert(enc_items(s, f) =~= f(s[0]) + enc_items(s.drop_first(), f));
    }
}

proof fn lemma_i32_items_inj(a: Seq<i32>, b: Seq<i32>, r1: Seq<u8>, r2: Seq<u8>)
    requires
        a.len() == b.len(),
        enc_i32_items(a) + r1 == enc_i32_items(b) + r2,
    ensures
        a == b,
        r1 == r2,
    decreases a.len(),
{
    if a.len() == 0 {
        assert(enc_i32_items(a) + r1 =~= r1);
        assert(enc_i32_items(b) + r2 =~= r2);
        assert(a =~= b);
    } else {
        lemma_items_front(a, i32_item());
        lemma_items_front(b, i32_item());
        let ta = enc_i32_items(a.drop_first()) + r1;
        let tb = enc_i32_items(b.drop_first()) + r2;
        assert(enc_i32_items(a) + r1 =~= enc_i32(a[0]) + ta);
        assert(enc_i32_items(b) + r2 =~= enc_i32(b[0]) + tb);
        lemma_i32_inj(a[0], b[0], ta, tb);
        lemma_i32_items_inj(a.drop_first(), b.drop_first(), r1, r2);
        assert(a =~= seq![a[0]] + a.drop_first());
        assert(b =~= seq![b[0]] + b.drop_first());
    }
}

proof fn lemma_u32_items_inj(a: Seq<u32>, b: Seq<u32>, r1: Seq<u8>, r2: Seq<u8>)
    requires
        a.len() == b.len(),
        enc_u32_items(a) + r1 == enc_u32_items(b) + r2,
    ensures
        a == b,
        r1 == r2,
    decreases a.len(),
{
    if a.len() == 0 {
        assert(enc_u32_items(a) + r1 =~= r1);
        assert(enc_u32_items(b) + r2 =~= r2);
        assert(a =~= b);
    } else {
        lemma_items_front(a, u32_item());
        lemma_items_front(b, u32_item());
        let ta = enc_u32_items(a.drop_first()) + r1;
        let tb = enc_u32_items(b.drop_first()) + r2;
        assert(enc_u32_items(a) + r1 =~= enc_u32(a[0]) + ta);
        assert(enc_u32_items(b) + r2 =~= enc_u32(b[0]) + tb);
        lemma_u32_inj(a[0], b[0], ta, tb);
        lemma_u32_items_inj(a.drop_first(), b.drop_first(), r1, r2);
        assert(a =~= seq![a[0]] + a.drop_first());
        assert(b =~= seq![b[0]] + b.drop_first());
    }
}

proof fn lemma_id_items_inj(a: Seq<ObjectId>, b: Seq<ObjectId>, r1: Seq<u8>, r2: Seq<u8>)
    requires
        a.len() == b.len(),
        enc_id_items(a) + r1 == enc_id_items(b) + r2,
    ensures
        a == b,
        r1 == r2,
    decreases a.len(),
{
    if a.len() == 0 {
        assert(enc_id_items(a) + r1 =~= r1);
        assert(enc_id_items(b) + r2 =~= r2);
        assert(a =~= b);
    } else {
        lemma_items_front(a, id_item());
        lemma_items_front(b, id_item());
        let ta = enc_id_items(a.drop_first()) + r1;
        let tb = enc_id_items(b.drop_first()) + r2;
        assert(enc_id_items(a) + r1 =~= enc_u128(a[0].0) + ta);
        assert(enc_id_items(b) + r2 =~= enc_u128(b[0].0) + tb);
        lemma_u128_inj(a[0].0, b[0].0, ta, tb);
        lemma_id_items_inj(a.drop_first(), b.drop_first(), r1, r2);
        assert(a =~= seq![a[0]] + a.drop_first());
        assert(b =~= seq![b[0]] + b.drop_first());
    }
}

/// Two sequences of strings with the same characters, string by string.
pub open spec fn same_strings(a: Seq<String>, b: Seq<String>) -> bool {
    a.len() == b.len() && forall|i: int| 0 <= i < a.len() ==> (#[trigger] a[i])@ == b[i]@
}

proof fn lemma_str_items_inj(a: Seq<String>, b: Seq<String>, r1: Seq<u8>, r2: Seq<u8>)
    requires
        a.len() == b.len(),
        enc_str_items(a) + r1 == enc_str_items(b) + r2,
        (enc_str_items(a) + r1).len() <= u64::MAX,
    ensures
        same_strings(a, b),
        r1 == r2,
    decreases a.len(),
{
    if a.len() == 0 {
        assert(enc_str_items(a) + r1 =~= r1);
        assert(enc_str_items(b) + r2 =~= r2);
    } else {
        lemma_items_front(a, str_item());
        lemma_items_front(b, str_item());
        let ta = enc_str_items(a.drop_first()) + r1;
        let tb = enc_str_items(b.drop_first()) + r2;
        assert(enc_str_items(a) + r1 =~= enc_str(a[0]@) + ta);
        assert(enc_str_items(b) + r2 =~= enc_str(b[0]@) + tb);
        lemma_str_inj(a[0]@, b[0]@, ta, tb);
        lemma_str_items_inj(a.drop_first(), b.drop_first(), r1, r2);
        assert forall|i: int| 0 <= i < a.len() implies (#[trigger] a[i])@ == b[i]@ by {
            if i > 0 {
                assert(a.drop_first()[i - 1] == a[i]);
                assert(b.drop_first()[i - 1] == b[i]);
            }
        }
    }
}

/// Two parameter values with the same content.
pub open spec fn same_value(a: ParameterValue, b: ParameterValue) -> bool {
    match (a, b) {
        (ParameterValue::Int(x), ParameterValue::Int(y)) => x == y,
        (ParameterValue::Float(x), ParameterValue::Float(y)) => x == y,
        (ParameterValue::String(x), ParameterValue::String(y)) => x@ == y@,
        (ParameterValue::Bool(x), ParameterValue::Bool(y)) => x == y,
        (ParameterValue::VecInt(x), ParameterValue::VecInt(y)) => x@ == y@,
        (ParameterValue::VecFloat(x), ParameterValue::VecFloat(y)) => x@ == y@,
        (ParameterValue::VecString(x), ParameterValue::VecString(y)) => same_strings(x@, y@),
        _ => false,
    }
}

proof fn lemma_strip_tag(t1: u8, t2: u8, b1: Seq<u8>, b2: Seq<u8>, r1: Seq<u8>, r2: Seq<u8>)
    requires
        (seq![t1] + b1) + r1 == (seq![t2] + b2) + r2,
    ensures
        t1 == t2,
        b1 + r1 == b2 + r2,
{
    assert((seq![t1] + b1) + r1 =~= seq![t1] + (b1 + r1));
    assert((seq![t2] + b2) + r2 =~= seq![t2] + (b2 + r2));
    lemma_u8_inj(t1, t2, b1 + r1, b2 + r2);
}

pub open spec fn value_tag(v: ParameterValue) -> u8 {
    match v {
        ParameterValue::Int(_) => 0,
        ParameterValue::Float(_) => 1,
        ParameterValue::String(_) => 2,
        ParameterValue::Bool(_) => 3,
        ParameterValue::VecInt(_) => 4,
        ParameterValue::VecFloat(_) => 5,
        ParameterValue::VecString(_) => 6,
    }
}

proof fn lemma_value_tag(v: ParameterValue, r: Seq<u8>)
    ensures
        enc_value(v).len() >= 1,
        (enc_value(v) + r)[0] == value_tag(v),
{
    match v {
        ParameterValue::Int(x) => { assert((enc_value(v) + r)[0] == (seq![0u8] + (enc_i32(x) + r))[0]); },
        ParameterValue::Float(x) => { assert((enc_value(v) + r)[0] == (seq![1u8] + (enc_u32(x) + r))[0]); },
        ParameterValue::String(x) => { assert((enc_value(v) + r)[0] == (seq![2u8] + (enc_str(x@) + r))[0]); },
        ParameterValue::Bool(x) => { assert((enc_value(v) + r)[0] == enc_value(v)[0]); },
        ParameterValue::VecInt(x) => { assert((enc_value(v) + r)[0] == (seq![4u8] + (enc_u64(x@.len() as u64) + enc_i32_items(x@) + r))[0]); },
        ParameterValue::VecFloat(x) => { assert((enc_value(v) + r)[0] == (seq![5u8] + (enc_u64(x@.len() as u64) + enc_u32_items(x@) + r))[0]); },
        ParameterValue::VecString(x) => { assert((enc_value(v) + r)[0] == (seq![6u8] + (enc_u64(x@.len() as u64) + enc_str_items(x@) + r))[0]); },
    }
}

proof fn lemma_value_inj(a: ParameterValue, b: ParameterValue, r1: Seq<u8>, r2: Seq<u8>)
    requires
        enc_value(a) + r1 == enc_value(b) + r2,
        (enc_value(a) + r1).len() <= u64::MAX,
    ensures
        same_value(a, b),
        r1 == r2,
{
    lemma_auto_spec_u64_to_from_le_bytes();
    lemma_value_tag(a, r1);
    lemma_value_tag(b, r2);
    assert(value_tag(a) == value_tag(b));
    match a {
        ParameterValue::Int(x) => {
            match b {
                ParameterValue::Int(y) => {
                    lemma_strip_tag(0, 0, enc_i32(x), enc_i32(y), r1, r2);
                    lemma_i32_inj(x, y, r1, r2);
                },
                _ => { assert(value_tag(a) != value_tag(b)); },
            }
        },
        ParameterValue::Float(x) => {
            match b {
                ParameterValue::Float(y) => {
                    lemma_strip_tag(1, 1, enc_u32(x), enc_u32(y), r1, r2);
                    lemma_u32_inj(x, y, r1, r2);
                },
                _ => { assert(value_tag(a) != value_tag(b)); },
            }
        },
        ParameterValue::String(x) => {
            match b {
                ParameterValue::String(y) => {
                    lemma_strip_tag(2, 2, enc_str(x@), enc_str(y@), r1, r2);
                    lemma_str_inj(x@, y@, r1, r2);
                },
                _ => { assert(value_tag(a) != value_tag(b)); },
            }
        },
        ParameterValue::Bool(x) => {
            match b {
                ParameterValue::Bool(y) => {
                    let bx: u8 = if x { 1 } else { 0 };
                    let by: u8 = if y { 1 } else { 0 };
                    assert(enc_value(a) =~= seq![3u8] + seq![bx]);
                    assert(enc_value(b) =~= seq![3u8] + seq![by]);
                    lemma_strip_tag(3, 3, seq![bx], seq![by], r1, r2);
                    lemma_u8_inj(bx, by, r1, r2);
                },
                _ => { assert(value_tag(a) != value_tag(b)); },
            }
        },
        ParameterValue::VecInt(x) => {
            match b {
                ParameterValue::VecInt(y) => {
                    assert(enc_value(a) =~= seq![4u8] + (enc_u64(x@.len() as u64) + enc_i32_items(x@)));
                    assert(enc_value(b) =~= seq![4u8] + (enc_u64(y@.len() as u64) + enc_i32_items(y@)));
                    lemma_strip_tag(4, 4, enc_u64(x@.len() as u64) + enc_i32_items(x@), enc_u64(y@.len() as u64) + enc_i32_items(y@), r1, r2);
                    assert((enc_u64(x@.len() as u64) + enc_i32_items(x@)) + r1 =~= enc_u64(x@.len() as u64) + (enc_i32_items(x@) + r1));
                    assert((enc_u64(y@.len() as u64) + enc_i32_items(y@)) + r2 =~= enc_u64(y@.len() as u64) + (enc_i32_items(y@) + r2));
                    lemma_u64_inj(x@.len() as u64, y@.len() as u64, enc_i32_items(x@) + r1, enc_i32_items(y@) + r2);
                    assert(x@.len() == x.len() && y@.len() == y.len());
                    lemma_i32_items_inj(x@, y@, r1, r2);
                },
                _ => { assert(value_tag(a) != value_tag(b)); },
            }
        },
        ParameterValue::VecFloat(x) => {
            match b {
                ParameterValue::VecFloat(y) => {
                    assert(enc_value(a) =~= seq![5u8] + (enc_u64(x@.len() as u64) + enc_u32_items(x@)));
                    assert(enc_value(b) =~= seq![5u8] + (enc_u64(y@.len() as u64) + enc_u32_items(y@)));
                    lemma_strip_tag(5, 5, enc_u64(x@.len() as u64) + enc_u32_items(x@), enc_u64(y@.len() as u64) + enc_u32_items(y@), r1, r2);
                    assert((enc_u64(x@.len() as u64) + enc_u32_items(x@)) + r1 =~= enc_u64(x@.len() as u64) + (enc_u32_items(x@) + r1));
                    assert((enc_u64(y@.len() as u64) + enc_u32_items(y@)) + r2 =~= enc_u64(y@.len() as u64) + (enc_u32_items(y@) + r2));
                    lemma_u64_inj(x@.len() as u64, y@.len() as u64, enc_u32_items(x@) + r1, enc_u32_items(y@) + r2);
                    assert(x@.len() == x.len() && y@.len() == y.len());
                    lemma_u32_items_inj(x@, y@, r1, r2);
                },
                _ => { assert(value_tag(a) != value_tag(b)); },
            }
        },
        ParameterValue::VecString(x) => {
            match b {
                ParameterValue::VecString(y) => {
                    assert(enc_value(a) =~= seq![6u8] + (enc_u64(x@.len() as u64) + enc_str_items(x@)));
                    assert(enc_value(b) =~= seq![6u8] + (enc_u64(y@.len() as u64) + enc_str_items(y@)));
                    lemma_strip_tag(6, 6, enc_u64(x@.len() as u64) + enc_str_items(x@), enc_u64(y@.len() as u64) + enc_str_items(y@), r1, r2);
                    assert((enc_u64(x@.len() as u64) + enc_str_items(x@)) + r1 =~= enc_u64(x@.len() as u64) + (enc_str_items(x@) + r1));
                    assert((enc_u64(y@.len() as u64) + enc_str_items(y@)) + r2 =~= enc_u64(y@.len() as u64) + (enc_str_items(y@) + r2));
                    lemma_u64_inj(x@.len() as u64, y@.len() as u64, enc_str_items(x@) + r1, enc_str_items(y@) + r2);
                    assert(x@.len() == x.len() && y@.len() == y.len());
                    lemma_str_items_inj(x@, y@, r1, r2);
                },
                _ => { assert(value_tag(a) != value_tag(b)); },
            }
        },
    }
}

proof fn lemma_opt_i32_inj(a: Option<i32>, b: Option<i32>, r1: Seq<u8>, r2: Seq<u8>)
    requires
        enc_opt_i32(a) + r1 == enc_opt_i32(b) + r2,
    ensures
        a == b,
        r1 == r2,
{
    let ta: u8 = if a is Some { 1 } else { 0 };
    let tb: u8 = if b is Some { 1 } else { 0 };
    let ba = match a { Some(x) => enc_i32(x), None => Seq::<u8>::empty() };
    let bb = match b { Some(x) => enc_i32(x), None => Seq::<u8>::empty() };
    assert(enc_opt_i32(a) =~= seq![ta] + ba);
    assert(enc_opt_i32(b) =~= seq![tb] + bb);
    lemma_strip_tag(ta, tb, ba, bb, r1, r2);
    match a {
        Some(x) => {
            match b {
                Some(y) => { lemma_i32_inj(x, y, r1, r2); },
                None => {},
            }
        },
        None => {
            assert(ba + r1 =~= r1);
            assert(bb + r2 =~= r2);
        },
    }
}

proof fn lemma_opt_u32_inj(a: Option<u32>, b: Option<u32>, r1: Seq<u8>, r2: Seq<u8>)
    requires
        enc_opt_u32(a) + r1 == enc_opt_u32(b) + r2,
    ensures
        a == b,
        r1 == r2,
{
    let ta: u8 = if a is Some { 1 } else { 0 };
    let tb: u8 = if b is Some { 1 } else { 0 };
    let ba = match a { Some(x) => enc_u32(x), None => Seq::<u8>::empty() };
    let bb = match b { Some(x) => enc_u32(x), None => Seq::<u8>::empty() };
    assert(enc_opt_u32(a) =~= seq![ta] + ba);
    assert(enc_opt_u32(b) =~= seq![tb] + bb);
    lemma_strip_tag(ta, tb, ba, bb, r1, r2);
    match a {
        Some(x) => {
            match b {
                Some(y) => { lemma_u32_inj(x, y, r1, r2); },
                None => {},
            }
        },
        None => {
            assert(ba + r1 =~= r1);
            assert(bb + r2 =~= r2);
        },
    }
}

pub open spec fn type_tag(t: ParameterType) -> u8 {
    match t {
        ParameterType::Int { .. } => 0,
        ParameterType::Float { .. } => 1,
        ParameterType::String => 2,
        ParameterType::Bool => 3,
        ParameterType::VectorInt { .. } => 4,
        ParameterType::VectorFloat { .. } => 5,
        ParameterType::VectorString => 6,
    }
}

/// The bytes after the tag of a parameter type.
pub open spec fn type_body(t: ParameterType) -> Seq<u8> {
    match t {
        ParameterType::Int { min, max } => enc_opt_i32(min) + enc_opt_i32(max),
        ParameterType::Float { min, max } => enc_opt_u32(min) + enc_opt_u32(max),
        ParameterType::VectorInt { min, max } => enc_opt_i32(min) + enc_opt_i32(max),
        ParameterType::VectorFloat { min, max } => enc_opt_u32(min) + enc_opt_u32(max),
        _ => Seq::empty(),
    }
}

#[verifier::rlimit(100)]
proof fn lemma_type_inj(a: ParameterType, b: ParameterType, r1: Seq<u8>, r2: Seq<u8>)
    requires
        enc_type(a) + r1 == enc_type(b) + r2,
    ensures
        a == b,
        r1 == r2,
{
    assert(enc_type(a) =~= seq![type_tag(a)] + type_body(a));
    assert(enc_type(b) =~= seq![type_tag(b)] + type_body(b));
    lemma_strip_tag(type_tag(a), type_tag(b), type_body(a), type_body(b), r1, r2);
    match a {
        ParameterType::Int { min: a1, max: a2 } => {
            match b {
                ParameterType::Int { min: b1, max: b2 } => {
                    assert((enc_opt_i32(a1) + enc_opt_i32(a2)) + r1 =~= enc_opt_i32(a1) + (enc_opt_i32(a2) + r1));
                    assert((enc_opt_i32(b1) + enc_opt_i32(b2)) + r2 =~= enc_opt_i32(b1) + (enc_opt_i32(b2) + r2));
                    lemma_opt_i32_inj(a1, b1, enc_opt_i32(a2) + r1, enc_opt_i32(b2) + r2);
                    lemma_opt_i32_inj(a2, b2, r1, r2);
                },
                _ => { assert(type_tag(a) != type_tag(b)); },
            }
        },
        ParameterType::VectorInt { min: a1, max: a2 } => {
            match b {
                ParameterType::VectorInt { min: b1, max: b2 } => {
                    assert((enc_opt_i32(a1) + enc_opt_i32(a2)) + r1 =~= enc_opt_i32(a1) + (enc_opt_i32(a2) + r1));
                    assert((enc_opt_i32(b1) + enc_opt_i32(b2)) + r2 =~= enc_opt_i32(b1) + (enc_opt_i32(b2) + r2));
                    lemma_opt_i32_inj(a1, b1, enc_opt_i32(a2) + r1, enc_opt_i32(b2) + r2);
                    lemma_opt_i32_inj(a2, b2, r1, r2);
                },
                _ => { assert(type_tag(a) != type_tag(b)); },
            }
        },
        ParameterType::Float { min: a1, max: a2 } => {
            match b {
                ParameterType::Float { min: b1, max: b2 } => {
                    assert((enc_opt_u32(a1) + enc_opt_u32(a2)) + r1 =~= enc_opt_u32(a1) + (enc_opt_u32(a2) + r1));
                    assert((enc_opt_u32(b1) + enc_opt_u32(b2)) + r2 =~= enc_opt_u32(b1) + (enc_opt_u32(b2) + r2));
                    lemma_opt_u32_inj(a1, b1, enc_opt_u32(a2) + r1, enc_opt_u32(b2) + r2);
                    lemma_opt_u32_inj(a2, b2, r1, r2);
                },
                _ => { assert(type_tag(a) != type_tag(b)); },
            }
        },
        ParameterType::VectorFloat { min: a1, max: a2 } => {
            match b {
                ParameterType::VectorFloat { min: b1, max: b2 } => {
                    assert((enc_opt_u32(a1) + enc_opt_u32(a2)) + r1 =~= enc_opt_u32(a1) + (enc_opt_u32(a2) + r1));
                    assert((enc_opt_u32(b1) + enc_opt_u32(b2)) + r2 =~= enc_opt_u32(b1) + (enc_opt_u32(b2) + r2));
                    lemma_opt_u32_inj(a1, b1, enc_opt_u32(a2) + r1, enc_opt_u32(b2) + r2);
                    lemma_opt_u32_inj(a2, b2, r1, r2);
                },
                _ => { assert(type_tag(a) != type_tag(b)); },
            }
        },
        _ => {
            assert(type_body(a) + r1 =~= r1);
            assert(type_body(b) + r2 =~= r2);
        },
    }
}

/// Two message kinds with the same content.
pub open spec fn same_kind(a: MessageType, b: MessageType) -> bool {
    match (a, b) {
        (MessageType::Execute { module_id: a_module_id, timestep: a_timestep }, MessageType::Execute { module_id: b_module_id, timestep: b_timestep }) => a_module_id == b_module_id && a_timestep == b_timestep,
        (MessageType::CancelExecute { module_id: a_module_id }, MessageType::CancelExecute { module_id: b_module_id }) => a_module_id == b_module_id,
        (MessageType::Quit, MessageType::Quit) => true,
        (MessageType::AddObject { object_id: a_object_id, port_name: a_port_name }, MessageType::AddObject { object_id: b_object_id, port_name: b_port_name }) => a_object_id == b_object_id && a_port_name@ == b_port_name@,
        (MessageType::RemoveObject { object_id: a_object_id }, MessageType::RemoveObject { object_id: b_object_id }) => a_object_id == b_object_id,
        (MessageType::SetParameter { module_id: a_module_id, param_name: a_param_name, value: a_value }, MessageType::SetParameter { module_id: b_module_id, param_name: b_param_name, value: b_value }) => a_module_id == b_module_id && a_param_name@ == b_param_name@ && same_value(a_value, b_value),
        (MessageType::AddParameter { module_id: a_module_id, param_name: a_param_name, param_type: a_param_type }, MessageType::AddParameter { module_id: b_module_id, param_name: b_param_name, param_type: b_param_type }) => a_module_id == b_module_id && a_param_name@ == b_param_name@ && a_param_type == b_param_type,
        (MessageType::ConnectPorts { from_module: a_from_module, from_port: a_from_port, to_module: a_to_module, to_port: a_to_port }, MessageType::ConnectPorts { from_module: b_from_module, from_port: b_from_port, to_module: b_to_module, to_port: b_to_port }) => a_from_module == b_from_module && a_from_port@ == b_from_port@ && a_to_module == b_to_module && a_to_port@ == b_to_port@,
        (MessageType::DisconnectPorts { from_module: a_from_module, from_port: a_from_port, to_module: a_to_module, to_port: a_to_port }, MessageType::DisconnectPorts { from_module: b_from_module, from_port: b_from_port, to_module: b_to_module, to_port: b_to_port }) => a_from_module == b_from_module && a_from_port@ == b_from_port@ && a_to_module == b_to_module && a_to_port@ == b_to_port@,
        (MessageType::ModuleReady { module_id: a_module_id }, MessageType::ModuleReady { module_id: b_module_id }) => a_module_id == b_module_id,
        (MessageType::ComputationComplete { module_id: a_module_id, objects_created: a_objects_created }, MessageType::ComputationComplete { module_id: b_module_id, objects_created: b_objects_created }) => a_module_id == b_module_id && a_objects_created@ == b_objects_created@,
        (MessageType::Error { module_id: a_module_id, message: a_message }, MessageType::Error { module_id: b_module_id, message: b_message }) => a_module_id == b_module_id && a_message@ == b_message@,
        (MessageType::Custom { type_id: a_type_id, data: a_data }, MessageType::Custom { type_id: b_type_id, data: b_data }) => a_type_id == b_type_id && a_data@ == b_data@,
        _ => false,
    }
}

pub open spec fn kind_tag(k: MessageType) -> u8 {
    match k {
        MessageType::Execute { .. } => 0,
        MessageType::CancelExecute { .. } => 1,
        MessageType::Quit => 2,
        MessageType::AddObject { .. } => 3,
        MessageType::RemoveObject { .. } => 4,
        MessageType::SetParameter { .. } => 5,
        MessageType::AddParameter { .. } => 6,
        MessageType::ConnectPorts { .. } => 7,
        MessageType::DisconnectPorts { .. } => 8,
        MessageType::ModuleReady { .. } => 9,
        MessageType::ComputationComplete { .. } => 10,
        MessageType::Error { .. } => 11,
        MessageType::Custom { .. } => 12,
    }
}

/// The bytes after the tag of a message kind.
pub open spec fn kind_body(k: MessageType) -> Seq<u8> {
    match k {
        MessageType::Execute { module_id, timestep } => enc_u32(module_id) + enc_i32(timestep),
        MessageType::CancelExecute { module_id } => enc_u32(module_id),
        MessageType::Quit => Seq::empty(),
        MessageType::AddObject { object_id, port_name } => enc_u128(object_id.0) + enc_str(port_name@),
        MessageType::RemoveObject { object_id } => enc_u128(object_id.0),
        MessageType::SetParameter { module_id, param_name, value } => enc_u32(module_id) + enc_str(param_name@) + enc_value(value),
        MessageType::AddParameter { module_id, param_name, param_type } => enc_u32(module_id) + enc_str(param_name@) + enc_type(param_type),
        MessageType::ConnectPorts { from_module, from_port, to_module, to_port } => enc_u32(from_module) + enc_str(from_port@) + enc_u32(to_module) + enc_str(to_port@),
        MessageType::DisconnectPorts { from_module, from_port, to_module, to_port } => enc_u32(from_module) + enc_str(from_port@) + enc_u32(to_module) + enc_str(to_port@),
        MessageType::ModuleReady { module_id } => enc_u32(module_id),
        MessageType::ComputationComplete { module_id, objects_created } => enc_u32(module_id) + enc_u64(objects_created@.len() as u64) + enc_id_items(objects_created@),
        MessageType::Error { module_id, message } => enc_u32(module_id) + enc_str(message@),
        MessageType::Custom { type_id, data } => enc_u32(type_id) + enc_bytes(data@),
    }
}

#[verifier::rlimit(100)]
proof fn lemma_kind_inj(a: MessageType, b: MessageType, r1: Seq<u8>, r2: Seq<u8>)
    requires
        enc_kind(a) + r1 == enc_kind(b) + r2,
        (enc_kind(a) + r1).len() <= u64::MAX,
    ensures
        same_kind(a, b),
        r1 == r2,
{
    lemma_auto_spec_u64_to_from_le_bytes();
    assert(enc_kind(a) =~= seq![kind_tag(a)] + kind_body(a));
    assert(enc_kind(b) =~= seq![kind_tag(b)] + kind_body(b));
    lemma_strip_tag(kind_tag(a), kind_tag(b), kind_body(a), kind_body(b), r1, r2);
    match a {
        MessageType::Execute { module_id: a_module_id, timestep: a_timestep } => {
            match b {
                MessageType::Execute { module_id: b_module_id, timestep: b_timestep } => {
                    assert(kind_body(a) + r1 =~= enc_u32(a_module_id) + (enc_i32(a_timestep) + (r1)));
                    assert(kind_body(b) + r2 =~= enc_u32(b_module_id) + (enc_i32(b_timestep) + (r2)));
                    lemma_u32_inj(a_module_id, b_module_id, enc_i32(a_timestep) + (r1), enc_i32(b_timestep) + (r2));
                    lemma_i32_inj(a_timestep, b_timestep, r1, r2);
                },
                _ => { assert(kind_tag(a) != kind_tag(b)); },
            }
        },
        MessageType::CancelExecute { module_id: a_module_id } => {
            match b {
                MessageType::CancelExecute { module_id: b_module_id } => {
                    assert(kind_body(a) + r1 =~= enc_u32(a_module_id) + (r1));
                    assert(kind_body(b) + r2 =~= enc_u32(b_module_id) + (r2));
                    lemma_u32_inj(a_module_id, b_module_id, r1, r2);
                },
                _ => { assert(kind_tag(a) != kind_tag(b)); },
            }
        },
        MessageType::Quit => {
            match b {
                MessageType::Quit => {
                    assert(kind_body(a) + r1 =~= r1);
                    assert(kind_body(b) + r2 =~= r2);
                },
                _ => { assert(kind_tag(a) != kind_tag(b)); },
            }
        },
        MessageType::AddObject { object_id: a_object_id, port_name: a_port_name } => {
            match b {
                MessageType::AddObject { object_id: b_object_id, port_name: b_port_name } => {
                    assert(kind_body(a) + r1 =~= enc_u128(a_object_id.0) + (enc_str(a_port_name@) + (r1)));
                    assert(kind_body(b) + r2 =~= enc_u128(b_object_id.0) + (enc_str(b_port_name@) + (r2)));
                    lemma_u128_inj(a_object_id.0, b_object_id.0, enc_str(a_port_name@) + (r1), enc_str(b_port_name@) + (r2));
                    lemma_str_inj(a_port_name@, b_port_name@, r1, r2);
                },
                _ => { assert(kind_tag(a) != kind_tag(b)); },
            }
        },
        MessageType::RemoveObject { object_id: a_object_id } => {
            match b {
                MessageType::RemoveObject { object_id: b_object_id } => {
                    assert(kind_body(a) + r1 =~= enc_u128(a_object_id.0) + (r1));
                    assert(kind_body(b) + r2 =~= enc_u128(b_object_id.0) + (r2));
                    lemma_u128_inj(a_object_id.0, b_object_id.0, r1, r2);
                },
                _ => { assert(kind_tag(a) != kind_tag(b)); },
            }
        },
        MessageType::SetParameter { module_id: a_module_id, param_name: a_param_name, value: a_value } => {
            match b {
                MessageType::SetParameter { module_id: b_module_id, param_name: b_param_name, value: b_value } => {
                    assert(kind_body(a) + r1 =~= enc_u32(a_module_id) + (enc_str(a_param_name@) + (enc_value(a_value) + (r1))));
                    assert(kind_body(b) + r2 =~= enc_u32(b_module_id) + (enc_str(b_param_name@) + (enc_value(b_value) + (r2))));
                    lemma_u32_inj(a_module_id, b_module_id, enc_str(a_param_name@) + (enc_value(a_value) + (r1)), enc_str(b_param_name@) + (enc_value(b_value) + (r2)));
                    lemma_str_inj(a_param_name@, b_param_name@, enc_value(a_value) + (r1), enc_value(b_value) + (r2));
                    lemma_value_inj(a_value, b_value, r1, r2);
                },
                _ => { assert(kind_tag(a) != kind_tag(b)); },
            }
        },
        MessageType::AddParameter { module_id: a_module_id, param_name: a_param_name, param_type: a_param_type } => {
            match b {
                MessageType::AddParameter { module_id: b_module_id, param_name: b_param_name, param_type: b_param_type } => {
                    assert(kind_body(a) + r1 =~= enc_u32(a_module_id) + (enc_str(a_param_name@) + (enc_type(a_param_type) + (r1))));
                    assert(kind_body(b) + r2 =~= enc_u32(b_module_id) + (enc_str(b_param_name@) + (enc_type(b_param_type) + (r2))));
                    lemma_u32_inj(a_module_id, b_module_id, enc_str(a_param_name@) + (enc_type(a_param_type) + (r1)), enc_str(b_param_name@) + (enc_type(b_param_type) + (r2)));
                    lemma_str_inj(a_param_name@, b_param_name@, enc_type(a_param_type) + (r1), enc_type(b_param_type) + (r2));
                    lemma_type_inj(a_param_type, b_param_type, r1, r2);
                },
                _ => { assert(kind_tag(a) != kind_tag(b)); },
            }
        },
        MessageType::ConnectPorts { from_module: a_from_module, from_port: a_from_port, to_module: a_to_module, to_port: a_to_port } => {
            match b {
                MessageType::ConnectPorts { from_module: b_from_module, from_port: b_from_port, to_module: b_to_module, to_port: b_to_port } => {
                    assert(kind_body(a) + r1 =~= enc_u32(a_from_module) + (enc_str(a_from_port@) + (enc_u32(a_to_module) + (enc_str(a_to_port@) + (r1)))));
                    assert(kind_body(b) + r2 =~= enc_u32(b_from_module) + (enc_str(b_from_port@) + (enc_u32(b_to_module) + (enc_str(b_to_port@) + (r2)))));
                    lemma_u32_inj(a_from_module, b_from_module, enc_str(a_from_port@) + (enc_u32(a_to_module) + (enc_str(a_to_port@) + (r1))), enc_str(b_from_port@) + (enc_u32(b_to_module) + (enc_str(b_to_port@) + (r2))));
                    lemma_str_inj(a_from_port@, b_from_port@, enc_u32(a_to_module) + (enc_str(a_to_port@) + (r1)), enc_u32(b_to_module) + (enc_str(b_to_port@) + (r2)));
                    lemma_u32_inj(a_to_module, b_to_module, enc_str(a_to_port@) + (r1), enc_str(b_to_port@) + (r2));
                    lemma_str_inj(a_to_port@, b_to_port@, r1, r2);
                },
                _ => { assert(kind_tag(a) != kind_tag(b)); },
            }
        },
        MessageType::DisconnectPorts { from_module: a_from_module, from_port: a_from_port, to_module: a_to_module, to_port: a_to_port } => {
            match b {
                MessageType::DisconnectPorts { from_module: b_from_module, from_port: b_from_port, to_module: b_to_module, to_port: b_to_port } => {
                    assert(kind_body(a) + r1 =~= enc_u32(a_from_module) + (enc_str(a_from_port@) + (enc_u32(a_to_module) + (enc_str(a_to_port@) + (r1)))));
                    assert(kind_body(b) + r2 =~= enc_u32(b_from_module) + (enc_str(b_from_port@) + (enc_u32(b_to_module) + (enc_str(b_to_port@) + (r2)))));
                    lemma_u32_inj(a_from_module, b_from_module, enc_str(a_from_port@) + (enc_u32(a_to_module) + (enc_str(a_to_port@) + (r1))), enc_str(b_from_port@) + (enc_u32(b_to_module) + (enc_str(b_to_port@) + (r2))));
                    lemma_str_inj(a_from_port@, b_from_port@, enc_u32(a_to_module) + (enc_str(a_to_port@) + (r1)), enc_u32(b_to_module) + (enc_str(b_to_port@) + (r2)));
                    lemma_u32_inj(a_to_module, b_to_module, enc_str(a_to_port@) + (r1), enc_str(b_to_port@) + (r2));
                    lemma_str_inj(a_to_port@, b_to_port@, r1, r2);
                },
                _ => { assert(kind_tag(a) != kind_tag(b)); },
            }
        },
        MessageType::ModuleReady { module_id: a_module_id } => {
            match b {
                MessageType::ModuleReady { module_id: b_module_id } => {
                    assert(kind_body(a) + r1 =~= enc_u32(a_module_id) + (r1));
                    assert(kind_body(b) + r2 =~= enc_u32(b_module_id) + (r2));
                    lemma_u32_inj(a_module_id, b_module_id, r1, r2);
                },
                _ => { assert(kind_tag(a) != kind_tag(b)); },
            }
        },
        MessageType::ComputationComplete { module_id: a_module_id, objects_created: a_objects_created } => {
            match b {
                MessageType::ComputationComplete { module_id: b_module_id, objects_created: b_objects_created } => {
                    assert(kind_body(a) + r1 =~= enc_u32(a_module_id) + (enc_u64(a_objects_created@.len() as u64) + (enc_id_items(a_objects_created@) + (r1))));
                    assert(kind_body(b) + r2 =~= enc_u32(b_module_id) + (enc_u64(b_objects_created@.len() as u64) + (enc_id_items(b_objects_created@) + (r2))));
                    lemma_u32_inj(a_module_id, b_module_id, enc_u64(a_objects_created@.len() as u64) + (enc_id_items(a_objects_created@) + (r1)), enc_u64(b_objects_created@.len() as u64) + (enc_id_items(b_objects_created@) + (r2)));
                    lemma_u64_inj(a_objects_created@.len() as u64, b_objects_created@.len() as u64, enc_id_items(a_objects_created@) + (r1), enc_id_items(b_objects_created@) + (r2));
                    assert(a_objects_created@.len() == a_objects_created.len() && b_objects_created@.len() == b_objects_created.len());
                    lemma_id_items_inj(a_objects_created@, b_objects_created@, r1, r2);
                },
                _ => { assert(kind_tag(a) != kind_tag(b)); },
            }
        },
        MessageType::Error { module_id: a_module_id, message: a_message } => {
            match b {
                MessageType::Error { module_id: b_module_id, message: b_message } => {
                    assert(kind_body(a) + r1 =~= enc_u32(a_module_id) + (enc_str(a_message@) + (r1)));
                    assert(kind_body(b) + r2 =~= enc_u32(b_module_id) + (enc_str(b_message@) + (r2)));
                    lemma_u32_inj(a_module_id, b_module_id, enc_str(a_message@) + (r1), enc_str(b_message@) + (r2));
                    lemma_str_inj(a_message@, b_message@, r1, r2);
                },
                _ => { assert(kind_tag(a) != kind_tag(b)); },
            }
        },
        MessageType::Custom { type_id: a_type_id, data: a_data } => {
            match b {
                MessageType::Custom { type_id: b_type_id, data: b_data } => {
                    assert(kind_body(a) + r1 =~= enc_u32(a_type_id) + (enc_bytes(a_data@) + (r1)));
                    assert(kind_body(b) + r2 =~= enc_u32(b_type_id) + (enc_bytes(b_data@) + (r2)));
                    lemma_u32_inj(a_type_id, b_type_id, enc_bytes(a_data@) + (r1), enc_bytes(b_data@) + (r2));
                    lemma_bytes_inj(a_data@, b_data@, r1, r2);
                },
                _ => { assert(kind_tag(a) != kind_tag(b)); },
            }
        },
    }
}

/// Two messages with the same content.
pub open spec fn same_message(a: Message, b: Message) -> bool {
    &&& a.id == b.id
    &&& a.sender == b.sender
    &&& a.recipient == b.recipient
    &&& a.priority == b.priority
    &&& same_kind(a.message_type, b.message_type)
    &&& a.timestamp_ns == b.timestamp_ns
}

/// Two payloads of the same kind with the same bytes.
pub open spec fn same_payload(a: MessagePayload, b: MessagePayload) -> bool {
    match (a, b) {
        (MessagePayload::Empty, MessagePayload::Empty) => true,
        (MessagePayload::ObjectData(x), MessagePayload::ObjectData(y)) => x@ == y@,
        (MessagePayload::ParameterData(x), MessagePayload::ParameterData(y)) => x@ == y@,
        (MessagePayload::Custom(x), MessagePayload::Custom(y)) => x@ == y@,
        _ => false,
    }
}

/// Two envelopes with the same content: equal fields, strings and byte
/// strings compared by their contents.
pub open spec fn same_envelope(a: MessageEnvelope, b: MessageEnvelope) -> bool {
    same_message(a.message, b.message) && same_payload(a.payload, b.payload)
}

proof fn lemma_message_inj(a: Message, b: Message, r1: Seq<u8>, r2: Seq<u8>)
    requires
        enc_message(a) + r1 == enc_message(b) + r2,
        (enc_message(a) + r1).len() <= u64::MAX,
    ensures
        same_message(a, b),
        r1 == r2,
{
    let pa = priority_code(a.priority);
    let pb = priority_code(b.priority);
    let ta = enc_u64(a.timestamp_ns) + r1;
    let tb = enc_u64(b.timestamp_ns) + r2;
    let ka = enc_kind(a.message_type) + ta;
    let kb = enc_kind(b.message_type) + tb;
    let qa = seq![pa] + ka;
    let qb = seq![pb] + kb;
    let ra = enc_u32(a.recipient) + qa;
    let rb = enc_u32(b.recipient) + qb;
    let sa = enc_u32(a.sender) + ra;
    let sb = enc_u32(b.sender) + rb;
    assert(enc_message(a) + r1 =~= enc_u128(a.id.0) + sa);
    assert(enc_message(b) + r2 =~= enc_u128(b.id.0) + sb);
    lemma_u128_inj(a.id.0, b.id.0, sa, sb);
    lemma_u32_inj(a.sender, b.sender, ra, rb);
    lemma_u32_inj(a.recipient, b.recipient, qa, qb);
    lemma_u8_inj(pa, pb, ka, kb);
    lemma_kind_inj(a.message_type, b.message_type, ta, tb);
    lemma_u64_inj(a.timestamp_ns, b.timestamp_ns, r1, r2);
}

proof fn lemma_payload_inj(a: MessagePayload, b: MessagePayload)
    requires
        enc_payload(a) == enc_payload(b),
        enc_payload(a).len() <= u64::MAX,
    ensures
        same_payload(a, b),
{
    let e = Seq::<u8>::empty();
    let ta: u8 = match a { MessagePayload::Empty => 0, MessagePayload::ObjectData(_) => 1, MessagePayload::ParameterData(_) => 2, MessagePayload::Custom(_) => 3 };
    let tb: u8 = match b { MessagePayload::Empty => 0, MessagePayload::ObjectData(_) => 1, MessagePayload::ParameterData(_) => 2, MessagePayload::Custom(_) => 3 };
    let da: Seq<u8> = match a { MessagePayload::Empty => e, MessagePayload::ObjectData(x) => x@, MessagePayload::ParameterData(x) => x@, MessagePayload::Custom(x) => x@ };
    let db: Seq<u8> = match b { MessagePayload::Empty => e, MessagePayload::ObjectData(x) => x@, MessagePayload::ParameterData(x) => x@, MessagePayload::Custom(x) => x@ };
    assert(enc_payload(a) + e =~= (seq![ta] + enc_bytes(da)) + e);
    assert(enc_payload(b) + e =~= (seq![tb] + enc_bytes(db)) + e);
    lemma_strip_tag(ta, tb, enc_bytes(da), enc_bytes(db), e, e);
    lemma_bytes_inj(da, db, e, e);
}

/// The encoding of envelopes is injective: two envelopes with the same
/// bytes on the wire have the same content. With the contracts of
/// `encode_envelope` and `decode_envelope`, decoding the encoding of any
/// envelope gives back that envelope.
pub proof fn law_encoding_injective(a: MessageEnvelope, b: MessageEnvelope)
    requires
        enc_envelope(a) == enc_envelope(b),
        enc_envelope(a).len() <= u64::MAX,
    ensures
        same_envelope(a, b),
{
    lemma_message_inj(a.message, b.message, enc_payload(a.payload), enc_payload(b.payload));
    lemma_payload_inj(a.payload, b.payload);
}

} // verus!
