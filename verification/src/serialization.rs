//! The byte format in which Clarity values cross into WebAssembly memory.
//!
//! Every value is written as a three-byte header followed by its body: a
//! type-indicator byte, then the body's length as a little-endian `u16`.
use vstd::prelude::*;
use vstd::slice::slice_to_vec;

use crate::bytes::{
    i128_bits, i128_from_bits, i128_of_bits, i128_to_bits, le16, le_bytes, le_value,
    lemma_le_value_bound, lemma_pow256_16, push_u128_le, push_u16_le, read_u128_le, u16_at,
};
use crate::ptr::Ptr;
use crate::value::{
    contract_model, lemma_model_entries_index, lemma_model_entries_len, lemma_model_list_index, lemma_model_list_len, model_entries, model_list, standard_model, trait_model, ContractIdentifier,
    PrincipalModel, StandardPrincipal, TraitIdentifier, TraitModel, Value, ValueModel, tuples_ordered,
};
use vstd::utf8::{decode_utf8, encode_utf8, valid_utf8};

verus! {

/// The length of the header that precedes every serialized value.
pub const HEADER_LEN: i32 = 3;

/// The type of a serialized value, as written in its first byte.
#[derive(Debug, Clone, Copy, PartialEq, Eq, Structural)]
pub enum TypeIndicator {
    UInt,
    Int,
    Bool,
    Optional,
    Response,
    AsciiString,
    Utf8String,
    Buffer,
    List,
    StandardPrincipal,
    ContractPrincipal,
    CallableContract,
    Tuple,
}

/// What can go wrong when reading or writing serialized values.
#[allow(inconsistent_fields)]
#[derive(Debug, Clone, Copy, PartialEq, Eq, Structural)]
pub enum SerializationError {
    IndexOutOfRange,
    FailedToConvertBytesToAscii,
    FailedToConvertBytesToUtf8,
    InvalidTypeIndicator(u8),
    LengthIndicatorDoesNotMatchBufferLength,
    FailedToDeserializeLengthIndicator,
    InvalidBufferLength { expected: u16, received: u16 },
    FailedToDeserializeList,
    FailedToDeserializeListLength,
    AttemtToDeserializeZeroLengthBuffer,
    FailedToDeserializeContractName,
    FailedToDeserializeTraitName,
    FailedToDeserializePtr,
    InvalidPtrLength,
    TypeNotAllowed { received: TypeIndicator },
}

/// The byte that stands for a type indicator.
pub open spec fn indicator_byte(t: TypeIndicator) -> u8 {
    match t {
        TypeIndicator::UInt => 1,
        TypeIndicator::Int => 2,
        TypeIndicator::Bool => 3,
        TypeIndicator::Optional => 4,
        TypeIndicator::Response => 5,
        TypeIndicator::AsciiString => 6,
        TypeIndicator::Utf8String => 7,
        TypeIndicator::Buffer => 8,
        TypeIndicator::List => 9,
        TypeIndicator::StandardPrincipal => 10,
        TypeIndicator::ContractPrincipal => 11,
        TypeIndicator::CallableContract => 12,
        TypeIndicator::Tuple => 13,
    }
}

/// The type indicator that a byte stands for, if any.
pub open spec fn indicator_of(b: u8) -> Option<TypeIndicator> {
    match b {
        1 => Some(TypeIndicator::UInt),
        2 => Some(TypeIndicator::Int),
        3 => Some(TypeIndicator::Bool),
        4 => Some(TypeIndicator::Optional),
        5 => Some(TypeIndicator::Response),
        6 => Some(TypeIndicator::AsciiString),
        7 => Some(TypeIndicator::Utf8String),
        8 => Some(TypeIndicator::Buffer),
        9 => Some(TypeIndicator::List),
        10 => Some(TypeIndicator::StandardPrincipal),
        11 => Some(TypeIndicator::ContractPrincipal),
        12 => Some(TypeIndicator::CallableContract),
        13 => Some(TypeIndicator::Tuple),
        _ => None,
    }
}

/// The type indicator byte of a value.
pub open spec fn type_tag(m: ValueModel) -> u8 {
    match m {
        ValueModel::UInt(_) => 1,
        ValueModel::Int(_) => 2,
        ValueModel::Bool(_) => 3,
        ValueModel::Optional(_) => 4,
        ValueModel::Response(..) => 5,
        ValueModel::AsciiString(_) => 6,
        ValueModel::Utf8String(_) => 7,
        ValueModel::Buffer(_) => 8,
        ValueModel::List(_) => 9,
        ValueModel::StandardPrincipal(_) => 10,
        ValueModel::ContractPrincipal(_) => 11,
        ValueModel::CallableContract(..) => 12,
        ValueModel::Tuple(_) => 13,
    }
}

/// A header and a body: the tag, the body length as a `u16` (modulo `2^16`), the body.
pub open spec fn frame(tag: u8, body: Seq<u8>) -> Seq<u8> {
    seq![tag] + le16(body.len()) + body
}

/// The bytes of a principal: version then hash; for a contract, the name's
/// length as a `u16` and its UTF-8 bytes follow.
pub open spec fn principal_bytes(p: PrincipalModel, with_name: bool) -> Seq<u8> {
    let name = vstd::utf8::encode_utf8(p.name);
    if with_name {
        seq![p.version] + p.data + le16(name.len()) + name
    } else {
        seq![p.version] + p.data
    }
}

/// The bytes of a trait identifier: its contract's version and hash, then the
/// trait's name as for a contract (the contract's name is not written).
pub open spec fn trait_bytes(t: TraitModel) -> Seq<u8> {
    principal_bytes(PrincipalModel { name: t.name, ..t.contract }, true)
}

/// The serialized bytes of a value: its header, then its body.
pub open spec fn ser(m: ValueModel) -> Seq<u8>
    decreases m, 1nat,
{
    frame(type_tag(m), ser_body(m))
}

/// The body of a serialized value.
pub open spec fn ser_body(m: ValueModel) -> Seq<u8>
    decreases m, 0nat,
{
    match m {
        ValueModel::UInt(n) => le_bytes(n as nat, 16),
        ValueModel::Int(n) => le_bytes(i128_bits(n), 16),
        ValueModel::Bool(b) => seq![if b { 1u8 } else { 0u8 }],
        ValueModel::Optional(None) => seq![0u8],
        ValueModel::Optional(Some(x)) => seq![1u8] + ser(*x),
        ValueModel::Response(c, x) => seq![if c { 1u8 } else { 0u8 }] + ser(*x),
        ValueModel::AsciiString(b) => b,
        ValueModel::Utf8String(b) => b,
        ValueModel::Buffer(b) => b,
        ValueModel::List(items) => le16(items.len()) + ser_list(items),
        ValueModel::StandardPrincipal(p) => principal_bytes(p, false),
        ValueModel::ContractPrincipal(p) => principal_bytes(p, true),
        ValueModel::CallableContract(p, t) => principal_bytes(p, true) + match t {
            Some(t) => seq![1u8] + trait_bytes(t),
            None => seq![0u8],
        },
        ValueModel::Tuple(entries) => ser_entries(entries),
    }
}

/// The serialized items of a list, one after the other.
pub open spec fn ser_list(items: Seq<ValueModel>) -> Seq<u8>
    decreases items, 0nat,
{
    if items.len() == 0 {
        Seq::empty()
    } else {
        ser_list(items.drop_last()) + ser(items.last())
    }
}

/// The serialized values of a tuple's entries, one after the other (names are not written).
pub open spec fn ser_entries(entries: Seq<(Seq<char>, ValueModel)>) -> Seq<u8>
    decreases entries, 0nat,
{
    if entries.len() == 0 {
        Seq::empty()
    } else {
        ser_entries(entries.drop_last()) + ser(entries.last().1)
    }
}

/// What reading serialized bytes comes to: a result, an error, or an input on
/// which the reader stops with a panic (such an input is outside its contract).
pub ghost enum Decoded<T> {
    Done(T),
    Failed(SerializationError),
    Aborted,
}

/// `rest` preceded by `prefix`, where `rest` was read.
pub open spec fn prepend<T>(prefix: Seq<T>, rest: Decoded<Seq<T>>) -> Decoded<Seq<T>> {
    match rest {
        Decoded::Done(r) => Decoded::Done(prefix + r),
        Decoded::Failed(e) => Decoded::Failed(e),
        Decoded::Aborted => Decoded::Aborted,
    }
}

/// Whether a type indicator stands for a sequence (buffer, string or list).
pub open spec fn is_sequence_type(t: TypeIndicator) -> bool {
    t == TypeIndicator::Buffer || t == TypeIndicator::AsciiString || t == TypeIndicator::Utf8String
        || t == TypeIndicator::List
}

/// What reading a value from `buf` gives.
pub open spec fn deser(buf: Seq<u8>) -> Decoded<ValueModel>
    decreases buf.len(), 0nat, 1nat,
{
    if buf.len() == 0 {
        Decoded::Failed(SerializationError::AttemtToDeserializeZeroLengthBuffer)
    } else {
        match indicator_of(buf[0]) {
            None => Decoded::Failed(SerializationError::InvalidTypeIndicator(buf[0])),
            Some(t) => {
                if buf.len() < 3 {
                    Decoded::Aborted
                } else {
                    let value = buf.subrange(3, buf.len() as int);
                    let value_length = value.len() % 65536;
                    if value_length != u16_at(buf, 1) {
                        Decoded::Failed(SerializationError::LengthIndicatorDoesNotMatchBufferLength)
                    } else {
                        deser_body(t, value)
                    }
                }
            },
        }
    }
}

/// What reading the body `value` of a value of type `t` gives.
pub open spec fn deser_body(t: TypeIndicator, value: Seq<u8>) -> Decoded<ValueModel>
    decreases value.len() + 3, 0nat, 0nat,
{
    let value_length = value.len() % 65536;
    match t {
        TypeIndicator::UInt => if value_length != 16 {
            Decoded::Failed(
                SerializationError::InvalidBufferLength {
                    expected: 16,
                    received: value_length as u16,
                },
            )
        } else {
            Decoded::Done(ValueModel::UInt(le_value(value.subrange(0, 16)) as u128))
        },
        TypeIndicator::Int => if value_length != 16 {
            Decoded::Failed(
                SerializationError::InvalidBufferLength {
                    expected: 16,
                    received: value_length as u16,
                },
            )
        } else {
            Decoded::Done(ValueModel::Int(i128_of_bits(le_value(value.subrange(0, 16))) as i128))
        },
        TypeIndicator::Bool => if value.len() == 0 {
            Decoded::Aborted
        } else {
            Decoded::Done(ValueModel::Bool(value[0] == 1))
        },
        TypeIndicator::AsciiString => if clarity_ascii(value) {
            Decoded::Done(ValueModel::AsciiString(value))
        } else {
            Decoded::Failed(SerializationError::FailedToConvertBytesToAscii)
        },
        TypeIndicator::Utf8String => if valid_utf8(value) {
            Decoded::Done(ValueModel::Utf8String(value))
        } else {
            Decoded::Failed(SerializationError::FailedToConvertBytesToUtf8)
        },
        TypeIndicator::Buffer => Decoded::Done(ValueModel::Buffer(value)),
        TypeIndicator::Response => if value.len() == 0 {
            Decoded::Aborted
        } else {
            match deser(value.drop_first()) {
                Decoded::Done(x) => Decoded::Done(ValueModel::Response(value[0] == 1, Box::new(x))),
                Decoded::Failed(e) => Decoded::Failed(e),
                Decoded::Aborted => Decoded::Aborted,
            }
        },
        TypeIndicator::Optional => if value.len() == 0 {
            Decoded::Aborted
        } else if value[0] == 1 {
            match deser(value.drop_first()) {
                Decoded::Done(x) => Decoded::Done(ValueModel::Optional(Some(Box::new(x)))),
                Decoded::Failed(e) => Decoded::Failed(e),
                Decoded::Aborted => Decoded::Aborted,
            }
        } else {
            Decoded::Done(ValueModel::Optional(None))
        },
        TypeIndicator::StandardPrincipal => if value.len() < 21 {
            Decoded::Aborted
        } else {
            Decoded::Done(ValueModel::StandardPrincipal(issuer_at(value, Seq::empty())))
        },
        TypeIndicator::ContractPrincipal => if value.len() < 21 {
            Decoded::Aborted
        } else {
            match name_at(value, 21, SerializationError::IndexOutOfRange) {
                Decoded::Done((name, _)) => Decoded::Done(ValueModel::ContractPrincipal(issuer_at(value, name))),
                Decoded::Failed(e) => Decoded::Failed(e),
                Decoded::Aborted => Decoded::Aborted,
            }
        },
        TypeIndicator::CallableContract => if value.len() < 21 {
            Decoded::Aborted
        } else {
            match name_at(value, 21, SerializationError::FailedToDeserializeContractName) {
                Decoded::Done((name, end)) => {
                    let p = issuer_at(value, name);
                    match trait_at(value.subrange(end as int, value.len() as int), name) {
                        Decoded::Done(t) => Decoded::Done(ValueModel::CallableContract(p, t)),
                        Decoded::Failed(e) => Decoded::Failed(e),
                        Decoded::Aborted => Decoded::Aborted,
                    }
                },
                Decoded::Failed(e) => Decoded::Failed(e),
                Decoded::Aborted => Decoded::Aborted,
            }
        },
        TypeIndicator::List => if value.len() < 2 {
            Decoded::Aborted
        } else {
            match deser_items(value.subrange(2, value.len() as int), u16_at(value, 0), 0) {
                Decoded::Done(items) => if cross_compatible(items, items) {
                    Decoded::Done(ValueModel::List(items))
                } else {
                    Decoded::Failed(SerializationError::FailedToDeserializeList)
                },
                Decoded::Failed(e) => Decoded::Failed(e),
                Decoded::Aborted => Decoded::Aborted,
            }
        },
        TypeIndicator::Tuple => Decoded::Aborted,
    }
}

/// Whether a byte may stand in a Clarity ASCII string: a letter, a digit, a
/// punctuation mark or white space (space, tab, line feed, form feed,
/// carriage return).
pub open spec fn clarity_ascii_byte(b: u8) -> bool {
    (0x20 <= b && b <= 0x7E) || b == 0x09 || b == 0x0A || b == 0x0C || b == 0x0D
}

/// Whether every byte may stand in a Clarity ASCII string.
pub open spec fn clarity_ascii(s: Seq<u8>) -> bool {
    forall|i: int| 0 <= i < s.len() ==> clarity_ascii_byte(#[trigger] s[i])
}

/// The principal whose version is `value[0]` and whose hash is the next 20
/// bytes, with the name `name`.
pub open spec fn issuer_at(value: Seq<u8>, name: Seq<char>) -> PrincipalModel {
    PrincipalModel { version: value[0], data: value.subrange(1, 21), name }
}

/// What reading a name at `at` gives: a two-byte length, then that many
/// UTF-8 bytes; the name and the position after it, or `err` where the bytes
/// are not UTF-8.
pub open spec fn name_at(bytes: Seq<u8>, at: nat, err: SerializationError) -> Decoded<(Seq<char>, nat)> {
    if at + 2 > bytes.len() {
        Decoded::Aborted
    } else {
        let n = u16_at(bytes, at as int);
        if at + 2 + n > bytes.len() {
            Decoded::Aborted
        } else {
            let name = bytes.subrange(at + 2int, (at + 2 + n) as int);
            if valid_utf8(name) {
                Decoded::Done((decode_utf8(name), (at + 2 + n) as nat))
            } else {
                Decoded::Failed(err)
            }
        }
    }
}

/// What reading the trait part of a callable contract gives: a marker byte,
/// and where it is 1, the trait's issuer and name; the trait's contract is
/// the callable contract's, named `contract_name`.
pub open spec fn trait_at(rest: Seq<u8>, contract_name: Seq<char>) -> Decoded<Option<TraitModel>> {
    if rest.len() == 0 {
        Decoded::Aborted
    } else if rest[0] != 1 {
        Decoded::Done(None)
    } else if rest.len() < 22 {
        Decoded::Aborted
    } else {
        match name_at(rest, 22, SerializationError::FailedToDeserializeTraitName) {
            Decoded::Done((name, _)) => Decoded::Done(
                Some(
                    TraitModel {
                        contract: PrincipalModel {
                            version: rest[1],
                            data: rest.subrange(2, 22),
                            name: contract_name,
                        },
                        name,
                    },
                ),
            ),
            Decoded::Failed(e) => Decoded::Failed(e),
            Decoded::Aborted => Decoded::Aborted,
        }
    }
}

/// Whether two values may stand in one list: they have types with a common
/// supertype. Integers, booleans, buffers and each kind of string agree with
/// their own kind; `none` agrees with any optional, `some` values agree where
/// their contents do, and responses where their sides differ or their contents
/// agree; lists agree where all their items do; principals agree with one
/// another.
pub open spec fn compatible(a: ValueModel, b: ValueModel) -> bool
    decreases a, b,
{
    match (a, b) {
        (ValueModel::Int(_), ValueModel::Int(_)) => true,
        (ValueModel::UInt(_), ValueModel::UInt(_)) => true,
        (ValueModel::Bool(_), ValueModel::Bool(_)) => true,
        (ValueModel::Optional(x), ValueModel::Optional(y)) => match (x, y) {
            (Some(x), Some(y)) => compatible(*x, *y),
            _ => true,
        },
        (ValueModel::Response(c, x), ValueModel::Response(d, y)) => c != d || compatible(*x, *y),
        (ValueModel::AsciiString(_), ValueModel::AsciiString(_)) => true,
        (ValueModel::Utf8String(_), ValueModel::Utf8String(_)) => true,
        (ValueModel::Buffer(_), ValueModel::Buffer(_)) => true,
        (ValueModel::List(xs), ValueModel::List(ys)) => cross_compatible(xs, ys),
        _ => is_principal(a) && is_principal(b),
    }
}

/// Whether a value is a principal (standard, contract or callable).
pub open spec fn is_principal(a: ValueModel) -> bool {
    a is StandardPrincipal || a is ContractPrincipal || a is CallableContract
}

/// Whether `a` agrees with every value of `ys`.
pub open spec fn compatible_with_all(a: ValueModel, ys: Seq<ValueModel>) -> bool
    decreases a, ys,
{
    ys.len() == 0 || (compatible(a, ys[0]) && compatible_with_all(a, ys.drop_first()))
}

/// Whether every value of `xs` agrees with every value of `ys`.
pub open spec fn cross_compatible(xs: Seq<ValueModel>, ys: Seq<ValueModel>) -> bool
    decreases xs, ys,
{
    xs.len() == 0 || (compatible_with_all(xs[0], ys) && cross_compatible(xs.drop_first(), ys))
}

/// What reading `remaining` list items from `bytes`, the first at `index`, gives.
/// Each item is a complete serialized value whose header gives its length.
pub open spec fn deser_items(bytes: Seq<u8>, remaining: nat, index: nat) -> Decoded<Seq<ValueModel>>
    decreases bytes.len(), 1nat, remaining,
{
    if remaining == 0 {
        Decoded::Done(Seq::empty())
    } else if index + 3 > bytes.len() {
        Decoded::Aborted
    } else {
        let value_len = u16_at(bytes, index + 1int);
        if index + value_len + 3 > bytes.len() {
            Decoded::Aborted
        } else {
            match deser(bytes.subrange(index as int, (index + value_len + 3) as int)) {
                Decoded::Done(m) => prepend(
                    seq![m],
                    deser_items(bytes, (remaining - 1) as nat, index + value_len + 3),
                ),
                Decoded::Failed(e) => Decoded::Failed(e),
                Decoded::Aborted => Decoded::Aborted,
            }
        }
    }
}

/// The (offset, length) pairs that locate `remaining` items in `bytes`, the first
/// at `index`: each offset is where an item's header starts, each length the
/// length its header gives; `None` where a header runs past the end.
pub open spec fn item_ptrs(bytes: Seq<u8>, remaining: nat, index: nat) -> Option<Seq<(nat, nat)>>
    decreases remaining,
{
    if remaining == 0 {
        Some(Seq::empty())
    } else if index + 3 > bytes.len() {
        None
    } else {
        let value_len = u16_at(bytes, index + 1int);
        match item_ptrs(bytes, (remaining - 1) as nat, index + value_len + 3) {
            Some(rest) => Some(seq![(index, value_len)] + rest),
            None => None,
        }
    }
}

pub proof fn lemma_item_ptrs_len(bytes: Seq<u8>, remaining: nat, index: nat)
    ensures
        item_ptrs(bytes, remaining, index) matches Some(s) ==> s.len() == remaining,
    decreases remaining,
{
    if remaining > 0 && index + 3 <= bytes.len() {
        lemma_item_ptrs_len(bytes, (remaining - 1) as nat, index + u16_at(bytes, index + 1int) + 3);
    }
}

/// What locating the elements of a serialized sequence in `buffer` gives (see
/// [`deserialize_clarity_seq_to_ptrs`]).
pub open spec fn seq_ptrs(buffer: Seq<u8>) -> Decoded<Seq<(nat, nat)>> {
    if buffer.len() == 0 {
        Decoded::Aborted
    } else {
        match indicator_of(buffer[0]) {
            None => Decoded::Failed(SerializationError::InvalidTypeIndicator(buffer[0])),
            Some(t) => if !is_sequence_type(t) {
                Decoded::Failed(SerializationError::TypeNotAllowed { received: t })
            } else if buffer.len() < 3 {
                Decoded::Aborted
            } else {
                let value = buffer.subrange(3, buffer.len() as int);
                if value.len() % 65536 != u16_at(buffer, 1) {
                    Decoded::Failed(SerializationError::LengthIndicatorDoesNotMatchBufferLength)
                } else if t == TypeIndicator::Buffer || t == TypeIndicator::AsciiString {
                    Decoded::Done(Seq::new(value.len(), |i: int| (i as nat, 1nat)))
                } else if t == TypeIndicator::Utf8String {
                    Decoded::Done(char_ptrs(value, 0))
                } else if value.len() < 2 {
                    Decoded::Aborted
                } else {
                    match item_ptrs(value.subrange(2, value.len() as int), u16_at(value, 0), 0) {
                        Some(ptrs) => Decoded::Done(ptrs),
                        None => Decoded::Aborted,
                    }
                }
            },
        }
    }
}

/// The (offset, length) pairs of the UTF-8 characters of `bytes` from `i` on,
/// each character as long as its lead byte says (see
/// [`crate::fold::utf8_char_len`]), or cut short by the end.
pub open spec fn char_ptrs(bytes: Seq<u8>, i: nat) -> Seq<(nat, nat)>
    decreases bytes.len() - i,
{
    if i >= bytes.len() {
        Seq::empty()
    } else {
        let end = if i + crate::fold::utf8_char_len(bytes[i as int]) <= bytes.len() {
            i + crate::fold::utf8_char_len(bytes[i as int])
        } else {
            bytes.len()
        };
        seq![(i, (end - i) as nat)] + char_ptrs(bytes, end)
    }
}

/// Whether a value makes the round trip through the byte format: it holds no
/// tuple; its strings are Clarity ASCII or UTF-8; the items of each list agree
/// in type; principal hashes are 20 bytes long; a callable contract's trait
/// belongs to a contract of the callable contract's name (that name is not
/// written); and each body, and each list's number of items, fits in the
/// two-byte lengths.
pub open spec fn roundtrips(m: ValueModel) -> bool
    decreases m, 1nat,
{
    &&& ser_body(m).len() < 65536
    &&& match m {
        ValueModel::Optional(Some(x)) => roundtrips(*x),
        ValueModel::Response(_, x) => roundtrips(*x),
        ValueModel::AsciiString(b) => clarity_ascii(b),
        ValueModel::Utf8String(b) => valid_utf8(b),
        ValueModel::List(items) => items.len() < 65536 && all_roundtrip(items) && cross_compatible(items, items),
        ValueModel::StandardPrincipal(p) => p.data.len() == 20 && p.name.len() == 0,
        ValueModel::ContractPrincipal(p) => p.data.len() == 20,
        ValueModel::CallableContract(p, t) => p.data.len() == 20 && match t {
            Some(t) => t.contract.data.len() == 20 && t.contract.name == p.name,
            None => true,
        },
        ValueModel::Tuple(_) => false,
        _ => true,
    }
}

/// Whether every value of a sequence makes the round trip.
pub open spec fn all_roundtrip(items: Seq<ValueModel>) -> bool
    decreases items, 0nat,
{
    items.len() > 0 ==> roundtrips(items[0]) && all_roundtrip(items.drop_first())
}

proof fn lemma_ser_list_cons(items: Seq<ValueModel>)
    requires
        items.len() > 0,
    ensures
        ser_list(items) == ser(items[0]) + ser_list(items.drop_first()),
    decreases items.len(),
{
    if items.len() == 1 {
        assert(items.drop_first() =~= Seq::<ValueModel>::empty());
        assert(items.drop_last() =~= Seq::<ValueModel>::empty());
        assert(ser_list(items.drop_last()) =~= Seq::<u8>::empty());
        assert(ser_list(items.drop_first()) =~= Seq::<u8>::empty());
        assert(ser_list(items) =~= ser(items[0]));
    } else {
        lemma_ser_list_cons(items.drop_last());
        assert(items.drop_last().drop_first() =~= items.drop_first().drop_last());
        assert(items.drop_first().last() == items.last());
        assert(items.drop_last()[0] == items[0]);
    }
}

/// A serialized value is its type indicator, its body's length in two bytes,
/// and its body.
pub proof fn lemma_ser_len(m: ValueModel)
    ensures
        ser(m).len() == ser_body(m).len() + 3,
        ser(m)[0] == type_tag(m),
        ser(m).subrange(3, ser(m).len() as int) == ser_body(m),
        u16_at(ser(m), 1) == ser_body(m).len() % 65536,
{
    let body = ser_body(m);
    crate::bytes::lemma_le16(body.len());
    assert(ser(m).subrange(3, ser(m).len() as int) =~= body);
}

#[verifier::rlimit(50)]
proof fn lemma_deser_items_roundtrip(pre: Seq<u8>, items: Seq<ValueModel>)
    requires
        all_roundtrip(items),
    ensures
        deser_items(pre + ser_list(items), items.len(), pre.len()) == Decoded::Done(items),
    decreases items, 0nat,
{
    let bytes = pre + ser_list(items);
    if items.len() == 0 {
        assert(items =~= Seq::<ValueModel>::empty());
    } else {
        let x = items[0];
        let rest = items.drop_first();
        lemma_ser_list_cons(items);
        lemma_ser_len(x);
        let sx = ser(x);
        let pre2 = pre + sx;
        let index = pre.len();
        assert(bytes =~= pre2 + ser_list(rest));
        assert(bytes.subrange(index as int, (index + sx.len()) as int) =~= sx);
        assert(bytes[index + 1int] == sx[1]);
        assert(bytes[index + 2int] == sx[2]);
        let value_len = u16_at(bytes, index + 1int);
        assert(roundtrips(x));
        assert(ser_body(x).len() < 65536);
        assert(value_len == u16_at(sx, 1));
        assert(value_len == ser_body(x).len() % 65536);
        assert(value_len == ser_body(x).len());
        assert(index + value_len + 3 == pre2.len());
        assert(decreases_to!(items => items[0]));
        lemma_roundtrip(x);
        assert(deser(bytes.subrange(index as int, (index + value_len + 3) as int)) == Decoded::Done(x));
        lemma_deser_items_roundtrip(pre2, rest);
        assert(deser_items(bytes, (items.len() - 1) as nat, pre2.len()) == Decoded::Done(rest));
        assert(deser_items(bytes, items.len(), index) == prepend(
            seq![x],
            deser_items(bytes, (items.len() - 1) as nat, index + value_len + 3),
        ));
        assert(seq![x] + rest =~= items);
    }
}

/// Integers are read back from their sixteen little-endian bytes.
proof fn lemma_integer_roundtrip(m: ValueModel)
    requires
        m is UInt || m is Int,
    ensures
        deser_body(indicator_of(type_tag(m))->0, ser_body(m)) == Decoded::Done(m),
{
    let body = ser_body(m);
    match m {
        ValueModel::UInt(n) => {
            crate::bytes::lemma_le_bytes_len(n as nat, 16);
            crate::bytes::lemma_le_roundtrip(n as nat, 16);
            crate::bytes::lemma_pow256_16();
            assert(body.subrange(0, 16) =~= body);
        },
        ValueModel::Int(n) => {
            crate::bytes::lemma_le_bytes_len(i128_bits(n), 16);
            crate::bytes::lemma_le_roundtrip(i128_bits(n), 16);
            crate::bytes::lemma_pow256_16();
            crate::bytes::lemma_i128_bits(n);
            assert(body.subrange(0, 16) =~= body);
        },
        _ => {},
    }
}

/// A value that makes the round trip (see [`roundtrips`]) is read back from its
/// serialized bytes unchanged.
pub proof fn lemma_roundtrip(m: ValueModel)
    requires
        roundtrips(m),
    ensures
        deser(ser(m)) == Decoded::Done(m),
    decreases m, 1nat,
{
    lemma_ser_len(m);
    assert(deser(ser(m)) == deser_body(indicator_of(type_tag(m))->0, ser_body(m)));
    lemma_body_roundtrip(m);
}

/// The body of a value that makes the round trip is read back as the value.
#[verifier::spinoff_prover]
#[verifier::rlimit(40)]
proof fn lemma_body_roundtrip(m: ValueModel)
    requires
        roundtrips(m),
    ensures
        deser_body(indicator_of(type_tag(m))->0, ser_body(m)) == Decoded::Done(m),
    decreases m, 0nat,
{
    let body = ser_body(m);
    match m {
        ValueModel::UInt(_) | ValueModel::Int(_) => {
            lemma_integer_roundtrip(m);
        },
        ValueModel::Optional(Some(x)) => {
            assert(body.drop_first() =~= ser(*x));
            lemma_roundtrip(*x);
        },
        ValueModel::Response(c, x) => {
            assert(body.drop_first() =~= ser(*x));
            lemma_roundtrip(*x);
        },
        ValueModel::List(items) => {
            crate::bytes::lemma_le16(items.len());
            assert(body.subrange(2, body.len() as int) =~= Seq::<u8>::empty() + ser_list(items));
            lemma_deser_items_roundtrip(Seq::empty(), items);
        },
        ValueModel::StandardPrincipal(_) | ValueModel::ContractPrincipal(_) | ValueModel::CallableContract(..) => {
            lemma_principal_roundtrip(m);
        },
        _ => {},
    }
}

/// A name written as its length and UTF-8 bytes is read back at its position.
proof fn lemma_name_roundtrip(pre: Seq<u8>, name: Seq<char>, rest: Seq<u8>, err: SerializationError)
    requires
        encode_utf8(name).len() < 65536,
    ensures
        name_at(pre + le16(encode_utf8(name).len()) + encode_utf8(name) + rest, pre.len(), err) == Decoded::Done(
            (name, pre.len() + 2 + encode_utf8(name).len()),
        ),
{
    let nb = encode_utf8(name);
    let bytes = pre + le16(nb.len()) + nb + rest;
    crate::bytes::lemma_le16(nb.len());
    assert(bytes[pre.len() as int] == le16(nb.len())[0]);
    assert(bytes[pre.len() + 1int] == le16(nb.len())[1]);
    assert(u16_at(bytes, pre.len() as int) == nb.len());
    assert(bytes.subrange(pre.len() + 2int, (pre.len() + 2 + nb.len()) as int) =~= nb);
    vstd::utf8::encode_utf8_valid_utf8(name);
    vstd::utf8::encode_utf8_decode_utf8(name);
}

/// Principals that make the round trip are read back from their bytes.
#[verifier::rlimit(50)]
proof fn lemma_principal_roundtrip(m: ValueModel)
    requires
        roundtrips(m),
        m is StandardPrincipal || m is ContractPrincipal || m is CallableContract,
    ensures
        deser_body(indicator_of(type_tag(m))->0, ser_body(m)) == Decoded::Done(m),
{
    let body = ser_body(m);
    match m {
        ValueModel::StandardPrincipal(p) => {
            assert(body.subrange(1, 21) =~= p.data);
            assert(p.name =~= Seq::<char>::empty());
            assert(issuer_at(body, Seq::empty()) == p);
        },
        ValueModel::ContractPrincipal(p) => {
            let head = seq![p.version] + p.data;
            let nb = encode_utf8(p.name);
            assert(body =~= head + le16(nb.len()) + nb + Seq::<u8>::empty());
            assert(ser_body(m).len() < 65536);
            lemma_name_roundtrip(head, p.name, Seq::empty(), SerializationError::IndexOutOfRange);
            assert(body.subrange(1, 21) =~= p.data);
            assert(issuer_at(body, p.name) == p);
        },
        ValueModel::CallableContract(p, t) => {
            let head = seq![p.version] + p.data;
            let nb = encode_utf8(p.name);
            let tail = match t {
                Some(t) => seq![1u8] + trait_bytes(t),
                None => seq![0u8],
            };
            assert(body =~= head + le16(nb.len()) + nb + tail);
            assert(head.len() == 21);
            crate::bytes::lemma_le16(nb.len());
            lemma_name_roundtrip(head, p.name, tail, SerializationError::FailedToDeserializeContractName);
            let end = 23 + nb.len();
            assert(body.subrange(end as int, body.len() as int) =~= tail);
            assert(body.subrange(1, 21) =~= p.data);
            assert(issuer_at(body, p.name) == p);
            match t {
                Some(t) => {
                    let th = seq![1u8] + (seq![t.contract.version] + t.contract.data);
                    let tb = encode_utf8(t.name);
                    assert(tail =~= th + le16(tb.len()) + tb + Seq::<u8>::empty());
                    assert(th.len() == 22);
                    crate::bytes::lemma_le16(tb.len());
                    lemma_name_roundtrip(th, t.name, Seq::empty(), SerializationError::FailedToDeserializeTraitName);
                    assert(tail.subrange(2, 22) =~= t.contract.data);
                    assert(tail[1] == t.contract.version);
                    assert(tail[0] == 1u8);
                },
                None => {
                    assert(tail[0] == 0u8);
                },
            }
        },
        _ => {},
    }
}

/// Where the items of a list written from `start` on lie: for each item, the
/// offset of its header and the length of its body.
pub open spec fn item_locations(items: Seq<ValueModel>, start: nat) -> Seq<(nat, nat)>
    decreases items.len(),
{
    if items.len() == 0 {
        Seq::empty()
    } else {
        seq![(start, ser_body(items[0]).len())] + item_locations(
            items.drop_first(),
            start + ser(items[0]).len(),
        )
    }
}

/// The bytes of a serialized item located at `loc` (header offset, body
/// length), `shift` bytes into `bytes`.
pub open spec fn item_span(bytes: Seq<u8>, loc: (nat, nat), shift: int) -> Seq<u8> {
    bytes.subrange(shift + loc.0, shift + loc.0 + 3 + loc.1)
}

proof fn lemma_item_ptrs_ser(pre: Seq<u8>, items: Seq<ValueModel>)
    requires
        forall|i: int| 0 <= i < items.len() ==> (#[trigger] ser_body(items[i])).len() < 65536,
    ensures
        item_ptrs(pre + ser_list(items), items.len(), pre.len()) == Some(item_locations(items, pre.len())),
        item_locations(items, pre.len()).len() == items.len(),
        forall|i: int|
            0 <= i < items.len() ==> item_span(pre + ser_list(items), #[trigger] item_locations(items, pre.len())[i], 0)
                == ser(items[i]),
        forall|i: int|
            0 <= i < items.len() ==> pre.len() <= (#[trigger] item_locations(items, pre.len())[i]).0 && item_locations(
                items,
                pre.len(),
            )[i].0 + 3 + item_locations(items, pre.len())[i].1 <= pre.len() + ser_list(items).len(),
    decreases items.len(),
{
    let bytes = pre + ser_list(items);
    if items.len() == 0 {
        assert(items =~= Seq::<ValueModel>::empty());
    } else {
        let x = items[0];
        let rest = items.drop_first();
        lemma_ser_list_cons(items);
        lemma_ser_len(x);
        let sx = ser(x);
        let pre2 = pre + sx;
        let index = pre.len();
        assert(bytes =~= pre2 + ser_list(rest));
        assert(bytes.subrange(index as int, (index + sx.len()) as int) =~= sx);
        assert(bytes[index + 1int] == sx[1]);
        assert(bytes[index + 2int] == sx[2]);
        assert(ser_body(items[0]).len() < 65536);
        let value_len = u16_at(bytes, index + 1int);
        assert(value_len == ser_body(x).len());
        assert forall|i: int| 0 <= i < rest.len() implies (#[trigger] ser_body(rest[i])).len() < 65536 by {
            assert(rest[i] == items[i + 1]);
        }
        lemma_item_ptrs_ser(pre2, rest);
        let locs = item_locations(items, pre.len());
        let rlocs = item_locations(rest, pre2.len());
        assert(locs == seq![(index, ser_body(x).len())] + rlocs);
        assert forall|i: int| 0 <= i < items.len() implies item_span(bytes, #[trigger] locs[i], 0) == ser(
            items[i],
        ) by {
            if i > 0 {
                assert(locs[i] == rlocs[i - 1]);
                assert(items[i] == rest[i - 1]);
                assert(item_span(pre2 + ser_list(rest), rlocs[i - 1], 0) == ser(rest[i - 1]));
            } else {
                assert(locs[0] == (index, ser_body(x).len()));
            }
        }
        assert forall|i: int| 0 <= i < items.len() implies pre.len() <= (#[trigger] locs[i]).0 && locs[i].0 + 3
            + locs[i].1 <= pre.len() + ser_list(items).len() by {
            if i > 0 {
                assert(locs[i] == rlocs[i - 1]);
            }
        }
    }
}

/// Locating the items of a serialized list gives, for each item, the offset
/// of its header among the items and the length of its body, and the bytes
/// there, header and body, are the item's serialized bytes. This holds where
/// the list's body, its number of items and each item's body fit in the
/// two-byte lengths.
pub proof fn law_list_pointers_locate_items(items: Seq<ValueModel>)
    requires
        ser_body(ValueModel::List(items)).len() < 65536,
        items.len() < 65536,
        forall|i: int| 0 <= i < items.len() ==> (#[trigger] ser_body(items[i])).len() < 65536,
    ensures
        seq_ptrs(ser(ValueModel::List(items))) == Decoded::Done(item_locations(items, 0)),
        item_locations(items, 0).len() == items.len(),
        forall|i: int|
            0 <= i < items.len() ==> item_span(ser(ValueModel::List(items)), #[trigger] item_locations(items, 0)[i], 5)
                == ser(items[i]),
{
    let m = ValueModel::List(items);
    let buf = ser(m);
    let body = ser_body(m);
    lemma_ser_len(m);
    crate::bytes::lemma_le16(items.len());
    let value = buf.subrange(3, buf.len() as int);
    assert(value == body);
    let tail = body.subrange(2, body.len() as int);
    assert(tail =~= Seq::<u8>::empty() + ser_list(items));
    lemma_item_ptrs_ser(Seq::empty(), items);
    assert(u16_at(value, 0) == items.len());
    let locs = item_locations(items, 0);
    assert forall|i: int| 0 <= i < items.len() implies item_span(buf, #[trigger] locs[i], 5) == ser(items[i]) by {
        assert(item_span(Seq::<u8>::empty() + ser_list(items), locs[i], 0) == ser(items[i]));
        assert(item_span(buf, locs[i], 5) =~= item_span(tail, locs[i], 0));
    }
}

impl TypeIndicator {
    /// Returns whether or not this type is an integer type.
    pub fn is_integer(&self) -> (r: bool)
        ensures
            r == (*self == TypeIndicator::Int || *self == TypeIndicator::UInt),
    {
        *self == TypeIndicator::Int || *self == TypeIndicator::UInt
    }
}

/// Gets the type indicator byte for the provided value. This indicator prefixes
/// serialized values so that the type can be known during deserialization.
pub fn get_type_indicator_for_clarity_value(value: &Value) -> (b: u8)
    ensures
        b == type_tag(value@),
{
    match value {
        Value::UInt(_) => 1,
        Value::Int(_) => 2,
        Value::Bool(_) => 3,
        Value::Optional(_) => 4,
        Value::Response(..) => 5,
        Value::AsciiString(_) => 6,
        Value::Utf8String(_) => 7,
        Value::Buffer(_) => 8,
        Value::List(_) => 9,
        Value::StandardPrincipal(_) => 10,
        Value::ContractPrincipal(_) => 11,
        Value::CallableContract(..) => 12,
        Value::Tuple(_) => 13,
    }
}

/// Converts a serialized type indicator byte to a `TypeIndicator`. A byte that
/// stands for no type gives `InvalidTypeIndicator`.
pub fn type_indicator_byte_to_type_indicator(indicator: u8) -> (r: Result<
    TypeIndicator,
    SerializationError,
>)
    ensures
        match indicator_of(indicator) {
            Some(t) => r == Ok::<TypeIndicator, SerializationError>(t),
            None => r == Err::<TypeIndicator, SerializationError>(
                SerializationError::InvalidTypeIndicator(indicator),
            ),
        },
{
    match indicator {
        1 => Ok(TypeIndicator::UInt),
        2 => Ok(TypeIndicator::Int),
        3 => Ok(TypeIndicator::Bool),
        4 => Ok(TypeIndicator::Optional),
        5 => Ok(TypeIndicator::Response),
        6 => Ok(TypeIndicator::AsciiString),
        7 => Ok(TypeIndicator::Utf8String),
        8 => Ok(TypeIndicator::Buffer),
        9 => Ok(TypeIndicator::List),
        10 => Ok(TypeIndicator::StandardPrincipal),
        11 => Ok(TypeIndicator::ContractPrincipal),
        12 => Ok(TypeIndicator::CallableContract),
        13 => Ok(TypeIndicator::Tuple),
        _ => Err(SerializationError::InvalidTypeIndicator(indicator)),
    }
}

/// Reads the type indicator from the first byte of a serialized value.
pub fn get_type_indicator_from_serialized_value(data: &[u8]) -> (r: Result<
    TypeIndicator,
    SerializationError,
>)
    requires
        data@.len() > 0,
    ensures
        match indicator_of(data@[0]) {
            Some(t) => r == Ok::<TypeIndicator, SerializationError>(t),
            None => r == Err::<TypeIndicator, SerializationError>(
                SerializationError::InvalidTypeIndicator(data@[0]),
            ),
        },
{
    type_indicator_byte_to_type_indicator(data[0])
}

/// Whether every value of `xs` agrees with every value of `ys`, pair by pair.
proof fn lemma_compatible_with_all(a: ValueModel, ys: Seq<ValueModel>)
    ensures
        compatible_with_all(a, ys) <==> forall|j: int| 0 <= j < ys.len() ==> compatible(a, #[trigger] ys[j]),
    decreases ys.len(),
{
    if ys.len() > 0 {
        let rest = ys.drop_first();
        lemma_compatible_with_all(a, rest);
        if forall|j: int| 0 <= j < ys.len() ==> compatible(a, #[trigger] ys[j]) {
            assert(compatible(a, ys[0]));
            assert forall|j: int| 0 <= j < rest.len() implies compatible(a, #[trigger] rest[j]) by {
                assert(rest[j] == ys[j + 1]);
            }
        }
        if compatible_with_all(a, ys) {
            assert forall|j: int| 0 <= j < ys.len() implies compatible(a, #[trigger] ys[j]) by {
                if j > 0 {
                    assert(ys[j] == rest[j - 1]);
                }
            }
        }
    }
}

proof fn lemma_cross_compatible(xs: Seq<ValueModel>, ys: Seq<ValueModel>)
    ensures
        cross_compatible(xs, ys) <==> forall|i: int, j: int|
            0 <= i < xs.len() && 0 <= j < ys.len() ==> compatible(#[trigger] xs[i], #[trigger] ys[j]),
    decreases xs.len(),
{
    if xs.len() > 0 {
        lemma_cross_compatible(xs.drop_first(), ys);
        lemma_compatible_with_all(xs[0], ys);
        if forall|i: int, j: int| 0 <= i < xs.len() && 0 <= j < ys.len() ==> compatible(#[trigger] xs[i], #[trigger] ys[j]) {
            assert forall|j: int| 0 <= j < ys.len() implies compatible(xs[0], #[trigger] ys[j]) by {}
            assert forall|i: int, j: int| 0 <= i < xs.drop_first().len() && 0 <= j < ys.len() implies compatible(
                #[trigger] xs.drop_first()[i],
                #[trigger] ys[j],
            ) by {
                assert(xs.drop_first()[i] == xs[i + 1]);
            }
        }
        if cross_compatible(xs, ys) {
            assert forall|i: int, j: int| 0 <= i < xs.len() && 0 <= j < ys.len() implies compatible(
                #[trigger] xs[i],
                #[trigger] ys[j],
            ) by {
                if i > 0 {
                    assert(xs[i] == xs.drop_first()[i - 1]);
                }
            }
        }
    }
}

/// Whether two values agree in type (see [`compatible`]).
fn compatible_values(a: &Value, b: &Value) -> (r: bool)
    ensures
        r == compatible(a@, b@),
    decreases a, b,
{
    match (a, b) {
        (Value::Int(_), Value::Int(_)) => true,
        (Value::UInt(_), Value::UInt(_)) => true,
        (Value::Bool(_), Value::Bool(_)) => true,
        (Value::Optional(x), Value::Optional(y)) => match (x, y) {
            (Some(x), Some(y)) => compatible_values(&**x, &**y),
            _ => true,
        },
        (Value::Response(c, x), Value::Response(d, y)) => *c != *d || compatible_values(&**x, &**y),
        (Value::AsciiString(_), Value::AsciiString(_)) => true,
        (Value::Utf8String(_), Value::Utf8String(_)) => true,
        (Value::Buffer(_), Value::Buffer(_)) => true,
        (Value::List(xs), Value::List(ys)) => {
            let ghost mx = model_list(xs@);
            let ghost my = model_list(ys@);
            proof {
                lemma_model_list_len(xs@);
                lemma_model_list_len(ys@);
                lemma_cross_compatible(mx, my);
                assert(a@ == ValueModel::List(mx));
                assert(b@ == ValueModel::List(my));
                assert(compatible(a@, b@) == cross_compatible(mx, my));
            }
            let mut i: usize = 0;
            while i < xs.len()
                invariant
                    0 <= i <= xs.len(),
                    mx == model_list(xs@),
                    my == model_list(ys@),
                    mx.len() == xs@.len(),
                    my.len() == ys@.len(),
                    *a == Value::List(*xs),
                    *b == Value::List(*ys),
                    compatible(a@, b@) == (forall|k: int, j: int|
                        0 <= k < mx.len() && 0 <= j < my.len() ==> compatible(#[trigger] mx[k], #[trigger] my[j])),
                    forall|k: int, j: int| 0 <= k < i && 0 <= j < ys.len() ==> compatible(#[trigger] mx[k], #[trigger] my[j]),
                decreases xs.len() - i,
            {
                let mut j: usize = 0;
                while j < ys.len()
                    invariant
                        0 <= i < xs.len(),
                        0 <= j <= ys.len(),
                        mx == model_list(xs@),
                        my == model_list(ys@),
                        mx.len() == xs@.len(),
                        my.len() == ys@.len(),
                        *a == Value::List(*xs),
                        *b == Value::List(*ys),
                        compatible(a@, b@) == (forall|k: int, l: int|
                            0 <= k < mx.len() && 0 <= l < my.len() ==> compatible(#[trigger] mx[k], #[trigger] my[l])),
                        forall|k: int, l: int| 0 <= k < i && 0 <= l < ys.len() ==> compatible(#[trigger] mx[k], #[trigger] my[l]),
                        forall|l: int| 0 <= l < j ==> compatible(mx[i as int], #[trigger] my[l]),
                    decreases ys.len() - j,
                {
                    proof {
                        vstd::std_specs::vec::axiom_vec_index_decreases(*xs, i as int);
                        vstd::std_specs::vec::axiom_vec_index_decreases(*ys, j as int);
                        assert(decreases_to!(*a => (*a)->List_0));
                        assert(decreases_to!(*a => xs[i as int]));
                        crate::value::lemma_model_list_index(xs@, i as int);
                        crate::value::lemma_model_list_index(ys@, j as int);
                    }
                    if !compatible_values(&xs[i], &ys[j]) {
                        proof {
                            assert(!compatible(mx[i as int], my[j as int]));
                        }
                        return false;
                    }
                    j = j + 1;
                }
                i = i + 1;
            }
            true
        },
        _ => {
            let pa = match a {
                Value::StandardPrincipal(_) | Value::ContractPrincipal(_) | Value::CallableContract(..) => true,
                _ => false,
            };
            let pb = match b {
                Value::StandardPrincipal(_) | Value::ContractPrincipal(_) | Value::CallableContract(..) => true,
                _ => false,
            };
            pa && pb
        },
    }
}

/// Whether every byte may stand in a Clarity ASCII string.
fn is_clarity_ascii(s: &[u8]) -> (r: bool)
    ensures
        r == clarity_ascii(s@),
{
    let mut i: usize = 0;
    while i < s.len()
        invariant
            0 <= i <= s@.len(),
            forall|k: int| 0 <= k < i ==> clarity_ascii_byte(#[trigger] s@[k]),
        decreases s@.len() - i,
    {
        let b = s[i];
        if !((0x20 <= b && b <= 0x7E) || b == 0x09 || b == 0x0A || b == 0x0C || b == 0x0D) {
            return false;
        }
        i = i + 1;
    }
    true
}

/// Decodes UTF-8 bytes with `String::from_utf8`. The contract claims that it
/// gives a string exactly where the bytes are valid UTF-8, and that the string
/// holds the characters they encode.
#[verifier::external_body]
fn utf8_to_string(bytes: Vec<u8>) -> (r: Option<String>)
    ensures
        r is Some == valid_utf8(bytes@),
        r matches Some(s) ==> s@ == decode_utf8(bytes@),
{
    String::from_utf8(bytes).ok()
}

/// The standard principal whose version is `bytes[at]` and whose hash is the
/// next 20 bytes.
fn read_standard(bytes: &[u8], at: usize) -> (p: StandardPrincipal)
    requires
        at + 21 <= bytes@.len(),
    ensures
        p.version == bytes@[at as int],
        p.data@ == bytes@.subrange(at + 1int, at + 21int),
{
    let len = bytes.len();
    let mut data = [0u8; 20];
    let mut i: usize = 0;
    while i < 20
        invariant
            0 <= i <= 20,
            len == bytes@.len(),
            at + 21 <= bytes@.len(),
            forall|k: int| 0 <= k < i ==> data@[k] == bytes@[at + 1 + k],
        decreases 20 - i,
    {
        data[i] = bytes[at + 1 + i];
        i = i + 1;
    }
    assert(data@ =~= bytes@.subrange(at + 1int, at + 21int));
    StandardPrincipal { version: bytes[at], data }
}

/// Reads a name at `at` (see [`name_at`]).
fn read_name(bytes: &[u8], at: usize, err: SerializationError) -> (r: Result<(String, usize), SerializationError>)
    requires
        !(name_at(bytes@, at as nat, err) is Aborted),
    ensures
        match name_at(bytes@, at as nat, err) {
            Decoded::Done((name, end)) => r matches Ok((s, e)) && s@ == name && e == end,
            Decoded::Failed(x) => r == Err::<(String, usize), SerializationError>(x),
            Decoded::Aborted => false,
        },
{
    let n: usize = bytes[at] as usize + (bytes[at + 1] as usize) * 256;
    let end = at + 2 + n;
    let name_bytes = slice_to_vec(&bytes[at + 2..end]);
    assert(name_bytes@ =~= bytes@.subrange(at + 2int, at + 2 + n));
    match utf8_to_string(name_bytes) {
        Some(name) => Ok((name, end)),
        None => Err(err),
    }
}

/// Deserializes a value from `buffer`, which holds exactly one serialized
/// value (header and body). More of the format is described at [`ser`].
///
/// Strings must be Clarity ASCII or UTF-8, and the items of a list must agree
/// in type (see [`compatible`]); principals are read as they are written.
///
/// The inputs on which reading stops with a panic (see [`deser`]) are left out:
/// a header cut short, an empty boolean, optional or response body, a principal
/// or name that runs past the body, a list whose items overrun it, and tuples,
/// which are not read.
pub fn deserialize_clarity_value(buffer: &[u8]) -> (res: Result<Value, SerializationError>)
    requires
        !(deser(buffer@) is Aborted),
    ensures
        match deser(buffer@) {
            Decoded::Done(m) => res matches Ok(v) && v@ == m,
            Decoded::Failed(e) => res == Err::<Value, SerializationError>(e),
            Decoded::Aborted => false,
        },
    decreases buffer@.len(),
{
    // We cannot deserialize empty buffers.
    if buffer.len() == 0 {
        return Err(SerializationError::AttemtToDeserializeZeroLengthBuffer);
    }
    // Convert the type indicator byte to a `TypeIndicator`.
    let type_indicator = match type_indicator_byte_to_type_indicator(buffer[0]) {
        Ok(t) => t,
        Err(e) => return Err(e),
    };
    // Extract the length of this serialized value (excluding header).
    let length_indicator: usize = buffer[1] as usize + (buffer[2] as usize) * 256;
    // The value bytes, excluding the header.
    let value = &buffer[3..buffer.len()];
    // The value's length, as a `u16`, must match the length indicator.
    let value_length: usize = value.len() % 65536;
    if value_length != length_indicator {
        return Err(SerializationError::LengthIndicatorDoesNotMatchBufferLength);
    }
    let ghost t = type_indicator;
    assert(deser(buffer@) == deser_body(t, value@));
    let val = match type_indicator {
        TypeIndicator::UInt => {
            if value_length != 16 {
                return Err(
                    SerializationError::InvalidBufferLength {
                        expected: 16,
                        received: value_length as u16,
                    },
                );
            }
            let n = read_u128_le(value);
            proof {
                lemma_le_value_bound(value@.subrange(0, 16));
                lemma_pow256_16();
            }
            Value::UInt(n)
        },
        TypeIndicator::Int => {
            if value_length != 16 {
                return Err(
                    SerializationError::InvalidBufferLength {
                        expected: 16,
                        received: value_length as u16,
                    },
                );
            }
            let n = read_u128_le(value);
            Value::Int(i128_from_bits(n))
        },
        TypeIndicator::Bool => Value::Bool(value[0] == 1),
        TypeIndicator::AsciiString => {
            if !is_clarity_ascii(value) {
                return Err(SerializationError::FailedToConvertBytesToAscii);
            }
            Value::AsciiString(slice_to_vec(value))
        },
        TypeIndicator::Utf8String => {
            let bytes = slice_to_vec(value);
            if utf8_to_string(slice_to_vec(value)).is_none() {
                return Err(SerializationError::FailedToConvertBytesToUtf8);
            }
            Value::Utf8String(bytes)
        },
        TypeIndicator::Buffer => Value::Buffer(slice_to_vec(value)),
        TypeIndicator::Response => {
            let rest = &value[1..value.len()];
            assert(rest@ == value@.drop_first());
            let inner_value = match deserialize_clarity_value(rest) {
                Ok(v) => v,
                Err(e) => return Err(e),
            };
            // The first byte tells whether the response is committed (ok) or not (err).
            Value::Response(value[0] == 1, Box::new(inner_value))
        },
        TypeIndicator::Optional => {
            // The first byte tells whether there is a value (some) or not (none).
            if value[0] == 1 {
                let rest = &value[1..value.len()];
                assert(rest@ == value@.drop_first());
                let inner = match deserialize_clarity_value(rest) {
                    Ok(v) => v,
                    Err(e) => return Err(e),
                };
                Value::Optional(Some(Box::new(inner)))
            } else {
                Value::Optional(None)
            }
        },
        TypeIndicator::StandardPrincipal => Value::StandardPrincipal(read_standard(value, 0)),
        TypeIndicator::ContractPrincipal => {
            let issuer = read_standard(value, 0);
            let (name, _) = match read_name(value, 21, SerializationError::IndexOutOfRange) {
                Ok(r) => r,
                Err(e) => return Err(e),
            };
            Value::ContractPrincipal(ContractIdentifier { issuer, name })
        },
        TypeIndicator::CallableContract => {
            let issuer = read_standard(value, 0);
            let (name, end) = match read_name(value, 21, SerializationError::FailedToDeserializeContractName) {
                Ok(r) => r,
                Err(e) => return Err(e),
            };
            let rest = &value[end..value.len()];
            assert(rest@ =~= value@.subrange(end as int, value@.len() as int));
            // A marker byte tells whether a trait identifier follows.
            let trait_identifier = if rest[0] == 1 {
                let trait_issuer = read_standard(rest, 1);
                let (trait_name, _) = match read_name(rest, 22, SerializationError::FailedToDeserializeTraitName) {
                    Ok(r) => r,
                    Err(e) => return Err(e),
                };
                Some(
                    TraitIdentifier {
                        contract_identifier: ContractIdentifier { issuer: trait_issuer, name: name.clone() },
                        name: trait_name,
                    },
                )
            } else {
                None
            };
            Value::CallableContract(ContractIdentifier { issuer, name }, trait_identifier)
        },
        TypeIndicator::List => {
            // The first two bytes hold the list length.
            let (list_len_bytes, value_bytes) = value.split_at(2);
            let list_len: usize = list_len_bytes[0] as usize + (list_len_bytes[1] as usize) * 256;
            let ghost vb = value_bytes@;
            let vb_len = value_bytes.len();
            let mut values: Vec<Value> = Vec::new();
            let mut index: usize = 0;
            let mut i: usize = 0;
            assert(model_list(values@) =~= Seq::<ValueModel>::empty());
            assert(prepend(Seq::<ValueModel>::empty(), deser_items(vb, list_len as nat, 0)) =~= deser_items(vb, list_len as nat, 0));
            while i < list_len
                invariant
                    i <= list_len,
                    vb == value_bytes@,
                    vb_len == vb.len(),
                    value_bytes@.len() < buffer@.len(),
                    !(deser_items(vb, list_len as nat, 0) is Aborted),
                    deser(buffer@) == match deser_items(vb, list_len as nat, 0) {
                        Decoded::Done(items) => if cross_compatible(items, items) {
                            Decoded::Done(ValueModel::List(items))
                        } else {
                            Decoded::Failed(SerializationError::FailedToDeserializeList)
                        },
                        Decoded::Failed(e) => Decoded::Failed(e),
                        Decoded::Aborted => Decoded::Aborted,
                    },
                    deser_items(vb, list_len as nat, 0) == prepend(
                        model_list(values@),
                        deser_items(vb, (list_len - i) as nat, index as nat),
                    ),
                decreases list_len - i,
            {
                let ghost before = model_list(values@);
                assert(!(deser_items(vb, (list_len - i) as nat, index as nat) is Aborted));
                assert(index + 3 <= vb.len());
                // The next item's length, from its header.
                let value_len: usize = value_bytes[index + 1] as usize + (value_bytes[index + 2] as usize) * 256;
                let val_buffer = &value_bytes[index..index + value_len + 3];
                let val = match deserialize_clarity_value(val_buffer) {
                    Ok(v) => v,
                    Err(e) => {
                        assert(deser_items(vb, (list_len - i) as nat, index as nat) == Decoded::<Seq<ValueModel>>::Failed(e));
                        return Err(e);
                    },
                };
                let ghost m = val@;
                let ghost prev = values@;
                values.push(val);
                assert(values@.drop_last() =~= prev);
                assert(model_list(values@) == before.push(m));
                let ghost later = deser_items(vb, (list_len - i - 1) as nat, (index + value_len + 3) as nat);
                assert(prepend(before, prepend(seq![m], later)) =~= prepend(before.push(m), later)) by {
                    match later {
                        Decoded::Done(r) => {
                            assert(before + (seq![m] + r) =~= before.push(m) + r);
                        },
                        _ => {},
                    }
                };
                index = index + value_len + 3;
                i = i + 1;
            }
            assert(prepend(model_list(values@), Decoded::Done(Seq::<ValueModel>::empty())) =~= Decoded::Done(model_list(values@)));
            let list = Value::List(values);
            // The items must agree in type.
            if !compatible_values(&list, &list) {
                return Err(SerializationError::FailedToDeserializeList);
            }
            list
        },
        TypeIndicator::Tuple => {
            // Not reached: tuples are not read, and the contract leaves them out.
            return Err(SerializationError::TypeNotAllowed { received: TypeIndicator::Tuple });
        },
    };
    Ok(val)
}

/// Locates the items of a serialized sequence, as
/// [`deserialize_clarity_seq_to_ptrs`] does, or returns `None` on the inputs
/// on which that function stops with a panic (see [`seq_ptrs`]).
pub fn try_deserialize_clarity_seq_to_ptrs(buffer: &[u8]) -> (res: Option<Result<Vec<Ptr>, SerializationError>>)
    requires
        buffer@.len() <= isize::MAX,
    ensures
        match seq_ptrs(buffer@) {
            Decoded::Done(ptrs) => res matches Some(Ok(v)) && v@.len() == ptrs.len() && forall|i: int|
                0 <= i < ptrs.len() ==> (#[trigger] v@[i]).offset == ptrs[i].0 as u32
                    && v@[i].len == ptrs[i].1 as u32,
            Decoded::Failed(e) => res == Some(Err::<Vec<Ptr>, SerializationError>(e)),
            Decoded::Aborted => res is None,
        },
{
    if buffer.len() == 0 {
        return None;
    }
    let type_indicator = match type_indicator_byte_to_type_indicator(buffer[0]) {
        Ok(t) => t,
        Err(e) => return Some(Err(e)),
    };
    // This function only supports sequence types.
    if !(type_indicator == TypeIndicator::Buffer || type_indicator == TypeIndicator::AsciiString
        || type_indicator == TypeIndicator::Utf8String || type_indicator == TypeIndicator::List) {
        return Some(Err(SerializationError::TypeNotAllowed { received: type_indicator }));
    }
    if buffer.len() < 3 {
        return None;
    }
    // Extract the length of this serialized value (excluding header).
    let length_indicator: usize = buffer[1] as usize + (buffer[2] as usize) * 256;
    // The value bytes, excluding the header.
    let value = &buffer[3..buffer.len()];
    // The value's length, as a `u16`, must match the length indicator.
    let value_length: usize = value.len() % 65536;
    if value_length != length_indicator {
        return Some(Err(SerializationError::LengthIndicatorDoesNotMatchBufferLength));
    }
    assert(value@ =~= buffer@.subrange(3, buffer@.len() as int));
    let n = value.len();
    if type_indicator == TypeIndicator::Buffer || type_indicator == TypeIndicator::AsciiString {
        // One pointer per byte.
        let mut ptrs: Vec<Ptr> = Vec::new();
        let mut i: usize = 0;
        while i < n
            invariant
                0 <= i <= n,
                n == value@.len(),
                n <= isize::MAX,
                ptrs@.len() == i,
                forall|k: int| 0 <= k < i ==> (#[trigger] ptrs@[k]).offset == k as u32 && ptrs@[k].len == 1,
            decreases n - i,
        {
            ptrs.push(Ptr::new(i as u32, 1));
            i = i + 1;
        }
        return Some(Ok(ptrs));
    }
    if type_indicator == TypeIndicator::Utf8String {
        // One pointer per character.
        let ghost full = char_ptrs(value@, 0);
        let ghost mut acc: Seq<(nat, nat)> = Seq::empty();
        let mut ptrs: Vec<Ptr> = Vec::new();
        let mut i: usize = 0;
        while i < n
            invariant
                0 <= i <= n,
                n == value@.len(),
                n <= isize::MAX,
                full == char_ptrs(value@, 0),
                acc + char_ptrs(value@, i as nat) == full,
                ptrs@.len() == acc.len(),
                forall|k: int|
                    0 <= k < acc.len() ==> (#[trigger] ptrs@[k]).offset == acc[k].0 as u32 && ptrs@[k].len
                        == acc[k].1 as u32,
            decreases n - i,
        {
            let b = value[i];
            let len: usize = if b < 0x80 {
                1
            } else if b >= 0xF0 {
                4
            } else if b >= 0xE0 {
                3
            } else if b >= 0xC0 {
                2
            } else {
                1
            };
            let end = if len <= n - i {
                i + len
            } else {
                n
            };
            proof {
                assert(char_ptrs(value@, i as nat) == seq![(i as nat, (end - i) as nat)] + char_ptrs(value@, end as nat));
                assert(acc.push((i as nat, (end - i) as nat)) + char_ptrs(value@, end as nat) =~= acc + (seq![
                    (i as nat, (end - i) as nat),
                ] + char_ptrs(value@, end as nat)));
                acc = acc.push((i as nat, (end - i) as nat));
            }
            ptrs.push(Ptr::new(i as u32, (end - i) as u32));
            i = end;
        }
        assert(acc + char_ptrs(value@, n as nat) =~= acc);
        return Some(Ok(ptrs));
    }
    if value.len() < 2 {
        return None;
    }
    // The first two bytes hold the list length.
    let (list_len_bytes, value_bytes) = value.split_at(2);
    let list_len: usize = list_len_bytes[0] as usize + (list_len_bytes[1] as usize) * 256;
    let ghost vb = value_bytes@;
    assert(vb =~= value@.subrange(2, value@.len() as int));
    assert(value@ =~= buffer@.subrange(3, buffer@.len() as int));
    let vb_len = value_bytes.len();
    let ghost full = item_ptrs(vb, list_len as nat, 0);
    let ghost mut acc: Seq<(nat, nat)> = Seq::empty();
    let mut ptrs: Vec<Ptr> = Vec::new();
    let mut index: usize = 0;
    let mut i: usize = 0;
    assert(item_ptrs(vb, list_len as nat, 0) == (match item_ptrs(vb, list_len as nat, 0) {
        Some(rest) => Some(acc + rest),
        None => None::<Seq<(nat, nat)>>,
    })) by {
        if let Some(rest) = item_ptrs(vb, list_len as nat, 0) {
            assert(acc + rest =~= rest);
        }
    }
    assert(seq_ptrs(buffer@) == (match full {
        Some(p) => Decoded::Done(p),
        None => Decoded::<Seq<(nat, nat)>>::Aborted,
    }));
    while i < list_len
        invariant
            i <= list_len,
            vb == value_bytes@,
            vb_len == vb.len(),
            vb_len <= isize::MAX,
            index <= vb_len,
            acc.len() == i,
            seq_ptrs(buffer@) == (match full {
                Some(p) => Decoded::Done(p),
                None => Decoded::<Seq<(nat, nat)>>::Aborted,
            }),
            full == item_ptrs(vb, list_len as nat, 0),
            full == (match item_ptrs(vb, (list_len - i) as nat, index as nat) {
                Some(rest) => Some(acc + rest),
                None => None::<Seq<(nat, nat)>>,
            }),
            ptrs@.len() == i,
            forall|k: int|
                0 <= k < i ==> (#[trigger] ptrs@[k]).offset == acc[k].0 as u32 && ptrs@[k].len
                    == acc[k].1 as u32,
        decreases list_len - i,
    {
        if index + 3 > vb_len {
            assert(full is None);
            return None;
        }
        // The next item's length, from its header.
        let value_len: usize = value_bytes[index + 1] as usize + (value_bytes[index + 2] as usize) * 256;
        let ghost next = item_ptrs(vb, (list_len - i - 1) as nat, (index + value_len + 3) as nat);
        proof {
            if let Some(rest) = next {
                assert((acc + (seq![(index as nat, value_len as nat)] + rest)) =~= (acc.push(
                    (index as nat, value_len as nat),
                ) + rest));
            }
        }
        ptrs.push(Ptr::new(index as u32, value_len as u32));
        proof {
            acc = acc.push((index as nat, value_len as nat));
        }
        if index + value_len + 3 > vb_len {
            // The next header, if any, starts past the end.
            if i + 1 < list_len {
                assert(item_ptrs(vb, (list_len - i - 1) as nat, (index + value_len + 3) as nat) is None);
                assert(full is None);
                return None;
            } else {
                i = i + 1;
                assert(full == Some(acc)) by {
                    assert(acc + Seq::<(nat, nat)>::empty() =~= acc);
                }
                assert(ptrs@.len() == acc.len());
                proof {
                    lemma_item_ptrs_len(vb, list_len as nat, 0);
                }
                return Some(Ok(ptrs));
            }
        }
        index = index + value_len + 3;
        i = i + 1;
    }
    assert(full == Some(acc)) by {
        assert(acc + Seq::<(nat, nat)>::empty() =~= acc);
    }
    Some(Ok(ptrs))
}

/// Locates the elements of a serialized sequence without reading them. For a
/// buffer or an ASCII string, each byte of the body is an element (its offset
/// in the body, length 1); for a UTF-8 string, each character is (its offset
/// and byte length). A list's body is a two-byte item count, then the items,
/// each with its own header: for each item, the offset of its header from the
/// start of the items and the body length its header gives. Only sequence
/// types are accepted. Offsets are cast to `u32`.
///
/// The inputs on which this stops with a panic (see [`seq_ptrs`]) are left out.
pub fn deserialize_clarity_seq_to_ptrs(buffer: &[u8]) -> (res: Result<Vec<Ptr>, SerializationError>)
    requires
        !(seq_ptrs(buffer@) is Aborted),
        buffer@.len() <= isize::MAX,
    ensures
        match seq_ptrs(buffer@) {
            Decoded::Done(ptrs) => res matches Ok(v) && v@.len() == ptrs.len() && forall|i: int|
                0 <= i < ptrs.len() ==> (#[trigger] v@[i]).offset == ptrs[i].0 as u32
                    && v@[i].len == ptrs[i].1 as u32,
            Decoded::Failed(e) => res == Err::<Vec<Ptr>, SerializationError>(e),
            Decoded::Aborted => false,
        },
{
    match try_deserialize_clarity_seq_to_ptrs(buffer) {
        Some(res) => res,
        None => {
            assert(false);
            Ok(Vec::new())
        },
    }
}

/// Appends a copy of `bytes`.
fn push_bytes(out: &mut Vec<u8>, bytes: &[u8])
    ensures
        final(out)@ == old(out)@ + bytes@,
{
    let mut copy = slice_to_vec(bytes);
    out.append(&mut copy);
}

/// Appends a principal's version byte and hash.
fn push_standard_principal(out: &mut Vec<u8>, p: &StandardPrincipal)
    ensures
        final(out)@ == old(out)@ + principal_bytes(standard_model(*p), false),
{
    out.push(p.version);
    push_bytes(out, p.data.as_slice());
    assert(final(out)@ =~= old(out)@ + principal_bytes(standard_model(*p), false));
}

/// Appends a two-byte name length and the name's UTF-8 bytes.
fn push_name(out: &mut Vec<u8>, name: &String)
    ensures
        final(out)@ == old(out)@ + le16(vstd::utf8::encode_utf8(name@).len()) + vstd::utf8::encode_utf8(
            name@,
        ),
{
    let name_bytes = name.as_str().as_bytes();
    push_u16_le(out, name_bytes.len());
    push_bytes(out, name_bytes);
    assert(final(out)@ =~= old(out)@ + le16(vstd::utf8::encode_utf8(name@).len())
        + vstd::utf8::encode_utf8(name@));
}

/// Appends a contract identifier: its issuer, then its name.
fn push_contract(out: &mut Vec<u8>, c: &ContractIdentifier)
    ensures
        final(out)@ == old(out)@ + principal_bytes(contract_model(*c), true),
{
    push_standard_principal(out, &c.issuer);
    push_name(out, &c.name);
    assert(final(out)@ =~= old(out)@ + principal_bytes(contract_model(*c), true));
}

/// Appends a trait identifier: its contract's issuer, then the trait's name.
fn push_trait(out: &mut Vec<u8>, t: &TraitIdentifier)
    ensures
        final(out)@ == old(out)@ + trait_bytes(trait_model(*t)),
{
    push_standard_principal(out, &t.contract_identifier.issuer);
    push_name(out, &t.name);
    assert(final(out)@ =~= old(out)@ + trait_bytes(trait_model(*t)));
}

/// Converts a value into its serialized bytes: a header (type indicator, body
/// length) and the body. It always succeeds. A body of `2^16` bytes or more, or
/// a list of as many items, has its length written modulo `2^16`. A tuple's
/// values are written in the order of its entries, which is the order of their
/// names (see [`tuples_ordered`]).
pub fn serialize_clarity_value(value: &Value) -> (res: Result<Vec<u8>, SerializationError>)
    requires
        tuples_ordered(value@),
    ensures
        res matches Ok(bytes) && bytes@ == ser(value@),
    decreases value,
{
    let mut result: Vec<u8> = Vec::new();
    match value {
        Value::UInt(n) => {
            push_u128_le(&mut result, *n);
            assert(result@ =~= ser_body(value@));
        },
        Value::Int(n) => {
            push_u128_le(&mut result, i128_to_bits(*n));
            assert(result@ =~= ser_body(value@));
        },
        Value::Bool(b) => {
            result.push(if *b { 1 } else { 0 });
            assert(result@ =~= ser_body(value@));
        },
        Value::Optional(o) => {
            match o {
                Some(data) => {
                    result.push(1);
                    match serialize_clarity_value(&**data) {
                        Ok(mut inner) => result.append(&mut inner),
                        Err(e) => return Err(e),
                    }
                },
                None => result.push(0),
            }
            assert(result@ =~= ser_body(value@));
        },
        Value::Response(committed, data) => {
            result.push(if *committed { 1 } else { 0 });
            match serialize_clarity_value(&**data) {
                Ok(mut inner) => result.append(&mut inner),
                Err(e) => return Err(e),
            }
            assert(result@ =~= ser_body(value@));
        },
        Value::AsciiString(s) => {
            push_bytes(&mut result, s.as_slice());
            assert(result@ =~= ser_body(value@));
        },
        Value::Utf8String(s) => {
            push_bytes(&mut result, s.as_slice());
            assert(result@ =~= ser_body(value@));
        },
        Value::Buffer(b) => {
            push_bytes(&mut result, b.as_slice());
            assert(result@ =~= ser_body(value@));
        },
        Value::List(l) => {
            push_u16_le(&mut result, l.len());
            let ghost start = result@;
            let mut i: usize = 0;
            while i < l.len()
                invariant
                    0 <= i <= l.len(),
                    *value == Value::List(*l),
                    tuples_ordered(value@),
                    result@ == start + ser_list(model_list(l@.subrange(0, i as int))),
                decreases l.len() - i,
            {
                proof {
                    vstd::std_specs::vec::axiom_vec_index_decreases(*l, i as int);
                    assert(decreases_to!(*value => (*value)->List_0));
                    lemma_model_list_index(l@, i as int);
                    lemma_model_list_len(l@);
                    assert(value@ == ValueModel::List(model_list(l@)));
                    crate::value::lemma_list_item_ordered(model_list(l@), i as int);
                }
                match serialize_clarity_value(&l[i]) {
                    Ok(mut data) => result.append(&mut data),
                    Err(e) => return Err(e),
                }
                let ghost ms = model_list(l@.subrange(0, i as int));
                assert(l@.subrange(0, i + 1).drop_last() =~= l@.subrange(0, i as int));
                assert(model_list(l@.subrange(0, i + 1)) == ms.push(l@[i as int]@));
                assert(ms.push(l@[i as int]@).drop_last() =~= ms);
                i = i + 1;
            }
            assert(l@.subrange(0, l.len() as int) =~= l@);
            proof {
                lemma_model_list_len(l@);
            }
            assert(result@ =~= ser_body(value@));
        },
        Value::StandardPrincipal(p) => push_standard_principal(&mut result, p),
        Value::ContractPrincipal(c) => push_contract(&mut result, c),
        Value::CallableContract(c, t) => {
            push_contract(&mut result, c);
            match t {
                Some(t) => {
                    result.push(1);
                    push_trait(&mut result, t);
                },
                None => result.push(0),
            }
        },
        Value::Tuple(entries) => {
            let ghost start = result@;
            let mut i: usize = 0;
            while i < entries.len()
                invariant
                    0 <= i <= entries.len(),
                    *value == Value::Tuple(*entries),
                    tuples_ordered(value@),
                    result@ == start + ser_entries(model_entries(entries@.subrange(0, i as int))),
                decreases entries.len() - i,
            {
                proof {
                    vstd::std_specs::vec::axiom_vec_index_decreases(*entries, i as int);
                    assert(decreases_to!(*value => (*value)->Tuple_0));
                    assert(decreases_to!(entries[i as int] => entries[i as int].1));
                    lemma_model_entries_index(entries@, i as int);
                    lemma_model_entries_len(entries@);
                    assert(value@ == ValueModel::Tuple(model_entries(entries@)));
                    crate::value::lemma_entry_ordered(model_entries(entries@), i as int);
                }
                match serialize_clarity_value(&entries[i].1) {
                    Ok(mut data) => result.append(&mut data),
                    Err(e) => return Err(e),
                }
                let ghost es = model_entries(entries@.subrange(0, i as int));
                let ghost e = (entries@[i as int].0@, entries@[i as int].1@);
                assert(entries@.subrange(0, i + 1).drop_last() =~= entries@.subrange(0, i as int));
                assert(model_entries(entries@.subrange(0, i + 1)) == es.push(e));
                assert(es.push(e).drop_last() =~= es);
                i = i + 1;
            }
            assert(entries@.subrange(0, entries.len() as int) =~= entries@);
            assert(result@ =~= ser_body(value@));
        },
    }
    let ghost body = result@;
    assert(body == ser_body(value@));
    let mut header: Vec<u8> = Vec::new();
    header.push(get_type_indicator_for_clarity_value(value));
    push_u16_le(&mut header, result.len());
    header.append(&mut result);
    assert(header@ =~= frame(type_tag(value@), body));
    Ok(header)
}

proof fn lemma_char_ptrs_of_encoding(pre: Seq<u8>, s: Seq<char>)
    ensures
        char_ptrs(pre + encode_utf8(s), pre.len()) == Seq::new(
            s.len(),
            |j: int| ((pre.len() + encode_utf8(s.take(j)).len()) as nat, encode_utf8(seq![s[j]]).len()),
        ),
    decreases s.len(),
{
    let bytes = pre + encode_utf8(s);
    let want = Seq::new(
        s.len(),
        |j: int| ((pre.len() + encode_utf8(s.take(j)).len()) as nat, encode_utf8(seq![s[j]]).len()),
    );
    if s.len() == 0 {
        assert(want =~= Seq::<(nat, nat)>::empty());
    } else {
        let first = encode_utf8(seq![s[0]]);
        let rest = s.drop_first();
        crate::fold::lemma_encode_cons(s);
        crate::fold::lemma_encoded_char_len(s[0]);
        let pre2 = pre + first;
        assert(bytes =~= pre2 + encode_utf8(rest));
        assert(bytes[pre.len() as int] == first[0]);
        lemma_char_ptrs_of_encoding(pre2, rest);
        let got = char_ptrs(pre2 + encode_utf8(rest), pre2.len());
        assert(s.take(0) =~= Seq::<char>::empty());
        assert(encode_utf8(Seq::<char>::empty()) =~= Seq::<u8>::empty());
        assert forall|j: int| 0 <= j < rest.len() implies #[trigger] got[j] == want[j + 1] by {
            let t = s.take(j + 1);
            assert(t.len() > 0);
            crate::fold::lemma_encode_cons(t);
            assert(t[0] == s[0]);
            assert(t.drop_first() =~= rest.take(j));
            assert(rest[j] == s[j + 1]);
        }
        assert(want =~= seq![(pre.len(), first.len())] + got);
    }
}

/// The pointers to the characters of a serialized UTF-8 string are exactly
/// its characters: for any characters whose encoding fits, one pointer per
/// character, at the offset where its encoding starts and as long as it.
pub proof fn law_utf8_pointers_locate_characters(s: Seq<char>)
    requires
        encode_utf8(s).len() < 65536,
    ensures
        seq_ptrs(frame(7, encode_utf8(s))) == Decoded::Done(
            Seq::new(
                s.len(),
                |j: int| (encode_utf8(s.take(j)).len(), encode_utf8(seq![s[j]]).len()),
            ),
        ),
        char_ptrs(encode_utf8(s), 0).len() == s.len(),
{
    let body = encode_utf8(s);
    let buf = frame(7, body);
    crate::bytes::lemma_le16(body.len());
    assert(buf.subrange(3, buf.len() as int) =~= body);
    assert(buf[1] == le16(body.len())[0] && buf[2] == le16(body.len())[1]);
    lemma_char_ptrs_of_encoding(Seq::empty(), s);
    assert(Seq::<u8>::empty() + body =~= body);
    assert(char_ptrs(body, 0) =~= Seq::new(
        s.len(),
        |j: int| (encode_utf8(s.take(j)).len(), encode_utf8(seq![s[j]]).len()),
    ));
}

/// A serialized ASCII string is read back exactly when each of its bytes is
/// printable ASCII (`0x20` to `0x7E`) or white space (tab, line feed, form
/// feed, carriage return); otherwise it is refused as not ASCII.
pub proof fn law_ascii_strings_read_back(bytes: Seq<u8>)
    requires
        bytes.len() < 65536,
    ensures
        (forall|i: int| 0 <= i < bytes.len() ==> {
            let b = #[trigger] bytes[i];
            (0x20 <= b && b <= 0x7E) || b == 0x09 || b == 0x0A || b == 0x0C || b == 0x0D
        }) ==> deser(frame(6, bytes)) == Decoded::Done(ValueModel::AsciiString(bytes)),
        !(forall|i: int| 0 <= i < bytes.len() ==> {
            let b = #[trigger] bytes[i];
            (0x20 <= b && b <= 0x7E) || b == 0x09 || b == 0x0A || b == 0x0C || b == 0x0D
        }) ==> deser(frame(6, bytes)) == Decoded::<ValueModel>::Failed(SerializationError::FailedToConvertBytesToAscii),
{
    let buf = frame(6, bytes);
    crate::bytes::lemma_le16(bytes.len());
    assert(buf.subrange(3, buf.len() as int) =~= bytes);
    assert(buf[1] == le16(bytes.len())[0] && buf[2] == le16(bytes.len())[1]);
}

/// Values with the same type indicator that hold no other values (integers,
/// booleans, buffers, strings, principals of one kind) may always stand in one
/// list, and so may `none` and any optional.
pub proof fn law_same_kind_values_agree(a: ValueModel, b: ValueModel)
    requires
        (type_tag(a) == type_tag(b) && !(a is Optional || a is Response || a is List || a is Tuple)) || (a
            == ValueModel::Optional(None) && b is Optional),
    ensures
        compatible(a, b),
{
}

/// A list whose items all have one type indicator and hold no other values
/// (all integers, all buffers, all booleans, ...), each of which makes the
/// round trip, is read back unchanged from its serialized bytes.
pub proof fn law_lists_of_one_kind_roundtrip(items: Seq<ValueModel>)
    requires
        items.len() < 65536,
        ser_body(ValueModel::List(items)).len() < 65536,
        forall|i: int| 0 <= i < items.len() ==> roundtrips(#[trigger] items[i]),
        forall|i: int|
            0 <= i < items.len() ==> type_tag(#[trigger] items[i]) == type_tag(items[0]) && !(items[i] is Optional
                || items[i] is Response || items[i] is List || items[i] is Tuple),
    ensures
        deser(ser(ValueModel::List(items))) == Decoded::Done(ValueModel::List(items)),
{
    assert forall|i: int, j: int| 0 <= i < items.len() && 0 <= j < items.len() implies compatible(
        #[trigger] items[i],
        #[trigger] items[j],
    ) by {
        law_same_kind_values_agree(items[i], items[j]);
    }
    lemma_cross_compatible(items, items);
    lemma_all_roundtrip(items);
    lemma_roundtrip(ValueModel::List(items));
}

proof fn lemma_all_roundtrip(items: Seq<ValueModel>)
    requires
        forall|i: int| 0 <= i < items.len() ==> roundtrips(#[trigger] items[i]),
    ensures
        all_roundtrip(items),
    decreases items.len(),
{
    if items.len() > 0 {
        let rest = items.drop_first();
        assert forall|i: int| 0 <= i < rest.len() implies roundtrips(#[trigger] rest[i]) by {
            assert(rest[i] == items[i + 1]);
        }
        lemma_all_roundtrip(rest);
        assert(roundtrips(items[0]));
    }
}

/// The values of a tuple's entries, each written whole, first to last: its
/// type indicator, its body's length in two little-endian bytes, its body.
pub open spec fn framed_values(entries: Seq<(Seq<char>, ValueModel)>) -> Seq<u8>
    decreases entries.len(),
{
    if entries.len() == 0 {
        Seq::empty()
    } else {
        let v = entries[0].1;
        let body = ser_body(v);
        seq![type_tag(v)] + le16(body.len()) + body + framed_values(entries.drop_first())
    }
}

/// A tuple's body is its entries' values written one after the other, each
/// whole with its own header (type indicator and body length), whatever its
/// type; the names are not written.
pub proof fn law_tuple_body_is_its_values_framed(entries: Seq<(Seq<char>, ValueModel)>)
    ensures
        ser_body(ValueModel::Tuple(entries)) == framed_values(entries),
    decreases entries.len(),
{
    if entries.len() > 0 {
        lemma_ser_entries_cons(entries);
        law_tuple_body_is_its_values_framed(entries.drop_first());
        let v = entries[0].1;
        assert(ser(v) == seq![type_tag(v)] + le16(ser_body(v).len()) + ser_body(v));
    }
}

proof fn lemma_ser_entries_cons(entries: Seq<(Seq<char>, ValueModel)>)
    requires
        entries.len() > 0,
    ensures
        ser_entries(entries) == ser(entries[0].1) + ser_entries(entries.drop_first()),
    decreases entries.len(),
{
    if entries.len() == 1 {
        assert(entries.drop_first() =~= Seq::<(Seq<char>, ValueModel)>::empty());
        assert(entries.drop_last() =~= Seq::<(Seq<char>, ValueModel)>::empty());
        assert(ser_entries(entries.drop_last()) =~= Seq::<u8>::empty());
        assert(ser_entries(entries.drop_first()) =~= Seq::<u8>::empty());
        assert(entries.last() == entries[0]);
        assert(ser_entries(entries) =~= ser(entries[0].1));
    } else {
        lemma_ser_entries_cons(entries.drop_last());
        assert(entries.drop_last().drop_first() =~= entries.drop_first().drop_last());
        assert(entries.drop_first().last() == entries.last());
        assert(entries.drop_last()[0] == entries[0]);
    }
}

/// The pointers to the elements of a serialized buffer or ASCII string locate
/// its bytes: one pointer per byte, the `i`-th at offset `i`, one byte long.
pub proof fn law_byte_pointers_locate_bytes(tag: u8, bytes: Seq<u8>)
    requires
        tag == 6 || tag == 8,
        bytes.len() < 65536,
    ensures
        ({
            let r = seq_ptrs(frame(tag, bytes));
            &&& r is Done
            &&& r->Done_0.len() == bytes.len()
            &&& forall|i: int| 0 <= i < bytes.len() ==> #[trigger] r->Done_0[i] == (i as nat, 1nat)
        }),
{
    let buf = frame(tag, bytes);
    crate::bytes::lemma_le16(bytes.len());
    assert(buf.subrange(3, buf.len() as int) =~= bytes);
    assert(buf[1] == le16(bytes.len())[0] && buf[2] == le16(bytes.len())[1]);
}

} // verus!
