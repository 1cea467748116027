//! Decoding of the producer's raw records: a fixed-layout key and a counter value of up to
//! eight bytes.
//!
//! A key is 24 bytes: the CPU index and the process identifier, four bytes each, followed by
//! a name field of 16 bytes, in which a shorter name is followed by zero bytes. Integers are
//! laid out in the byte order of the producer, which the caller names.

use crate::bytes::{
    le_digits, lemma_field_round_trip, lemma_le_value_bound, pattern_of, radix_bound,
    read_unsigned, signed32, signed_of, unsigned32, write_unsigned, ByteOrder,
};
use crate::key::{Key, KeyModel};
use vstd::prelude::*;
use vstd::slice::*;
use vstd::string::*;
use vstd::utf8::*;

verus! {

/// Size of a raw key in bytes.
pub const KEY_SIZE: usize = 24;

/// Size of the name field of a raw key in bytes.
pub const NAME_SIZE: usize = 16;

/// Size of a counter value in bytes.
pub const VALUE_SIZE: usize = 8;

/// The producer's key as it arrives: the two integers and the name field, byte for byte.
#[derive(Clone, Copy, Debug)]
pub struct RawKey {
    pub cpu: i32,
    pub pid: i32,
    pub name: [u8; 16],
}

/// The first `width` bytes of `bytes`, with zeros where `bytes` is shorter.
pub open spec fn zero_extended(bytes: Seq<u8>, width: nat) -> Seq<u8> {
    Seq::new(
        width,
        |i: int|
            if i < bytes.len() {
                bytes[i]
            } else {
                0u8
            },
    )
}

/// A name field without the zero bytes at its end.
pub open spec fn unpadded(field: Seq<u8>) -> Seq<u8>
    decreases field.len(),
{
    if field.len() > 0 && field.last() == 0 {
        unpadded(field.drop_last())
    } else {
        field
    }
}

/// The text of a name field: the characters of the field without its padding where those
/// bytes are well-formed UTF-8, and the empty text where they are not.
pub open spec fn text_of(field: Seq<u8>) -> Seq<char> {
    if valid_utf8(unpadded(field)) {
        decode_utf8(unpadded(field))
    } else {
        Seq::empty()
    }
}

/// The counter value that a byte sequence of any length stands for.
pub open spec fn decoded_value(bytes: Seq<u8>, order: ByteOrder) -> nat {
    order.value(zero_extended(bytes, 8))
}

/// The key that a raw key of 24 bytes stands for.
pub open spec fn decoded_key(bytes: Seq<u8>, order: ByteOrder) -> KeyModel {
    KeyModel {
        cpu: signed32(order.value(bytes.subrange(0, 4))),
        pid: signed32(order.value(bytes.subrange(4, 8))),
        name: text_of(bytes.subrange(8, 24)),
    }
}

/// The raw key that stands for given fields, the name given by its bytes.
pub open spec fn encoded_key(cpu: int, pid: int, name: Seq<u8>, order: ByteOrder) -> Seq<u8> {
    order.field(unsigned32(cpu), 4) + order.field(unsigned32(pid), 4) + zero_extended(name, 16)
}

/// `core::str::from_utf8`, with the error dropped: the string slice over `bytes` where they
/// are well-formed UTF-8, and nothing where they are not.
#[verifier::external_body]
fn utf8_str(bytes: &[u8]) -> (text: Option<&str>)
    ensures
        text is Some <==> valid_utf8(bytes@),
        text matches Some(s) ==> s@ == decode_utf8(bytes@),
{
    std::str::from_utf8(bytes).ok()
}

/// `u16::to_ne_bytes`: the two bytes of `v` as the machine lays them out, which is one of
/// the two byte orders.
#[verifier::external_body]
fn machine_bytes(v: u16) -> (b: [u8; 2])
    ensures
        b@ == ByteOrder::Little.field(v as nat, 2) || b@ == ByteOrder::Big.field(v as nat, 2),
{
    v.to_ne_bytes()
}

impl ByteOrder {
    /// The byte order in which the two bytes of `layout` hold the number 1, if they hold it
    /// in either order.
    pub fn holding_one(layout: [u8; 2]) -> (r: Option<ByteOrder>)
        ensures
            r == (if layout@ == ByteOrder::Little.field(1, 2) {
                Some(ByteOrder::Little)
            } else if layout@ == ByteOrder::Big.field(1, 2) {
                Some(ByteOrder::Big)
            } else {
                None
            }),
    {
        proof {
            reveal_with_fuel(le_digits, 3);
            assert(ByteOrder::Little.field(1, 2) =~= seq![1u8, 0u8]);
            assert(ByteOrder::Big.field(1, 2) =~= seq![0u8, 1u8]);
            assert(layout@ =~= seq![layout@[0], layout@[1]]);
        }
        if layout[0] == 1 && layout[1] == 0 {
            Some(ByteOrder::Little)
        } else if layout[0] == 0 && layout[1] == 1 {
            Some(ByteOrder::Big)
        } else {
            None
        }
    }

    /// The byte order of the machine that runs this code: the order in which it lays out the
    /// number 1 in two bytes. A producer on the same machine lays its integers out in this
    /// order. Which of the two orders this is depends on the machine alone.
    pub fn native() -> ByteOrder {
        match ByteOrder::holding_one(machine_bytes(1)) {
            Some(order) => order,
            None => {
                assert(false);
                ByteOrder::Little
            },
        }
    }
}

fn read_i32(bytes: &[u8], start: usize, order: ByteOrder) -> (v: i32)
    requires
        start + 4 <= bytes@.len(),
    ensures
        v as int == signed32(order.value(bytes@.subrange(start as int, start + 4))),
{
    let raw: u64 = read_unsigned(bytes, start, 4, order);
    proof {
        lemma_le_value_bound(order.little_first(bytes@.subrange(start as int, start + 4)));
        reveal_with_fuel(radix_bound, 5);
    }
    signed_of(raw as u32)
}

fn write_i32(out: &mut Vec<u8>, v: i32, order: ByteOrder)
    ensures
        final(out)@ == old(out)@ + order.field(unsigned32(v as int), 4),
{
    write_unsigned(out, pattern_of(v) as u64, 4, order);
}

/// Reads a raw key of exactly [`KEY_SIZE`] bytes field by field. A buffer of any other size
/// is refused, and no byte outside the buffer is read.
pub fn parse_struct(x: &[u8], order: ByteOrder) -> (r: Option<RawKey>)
    ensures
        r is Some <==> x@.len() == KEY_SIZE,
        r matches Some(raw) ==> {
            &&& raw.cpu as int == signed32(order.value(x@.subrange(0, 4)))
            &&& raw.pid as int == signed32(order.value(x@.subrange(4, 8)))
            &&& raw.name@ == x@.subrange(8, 24)
        },
{
    if x.len() != KEY_SIZE {
        return None;
    }
    let cpu = read_i32(x, 0, order);
    let pid = read_i32(x, 4, order);
    let mut name = [0u8;16];
    let mut i: usize = 0;
    while i < NAME_SIZE
        invariant
            i <= NAME_SIZE,
            x@.len() == KEY_SIZE,
            forall|j: int| 0 <= j < i ==> name@[j] == x@[8 + j],
        decreases NAME_SIZE - i,
    {
        name[i] = x[8 + i];
        i = i + 1;
    }
    assert(name@ =~= x@.subrange(8, 24));
    Some(RawKey { cpu, pid, name })
}

impl RawKey {
    /// The typed key: the integers as they are, the name field as text. The zero bytes that
    /// pad the field are no part of the name. A name that is not well-formed UTF-8 gives the
    /// empty name.
    pub fn into_key(self) -> (k: Key)
        ensures
            k@ == (KeyModel {
                cpu: self.cpu as int,
                pid: self.pid as int,
                name: text_of(self.name@),
            }),
    {
        let mut end: usize = NAME_SIZE;
        assert(self.name@.take(16) =~= self.name@);
        while end > 0 && self.name[end - 1] == 0
            invariant
                end <= NAME_SIZE,
                unpadded(self.name@) == unpadded(self.name@.take(end as int)),
            decreases end,
        {
            assert(self.name@.take(end as int).drop_last() =~= self.name@.take(end - 1));
            end = end - 1;
        }
        let body = slice_subrange(self.name.as_slice(), 0, end);
        assert(body@ =~= unpadded(self.name@));
        let name = match utf8_str(body) {
            Some(text) => String::from_str(text),
            None => String::new(),
        };
        Key { cpu: self.cpu, pid: self.pid, name }
    }
}

/// Decodes a raw key of exactly [`KEY_SIZE`] bytes; a buffer of any other size is refused.
pub fn decode_key(bytes: &[u8], order: ByteOrder) -> (r: Option<Key>)
    ensures
        r is Some <==> bytes@.len() == KEY_SIZE,
        r matches Some(k) ==> k@ == decoded_key(bytes@, order),
{
    match parse_struct(bytes, order) {
        Some(raw) => Some(raw.into_key()),
        None => None,
    }
}

/// Decodes a counter value: the first eight bytes of `x`, a shorter buffer extended with
/// zeros behind it, read as an unsigned number in `order`.
pub fn parse_u64(x: &[u8], order: ByteOrder) -> (v: u64)
    ensures
        v as nat == decoded_value(x@, order),
{
    let mut field: Vec<u8> = Vec::new();
    let mut i: usize = 0;
    while i < VALUE_SIZE
        invariant
            i <= VALUE_SIZE,
            field@.len() == i,
            forall|j: int| 0 <= j < i ==> field@[j] == zero_extended(x@, 8)[j],
        decreases VALUE_SIZE - i,
    {
        let b: u8 = if i < x.len() {
            x[i]
        } else {
            0
        };
        field.push(b);
        i = i + 1;
    }
    assert(field@ =~= zero_extended(x@, 8));
    assert(field@.subrange(0, 8) =~= field@);
    read_unsigned(field.as_slice(), 0, VALUE_SIZE, order)
}

/// Lays a key out as the producer does. A name of more than [`NAME_SIZE`] bytes does not fit
/// and is refused; a shorter one is followed by zero bytes.
pub fn encode_key(key: &Key, order: ByteOrder) -> (r: Option<Vec<u8>>)
    ensures
        r is Some <==> encode_utf8(key@.name).len() <= NAME_SIZE,
        r matches Some(bytes) ==> bytes@ == encoded_key(
            key@.cpu,
            key@.pid,
            encode_utf8(key@.name),
            order,
        ),
{
    let name = key.name.as_str().as_bytes();
    if name.len() > NAME_SIZE {
        return None;
    }
    let mut out: Vec<u8> = Vec::new();
    write_i32(&mut out, key.cpu, order);
    write_i32(&mut out, key.pid, order);
    let ghost head = out@;
    let mut i: usize = 0;
    while i < NAME_SIZE
        invariant
            i <= NAME_SIZE,
            name@.len() <= NAME_SIZE,
            out@ == head + zero_extended(name@, 16).subrange(0, i as int),
        decreases NAME_SIZE - i,
    {
        let b: u8 = if i < name.len() {
            name[i]
        } else {
            0
        };
        out.push(b);
        i = i + 1;
        proof {
            let whole = zero_extended(name@, 16);
            assert(whole.subrange(0, i as int) =~= whole.subrange(0, i - 1).push(whole[i - 1]));
        }
    }
    proof {
        let whole = zero_extended(name@, 16);
        assert(whole.subrange(0, 16) =~= whole);
    }
    Some(out)
}

/// Encode a counter value as the producer lays it out.
pub fn encode_u64(value: u64, order: ByteOrder) -> (bytes: Vec<u8>)
    ensures
        bytes@ == order.field(value as nat, 8),
{
    let mut out: Vec<u8> = Vec::new();
    write_unsigned(&mut out, value, VALUE_SIZE, order);
    assert(out@ =~= order.field(value as nat, 8));
    out
}

proof fn lemma_encode_utf8_concat(a: Seq<char>, b: Seq<char>)
    ensures
        encode_utf8(a + b) == encode_utf8(a) + encode_utf8(b),
    decreases a.len(),
{
    if a.len() == 0 {
        assert(a + b =~= b);
        assert(encode_utf8(a) + encode_utf8(b) =~= encode_utf8(b));
    } else {
        lemma_encode_utf8_concat(a.drop_first(), b);
        assert((a + b).drop_first() =~= a.drop_first() + b);
        assert(encode_utf8(a + b) =~= encode_utf8(a) + encode_utf8(b));
    }
}

proof fn lemma_scalar_ends_nonzero(scalar: u32)
    requires
        is_scalar(scalar),
        scalar != 0,
    ensures
        encode_scalar(scalar).len() > 0,
        encode_scalar(scalar).last() != 0,
{
    assert(scalar <= 0x7F && scalar != 0 ==> (scalar & 0x7F) as u8 != 0) by (bit_vector);
    assert(0x80u8 | (scalar & 0x3F) as u8 != 0) by (bit_vector);
}

/// The bytes of a text that does not end in a NUL character do not end in a zero byte.
pub proof fn lemma_text_ends_nonzero(name: Seq<char>)
    requires
        name.len() > 0,
        name.last() != '\0',
    ensures
        encode_utf8(name).len() > 0,
        encode_utf8(name).last() != 0,
{
    let front = name.drop_last();
    let last = name.last();
    let end = seq![last];
    assert(name =~= front + end);
    lemma_encode_utf8_concat(front, end);
    assert(encode_utf8(end) =~= encode_scalar(last as u32)) by {
        reveal_with_fuel(encode_utf8, 2);
        assert(end.drop_first() =~= Seq::<char>::empty());
    }
    char_is_scalar(last);
    assert(last as u32 != 0) by {
        char_u32_cast(last, last as u32);
        char_u32_cast('\0', 0u32);
    }
    lemma_scalar_ends_nonzero(last as u32);
}

/// Bytes that do not end in a zero byte, padded to a width, come back when the padding is
/// taken off.
pub proof fn lemma_unpadded_restores(bytes: Seq<u8>, width: nat)
    requires
        bytes.len() <= width,
        bytes.len() == 0 || bytes.last() != 0,
    ensures
        unpadded(zero_extended(bytes, width)) == bytes,
    decreases width - bytes.len(),
{
    let field = zero_extended(bytes, width);
    if bytes.len() < width {
        assert(field.drop_last() =~= zero_extended(bytes, (width - 1) as nat));
        lemma_unpadded_restores(bytes, (width - 1) as nat);
    } else {
        assert(field =~= bytes);
    }
}

/// Decoder round trip. A key whose name takes at most sixteen bytes and does not end in a
/// NUL character, laid out as the producer does and decoded in the same byte order, gives
/// back its CPU, its process and its name.
pub proof fn lemma_key_round_trip(cpu: i32, pid: i32, name: Seq<char>, order: ByteOrder)
    requires
        encode_utf8(name).len() <= NAME_SIZE,
        name.len() == 0 || name.last() != '\0',
    ensures
        encoded_key(cpu as int, pid as int, encode_utf8(name), order).len() == KEY_SIZE,
        decoded_key(
            encoded_key(cpu as int, pid as int, encode_utf8(name), order),
            order,
        ) == (KeyModel { cpu: cpu as int, pid: pid as int, name }),
{
    let bytes = encoded_key(cpu as int, pid as int, encode_utf8(name), order);
    reveal_with_fuel(radix_bound, 5);
    lemma_field_round_trip(order, unsigned32(cpu as int), 4);
    lemma_field_round_trip(order, unsigned32(pid as int), 4);
    assert(bytes.subrange(0, 4) =~= order.field(unsigned32(cpu as int), 4));
    assert(bytes.subrange(4, 8) =~= order.field(unsigned32(pid as int), 4));
    assert(bytes.subrange(8, 24) =~= zero_extended(encode_utf8(name), 16));
    if name.len() > 0 {
        lemma_text_ends_nonzero(name);
    }
    lemma_unpadded_restores(encode_utf8(name), 16);
    encode_utf8_valid_utf8(name);
    encode_utf8_decode_utf8(name);
}

/// Value padding. A value of fewer than eight bytes decodes to the same number as those
/// bytes followed by zeros up to eight, and a value of more than eight bytes to the same
/// number as its first eight.
pub proof fn lemma_value_padding(bytes: Seq<u8>, order: ByteOrder)
    ensures
        bytes.len() < 8 ==> decoded_value(bytes, order) == decoded_value(
            bytes + Seq::new((8 - bytes.len()) as nat, |i: int| 0u8),
            order,
        ),
        bytes.len() > 8 ==> decoded_value(bytes, order) == decoded_value(
            bytes.subrange(0, 8),
            order,
        ),
{
    if bytes.len() < 8 {
        let padded = bytes + Seq::new((8 - bytes.len()) as nat, |i: int| 0u8);
        assert(zero_extended(bytes, 8) =~= zero_extended(padded, 8));
    }
    if bytes.len() > 8 {
        assert(zero_extended(bytes, 8) =~= zero_extended(bytes.subrange(0, 8), 8));
    }
}

/// A value written in some byte order and decoded in the same order is the value.
pub proof fn lemma_value_round_trip(value: u64, order: ByteOrder)
    ensures
        decoded_value(order.field(value as nat, 8), order) == value,
{
    reveal_with_fuel(radix_bound, 9);
    lemma_field_round_trip(order, value as nat, 8);
    assert(zero_extended(order.field(value as nat, 8), 8) =~= order.field(value as nat, 8));
}

} // verus!
