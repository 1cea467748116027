//! Fixed-width integers as byte strings, in either byte order.

use vstd::prelude::*;

verus! {

/// The order in which the bytes of an integer field are laid out.
#[derive(Clone, Copy, Debug, PartialEq, Eq, Structural)]
pub enum ByteOrder {
    /// Least significant byte first.
    Little,
    /// Most significant byte first.
    Big,
}

/// The number written by `digits` in base 256, least significant digit first.
pub open spec fn le_value(digits: Seq<u8>) -> nat
    decreases digits.len(),
{
    if digits.len() == 0 {
        0
    } else {
        digits[0] as nat + 256 * le_value(digits.drop_first())
    }
}

/// The `width` low digits of `v` in base 256, least significant digit first.
pub open spec fn le_digits(v: nat, width: nat) -> Seq<u8>
    decreases width,
{
    if width == 0 {
        Seq::empty()
    } else {
        seq![(v % 256) as u8] + le_digits(v / 256, (width - 1) as nat)
    }
}

/// `s` read from its last element to its first.
pub open spec fn reversed(s: Seq<u8>) -> Seq<u8> {
    Seq::new(s.len(), |i: int| s[s.len() - 1 - i])
}

/// 256 to the power `len`: the number of values that `len` bytes can hold.
pub open spec fn radix_bound(len: nat) -> nat
    decreases len,
{
    if len == 0 {
        1
    } else {
        256 * radix_bound((len - 1) as nat)
    }
}

/// The two's complement reading of a 32-bit pattern.
pub open spec fn signed32(v: nat) -> int {
    if v >= 0x8000_0000 {
        v - 0x1_0000_0000
    } else {
        v as int
    }
}

/// The 32-bit pattern that two's complement gives to `x`.
pub open spec fn unsigned32(x: int) -> nat {
    if x < 0 {
        (x + 0x1_0000_0000) as nat
    } else {
        x as nat
    }
}

impl ByteOrder {
    /// The bytes of a field rearranged so that the least significant comes first. Applied to
    /// digits that are least significant first, it lays them out in this order instead.
    pub open spec fn little_first(self, field: Seq<u8>) -> Seq<u8> {
        match self {
            ByteOrder::Little => field,
            ByteOrder::Big => reversed(field),
        }
    }

    /// The unsigned number that a field holds when read in this order.
    pub open spec fn value(self, field: Seq<u8>) -> nat {
        le_value(self.little_first(field))
    }

    /// The field of `width` bytes that holds `v` in this order.
    pub open spec fn field(self, v: nat, width: nat) -> Seq<u8> {
        self.little_first(le_digits(v, width))
    }
}

/// The 32-bit pattern of a signed number.
pub fn pattern_of(v: i32) -> (raw: u32)
    ensures
        raw as nat == unsigned32(v as int),
{
    if v < 0 {
        (v as i64 + 0x1_0000_0000) as u32
    } else {
        v as u32
    }
}

/// The signed number that a 32-bit pattern stands for.
pub fn signed_of(raw: u32) -> (v: i32)
    ensures
        v as int == signed32(raw as nat),
{
    if raw >= 0x8000_0000 {
        (raw as i64 - 0x1_0000_0000) as i32
    } else {
        raw as i32
    }
}

/// A field of `len` bytes holds a number below 256 to the power `len`.
pub proof fn lemma_le_value_bound(digits: Seq<u8>)
    ensures
        le_value(digits) < radix_bound(digits.len()),
    decreases digits.len(),
{
    if digits.len() > 0 {
        lemma_le_value_bound(digits.drop_first());
    }
}

/// `le_digits` yields exactly `width` digits.
pub proof fn lemma_le_digits_len(v: nat, width: nat)
    ensures
        le_digits(v, width).len() == width,
    decreases width,
{
    if width > 0 {
        lemma_le_digits_len(v / 256, (width - 1) as nat);
    }
}

/// Reading back the digits of a number that fits in `width` bytes gives the number.
pub proof fn lemma_le_value_of_digits(v: nat, width: nat)
    requires
        v < radix_bound(width),
    ensures
        le_value(le_digits(v, width)) == v,
    decreases width,
{
    if width > 0 {
        let rest = le_digits(v / 256, (width - 1) as nat);
        lemma_le_value_of_digits(v / 256, (width - 1) as nat);
        assert(le_digits(v, width).drop_first() =~= rest);
    }
}

/// Reversing twice gives the sequence back.
pub proof fn lemma_reversed_twice(s: Seq<u8>)
    ensures
        reversed(reversed(s)) == s,
{
    assert(reversed(reversed(s)) =~= s);
}

/// A field written in some order and read in the same order gives the number back.
pub proof fn lemma_field_round_trip(order: ByteOrder, v: nat, width: nat)
    requires
        v < radix_bound(width),
    ensures
        order.field(v, width).len() == width,
        order.value(order.field(v, width)) == v,
{
    lemma_le_digits_len(v, width);
    lemma_le_value_of_digits(v, width);
    lemma_reversed_twice(le_digits(v, width));
}

/// The number held by `width` bytes of `bytes` from `start` on, read in `order`.
pub fn read_unsigned(bytes: &[u8], start: usize, width: usize, order: ByteOrder) -> (v: u64)
    requires
        width <= 8,
        start + width <= bytes@.len(),
    ensures
        v as nat == order.value(bytes@.subrange(start as int, start + width)),
{
    let ghost field = bytes@.subrange(start as int, start + width);
    let ghost digits = order.little_first(field);
    let len: usize = bytes.len();
    let mut acc: u64 = 0;
    let mut i: usize = 0;
    while i < width
        invariant
            i <= width <= 8,
            start + width <= len == bytes@.len(),
            field == bytes@.subrange(start as int, start + width),
            digits == order.little_first(field),
            digits.len() == width,
            acc as nat == le_value(digits.subrange(width - i, width as int)),
        decreases width - i,
    {
        let at: usize = match order {
            ByteOrder::Little => start + (width - 1 - i),
            ByteOrder::Big => start + i,
        };
        let b = bytes[at];
        proof {
            let top = digits.subrange(width - i, width as int);
            let next = digits.subrange(width - i - 1, width as int);
            lemma_le_value_bound(top);
            reveal_with_fuel(radix_bound, 9);
            assert(radix_bound(i as nat) <= radix_bound(7));
            assert(next.drop_first() =~= top);
            assert(next[0] == b);
        }
        acc = acc * 256 + b as u64;
        i = i + 1;
    }
    assert(digits.subrange(0, width as int) =~= digits);
    acc
}

/// Appends to `out` the `width` bytes that hold `v` in `order`.
pub fn write_unsigned(out: &mut Vec<u8>, v: u64, width: usize, order: ByteOrder)
    requires
        width <= 8,
    ensures
        final(out)@ == old(out)@ + order.field(v as nat, width as nat),
{
    let mut digits: Vec<u8> = Vec::new();
    let mut rest: u64 = v;
    while digits.len() < width
        invariant
            digits@.len() <= width <= 8,
            le_digits(v as nat, width as nat) == digits@ + le_digits(
                rest as nat,
                (width - digits@.len()) as nat,
            ),
        decreases width - digits.len(),
    {
        proof {
            let left = (width - digits@.len()) as nat;
            assert(le_digits(rest as nat, left) =~= seq![(rest % 256) as u8] + le_digits(
                (rest / 256) as nat,
                (left - 1) as nat,
            ));
            assert(le_digits(v as nat, width as nat) =~= digits@.push((rest % 256) as u8)
                + le_digits((rest / 256) as nat, (left - 1) as nat));
        }
        digits.push((rest % 256) as u8);
        rest = rest / 256;
    }
    assert(digits@ =~= le_digits(v as nat, width as nat));
    let mut i: usize = 0;
    while i < width
        invariant
            i <= width,
            digits@.len() == width,
            digits@ == le_digits(v as nat, width as nat),
            out@ == old(out)@ + order.field(v as nat, width as nat).subrange(0, i as int),
        decreases width - i,
    {
        let at: usize = match order {
            ByteOrder::Little => i,
            ByteOrder::Big => width - 1 - i,
        };
        out.push(digits[at]);
        i = i + 1;
        proof {
            let whole = order.field(v as nat, width as nat);
            assert(whole.subrange(0, i as int) =~= whole.subrange(0, i - 1).push(whole[i - 1]));
        }
    }
    proof {
        let whole = order.field(v as nat, width as nat);
        assert(whole.subrange(0, width as int) =~= whole);
    }
}

} // verus!
