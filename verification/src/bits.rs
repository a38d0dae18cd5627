use bitvec::order::Msb0;
use bitvec::vec::BitVec;
use bitvec::view::BitView;
use vstd::arithmetic::div_mod::lemma_fundamental_div_mod_converse;
use vstd::prelude::*;

verus! {

/// A growable sequence of bits, packed eight to a byte with the earliest bit
/// in the most significant position. The storage is a `bitvec::vec::BitVec`
/// over `u8` in `Msb0` order. Nothing inside it is visible to the verifier,
/// and nothing but the functions of this file can make or change one: a
/// buffer starts empty and grows by single bits.
#[verifier::external_body]
pub struct BitBuffer {
    bits: BitVec<u8, Msb0>,
}

/// The bits held by a buffer, in the order in which they were pushed.
pub uninterp spec fn bit_contents(buf: BitBuffer) -> Seq<bool>;

/// The largest number of bits that a buffer can hold: what `bitvec` allows
/// a bit vector, one eighth of what a `usize` can count.
pub open spec fn max_bits() -> nat {
    (usize::MAX / 8) as nat
}

/// The value of the bit at position `j` of a byte, counted from the most
/// significant bit.
pub open spec fn bit_weight(j: int) -> int {
    if j == 0 {
        128
    } else if j == 1 {
        64
    } else if j == 2 {
        32
    } else if j == 3 {
        16
    } else if j == 4 {
        8
    } else if j == 5 {
        4
    } else if j == 6 {
        2
    } else {
        1
    }
}

/// Bit `j` of a byte, counted from the most significant bit.
pub open spec fn bit_of_byte(byte: u8, j: int) -> bool {
    (byte as int / bit_weight(j)) % 2 == 1
}

/// Bit `i` of a byte string read most significant bit first: bit `i` lies in
/// byte `i / 8`, at position `i % 8` counted from the most significant bit.
pub open spec fn msb_bit(data: Seq<u8>, i: int) -> bool
    recommends
        0 <= i < 8 * data.len(),
{
    bit_of_byte(data[i / 8], i % 8)
}

/// What bit `i` adds to its byte: its weight where the bit is set, and
/// nothing where it is clear or lies behind the end of `bits`.
pub open spec fn bit_value(bits: Seq<bool>, i: int) -> int {
    if 0 <= i < bits.len() && bits[i] {
        bit_weight(i % 8)
    } else {
        0
    }
}

/// Byte `k` of the packed form of `bits`.
pub open spec fn pack_byte(bits: Seq<bool>, k: int) -> u8 {
    (bit_value(bits, 8 * k) + bit_value(bits, 8 * k + 1) + bit_value(bits, 8 * k + 2) + bit_value(
        bits,
        8 * k + 3,
    ) + bit_value(bits, 8 * k + 4) + bit_value(bits, 8 * k + 5) + bit_value(bits, 8 * k + 6)
        + bit_value(bits, 8 * k + 7)) as u8
}

/// The packed form of `bits`: as many bytes as hold them, the earliest bit
/// in the most significant position of the first byte, and zeros in what is
/// left of the last byte.
pub open spec fn pack_bits(bits: Seq<bool>) -> Seq<u8> {
    Seq::new(((bits.len() + 7) / 8) as nat, |k: int| pack_byte(bits, k))
}

/// A byte made of eight binary digits gives each of them back when it is
/// divided by the digit's weight.
proof fn lemma_byte_digits(
    v0: int,
    v1: int,
    v2: int,
    v3: int,
    v4: int,
    v5: int,
    v6: int,
    v7: int,
    j: int,
)
    requires
        0 <= v0 <= 1,
        0 <= v1 <= 1,
        0 <= v2 <= 1,
        0 <= v3 <= 1,
        0 <= v4 <= 1,
        0 <= v5 <= 1,
        0 <= v6 <= 1,
        0 <= v7 <= 1,
        0 <= j < 8,
    ensures
        0 <= 128 * v0 + 64 * v1 + 32 * v2 + 16 * v3 + 8 * v4 + 4 * v5 + 2 * v6 + v7 <= 255,
        ((128 * v0 + 64 * v1 + 32 * v2 + 16 * v3 + 8 * v4 + 4 * v5 + 2 * v6 + v7) / bit_weight(j))
            % 2 == (if j == 0 {
            v0
        } else if j == 1 {
            v1
        } else if j == 2 {
            v2
        } else if j == 3 {
            v3
        } else if j == 4 {
            v4
        } else if j == 5 {
            v5
        } else if j == 6 {
            v6
        } else {
            v7
        }),
{
    let h0 = v0;
    let h1 = 2 * h0 + v1;
    let h2 = 2 * h1 + v2;
    let h3 = 2 * h2 + v3;
    let h4 = 2 * h3 + v4;
    let h5 = 2 * h4 + v5;
    let h6 = 2 * h5 + v6;
    let h7 = 2 * h6 + v7;
    if j == 7 {
        lemma_fundamental_div_mod_converse(h7, 2, h6, v7);
    } else if j == 6 {
        lemma_fundamental_div_mod_converse(h7, 2, h6, v7);
        lemma_fundamental_div_mod_converse(h6, 2, h5, v6);
    } else if j == 5 {
        lemma_fundamental_div_mod_converse(h7, 4, h5, 2 * v6 + v7);
        lemma_fundamental_div_mod_converse(h5, 2, h4, v5);
    } else if j == 4 {
        lemma_fundamental_div_mod_converse(h7, 8, h4, 4 * v5 + 2 * v6 + v7);
        lemma_fundamental_div_mod_converse(h4, 2, h3, v4);
    } else if j == 3 {
        lemma_fundamental_div_mod_converse(h7, 16, h3, 8 * v4 + 4 * v5 + 2 * v6 + v7);
        lemma_fundamental_div_mod_converse(h3, 2, h2, v3);
    } else if j == 2 {
        lemma_fundamental_div_mod_converse(h7, 32, h2, 16 * v3 + 8 * v4 + 4 * v5 + 2 * v6 + v7);
        lemma_fundamental_div_mod_converse(h2, 2, h1, v2);
    } else if j == 1 {
        lemma_fundamental_div_mod_converse(
            h7,
            64,
            h1,
            32 * v2 + 16 * v3 + 8 * v4 + 4 * v5 + 2 * v6 + v7,
        );
        lemma_fundamental_div_mod_converse(h1, 2, h0, v1);
    } else {
        lemma_fundamental_div_mod_converse(
            h7,
            128,
            h0,
            64 * v1 + 32 * v2 + 16 * v3 + 8 * v4 + 4 * v5 + 2 * v6 + v7,
        );
        lemma_fundamental_div_mod_converse(h0, 2, 0, v0);
    }
}

/// Whether bit `i` of `bits` is set, as a digit.
pub open spec fn digit(bits: Seq<bool>, i: int) -> int {
    if 0 <= i < bits.len() && bits[i] {
        1
    } else {
        0
    }
}

/// Reading the packed form bit by bit gives the bits back, and zeros behind
/// them.
pub proof fn lemma_pack_read(bits: Seq<bool>, i: int)
    requires
        0 <= i < 8 * pack_bits(bits).len(),
    ensures
        msb_bit(pack_bits(bits), i) == (i < bits.len() && bits[i]),
{
    let k = i / 8;
    let j = i % 8;
    let v0 = digit(bits, 8 * k);
    let v1 = digit(bits, 8 * k + 1);
    let v2 = digit(bits, 8 * k + 2);
    let v3 = digit(bits, 8 * k + 3);
    let v4 = digit(bits, 8 * k + 4);
    let v5 = digit(bits, 8 * k + 5);
    let v6 = digit(bits, 8 * k + 6);
    let v7 = digit(bits, 8 * k + 7);
    assert(bit_value(bits, 8 * k) == 128 * v0);
    assert(bit_value(bits, 8 * k + 1) == 64 * v1);
    assert(bit_value(bits, 8 * k + 2) == 32 * v2);
    assert(bit_value(bits, 8 * k + 3) == 16 * v3);
    assert(bit_value(bits, 8 * k + 4) == 8 * v4);
    assert(bit_value(bits, 8 * k + 5) == 4 * v5);
    assert(bit_value(bits, 8 * k + 6) == 2 * v6);
    assert(bit_value(bits, 8 * k + 7) == v7);
    lemma_byte_digits(v0, v1, v2, v3, v4, v5, v6, v7, j);
    assert(digit(bits, i) == (if j == 0 {
        v0
    } else if j == 1 {
        v1
    } else if j == 2 {
        v2
    } else if j == 3 {
        v3
    } else if j == 4 {
        v4
    } else if j == 5 {
        v5
    } else if j == 6 {
        v6
    } else {
        v7
    }));
}

/// Trusted: `BitVec::new` gives a bit vector that holds no bits.
#[verifier::external_body]
fn bitvec_new() -> (buf: BitBuffer)
    ensures
        bit_contents(buf) == Seq::<bool>::empty(),
{
    BitBuffer { bits: BitVec::<u8, Msb0>::new() }
}

/// Trusted: `BitVec::len` is the number of bits held.
#[verifier::external_body]
fn bitvec_len(buf: &BitBuffer) -> (n: usize)
    ensures
        n as nat == bit_contents(*buf).len(),
{
    buf.bits.len()
}

/// Trusted: `BitVec::push` appends one bit and leaves the earlier bits as
/// they were. It panics where the vector already holds as many bits as a bit
/// vector can, so that is left out.
#[verifier::external_body]
fn bitvec_push(buf: &mut BitBuffer, bit: bool)
    requires
        bit_contents(*old(buf)).len() < max_bits(),
    ensures
        bit_contents(*final(buf)) == bit_contents(*old(buf)).push(bit),
{
    buf.bits.push(bit);
}

/// Trusted: `BitVec::as_raw_slice` shows the bytes that store the bits. A
/// buffer is only ever made empty and grown by `BitVec::push`, which adds a
/// zero byte whenever the last one is full and then writes the one new bit
/// at the next position in `Msb0` order. So the bytes are the packed form
/// of the bits, with zeros behind the last bit.
#[verifier::external_body]
fn bitvec_bytes(buf: &BitBuffer) -> (bytes: Vec<u8>)
    ensures
        bytes@ == pack_bits(bit_contents(*buf)),
{
    buf.bits.as_raw_slice().to_vec()
}

/// Trusted: `BitView::view_bits::<Msb0>` on a byte gives its eight bits
/// from the most significant to the least, and indexing reads one of them.
#[verifier::external_body]
fn bit_in_byte(byte: u8, j: usize) -> (bit: bool)
    requires
        j < 8,
    ensures
        bit == bit_of_byte(byte, j as int),
{
    byte.view_bits::<Msb0>()[j]
}

impl BitBuffer {
    /// A buffer that holds no bits.
    pub fn new() -> (buf: BitBuffer)
        ensures
            bit_contents(buf) == Seq::<bool>::empty(),
    {
        bitvec_new()
    }

    /// The number of bits held.
    pub fn len(&self) -> (n: usize)
        ensures
            n as nat == bit_contents(*self).len(),
    {
        bitvec_len(self)
    }

    /// How many more bits the buffer can take.
    pub fn room(&self) -> (n: usize)
        ensures
            n as int == (if bit_contents(*self).len() <= max_bits() {
                max_bits() - bit_contents(*self).len()
            } else {
                0
            }),
    {
        let held = bitvec_len(self);
        let most = usize::MAX / 8;
        if held <= most {
            most - held
        } else {
            0
        }
    }

    /// Appends one bit where there is room for it, and says whether it did.
    pub fn push(&mut self, bit: bool) -> (pushed: bool)
        ensures
            pushed <==> bit_contents(*old(self)).len() < max_bits(),
            pushed ==> bit_contents(*final(self)) == bit_contents(*old(self)).push(bit),
            !pushed ==> bit_contents(*final(self)) == bit_contents(*old(self)),
    {
        if bitvec_len(self) < usize::MAX / 8 {
            bitvec_push(self, bit);
            true
        } else {
            false
        }
    }

    /// Appends `bits` in order. There must be room for all of them.
    pub fn extend(&mut self, bits: &Vec<bool>)
        requires
            bit_contents(*old(self)).len() + bits@.len() <= max_bits(),
        ensures
            bit_contents(*final(self)) == bit_contents(*old(self)) + bits@,
    {
        let mut i: usize = 0;
        while i < bits.len()
            invariant
                0 <= i <= bits.len(),
                bit_contents(*old(self)).len() + bits@.len() <= max_bits(),
                bit_contents(*self) == bit_contents(*old(self)) + bits@.take(i as int),
            decreases bits.len() - i,
        {
            bitvec_push(self, bits[i]);
            i += 1;
        }
    }

    /// The packed bytes of the buffer.
    pub fn to_bytes(&self) -> (bytes: Vec<u8>)
        ensures
            bytes@ == pack_bits(bit_contents(*self)),
    {
        bitvec_bytes(self)
    }
}

/// Bit `i` of `data`, read most significant bit first.
pub fn read_bit(data: &Vec<u8>, i: usize) -> (bit: bool)
    requires
        i < 8 * data.len(),
    ensures
        bit == msb_bit(data@, i as int),
{
    bit_in_byte(data[i / 8], i % 8)
}

} // verus!
