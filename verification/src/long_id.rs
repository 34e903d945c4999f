//! Node ids as unsigned integers, and the XOR metric on them.

use vstd::prelude::*;

verus! {

/// The number that `bytes` spells, most significant byte first.
pub open spec fn be_value(bytes: Seq<u8>) -> nat
    decreases bytes.len(),
{
    if bytes.len() == 0 {
        0
    } else {
        be_value(bytes.drop_last()) * 0x100 + bytes.last() as nat
    }
}

/// A 256-bit unsigned integer as four 64-bit words, most significant first.
///
/// Ids and distances take up 160 bits of it, so no bit of an id is lost.
#[derive(Clone, Copy, Debug, PartialEq, Eq, PartialOrd, Ord, Hash, Structural)]
pub struct LongId {
    pub w3: u64,
    pub w2: u64,
    pub w1: u64,
    pub w0: u64,
}

/// The XOR of two numbers, word by word.
pub open spec fn xor_words(a: LongId, b: LongId) -> LongId {
    LongId { w3: a.w3 ^ b.w3, w2: a.w2 ^ b.w2, w1: a.w1 ^ b.w1, w0: a.w0 ^ b.w0 }
}

impl LongId {
    /// The number itself.
    pub open spec fn value(self) -> nat {
        (self.w0 + self.w1 * 0x1_0000_0000_0000_0000int + self.w2
            * 0x1_0000_0000_0000_0000_0000_0000_0000_0000int + self.w3
            * 0x1_0000_0000_0000_0000_0000_0000_0000_0000_0000_0000_0000_0000int) as nat
    }

    /// `primitive_types::U256::from_big_endian`, which reads at most 32 bytes as
    /// a big-endian number. Claimed: the result is the number the bytes spell.
    #[verifier::external_body]
    pub(crate) fn from_big_endian(bytes: &[u8]) -> (x: LongId)
        requires
            bytes@.len() <= 32,
        ensures
            x.value() == be_value(bytes@),
    {
        let r = primitive_types::U256::from_big_endian(bytes);
        LongId { w3: r.0[3], w2: r.0[2], w1: r.0[1], w0: r.0[0] }
    }

    /// `^` of `primitive_types::U256`. Claimed: every word of the result is the
    /// XOR of the two words at its place.
    #[verifier::external_body]
    pub(crate) fn xor(self, other: LongId) -> (x: LongId)
        ensures
            x == xor_words(self, other),
    {
        let r = primitive_types::U256([self.w0, self.w1, self.w2, self.w3])
            ^ primitive_types::U256([other.w0, other.w1, other.w2, other.w3]);
        LongId { w3: r.0[3], w2: r.0[2], w1: r.0[1], w0: r.0[0] }
    }

    /// `<` of `primitive_types::U256`. Claimed: it orders by the numbers.
    #[verifier::external_body]
    pub(crate) fn less_than(self, other: LongId) -> (less: bool)
        ensures
            less <==> self.value() < other.value(),
    {
        primitive_types::U256([self.w0, self.w1, self.w2, self.w3])
            < primitive_types::U256([other.w0, other.w1, other.w2, other.w3])
    }

    /// `+` of `primitive_types::U256`, which panics on overflow. Claimed: the
    /// result is the sum.
    #[verifier::external_body]
    pub(crate) fn plus(self, other: LongId) -> (x: LongId)
        requires
            self.value() + other.value()
                < 0x1_0000_0000_0000_0000_0000_0000_0000_0000_0000_0000_0000_0000_0000_0000_0000_0000int,
        ensures
            x.value() == self.value() + other.value(),
    {
        let r = primitive_types::U256([self.w0, self.w1, self.w2, self.w3])
            + primitive_types::U256([other.w0, other.w1, other.w2, other.w3]);
        LongId { w3: r.0[3], w2: r.0[2], w1: r.0[1], w0: r.0[0] }
    }

    /// `-` of `primitive_types::U256`, which panics on underflow. Claimed: the
    /// result is the difference.
    #[verifier::external_body]
    pub(crate) fn minus(self, other: LongId) -> (x: LongId)
        requires
            other.value() <= self.value(),
        ensures
            x.value() == self.value() - other.value(),
    {
        let r = primitive_types::U256([self.w0, self.w1, self.w2, self.w3])
            - primitive_types::U256([other.w0, other.w1, other.w2, other.w3]);
        LongId { w3: r.0[3], w2: r.0[2], w1: r.0[1], w0: r.0[0] }
    }

    /// `%` of `primitive_types::U256`, which panics on a zero divisor. Claimed:
    /// the result is the remainder.
    #[verifier::external_body]
    pub(crate) fn remainder(self, divisor: LongId) -> (x: LongId)
        requires
            divisor.value() > 0,
        ensures
            x.value() == self.value() % divisor.value(),
    {
        let r = primitive_types::U256([self.w0, self.w1, self.w2, self.w3])
            % primitive_types::U256([divisor.w0, divisor.w1, divisor.w2, divisor.w3]);
        LongId { w3: r.0[3], w2: r.0[2], w1: r.0[1], w0: r.0[0] }
    }

    /// `primitive_types::U256::to_big_endian` into 32 bytes. Claimed: the bytes
    /// spell the number.
    #[verifier::external_body]
    pub(crate) fn to_big_endian(self) -> (bytes: [u8; 32])
        ensures
            be_value(bytes@) == self.value(),
    {
        let mut bytes = [0u8; 32];
        primitive_types::U256([self.w0, self.w1, self.w2, self.w3]).to_big_endian(&mut bytes);
        bytes
    }
}

/// The words of a number below two to the power of 256.
pub open spec fn long_of(n: nat) -> LongId {
    let n1 = n / 0x1_0000_0000_0000_0000;
    let n2 = n1 / 0x1_0000_0000_0000_0000;
    let n3 = n2 / 0x1_0000_0000_0000_0000;
    LongId {
        w3: n3 as u64,
        w2: (n2 % 0x1_0000_0000_0000_0000) as u64,
        w1: (n1 % 0x1_0000_0000_0000_0000) as u64,
        w0: (n % 0x1_0000_0000_0000_0000) as u64,
    }
}

/// A number has the words of its value.
pub proof fn lemma_long_of(x: LongId)
    ensures
        x == long_of(x.value()),
{
    let n = x.value() as int;
    let n1 = x.w1 + x.w2 * 0x1_0000_0000_0000_0000int + x.w3
        * 0x1_0000_0000_0000_0000_0000_0000_0000_0000int;
    let n2 = x.w2 + x.w3 * 0x1_0000_0000_0000_0000int;
    assert(n == x.w0 + n1 * 0x1_0000_0000_0000_0000);
    assert(n1 == x.w1 + n2 * 0x1_0000_0000_0000_0000);
    assert(n / 0x1_0000_0000_0000_0000 == n1 && n % 0x1_0000_0000_0000_0000 == x.w0);
    assert(n1 / 0x1_0000_0000_0000_0000 == n2 && n1 % 0x1_0000_0000_0000_0000 == x.w1);
    assert(n2 / 0x1_0000_0000_0000_0000 == x.w3 && n2 % 0x1_0000_0000_0000_0000 == x.w2);
}

/// The words of a number spell it.
pub proof fn lemma_long_of_value(n: nat)
    requires
        n < 0x1_0000_0000_0000_0000_0000_0000_0000_0000_0000_0000_0000_0000int,
    ensures
        long_of(n).value() == n,
{
    let n1 = n / 0x1_0000_0000_0000_0000;
    let n2 = n1 / 0x1_0000_0000_0000_0000;
    assert(n == n1 * 0x1_0000_0000_0000_0000 + n % 0x1_0000_0000_0000_0000);
    assert(n1 == n2 * 0x1_0000_0000_0000_0000 + n1 % 0x1_0000_0000_0000_0000);
    assert(n2 < 0x1_0000_0000_0000_0000);
}

/// Twenty bytes hold 160 bits.
pub proof fn lemma_pow256_20()
    ensures
        pow256(20) == 0x1_0000_0000_0000_0000_0000_0000_0000_0000_0000_0000int,
{
    reveal_with_fuel(pow256, 21);
}

/// The power of 256.
pub open spec fn pow256(n: nat) -> nat
    decreases n,
{
    if n == 0 {
        1
    } else {
        pow256((n - 1) as nat) * 0x100
    }
}

pub proof fn lemma_be_value_bound(bytes: Seq<u8>)
    ensures
        be_value(bytes) < pow256(bytes.len()),
    decreases bytes.len(),
{
    if bytes.len() > 0 {
        lemma_be_value_bound(bytes.drop_last());
    }
}

pub proof fn lemma_be_value_concat(a: Seq<u8>, b: Seq<u8>)
    ensures
        be_value(a + b) == be_value(a) * pow256(b.len()) + be_value(b),
    decreases b.len(),
{
    if b.len() == 0 {
        assert(a + b =~= a);
        let v = be_value(a);
        assert(pow256(0) == 1);
        assert(v * 1 == v);
    } else {
        lemma_be_value_concat(a, b.drop_last());
        assert((a + b).drop_last() =~= a + b.drop_last());
        assert((a + b).last() == b.last());
        let p = pow256((b.len() - 1) as nat);
        let v = be_value(a);
        assert(pow256(b.len()) == p * 0x100);
        assert((v * p) * 0x100 == v * (p * 0x100)) by (nonlinear_arith);
    }
}

/// Two byte strings of one length that spell the same number are the same.
pub proof fn lemma_be_value_injective(a: Seq<u8>, b: Seq<u8>)
    requires
        a.len() == b.len(),
        be_value(a) == be_value(b),
    ensures
        a == b,
    decreases a.len(),
{
    if a.len() > 0 {
        lemma_be_value_injective(a.drop_last(), b.drop_last());
        assert(a =~= a.drop_last().push(a.last()));
        assert(b =~= b.drop_last().push(b.last()));
    } else {
        assert(a =~= b);
    }
}

/// Equal numbers have equal words.
pub proof fn lemma_value_injective(a: LongId, b: LongId)
    requires
        a.value() == b.value(),
    ensures
        a == b,
{
    let high = |x: LongId|
        x.w1 + x.w2 * 0x1_0000_0000_0000_0000int + x.w3
            * 0x1_0000_0000_0000_0000_0000_0000_0000_0000int;
    let top = |x: LongId| x.w2 + x.w3 * 0x1_0000_0000_0000_0000int;
    lemma_low_digit(a.w0 as int, high(a), b.w0 as int, high(b));
    lemma_low_digit(a.w1 as int, top(a), b.w1 as int, top(b));
    lemma_low_digit(a.w2 as int, a.w3 as int, b.w2 as int, b.w3 as int);
}

proof fn lemma_low_digit(low_a: int, high_a: int, low_b: int, high_b: int)
    requires
        0 <= low_a < 0x1_0000_0000_0000_0000,
        0 <= low_b < 0x1_0000_0000_0000_0000,
        low_a + high_a * 0x1_0000_0000_0000_0000 == low_b + high_b * 0x1_0000_0000_0000_0000,
    ensures
        low_a == low_b,
        high_a == high_b,
{
}

/// Two byte strings of one length, XORed byte by byte.
pub open spec fn xor_bytes(a: Seq<u8>, b: Seq<u8>) -> Seq<u8> {
    Seq::new(a.len(), |i: int| a[i] ^ b[i])
}

proof fn lemma_be_value_of_8(b: Seq<u8>)
    requires
        b.len() == 8,
    ensures
        be_value(b) == b[0] * 0x100_0000_0000_0000 + b[1] * 0x1_0000_0000_0000 + b[2]
            * 0x100_0000_0000 + b[3] * 0x1_0000_0000 + b[4] * 0x100_0000 + b[5] * 0x1_0000 + b[6]
            * 0x100 + b[7],
        be_value(b) <= u64::MAX,
{
    reveal_with_fuel(be_value, 9);
}

proof fn lemma_xor_of_8(a: Seq<u8>, b: Seq<u8>, x: u64, y: u64)
    requires
        a.len() == 8,
        b.len() == 8,
        x == be_value(a),
        y == be_value(b),
    ensures
        (x ^ y) == be_value(xor_bytes(a, b)),
{
    lemma_be_value_of_8(a);
    lemma_be_value_of_8(b);
    lemma_be_value_of_8(xor_bytes(a, b));
    let (a0, a1, a2, a3, a4, a5, a6, a7) = (a[0], a[1], a[2], a[3], a[4], a[5], a[6], a[7]);
    let (b0, b1, b2, b3, b4, b5, b6, b7) = (b[0], b[1], b[2], b[3], b[4], b[5], b[6], b[7]);
    assert((x ^ y) == (a0 ^ b0) * 0x100_0000_0000_0000 + (a1 ^ b1) * 0x1_0000_0000_0000 + (a2 ^ b2)
        * 0x100_0000_0000 + (a3 ^ b3) * 0x1_0000_0000 + (a4 ^ b4) * 0x100_0000 + (a5 ^ b5)
        * 0x1_0000 + (a6 ^ b6) * 0x100 + (a7 ^ b7)) by (bit_vector)
        requires
            x == a0 * 0x100_0000_0000_0000 + a1 * 0x1_0000_0000_0000 + a2 * 0x100_0000_0000 + a3
                * 0x1_0000_0000 + a4 * 0x100_0000 + a5 * 0x1_0000 + a6 * 0x100 + a7,
            y == b0 * 0x100_0000_0000_0000 + b1 * 0x1_0000_0000_0000 + b2 * 0x100_0000_0000 + b3
                * 0x1_0000_0000 + b4 * 0x100_0000 + b5 * 0x1_0000 + b6 * 0x100 + b7,
    ;
}

proof fn lemma_xor_of_4(a: Seq<u8>, b: Seq<u8>, x: u64, y: u64)
    requires
        a.len() == 4,
        b.len() == 4,
        x == be_value(a),
        y == be_value(b),
    ensures
        (x ^ y) == be_value(xor_bytes(a, b)),
{
    reveal_with_fuel(be_value, 5);
    let (a0, a1, a2, a3) = (a[0], a[1], a[2], a[3]);
    let (b0, b1, b2, b3) = (b[0], b[1], b[2], b[3]);
    assert((x ^ y) == (a0 ^ b0) * 0x100_0000 + (a1 ^ b1) * 0x1_0000 + (a2 ^ b2) * 0x100 + (a3
        ^ b3)) by (bit_vector)
        requires
            x == a0 * 0x100_0000 + a1 * 0x1_0000 + a2 * 0x100 + a3,
            y == b0 * 0x100_0000 + b1 * 0x1_0000 + b2 * 0x100 + b3,
    ;
}

/// The words of the number that twenty bytes spell.
proof fn lemma_words_of_20(id: Seq<u8>, x: LongId)
    requires
        id.len() == 20,
        x.value() == be_value(id),
    ensures
        x.w3 == 0,
        x.w2 == be_value(id.subrange(0, 4)),
        x.w1 == be_value(id.subrange(4, 12)),
        x.w0 == be_value(id.subrange(12, 20)),
{
    let (p2, p1, p0) = (id.subrange(0, 4), id.subrange(4, 12), id.subrange(12, 20));
    assert(id =~= (p2 + p1) + p0);
    lemma_be_value_concat(p2 + p1, p0);
    lemma_be_value_concat(p2, p1);
    lemma_be_value_bound(p2);
    lemma_be_value_bound(p1);
    lemma_be_value_bound(p0);
    assert(pow256(4) == 0x1_0000_0000 && pow256(8) == 0x1_0000_0000_0000_0000) by {
        reveal_with_fuel(pow256, 9);
    }
    let y = LongId {
        w3: 0,
        w2: be_value(p2) as u64,
        w1: be_value(p1) as u64,
        w0: be_value(p0) as u64,
    };
    lemma_value_injective(x, y);
}

/// On numbers spelled by twenty bytes each, XOR word by word and XOR byte by
/// byte give the same number.
pub proof fn lemma_xor_of_20(a: Seq<u8>, b: Seq<u8>, x: LongId, y: LongId)
    requires
        a.len() == 20,
        b.len() == 20,
        x.value() == be_value(a),
        y.value() == be_value(b),
    ensures
        xor_words(x, y).value() == be_value(xor_bytes(a, b)),
{
    lemma_words_of_20(a, x);
    lemma_words_of_20(b, y);
    let z = xor_bytes(a, b);
    let (z2, z1, z0) = (z.subrange(0, 4), z.subrange(4, 12), z.subrange(12, 20));
    lemma_xor_of_4(a.subrange(0, 4), b.subrange(0, 4), x.w2, y.w2);
    lemma_xor_of_8(a.subrange(4, 12), b.subrange(4, 12), x.w1, y.w1);
    lemma_xor_of_8(a.subrange(12, 20), b.subrange(12, 20), x.w0, y.w0);
    assert(z2 =~= xor_bytes(a.subrange(0, 4), b.subrange(0, 4)));
    assert(z1 =~= xor_bytes(a.subrange(4, 12), b.subrange(4, 12)));
    assert(z0 =~= xor_bytes(a.subrange(12, 20), b.subrange(12, 20)));
    assert(0u64 ^ 0u64 == 0u64) by (bit_vector);
    assert(z =~= (z2 + z1) + z0);
    lemma_be_value_concat(z2 + z1, z0);
    lemma_be_value_concat(z2, z1);
    assert(pow256(8) == 0x1_0000_0000_0000_0000) by {
        reveal_with_fuel(pow256, 9);
    }
}

/// XORing two numbers with a third keeps them apart.
pub proof fn lemma_xor_injective(pivot: LongId, a: LongId, b: LongId)
    requires
        xor_words(pivot, a) == xor_words(pivot, b),
    ensures
        a == b,
{
    lemma_xor_word(pivot.w3, a.w3, b.w3);
    lemma_xor_word(pivot.w2, a.w2, b.w2);
    lemma_xor_word(pivot.w1, a.w1, b.w1);
    lemma_xor_word(pivot.w0, a.w0, b.w0);
}

proof fn lemma_xor_word(p: u64, a: u64, b: u64)
    ensures
        p ^ a == p ^ b ==> a == b,
        p ^ a == a ^ p,
        p ^ a == 0 <==> p == a,
        (a ^ b) <= (a ^ p) + (p ^ b),
{
    assert(p ^ a == p ^ b ==> a == b) by (bit_vector);
    assert(p ^ a == a ^ p) by (bit_vector);
    assert(p ^ a == 0 <==> p == a) by (bit_vector);
    assert((a ^ b) <= (a ^ p) + (p ^ b)) by (bit_vector);
}

/// The order of the operands of XOR does not matter.
pub proof fn lemma_xor_symmetric(a: LongId, b: LongId)
    ensures
        xor_words(a, b) == xor_words(b, a),
{
    lemma_xor_word(a.w3, b.w3, b.w3);
    lemma_xor_word(a.w2, b.w2, b.w2);
    lemma_xor_word(a.w1, b.w1, b.w1);
    lemma_xor_word(a.w0, b.w0, b.w0);
}

/// XOR gives zero exactly for equal numbers.
pub proof fn lemma_xor_zero(a: LongId, b: LongId)
    ensures
        xor_words(a, b).value() == 0 <==> a == b,
{
    lemma_xor_word(a.w3, b.w3, b.w3);
    lemma_xor_word(a.w2, b.w2, b.w2);
    lemma_xor_word(a.w1, b.w1, b.w1);
    lemma_xor_word(a.w0, b.w0, b.w0);
}

/// XOR obeys the triangle inequality.
pub proof fn lemma_xor_triangle(a: LongId, via: LongId, b: LongId)
    ensures
        xor_words(a, b).value() <= xor_words(a, via).value() + xor_words(via, b).value(),
{
    lemma_xor_word(via.w3, a.w3, b.w3);
    lemma_xor_word(via.w2, a.w2, b.w2);
    lemma_xor_word(via.w1, a.w1, b.w1);
    lemma_xor_word(via.w0, a.w0, b.w0);
}

} // verus!
