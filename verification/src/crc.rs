//! CRC-16/DNP, the check that follows the link header and every block of
//! user data: sixteen bits, polynomial 0x3d65 taken low bit first, a register
//! that starts at zero and is inverted at the end.

use vstd::prelude::*;

verus! {

/// The polynomial 0x3d65 with its bits reversed, for a register that shifts
/// towards its low end.
pub const POLYNOMIAL: u16 = 0xa6bc;

/// The register after one bit has been shifted out of it.
pub open spec fn shifted(register: u16) -> u16 {
    if register & 1 == 1 {
        (register >> 1) ^ POLYNOMIAL
    } else {
        register >> 1
    }
}

/// The register after `bits` bits have been shifted out of it.
pub open spec fn shifted_by(register: u16, bits: nat) -> u16
    decreases bits,
{
    if bits == 0 {
        register
    } else {
        shifted(shifted_by(register, (bits - 1) as nat))
    }
}

/// The register after one byte of the message has gone through it.
pub open spec fn stepped(register: u16, byte: u8) -> u16 {
    shifted_by(register ^ (byte as u16), 8)
}

/// The register after the bytes of `message` have gone through it in turn.
pub open spec fn run(register: u16, message: Seq<u8>) -> u16
    decreases message.len(),
{
    if message.len() == 0 {
        register
    } else {
        stepped(run(register, message.drop_last()), message.last())
    }
}

/// The CRC-16/DNP of `message`.
pub open spec fn checksum_of(message: Seq<u8>) -> u16 {
    !run(0, message)
}

/// The CRC-16/DNP of `message`.
#[must_use]
pub fn checksum(message: &[u8]) -> (r: u16)
    ensures
        r == checksum_of(message@),
{
    let mut register: u16 = 0;
    let mut i: usize = 0;
    while i < message.len()
        invariant
            i <= message.len(),
            register == run(0, message@.take(i as int)),
        decreases message.len() - i,
    {
        let ghost before = register;
        register = register ^ (message[i] as u16);
        let mut bit: u8 = 0;
        while bit < 8
            invariant
                bit <= 8,
                i < message.len(),
                register == shifted_by(before ^ (message[i as int] as u16), bit as nat),
            decreases 8 - bit,
        {
            register = if register & 1 == 1 {
                (register >> 1) ^ POLYNOMIAL
            } else {
                register >> 1
            };
            bit += 1;
        }
        proof {
            let longer = message@.take(i + 1);
            assert(longer.drop_last() =~= message@.take(i as int));
        }
        i += 1;
    }
    assert(message@.take(i as int) =~= message@);
    !register
}

/// The two bytes that carry `value`, low byte first.
pub open spec fn le_bytes(value: u16) -> Seq<u8> {
    seq![(value % 256) as u8, (value / 256) as u8]
}

/// The value that `low` and `high` carry.
pub open spec fn le_value(low: u8, high: u8) -> u16 {
    (low + 256 * high) as u16
}

/// `word` is a message followed by its own check, low byte first.
pub open spec fn checks(word: Seq<u8>) -> bool {
    let n = word.len() - 2;
    &&& word.len() >= 2
    &&& checksum_of(word.take(n)) == le_value(word[n], word[n + 1])
}

/// The value that `low` and `high` carry.
#[must_use]
pub fn from_le(low: u8, high: u8) -> (r: u16)
    ensures
        r == le_value(low, high),
        r == low + 256 * high,
{
    low as u16 + 256 * (high as u16)
}

/// Two bytes carry the low and the high byte of a value, in that order.
pub proof fn law_low_byte_comes_first(value: u16, low: u8, high: u8)
    ensures
        le_bytes(value).len() == 2,
        le_bytes(value)[0] + 256 * le_bytes(value)[1] == value,
        le_value(low, high) == low + 256 * high,
{
}

/// A value goes through its two bytes unchanged, and two bytes through their
/// value.
pub proof fn law_le_round_trip(value: u16, low: u8, high: u8)
    ensures
        le_value(le_bytes(value)[0], le_bytes(value)[1]) == value,
        le_bytes(le_value(low, high)) == seq![low, high],
{
    assert(le_bytes(le_value(low, high)) =~= seq![low, high]);
}

proof fn lemma_shifted_linear(a: u16, b: u16, bits: nat)
    ensures
        shifted_by(a ^ b, bits) == shifted_by(a, bits) ^ shifted_by(b, bits),
    decreases bits,
{
    if bits > 0 {
        let less = (bits - 1) as nat;
        lemma_shifted_linear(a, b, less);
        let x = shifted_by(a, less);
        let y = shifted_by(b, less);
        assert(shifted(x ^ y) == shifted(x) ^ shifted(y)) by (bit_vector);
    }
}

proof fn lemma_shifted_injective(a: u16, b: u16, bits: nat)
    requires
        shifted_by(a, bits) == shifted_by(b, bits),
    ensures
        a == b,
    decreases bits,
{
    if bits > 0 {
        let less = (bits - 1) as nat;
        let x = shifted_by(a, less);
        let y = shifted_by(b, less);
        assert(shifted(x) == shifted(y) ==> x == y) by (bit_vector);
        lemma_shifted_injective(a, b, less);
    }
}

proof fn lemma_shifted_twice(register: u16, first: nat, second: nat)
    ensures
        shifted_by(shifted_by(register, first), second) == shifted_by(register, first + second),
    decreases second,
{
    if second > 0 {
        lemma_shifted_twice(register, first, (second - 1) as nat);
    }
}

/// What stands in the high byte alone comes down eight places unchanged.
proof fn lemma_high_byte_comes_down(high: u8)
    ensures
        shifted_by((high as u16) << 8, 8) == high as u16,
{
    reveal_with_fuel(shifted_by, 9);
    let x = (high as u16) << 8;
    assert(shifted(shifted(shifted(shifted(shifted(shifted(shifted(shifted(x)))))))) == high as u16)
        by (bit_vector)
        requires
            x == (high as u16) << 8,
    ;
}

/// Two bytes go through the register as one sixteen-bit value.
proof fn lemma_two_steps(register: u16, low: u8, high: u8)
    ensures
        stepped(stepped(register, low), high) == shifted_by(register ^ le_value(low, high), 16),
{
    let top = (high as u16) << 8;
    let x = register ^ (low as u16);
    lemma_high_byte_comes_down(high);
    lemma_shifted_linear(x, top, 8);
    lemma_shifted_twice(x ^ top, 8, 8);
    assert((low as u16) ^ ((high as u16) << 8) == low + 256 * high) by (bit_vector);
    assert(x ^ top == register ^ ((low as u16) ^ top)) by (bit_vector)
        requires
            x == register ^ (low as u16),
    ;
}

proof fn lemma_run_append(register: u16, a: Seq<u8>, b: Seq<u8>)
    ensures
        run(register, a + b) == run(run(register, a), b),
    decreases b.len(),
{
    if b.len() == 0 {
        assert(a + b =~= a);
    } else {
        assert((a + b).drop_last() =~= a + b.drop_last());
        assert((a + b).last() == b.last());
        lemma_run_append(register, a, b.drop_last());
    }
}

proof fn lemma_run_injective(r1: u16, r2: u16, message: Seq<u8>)
    requires
        run(r1, message) == run(r2, message),
    ensures
        r1 == r2,
    decreases message.len(),
{
    if message.len() > 0 {
        let x = run(r1, message.drop_last());
        let y = run(r2, message.drop_last());
        let b = message.last() as u16;
        lemma_shifted_injective(x ^ b, y ^ b, 8);
        assert(x ^ b == y ^ b ==> x == y) by (bit_vector);
        lemma_run_injective(r1, r2, message.drop_last());
    }
}

proof fn lemma_run_two(register: u16, pair: Seq<u8>)
    requires
        pair.len() == 2,
    ensures
        run(register, pair) == shifted_by(register ^ le_value(pair[0], pair[1]), 16),
{
    reveal_with_fuel(run, 3);
    assert(pair.drop_last().drop_last() =~= Seq::<u8>::empty());
    lemma_two_steps(register, pair[0], pair[1]);
}

/// A word checks exactly where it leaves the register at one fixed residue.
proof fn lemma_residue(word: Seq<u8>)
    requires
        word.len() >= 2,
    ensures
        checks(word) <==> run(0, word) == shifted_by(0xffff, 16),
{
    let n = word.len() - 2;
    let pair = word.skip(n);
    let register = run(0, word.take(n));
    let check = le_value(word[n], word[n + 1]);
    assert(word.take(n) + pair =~= word);
    lemma_run_append(0, word.take(n), pair);
    lemma_run_two(register, pair);
    assert(!register == check <==> register ^ check == 0xffff) by (bit_vector);
    if run(0, word) == shifted_by(0xffff, 16) {
        lemma_shifted_injective(register ^ check, 0xffff, 16);
    }
}

/// Damage that stays within two neighbouring bytes always shows: of two words
/// of one length that differ there and nowhere else, at most one checks. The
/// two bytes may be of the message, of the check, or one of each.
pub proof fn law_neighbouring_damage_shows(sound: Seq<u8>, damaged: Seq<u8>, at: int)
    requires
        sound.len() == damaged.len(),
        0 <= at < sound.len(),
        sound != damaged,
        forall|i: int|
            0 <= i < sound.len() && i != at && i != at + 1 ==> sound[i] == damaged[i],
        checks(sound),
    ensures
        !checks(damaged),
{
    if checks(damaged) {
        lemma_residue(sound);
        lemma_residue(damaged);
        // The last place a two-byte span can begin.
        let k = if at + 2 <= sound.len() { at } else { sound.len() - 2 };
        let head = sound.take(k);
        let tail = sound.skip(k + 2);
        let p = sound.subrange(k, k + 2);
        let q = damaged.subrange(k, k + 2);
        assert(head + p + tail =~= sound);
        assert(head + q + tail =~= damaged);
        let register = run(0, head);
        lemma_run_append(0, head + p, tail);
        lemma_run_append(0, head + q, tail);
        lemma_run_append(0, head, p);
        lemma_run_append(0, head, q);
        lemma_run_injective(run(register, p), run(register, q), tail);
        lemma_run_two(register, p);
        lemma_run_two(register, q);
        let x = le_value(p[0], p[1]);
        let y = le_value(q[0], q[1]);
        lemma_shifted_injective(register ^ x, register ^ y, 16);
        assert(register ^ x == register ^ y ==> x == y) by (bit_vector);
        law_le_round_trip(0, p[0], p[1]);
        law_le_round_trip(0, q[0], q[1]);
        assert(p =~= q);
    }
}

/// Byte `i` of `bytes`, and zero on either side of them.
pub open spec fn byte_or_zero(bytes: Seq<u8>, i: int) -> u8 {
    if 0 <= i < bytes.len() {
        bytes[i]
    } else {
        0
    }
}

/// Byte `i` of the product of `quotient` and the polynomial
/// x^16 + x^13 + x^12 + x^11 + x^10 + x^8 + x^6 + x^5 + x^2 + 1, both over the
/// two-element field and their bits in the order in which they travel, low bit
/// of each byte first: each bit is the sum of the quotient's bits that stand 0,
/// 3, 4, 5, 6, 8, 10, 11, 14 and 16 places before it.
pub open spec fn product_byte(quotient: Seq<u8>, i: int) -> u8 {
    product_of(
        byte_or_zero(quotient, i),
        byte_or_zero(quotient, i - 1),
        byte_or_zero(quotient, i - 2),
    )
}

/// The product's byte where the quotient's is `now`, and those before it
/// `before` and `earlier`.
pub open spec fn product_of(now: u8, before: u8, earlier: u8) -> u8 {
    let h = ((now as u32) << 16) | ((before as u32) << 8) | (earlier as u32);
    (((h >> 16) ^ (h >> 13) ^ (h >> 12) ^ (h >> 11) ^ (h >> 10) ^ (h >> 8) ^ (h >> 6) ^ (h >> 5) ^ (
    h >> 2) ^ h) & 0xff) as u8
}

/// The register that the last sixteen bits of the quotient leave, the last of
/// them on top.
spec fn left_by(w: u16) -> u16 {
    w ^ (w >> 2) ^ (w >> 5) ^ (w >> 6) ^ (w >> 8) ^ (w >> 10) ^ (w >> 11) ^ (w >> 12) ^ (w >> 13)
}

/// The last sixteen bits of the quotient, with `q` behind them.
spec fn moved_on(w: u16, q: u16) -> u16 {
    (w >> 1) | (q << 15)
}

/// One bit of the division: `left` is what is left of a byte of the message,
/// its low bit next.
proof fn lemma_division_bit(w: u16, left: u16) -> (q: u16)
    requires
        left < 256,
    ensures
        q <= 1,
        shifted(left_by(w) ^ left) == left_by(moved_on(w, q)) ^ (left >> 1),
        left & 1 == q ^ (left_by(w) & 1),
{
    let q = (left_by(w) ^ left) & 1;
    assert(q <= 1 && shifted(left_by(w) ^ left) == left_by(moved_on(w, q)) ^ (left >> 1) && left & 1
        == q ^ (left_by(w) & 1)) by (bit_vector)
        requires
            left < 256,
            q == (left_by(w) ^ left) & 1,
    ;
    q
}

proof fn lemma_division_byte(before: u8, earlier: u8, byte: u8) -> (now: u8)
    ensures
        stepped(left_by(((before as u16) << 8) | (earlier as u16)), byte) == left_by(
            ((now as u16) << 8) | (before as u16),
        ),
        byte == product_of(now, before, earlier),
{
    reveal_with_fuel(shifted_by, 9);
    let b = byte as u16;
    let w0 = ((before as u16) << 8) | (earlier as u16);
    let q0 = lemma_division_bit(w0, b);
    let w1 = moved_on(w0, q0);
    let b1 = b >> 1;
    let b2 = b1 >> 1;
    let b3 = b2 >> 1;
    let b4 = b3 >> 1;
    let b5 = b4 >> 1;
    let b6 = b5 >> 1;
    let b7 = b6 >> 1;
    assert(b1 < 256 && b2 < 256 && b3 < 256 && b4 < 256 && b5 < 256 && b6 < 256 && b7 < 256 && b7
        >> 1 == 0) by (bit_vector)
        requires
            b < 256,
            b1 == b >> 1,
            b2 == b1 >> 1,
            b3 == b2 >> 1,
            b4 == b3 >> 1,
            b5 == b4 >> 1,
            b6 == b5 >> 1,
            b7 == b6 >> 1,
    ;
    let q1 = lemma_division_bit(w1, b1);
    let w2 = moved_on(w1, q1);
    let q2 = lemma_division_bit(w2, b2);
    let w3 = moved_on(w2, q2);
    let q3 = lemma_division_bit(w3, b3);
    let w4 = moved_on(w3, q3);
    let q4 = lemma_division_bit(w4, b4);
    let w5 = moved_on(w4, q4);
    let q5 = lemma_division_bit(w5, b5);
    let w6 = moved_on(w5, q5);
    let q6 = lemma_division_bit(w6, b6);
    let w7 = moved_on(w6, q6);
    let q7 = lemma_division_bit(w7, b7);
    let w8 = moved_on(w7, q7);
    let top = left_by(w8);
    assert(top ^ 0 == top) by (bit_vector);
    let now = (w8 >> 8) as u8;
    assert(w8 == ((now as u16) << 8) | (before as u16)) by (bit_vector)
        requires
            w0 == ((before as u16) << 8) | (earlier as u16),
            w1 == moved_on(w0, q0),
            w2 == moved_on(w1, q1),
            w3 == moved_on(w2, q2),
            w4 == moved_on(w3, q3),
            w5 == moved_on(w4, q4),
            w6 == moved_on(w5, q5),
            w7 == moved_on(w6, q6),
            w8 == moved_on(w7, q7),
            now == (w8 >> 8) as u8,
    ;
    assert(byte == product_of(now, before, earlier)) by (bit_vector)
        requires
            q0 <= 1,
            q1 <= 1,
            q2 <= 1,
            q3 <= 1,
            q4 <= 1,
            q5 <= 1,
            q6 <= 1,
            q7 <= 1,
            w0 == ((before as u16) << 8) | (earlier as u16),
            w1 == moved_on(w0, q0),
            w2 == moved_on(w1, q1),
            w3 == moved_on(w2, q2),
            w4 == moved_on(w3, q3),
            w5 == moved_on(w4, q4),
            w6 == moved_on(w5, q5),
            w7 == moved_on(w6, q6),
            w8 == moved_on(w7, q7),
            now == (w8 >> 8) as u8,
            b == byte as u16,
            b1 == b >> 1,
            b2 == b1 >> 1,
            b3 == b2 >> 1,
            b4 == b3 >> 1,
            b5 == b4 >> 1,
            b6 == b5 >> 1,
            b7 == b6 >> 1,
            b & 1 == q0 ^ (left_by(w0) & 1),
            b1 & 1 == q1 ^ (left_by(w1) & 1),
            b2 & 1 == q2 ^ (left_by(w2) & 1),
            b3 & 1 == q3 ^ (left_by(w3) & 1),
            b4 & 1 == q4 ^ (left_by(w4) & 1),
            b5 & 1 == q5 ^ (left_by(w5) & 1),
            b6 & 1 == q6 ^ (left_by(w6) & 1),
            b7 & 1 == q7 ^ (left_by(w7) & 1),
    ;
    now
}

/// The quotient of `message`, and what its last two bytes leave.
proof fn lemma_division(message: Seq<u8>) -> (quotient: Seq<u8>)
    ensures
        quotient.len() == message.len(),
        forall|i: int| 0 <= i < message.len() ==> #[trigger] message[i] == product_byte(quotient, i),
        run(0, message) == left_by(
            ((byte_or_zero(quotient, message.len() - 1) as u16) << 8) | (byte_or_zero(
                quotient,
                message.len() - 2,
            ) as u16),
        ),
    decreases message.len(),
{
    if message.len() == 0 {
        assert(left_by(((0u8 as u16) << 8) | (0u8 as u16)) == 0) by (bit_vector);
        Seq::empty()
    } else {
        let n = message.len() - 1;
        let head = message.drop_last();
        let q = lemma_division(head);
        let before = byte_or_zero(q, n - 1);
        let earlier = byte_or_zero(q, n - 2);
        let now = lemma_division_byte(before, earlier, message.last());
        let quotient = q.push(now);
        assert forall|i: int| 0 <= i < message.len() implies #[trigger] message[i] == product_byte(
            quotient,
            i,
        ) by {
            if i < n {
                assert(message[i] == head[i]);
                assert(product_byte(quotient, i) == product_byte(q, i));
            }
        }
        quotient
    }
}

/// A check is the remainder of a division, inverted: the message, and behind
/// it the two bytes of its check with every bit inverted, low byte first, are
/// together a multiple of the CRC-16/DNP polynomial.
pub proof fn law_check_is_a_remainder(message: Seq<u8>)
    ensures
        exists|quotient: Seq<u8>|
            {
                &&& quotient.len() == message.len()
                &&& forall|i: int|
                    0 <= i < message.len() ==> message[i] == #[trigger] product_byte(quotient, i)
                &&& 255 - checksum_of(message) % 256 == product_byte(
                    quotient,
                    message.len() as int,
                )
                &&& 255 - checksum_of(message) / 256 == product_byte(
                    quotient,
                    message.len() as int + 1,
                )
            },
{
    let n = message.len() as int;
    let quotient = lemma_division(message);
    let before = byte_or_zero(quotient, n - 1);
    let earlier = byte_or_zero(quotient, n - 2);
    let w = ((before as u16) << 8) | (earlier as u16);
    let r = run(0, message);
    assert(255 - !r % 256 == product_of(0, before, earlier) && 255 - !r / 256 == product_of(
        0,
        0,
        before,
    )) by (bit_vector)
        requires
            w == ((before as u16) << 8) | (earlier as u16),
            r == left_by(w),
    ;
    assert forall|i: int| 0 <= i < message.len() implies message[i] == #[trigger] product_byte(
        quotient,
        i,
    ) by {
        assert(message[i] == product_byte(quotient, i));
    }
}

} // verus!
