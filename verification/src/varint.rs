//! Variable length integers that prefix message ids and message lengths.
//!
//! Seven bits are carried per byte, least significant first, and the high bit of a byte says that
//! another byte follows. A decoder never waits for a ninth byte: the eighth carries eight bits.
use vstd::prelude::*;
use vstd::arithmetic::power2::{lemma2_to64, lemma_pow2_adds, pow2};
use vstd::bits::lemma_u64_shl_is_mul;

verus! {

/// An integer of at most 57 bits.
#[derive(Debug, Clone, Copy, PartialEq, Eq, PartialOrd, Ord, Hash)]
pub struct VarInt(u64);

/// Collects the bytes of one [`VarInt`] at a time.
pub struct VarIntDecoder {
    current: u64,
    received_bytes: usize,
}

/// What a [`VarIntDecoder`] has seen of the integer that it is receiving.
pub struct Partial {
    pub current: nat,
    pub received: nat,
}

/// The number of values that a [`VarInt`] can take.
pub open spec fn varint_bound() -> nat {
    0x200_0000_0000_0000
}

/// The bytes that stand for `value`.
pub open spec fn varint_bytes(value: nat) -> Seq<u8>
    decreases value,
{
    if value < 128 {
        seq![value as u8]
    } else {
        seq![(128 + value % 128) as u8] + varint_bytes(value / 128)
    }
}

/// A decoder that has received nothing.
pub open spec fn no_bytes() -> Partial {
    Partial { current: 0, received: 0 }
}

/// The effect of one byte: what is kept, and the integer that it completes, if any.
pub open spec fn partial_step(partial: Partial, byte: u8) -> (Partial, Option<nat>) {
    if partial.received >= 7 {
        (no_bytes(), Some(partial.current + byte as nat * pow2(7 * partial.received)))
    } else if byte < 128 {
        (no_bytes(), Some(partial.current + byte as nat * pow2(7 * partial.received)))
    } else {
        (
            Partial {
                current: partial.current + (byte - 128) as nat * pow2(7 * partial.received),
                received: partial.received + 1,
            },
            None,
        )
    }
}

/// The effect of the bytes of `bytes` up to and including the one that completes an integer:
/// what is kept, the integer, and the number of bytes taken.
pub open spec fn partial_run(partial: Partial, bytes: Seq<u8>) -> (Partial, Option<nat>, nat)
    decreases bytes.len(),
{
    if bytes.len() == 0 {
        (partial, None, 0)
    } else {
        let (next, out) = partial_step(partial, bytes[0]);
        if out is Some {
            (next, out, 1)
        } else {
            let (last, out, taken) = partial_run(next, bytes.skip(1));
            (last, out, taken + 1)
        }
    }
}

/// The value of an optional [`VarInt`].
pub open spec fn varint_value(varint: Option<VarInt>) -> Option<nat> {
    match varint {
        Some(varint) => Some(varint@),
        None => None,
    }
}

impl Partial {
    /// At most seven bytes are held, and their bits fit where they came from.
    pub open spec fn wf(self) -> bool {
        self.received <= 7 && self.current < pow2(7 * self.received)
    }
}

impl View for VarInt {
    type V = nat;

    closed spec fn view(&self) -> nat {
        self.0 as nat
    }
}

impl View for VarIntDecoder {
    type V = Partial;

    closed spec fn view(&self) -> Partial {
        Partial { current: self.current as nat, received: self.received_bytes as nat }
    }
}

impl VarInt {
    /// The integer fits in 57 bits.
    pub open spec fn wf(self) -> bool {
        self@ < varint_bound()
    }

    /// Makes a variable length integer, unless `value` takes more than 57 bits.
    pub fn from_u64(value: u64) -> (varint: Option<Self>)
        ensures
            varint is Some <==> value < varint_bound(),
            varint matches Some(varint) ==> varint@ == value && varint.wf(),
    {
        assert(u64::MAX >> 7 == 0x1ff_ffff_ffff_ffff) by (bit_vector);
        if value <= u64::MAX >> 7 {
            Some(VarInt(value))
        } else {
            None
        }
    }

    /// The value of the integer.
    pub fn as_u64(self) -> (value: u64)
        ensures
            value == self@,
    {
        self.0
    }

    /// Appends the bytes of the integer to `buffer`.
    pub fn encode(&self, buffer: &mut Vec<u8>)
        ensures
            final(buffer)@ == old(buffer)@ + varint_bytes(self@),
    {
        let mut value: u64 = self.0;
        loop
            invariant
                buffer@ + varint_bytes(value as nat) == old(buffer)@ + varint_bytes(self@),
            decreases value,
        {
            let ghost before = buffer@;
            let low: u8 = (value % 128) as u8;
            let rest: u64 = value / 128;
            if rest == 0 {
                buffer.push(low);
                assert(varint_bytes(value as nat) =~= seq![low]);
                assert(buffer@ =~= before + seq![low]);
                return;
            }
            buffer.push(128 + low);
            assert(buffer@ + varint_bytes(rest as nat) =~= before + varint_bytes(value as nat));
            value = rest;
        }
    }
}

impl Default for VarIntDecoder {
    /// A decoder that waits for the first byte of an integer.
    fn default() -> (decoder: Self)
        ensures
            decoder@ == no_bytes(),
            decoder.wf(),
    {
        proof {
            lemma2_to64();
        }
        VarIntDecoder { current: 0, received_bytes: 0 }
    }
}

impl VarIntDecoder {
    /// The bytes received so far belong to one integer that is not complete.
    pub open spec fn wf(self) -> bool {
        self@.wf()
    }

    /// Takes the next byte, and gives the integer that it completes.
    pub fn push_byte(&mut self, byte: u8) -> (out: Option<VarInt>)
        requires
            old(self).wf(),
        ensures
            final(self).wf(),
            (final(self)@, varint_value(out)) == partial_step(old(self)@, byte),
            out matches Some(varint) ==> varint.wf(),
    {
        let limit_reached = self.received_bytes >= 7;
        let continuation_bit = byte >= 128;
        let bits: u8 = if continuation_bit && !limit_reached { byte - 128 } else { byte };
        let shift: u64 = 7 * self.received_bytes as u64;
        proof {
            lemma_append_bits(self.current, bits, self.received_bytes as nat);
            lemma2_to64();
        }
        self.current = self.current | ((bits as u64) << shift);
        self.received_bytes = self.received_bytes + 1;

        if !continuation_bit || limit_reached {
            let out = VarInt(self.current);
            self.current = 0;
            self.received_bytes = 0;
            Some(out)
        } else {
            None
        }
    }

    /// Takes bytes until an integer is complete, and gives it with the number of bytes taken.
    pub fn push_bytes(&mut self, bytes: &[u8]) -> (out: (Option<VarInt>, usize))
        requires
            old(self).wf(),
        ensures
            final(self).wf(),
            (final(self)@, varint_value(out.0), out.1 as nat) == partial_run(old(self)@, bytes@),
            out.1 <= bytes@.len(),
            out.0 is None ==> out.1 == bytes@.len(),
            out.0 matches Some(varint) ==> varint.wf(),
    {
        let mut taken: usize = 0;
        assert(bytes@.skip(0) =~= bytes@);
        while taken < bytes.len()
            invariant
                self.wf(),
                taken <= bytes@.len(),
                ({
                    let (last, out, more) = partial_run(self@, bytes@.skip(taken as int));
                    partial_run(old(self)@, bytes@) == (last, out, (more + taken) as nat)
                }),
            decreases bytes@.len() - taken,
        {
            proof {
                assert(bytes@.skip(taken as int).skip(1) =~= bytes@.skip(taken + 1));
            }
            let out = self.push_byte(bytes[taken]);
            taken = taken + 1;
            if out.is_some() {
                return (out, taken);
            }
        }
        (None, taken)
    }
}

/// Bits put above the bits of a smaller integer add up.
proof fn lemma_append_bits(current: u64, bits: u8, received: nat)
    requires
        received <= 7,
        current < pow2(7 * received),
        received < 7 ==> bits < 128,
    ensures
        (current | ((bits as u64) << (7 * received) as u64)) == current + bits as nat * pow2(
            7 * received,
        ),
        current + bits as nat * pow2(7 * received) < varint_bound(),
        received < 7 ==> current + bits as nat * pow2(7 * received) < pow2(7 * (received + 1)),
{
    let k = received as u64;
    let wide = bits as u64;
    lemma2_to64();
    assert(pow2(42) == 0x400_0000_0000 && pow2(49) == 0x2_0000_0000_0000) by {
        lemma_pow2_adds(32, 10);
        lemma_pow2_adds(32, 17);
    }
    lemma_pow2_adds(7 * received, 7);
    assert(wide * pow2(7 * received) <= 255 * 0x2_0000_0000_0000) by (nonlinear_arith)
        requires
            wide <= 255,
            0 <= pow2(7 * received) <= 0x2_0000_0000_0000,
    ;
    assert(received < 7 ==> wide * pow2(7 * received) <= 127 * pow2(7 * received))
        by (nonlinear_arith)
        requires
            received < 7 ==> wide <= 127,
            0 <= pow2(7 * received),
    ;
    lemma_u64_shl_is_mul(wide, (7 * k) as u64);
    lemma_u64_shl_is_mul(1, (7 * k) as u64);
    assert(current | (wide << 7 * k) == current + (wide << 7 * k)) by (bit_vector)
        requires
            current < 1u64 << 7 * k,
            k <= 7,
            wide <= 255,
    ;
}

/// Feeding a decoder `first` and then `second` is feeding it `first + second`: how the bytes of an
/// integer are cut into chunks does not matter.
pub proof fn partial_run_concat(partial: Partial, first: Seq<u8>, second: Seq<u8>)
    ensures
        ({
            let (kept, out, taken) = partial_run(partial, first);
            partial_run(partial, first + second) == if out is Some {
                (kept, out, taken)
            } else {
                let (last, out, more) = partial_run(kept, second);
                (last, out, first.len() + more)
            }
        }),
    decreases first.len(),
{
    if first.len() == 0 {
        assert(first + second =~= second);
    } else {
        let (next, out) = partial_step(partial, first[0]);
        assert((first + second).skip(1) =~= first.skip(1) + second);
        if out is None {
            partial_run_concat(next, first.skip(1), second);
        }
        partial_run_takes(partial, first);
    }
}

/// A run takes at least one byte where there is one and never more than there are, all of them if
/// no integer is completed; and nothing is kept once one is.
pub proof fn partial_run_takes(partial: Partial, bytes: Seq<u8>)
    ensures
        ({
            let (kept, out, taken) = partial_run(partial, bytes);
            &&& taken <= bytes.len()
            &&& bytes.len() > 0 ==> taken > 0
            &&& out is None ==> taken == bytes.len()
            &&& out is None ==> kept.received == partial.received + bytes.len()
            &&& out is Some ==> kept == no_bytes()
        }),
    decreases bytes.len(),
{
    if bytes.len() > 0 {
        let (next, out) = partial_step(partial, bytes[0]);
        if out is None {
            partial_run_takes(next, bytes.skip(1));
        }
    }
}

/// Decoding gives back what was encoded, whatever follows it. The bytes taken are those of the
/// encoding, as long as the integer fits in 56 bits; above that the last byte of the encoding is
/// left behind.
pub proof fn varint_round_trip(value: nat, rest: Seq<u8>)
    requires
        value < varint_bound(),
    ensures
        ({
            let (kept, out, taken) = partial_run(no_bytes(), varint_bytes(value) + rest);
            &&& kept == no_bytes()
            &&& out == Some(value)
            &&& taken == varint_bytes(value).len() - if value < varint_bound() / 2 {
                0int
            } else {
                1
            }
        }),
{
    lemma2_to64();
    assert(pow2(57) == varint_bound() && pow2(56) == varint_bound() / 2) by {
        lemma_pow2_adds(32, 25);
        lemma_pow2_adds(32, 24);
    }
    lemma_run_rest(no_bytes(), value, rest);
    assert(value * pow2(0) == value);
}

/// Decoding the encoding of the high part of an integer completes the integer.
proof fn lemma_run_rest(partial: Partial, value: nat, rest: Seq<u8>)
    requires
        partial.received <= 7,
        value < pow2((57 - 7 * partial.received) as nat),
    ensures
        ({
            let (kept, out, taken) = partial_run(partial, varint_bytes(value) + rest);
            &&& kept == no_bytes()
            &&& out == Some(partial.current + value * pow2(7 * partial.received))
            &&& taken == varint_bytes(value).len() - if value < pow2(
                (56 - 7 * partial.received) as nat,
            ) {
                0int
            } else {
                1
            }
        }),
    decreases value,
{
    lemma2_to64();
    let received = partial.received;
    let bytes = varint_bytes(value) + rest;
    let unit = pow2(7 * received);
    if value < 128 {
        lemma_pow2_at_least(7, (56 - 7 * received) as nat);
        assert(bytes[0] == value);
    } else {
        let tail = varint_bytes(value / 128);
        assert(bytes[0] == 128 + value % 128);
        assert(bytes.skip(1) =~= tail + rest);
        lemma_varint_bytes_len(value / 128);
        if received < 7 {
            let next = Partial {
                current: partial.current + (value % 128) * unit,
                received: received + 1,
            };
            lemma_pow2_adds(7, (57 - 7 * (received + 1)) as nat);
            lemma_pow2_adds(7, (56 - 7 * (received + 1)) as nat);
            lemma_pow2_adds(7 * received, 7);
            lemma_run_rest(next, value / 128, rest);
            assert((value % 128) * unit + (value / 128) * (unit * 128) == value * unit)
                by (nonlinear_arith)
                requires
                    value == value % 128 + 128 * (value / 128),
            ;
            assert((value / 128) * pow2(7 * (received + 1)) == (value / 128) * (unit * 128));
        } else {
            assert(pow2(8) == 256 && pow2(7) == 128);
            assert(tail =~= seq![(value / 128) as u8]);
            assert(128 + value % 128 == value);
        }
    }
}

proof fn lemma_pow2_at_least(low: nat, high: nat)
    requires
        low <= high,
    ensures
        pow2(low) <= pow2(high),
{
    if low < high {
        vstd::arithmetic::power2::lemma_pow2_strictly_increases(low, high);
    }
}

/// An encoding is never empty.
pub proof fn lemma_varint_bytes_len(value: nat)
    ensures
        varint_bytes(value).len() >= 1,
    decreases value,
{
    if value >= 128 {
        lemma_varint_bytes_len(value / 128);
    }
}

/// The number that groups of seven bits stand for, the least significant group first.
pub open spec fn grouped(bytes: Seq<u8>) -> nat
    decreases bytes.len(),
{
    if bytes.len() == 0 {
        0
    } else {
        bytes[0] as nat % 128 + 128 * grouped(bytes.skip(1))
    }
}

/// An integer travels in groups of seven bits, the least significant one first. The high bit of a
/// byte says whether more follow. No more bytes are used than needed.
pub proof fn integers_travel_in_groups(value: nat)
    ensures
        ({
            let bytes = varint_bytes(value);
            &&& bytes.len() > 0
            &&& grouped(bytes) == value
            &&& bytes.last() < 128
            &&& forall|i: int| 0 <= i < bytes.len() - 1 ==> #[trigger] bytes[i] >= 128
            &&& bytes.len() > 1 ==> bytes.last() > 0
        }),
    decreases value,
{
    let bytes = varint_bytes(value);
    if value < 128 {
        assert(bytes.skip(1) =~= Seq::empty());
        assert(grouped(Seq::<u8>::empty()) == 0);
    } else {
        let rest = varint_bytes(value / 128);
        integers_travel_in_groups(value / 128);
        assert(bytes.skip(1) =~= rest);
        assert(bytes.last() == rest.last());
        assert forall|i: int| 0 <= i < bytes.len() - 1 implies #[trigger] bytes[i] >= 128 by {
            if i > 0 {
                assert(bytes[i] == rest[i - 1]);
            }
        }
    }
}

} // verus!
