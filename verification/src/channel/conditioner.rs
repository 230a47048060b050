//! Simulating an imperfect network: messages that are received are delayed, dropped or duplicated.
//!
//! Times are nanoseconds since some fixed instant. Probabilities are counted in units of one in
//! 2^53, the steps in which random fractions are drawn.
use super::message::{message_views, ChannelMessage, MessageView};
use std::collections::VecDeque;
use vstd::prelude::*;

verus! {

/// The probability of what always happens.
pub const CERTAIN: u64 = 0x20_0000_0000_0000;

/// Nanoseconds in a millisecond.
pub const NANOS_PER_MILLI: u128 = 1_000_000;

/// The state of a random number generator that was seeded with zero.
pub const ZERO_SEED: u64 = 0x12345678_9abcdef0;

/// Configuration for simulating adverse network conditions on a channel connection.
///
/// The conditioner affects the receive side of a connection: it simulates what would happen to data
/// that travels over an imperfect network before it arrives.
#[derive(Clone, Copy, Debug, PartialEq, Eq, Structural)]
pub struct LinkConditionerConfig {
    /// One-way latency in milliseconds added to every message.
    pub latency_ms: u32,
    /// Random jitter applied uniformly in the range `[-jitter_ms, +jitter_ms]`, added on top of
    /// `latency_ms`. The effective delay is clamped to a minimum of 0.
    pub jitter_ms: u32,
    /// Probability of dropping a message outright: `0` is no loss, [`CERTAIN`] drops everything.
    pub packet_loss: u64,
    /// Probability of duplicating a message: `0` is no duplicates, [`CERTAIN`] duplicates
    /// everything. Duplicates receive their own independent delay.
    pub duplicate: u64,
    /// Optional seed for deterministic behaviour.
    pub seed: Option<u64>,
}

impl Default for LinkConditionerConfig {
    /// A perfect network.
    fn default() -> (config: Self)
        ensures
            config == (LinkConditionerConfig {
                latency_ms: 0,
                jitter_ms: 0,
                packet_loss: 0,
                duplicate: 0,
                seed: None,
            }),
    {
        LinkConditionerConfig {
            latency_ms: 0,
            jitter_ms: 0,
            packet_loss: 0,
            duplicate: 0,
            seed: None,
        }
    }
}

/// A simple random number generator.
pub struct SimpleRng {
    pub state: u64,
}

/// The step of a xorshift generator of 64 bits.
pub open spec fn xorshift(state: u64) -> u64 {
    let first = state ^ (state << 13);
    let second = first ^ (first >> 7);
    second ^ (second << 17)
}

/// The random fraction, in units of one in 2^53, that a generator draws when it gets to a state.
pub open spec fn fraction(state: u64) -> u64 {
    state >> 11
}

/// The random jitter that a generator draws from a state, and the state that it gets to. Without a
/// range nothing is drawn.
pub open spec fn jitter(state: u64, range: u32) -> (int, u64) {
    if range == 0 {
        (0, state)
    } else {
        let next = xorshift(state);
        (next as int % (2 * range as int + 1) - range as int, next)
    }
}

impl SimpleRng {
    /// A state other than zero, which a generator would not get away from.
    pub open spec fn wf(self) -> bool {
        self.state != 0
    }

    /// Creates a generator.
    pub fn new(seed: u64) -> (rng: Self)
        ensures
            rng.wf(),
            rng.state == if seed == 0 {
                ZERO_SEED
            } else {
                seed
            },
    {
        SimpleRng {
            state: if seed == 0 {
                ZERO_SEED
            } else {
                seed
            },
        }
    }

    /// Draws a number.
    pub fn next_u64(&mut self) -> (value: u64)
        requires
            old(self).wf(),
        ensures
            final(self).wf(),
            final(self).state == xorshift(old(self).state),
            value == final(self).state,
    {
        proof {
            lemma_xorshift_nonzero(self.state);
        }
        self.state = self.state ^ (self.state << 13);
        self.state = self.state ^ (self.state >> 7);
        self.state = self.state ^ (self.state << 17);
        self.state
    }

    /// Draws a fraction in units of one in 2^53.
    pub fn next_fraction(&mut self) -> (value: u64)
        requires
            old(self).wf(),
        ensures
            final(self).wf(),
            final(self).state == xorshift(old(self).state),
            value == fraction(final(self).state),
            value < CERTAIN,
    {
        let value: u64 = self.next_u64();
        assert(value >> 11 < 0x20_0000_0000_0000) by (bit_vector);
        value >> 11
    }

    /// Draws a value in `[-range, +range]`.
    pub fn next_jitter(&mut self, range: u32) -> (value: i64)
        requires
            old(self).wf(),
        ensures
            final(self).wf(),
            (value as int, final(self).state) == jitter(old(self).state, range),
            -(range as int) <= value <= range,
    {
        if range == 0 {
            return 0;
        }
        let span: u64 = range as u64 * 2 + 1;
        let value: u64 = self.next_u64() % span;
        value as i64 - range as i64
    }
}

/// A generator whose state is not zero never gets to zero.
pub proof fn lemma_xorshift_nonzero(state: u64)
    requires
        state != 0,
    ensures
        xorshift(state) != 0,
{
    let first = state ^ (state << 13);
    let second = first ^ (first >> 7);
    assert(first != 0) by (bit_vector)
        requires
            state != 0,
            first == state ^ (state << 13),
    ;
    assert(second != 0) by (bit_vector)
        requires
            first != 0,
            second == first ^ (first >> 7),
    ;
    assert(second ^ (second << 17) != 0) by (bit_vector)
        requires
            second != 0,
    ;
}

/// A message that is on its way, with the time at which it arrives.
pub type DelayedView = (nat, MessageView);

/// The state of a link conditioner.
pub struct LinkConditionerState {
    pub config: LinkConditionerConfig,
    pub delayed: VecDeque<(u128, ChannelMessage)>,
    pub rng: SimpleRng,
}

/// What is on its way, and the state of the generator.
pub struct ConditionerView {
    pub config: LinkConditionerConfig,
    pub delayed: Seq<DelayedView>,
    pub random: u64,
}

/// Messages on their way.
pub open spec fn delayed_views(delayed: Seq<(u128, ChannelMessage)>) -> Seq<DelayedView> {
    delayed.map_values(|entry: (u128, ChannelMessage)| (entry.0 as nat, entry.1@))
}

/// Messages are in the order in which they arrive.
pub open spec fn in_order(delayed: Seq<DelayedView>) -> bool {
    forall|i: int, j: int|
        0 <= i <= j < delayed.len() ==> (#[trigger] delayed[i]).0 <= (#[trigger] delayed[j]).0
}

/// The number of messages at the front that have arrived.
pub open spec fn arrived(delayed: Seq<DelayedView>, now: nat) -> nat
    decreases delayed.len(),
{
    if delayed.len() == 0 || delayed[0].0 > now {
        0
    } else {
        1 + arrived(delayed.skip(1), now)
    }
}

/// A message goes behind those that arrive at the same time or before.
pub open spec fn with_delayed(delayed: Seq<DelayedView>, entry: DelayedView) -> Seq<DelayedView> {
    delayed.insert(arrived(delayed, entry.0) as int, entry)
}

/// The time at which a message arrives that comes now, with a jitter.
pub open spec fn arrival(config: LinkConditionerConfig, now: nat, jitter: int) -> nat {
    let delay = config.latency_ms as int + jitter;
    if delay <= 0 {
        now
    } else {
        now + delay as nat * NANOS_PER_MILLI as nat
    }
}

/// The effect of a message that comes now: it is dropped, or delayed once or twice.
pub open spec fn conditioned(
    conditioner: ConditionerView,
    message: MessageView,
    now: nat,
) -> ConditionerView {
    let config = conditioner.config;
    let loss_state = xorshift(conditioner.random);
    if fraction(loss_state) < config.packet_loss {
        ConditionerView { random: loss_state, ..conditioner }
    } else {
        let (offset, jitter_state) = jitter(loss_state, config.jitter_ms);
        let entry = (arrival(config, now, offset), message);
        let duplicate_state = xorshift(jitter_state);
        if fraction(duplicate_state) < config.duplicate {
            let (copy_offset, last_state) = jitter(duplicate_state, config.jitter_ms);
            let copy = (arrival(config, now, copy_offset), message);
            ConditionerView {
                delayed: with_delayed(with_delayed(conditioner.delayed, copy), entry),
                random: last_state,
                ..conditioner
            }
        } else {
            ConditionerView {
                delayed: with_delayed(conditioner.delayed, entry),
                random: duplicate_state,
                ..conditioner
            }
        }
    }
}

impl View for LinkConditionerState {
    type V = ConditionerView;

    open spec fn view(&self) -> ConditionerView {
        ConditionerView {
            config: self.config,
            delayed: delayed_views(self.delayed@),
            random: self.rng.state,
        }
    }
}

impl ConditionerView {
    /// Messages are in the order in which they arrive, and the generator runs.
    pub open spec fn wf(self) -> bool {
        in_order(self.delayed) && self.random != 0
    }
}

/// A conditioner of a link on which nothing has been sent. A configuration without a seed gets a
/// fallback.
pub open spec fn new_conditioner(
    config: LinkConditionerConfig,
    fallback_seed: u64,
) -> ConditionerView {
    let seed = match config.seed {
        Some(seed) => seed,
        None => fallback_seed,
    };
    ConditionerView {
        config,
        delayed: Seq::empty(),
        random: if seed == 0 {
            ZERO_SEED
        } else {
            seed
        },
    }
}

impl LinkConditionerState {
    /// Messages are in the order in which they arrive, and the generator runs.
    pub open spec fn wf(self) -> bool {
        self@.wf()
    }

    /// Creates a conditioner. `fallback_seed` is used if the configuration has no seed.
    pub fn new(config: LinkConditionerConfig, fallback_seed: u64) -> (conditioner: Self)
        ensures
            conditioner.wf(),
            conditioner@ == new_conditioner(config, fallback_seed),
    {
        let seed: u64 = match config.seed {
            Some(seed) => seed,
            None => fallback_seed,
        };
        let conditioner = LinkConditionerState {
            config,
            delayed: VecDeque::new(),
            rng: SimpleRng::new(seed),
        };
        assert(conditioner@.delayed =~= Seq::empty());
        conditioner
    }

    /// The time at which a message arrives that comes now.
    fn draw_arrival(&mut self, now: u64) -> (at: u128)
        requires
            old(self).wf(),
        ensures
            final(self).wf(),
            final(self).config == old(self).config,
            final(self).delayed == old(self).delayed,
            ({
                let (offset, state) = jitter(old(self).rng.state, old(self).config.jitter_ms);
                at == arrival(old(self).config, now as nat, offset) && final(self).rng.state
                    == state
            }),
    {
        let offset: i64 = self.rng.next_jitter(self.config.jitter_ms);
        let delay: i64 = self.config.latency_ms as i64 + offset;
        if delay <= 0 {
            now as u128
        } else {
            now as u128 + delay as u128 * NANOS_PER_MILLI
        }
    }

    /// Decides whether a message is lost, duplicated, and how long it is delayed.
    pub fn enqueue(&mut self, message: ChannelMessage, now: u64)
        requires
            old(self).wf(),
        ensures
            final(self).wf(),
            final(self)@ == conditioned(old(self)@, message@, now as nat),
    {
        if self.rng.next_fraction() < self.config.packet_loss {
            return ;
        }
        let deliver_at: u128 = self.draw_arrival(now);
        if self.rng.next_fraction() < self.config.duplicate {
            let copy_deliver_at: u128 = self.draw_arrival(now);
            let copy = message.clone();
            self.insert_sorted(copy_deliver_at, copy);
        }
        self.insert_sorted(deliver_at, message);
    }

    /// Puts a message behind those that arrive at the same time or before.
    fn insert_sorted(&mut self, deliver_at: u128, message: ChannelMessage)
        requires
            old(self).wf(),
        ensures
            final(self).wf(),
            final(self)@ == (ConditionerView {
                delayed: with_delayed(old(self)@.delayed, (deliver_at as nat, message@)),
                ..old(self)@
            }),
    {
        let ghost delayed = self@.delayed;
        let ghost entry = (deliver_at as nat, message@);
        let mut place: usize = 0;
        assert(delayed.skip(0) =~= delayed);
        while place < self.delayed.len() && self.delayed[place].0 <= deliver_at
            invariant
                place <= self.delayed@.len(),
                delayed == delayed_views(self.delayed@),
                arrived(delayed, deliver_at as nat) == place + arrived(
                    delayed.skip(place as int),
                    deliver_at as nat,
                ),
            decreases self.delayed@.len() - place,
        {
            assert(delayed.skip(place as int)[0].0 == self.delayed@[place as int].0);
            assert(delayed.skip(place as int).skip(1) =~= delayed.skip(place + 1));
            place = place + 1;
        }
        proof {
            if place < self.delayed@.len() {
                assert(delayed.skip(place as int)[0].0 == self.delayed@[place as int].0);
            }
            lemma_with_delayed_in_order(delayed, entry);
        }
        self.delayed.insert(place, (deliver_at, message));
        assert(self@.delayed =~= with_delayed(delayed, entry));
    }

    /// Takes the messages that have arrived.
    pub fn drain_ready(&mut self, now: u64) -> (ready: Vec<ChannelMessage>)
        requires
            old(self).wf(),
        ensures
            final(self).wf(),
            ({
                let count = arrived(old(self)@.delayed, now as nat);
                &&& count <= old(self)@.delayed.len()
                &&& final(self)@ == (ConditionerView {
                    delayed: old(self)@.delayed.skip(count as int),
                    ..old(self)@
                })
                &&& message_views(ready@) == old(self)@.delayed.take(
                    count as int,
                ).map_values(|entry: DelayedView| entry.1)
            }),
    {
        let ghost delayed = self@.delayed;
        let ghost message_of = |entry: DelayedView| entry.1;
        let mut ready: Vec<ChannelMessage> = Vec::new();
        assert(delayed.skip(0) =~= delayed);
        assert(message_views(ready@) =~= delayed.take(0).map_values(message_of));
        while self.delayed.len() > 0 && self.delayed[0].0 <= now as u128
            invariant
                ready@.len() <= delayed.len(),
                self@ == (ConditionerView {
                    delayed: delayed.skip(ready@.len() as int),
                    ..old(self)@
                }),
                message_of == (|entry: DelayedView| entry.1),
                message_views(ready@) == delayed.take(
                    ready@.len() as int,
                ).map_values(message_of),
                arrived(delayed, now as nat) == ready@.len() + arrived(
                    delayed.skip(ready@.len() as int),
                    now as nat,
                ),
            decreases delayed.len() - ready@.len(),
        {
            let ghost count = ready@.len() as int;
            let ghost before = ready@;
            assert(delayed.skip(count)[0] == (self.delayed@[0].0 as nat, self.delayed@[0].1@));
            assert(delayed.skip(count).skip(1) =~= delayed.skip(count + 1));
            let ghost queue = self.delayed@;
            if let Some((_, message)) = self.delayed.pop_front() {
                ready.push(message);
                proof {
                    assert(self@.delayed =~= delayed_views(queue).skip(1));
                    assert(message_views(ready@) =~= message_views(before).push(delayed[count].1));
                    assert(delayed.take(count + 1).map_values(message_of) =~= delayed.take(
                        count,
                    ).map_values(message_of).push(delayed[count].1));
                }
            }
        }
        proof {
            let count = ready@.len() as int;
            if self.delayed@.len() > 0 {
                assert(delayed.skip(count)[0].0 == self.delayed@[0].0);
            }
            assert forall|i: int, j: int| 0 <= i <= j < self@.delayed.len() implies (#[trigger]
            self@.delayed[i]).0 <= (#[trigger] self@.delayed[j]).0 by {
                assert(delayed[i + count].0 <= delayed[j + count].0);
            }
        }
        ready
    }
}

/// Adding a message keeps messages in the order in which they arrive.
proof fn lemma_with_delayed_in_order(delayed: Seq<DelayedView>, entry: DelayedView)
    requires
        in_order(delayed),
    ensures
        in_order(with_delayed(delayed, entry)),
{
    let place = arrived(delayed, entry.0) as int;
    lemma_arrived(delayed, entry.0);
    let after = with_delayed(delayed, entry);
    assert forall|i: int, j: int| 0 <= i <= j < after.len() implies (#[trigger] after[i]).0 <= (
    #[trigger] after[j]).0 by {
        if i < place && j < place {
            assert(delayed[i].0 <= delayed[j].0);
        } else if i > place {
            assert(delayed[i - 1].0 <= delayed[j - 1].0);
        } else if i < place && j > place {
            assert(delayed[i].0 <= delayed[j - 1].0);
        }
    }
}

/// The messages at the front that have arrived are all that have.
pub proof fn lemma_arrived(delayed: Seq<DelayedView>, now: nat)
    requires
        in_order(delayed),
    ensures
        arrived(delayed, now) <= delayed.len(),
        forall|i: int|
            0 <= i < delayed.len() ==> ((#[trigger] delayed[i]).0 <= now <==> i < arrived(
                delayed,
                now,
            )),
    decreases delayed.len(),
{
    if delayed.len() > 0 {
        let rest = delayed.skip(1);
        assert forall|i: int, j: int| 0 <= i <= j < rest.len() implies (#[trigger] rest[i]).0 <= (
        #[trigger] rest[j]).0 by {
            assert(delayed[i + 1].0 <= delayed[j + 1].0);
        }
        lemma_arrived(rest, now);
        assert forall|i: int| 0 <= i < delayed.len() implies ((#[trigger] delayed[i]).0 <= now
            <==> i < arrived(delayed, now)) by {
            assert(delayed[0].0 <= delayed[i].0);
            if i > 0 {
                assert(rest[i - 1] == delayed[i]);
            }
        }
    }
}

/// A random fraction is less than one.
proof fn lemma_fraction(state: u64)
    ensures
        fraction(state) < CERTAIN,
{
    assert(state >> 11 < 0x20_0000_0000_0000) by (bit_vector);
}

/// With certain loss every message is dropped.
pub proof fn certain_loss(conditioner: ConditionerView, message: MessageView, now: nat)
    requires
        conditioner.config.packet_loss >= CERTAIN,
    ensures
        conditioned(conditioner, message, now).delayed == conditioner.delayed,
{
    lemma_fraction(xorshift(conditioner.random));
}

/// Without loss and duplicates every message is delayed, once.
pub proof fn no_loss(conditioner: ConditionerView, message: MessageView, now: nat)
    requires
        conditioner.config.packet_loss == 0,
        conditioner.config.duplicate == 0,
    ensures
        ({
            let offset = jitter(xorshift(conditioner.random), conditioner.config.jitter_ms).0;
            conditioned(conditioner, message, now).delayed == with_delayed(
                conditioner.delayed,
                (arrival(conditioner.config, now, offset), message),
            )
        }),
{
}

/// Without loss and with certain duplication every message is delayed twice.
pub proof fn certain_duplicate(conditioner: ConditionerView, message: MessageView, now: nat)
    requires
        conditioner.wf(),
        conditioner.config.packet_loss == 0,
        conditioner.config.duplicate >= CERTAIN,
    ensures
        conditioned(conditioner, message, now).delayed.len() == conditioner.delayed.len() + 2,
        exists|one: nat, other: nat| #[trigger]
            with_delayed(with_delayed(conditioner.delayed, (one, message)), (other, message))
                == conditioned(conditioner, message, now).delayed,
{
    let config = conditioner.config;
    let (offset, state) = jitter(xorshift(conditioner.random), config.jitter_ms);
    lemma_fraction(xorshift(state));
    let copy_offset = jitter(xorshift(state), config.jitter_ms).0;
    let one = arrival(config, now, copy_offset);
    let other = arrival(config, now, offset);
    let first = with_delayed(conditioner.delayed, (one, message));
    lemma_arrived(conditioner.delayed, one);
    lemma_with_delayed_in_order(conditioner.delayed, (one, message));
    lemma_arrived(first, other);
    assert(with_delayed(first, (other, message)) == conditioned(conditioner, message, now).delayed);
}

/// A message arrives after the latency, give or take the jitter, and never before it comes.
pub proof fn delay_is_bounded(config: LinkConditionerConfig, now: nat, state: u64)
    ensures
        ({
            let at = arrival(config, now, jitter(state, config.jitter_ms).0);
            let milli = NANOS_PER_MILLI as int;
            &&& now <= at
            &&& now + (config.latency_ms - config.jitter_ms) * milli <= at
            &&& at <= now + (config.latency_ms + config.jitter_ms) * milli
        }),
{
    let offset = jitter(state, config.jitter_ms).0;
    assert(-(config.jitter_ms as int) <= offset <= config.jitter_ms);
}

/// On a link that neither loses nor duplicates and has no jitter, messages arrive in the order in
/// which they come, each after the latency.
pub proof fn steady_link_keeps_order(
    conditioner: ConditionerView,
    message: MessageView,
    now: nat,
)
    requires
        conditioner.wf(),
        conditioner.config.packet_loss == 0,
        conditioner.config.duplicate == 0,
        conditioner.config.jitter_ms == 0,
        forall|i: int|
            0 <= i < conditioner.delayed.len() ==> (#[trigger] conditioner.delayed[i]).0 <= now
                + conditioner.config.latency_ms * NANOS_PER_MILLI,
    ensures
        conditioned(conditioner, message, now).delayed == conditioner.delayed.push(
            ((now + conditioner.config.latency_ms * NANOS_PER_MILLI) as nat, message),
        ),
{
    let at = (now + conditioner.config.latency_ms * NANOS_PER_MILLI) as nat;
    let delayed = conditioner.delayed;
    assert(at == arrival(conditioner.config, now, 0));
    lemma_arrived(delayed, at);
    if arrived(delayed, at) < delayed.len() {
        assert(delayed[delayed.len() - 1].0 <= at);
    }
    assert(delayed.insert(delayed.len() as int, (at, message)) =~= delayed.push((at, message)));
}

/// The state of a generator after some draws.
pub open spec fn draws(state: u64, n: nat) -> u64
    decreases n,
{
    if n == 0 {
        state
    } else {
        xorshift(draws(state, (n - 1) as nat))
    }
}

/// A generator mixes its bits: the next state is that of three shifts, and different states have
/// different next states.
pub proof fn generator_mixes_bits(one: u64, other: u64)
    ensures
        xorshift(one ^ other) == xorshift(one) ^ xorshift(other),
        xorshift(one) == xorshift(other) ==> one == other,
        xorshift(1) == 0x4082_2041,
        xorshift(one) == ({
            let first = one ^ (one << 13);
            let second = first ^ (first >> 7);
            second ^ (second << 17)
        }),
{
    assert((one ^ other) ^ ((one ^ other) << 13) == (one ^ (one << 13)) ^ (other ^ (other << 13)))
        by (bit_vector);
    let a = one ^ (one << 13);
    let b = other ^ (other << 13);
    assert((a ^ b) ^ ((a ^ b) >> 7) == (a ^ (a >> 7)) ^ (b ^ (b >> 7))) by (bit_vector);
    let c = a ^ (a >> 7);
    let d = b ^ (b >> 7);
    assert((c ^ d) ^ ((c ^ d) << 17) == (c ^ (c << 17)) ^ (d ^ (d << 17))) by (bit_vector);
    if xorshift(one) == xorshift(other) && one != other {
        let difference = one ^ other;
        assert(difference != 0) by (bit_vector)
            requires
                one != other,
                difference == one ^ other,
        ;
        lemma_xorshift_nonzero(difference);
        let same = xorshift(one);
        assert(same ^ same == 0) by (bit_vector);
    }
    assert(1u64 ^ (1u64 << 13) == 0x2001) by (bit_vector);
    assert(0x2001u64 ^ (0x2001u64 >> 7) == 0x2041) by (bit_vector);
    assert(0x2041u64 ^ (0x2041u64 << 17) == 0x4082_2041) by (bit_vector);
}

/// A message goes to the place in the order of arrival that its time says, behind those that arrive
/// at the same time. The others keep their order.
pub proof fn messages_are_sorted_in(delayed: Seq<DelayedView>, entry: DelayedView)
    requires
        in_order(delayed),
    ensures
        exists|place: int|
            {
                &&& 0 <= place <= delayed.len()
                &&& with_delayed(delayed, entry) == #[trigger] delayed.take(place) + seq![entry]
                    + delayed.skip(place)
                &&& forall|i: int| 0 <= i < place ==> (#[trigger] delayed[i]).0 <= entry.0
                &&& forall|i: int| place <= i < delayed.len() ==> (#[trigger] delayed[i]).0
                    > entry.0
            },
        in_order(with_delayed(delayed, entry)),
        with_delayed(delayed, entry).to_multiset() == delayed.to_multiset().insert(entry),
{
    let place = arrived(delayed, entry.0) as int;
    lemma_arrived(delayed, entry.0);
    lemma_with_delayed_in_order(delayed, entry);
    assert(with_delayed(delayed, entry) =~= delayed.take(place) + seq![entry] + delayed.skip(
        place,
    ));
    vstd::seq_lib::to_multiset_insert(delayed, place, entry);
}

/// Each message takes draws of its own. The first one decides whether it is lost: then nothing else
/// happens. One that is not lost is delayed by the latency and a jitter of its own, and a further
/// draw decides whether there is a copy, which has a delay of its own.
pub proof fn messages_take_draws(conditioner: ConditionerView, message: MessageView, now: nat)
    requires
        conditioner.wf(),
    ensures
        ({
            let config = conditioner.config;
            let state = conditioner.random;
            let after = conditioned(conditioner, message, now);
            let steps: nat = if config.jitter_ms == 0 {
                0
            } else {
                1
            };
            &&& after.config == config
            &&& after.wf()
            &&& if draws(state, 1) >> 11 < config.packet_loss {
                &&& after.random == draws(state, 1)
                &&& after.delayed == conditioner.delayed
            } else {
                let copied = draws(state, 2 + steps) >> 11 < config.duplicate;
                let at = delivery_time(config, now, draws(state, 2));
                let copy_at = delivery_time(config, now, draws(state, 3 + steps));
                let once = conditioner.delayed.to_multiset().insert((at, message));
                if copied {
                    &&& after.random == draws(state, 2 + 2 * steps)
                    &&& after.delayed.to_multiset() == once.insert((copy_at, message))
                } else {
                    &&& after.random == draws(state, 2 + steps)
                    &&& after.delayed.to_multiset() == once
                }
            }
        }),
{
    let config = conditioner.config;
    let state = conditioner.random;
    let after = conditioned(conditioner, message, now);
    let delayed = conditioner.delayed;
    let steps: nat = if config.jitter_ms == 0 {
        0
    } else {
        1
    };
    reveal_with_fuel(draws, 6);
    let loss_state = xorshift(state);
    lemma_xorshift_nonzero(state);
    if fraction(loss_state) >= config.packet_loss {
        let (offset, jitter_state) = jitter(loss_state, config.jitter_ms);
        lemma_xorshift_nonzero(loss_state);
        lemma_xorshift_nonzero(jitter_state);
        let duplicate_state = xorshift(jitter_state);
        assert(jitter_state == draws(state, 1 + steps));
        assert(duplicate_state == draws(state, 2 + steps));
        let entry = (arrival(config, now, offset), message);
        assert(entry.0 == delivery_time(config, now, draws(state, 2)));
        let (copy_offset, last_state) = jitter(duplicate_state, config.jitter_ms);
        lemma_xorshift_nonzero(duplicate_state);
        assert(last_state == draws(state, 2 + 2 * steps));
        let copy = (arrival(config, now, copy_offset), message);
        assert(copy.0 == delivery_time(config, now, draws(state, 3 + steps)));
        messages_are_sorted_in(delayed, entry);
        messages_are_sorted_in(delayed, copy);
        messages_are_sorted_in(with_delayed(delayed, copy), entry);
        assert(delayed.to_multiset().insert(copy).insert(entry)
            =~= delayed.to_multiset().insert(entry).insert(copy));
    }
}

/// The time at which a message is delivered that comes now, where the jitter is the remainder of a
/// number that was drawn: the latency later, give or take the jitter, and not before now.
pub open spec fn delivery_time(config: LinkConditionerConfig, now: nat, drawn: u64) -> nat {
    let range = config.jitter_ms as int;
    let delay = config.latency_ms + drawn as int % (2 * range + 1) - range;
    if delay > 0 {
        (now + delay * 1_000_000) as nat
    } else {
        now
    }
}

/// The seed of a configuration is used if there is one, and the fallback otherwise. A generator is
/// never seeded with zero, and on a new link nothing is on its way.
pub proof fn seeds_are_used(config: LinkConditionerConfig, fallback_seed: u64)
    ensures
        ({
            let conditioner = new_conditioner(config, fallback_seed);
            &&& conditioner.wf()
            &&& conditioner.config == config
            &&& conditioner.delayed == Seq::<DelayedView>::empty()
            &&& config.seed matches Some(seed) ==> (seed != 0 ==> conditioner.random == seed)
            &&& config.seed is None && fallback_seed != 0 ==> conditioner.random == fallback_seed
        }),
{
}

/// What has arrived is taken and what has not stays, both in their order: the messages are those
/// whose time has come.
pub proof fn arrived_messages_are_taken(delayed: Seq<DelayedView>, now: nat)
    requires
        in_order(delayed),
    ensures
        ({
            let count = arrived(delayed, now) as int;
            &&& delayed.take(count) + delayed.skip(count) == delayed
            &&& delayed.take(count) == delayed.filter(|entry: DelayedView| entry.0 <= now)
            &&& delayed.skip(count) == delayed.filter(|entry: DelayedView| entry.0 > now)
        }),
{
    let count = arrived(delayed, now) as int;
    lemma_arrived(delayed, now);
    let come = |entry: DelayedView| entry.0 <= now;
    let to_come = |entry: DelayedView| entry.0 > now;
    let front = delayed.take(count);
    let back = delayed.skip(count);
    assert(front + back =~= delayed);
    assert forall|i: int| 0 <= i < front.len() implies come(#[trigger] front[i]) && !to_come(
        front[i],
    ) by {
        assert(front[i] == delayed[i]);
    }
    assert forall|i: int| 0 <= i < back.len() implies !come(#[trigger] back[i]) && to_come(
        back[i],
    ) by {
        assert(back[i] == delayed[i + count]);
    }
    lemma_filter_split(front, back, come);
    lemma_filter_split(front, back, to_come);
    lemma_filter_uniform(front, come, true);
    lemma_filter_uniform(back, come, false);
    lemma_filter_uniform(front, to_come, false);
    lemma_filter_uniform(back, to_come, true);
    assert(front + Seq::<DelayedView>::empty() =~= front);
    assert(Seq::<DelayedView>::empty() + back =~= back);
}

proof fn lemma_filter_split(
    front: Seq<DelayedView>,
    back: Seq<DelayedView>,
    keep: spec_fn(DelayedView) -> bool,
)
    ensures
        (front + back).filter(keep) == front.filter(keep) + back.filter(keep),
    decreases back.len(),
{
    reveal(Seq::filter);
    if back.len() == 0 {
        assert(front + back =~= front);
        assert(front.filter(keep) + back.filter(keep) =~= front.filter(keep));
    } else {
        lemma_filter_split(front, back.drop_last(), keep);
        assert((front + back).drop_last() =~= front + back.drop_last());
        assert((front + back).filter(keep) =~= front.filter(keep) + back.filter(keep));
    }
}

proof fn lemma_filter_uniform(
    entries: Seq<DelayedView>,
    keep: spec_fn(DelayedView) -> bool,
    kept: bool,
)
    requires
        forall|i: int| 0 <= i < entries.len() ==> keep(#[trigger] entries[i]) == kept,
    ensures
        entries.filter(keep) == if kept {
            entries
        } else {
            Seq::empty()
        },
    decreases entries.len(),
{
    reveal(Seq::filter);
    if entries.len() > 0 {
        let front = entries.drop_last();
        assert forall|i: int| 0 <= i < front.len() implies keep(#[trigger] front[i]) == kept by {
            assert(front[i] == entries[i]);
        }
        lemma_filter_uniform(front, keep, kept);
        assert(keep(entries[entries.len() - 1]) == kept);
        assert(front.push(entries.last()) =~= entries);
    } else {
        assert(entries.filter(keep) =~= Seq::empty());
        assert(entries =~= Seq::empty());
    }
}

} // verus!
