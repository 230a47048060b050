//! Turning the messages that have come into values.
use crate::reader::{waiting, MessageStreamReaders};
use std::collections::VecDeque;
use vstd::prelude::*;

verus! {

/// The values of one type of message that have come, oldest first.
pub struct ReceivedMessages<T> {
    messages: VecDeque<T>,
}

impl<T> View for ReceivedMessages<T> {
    type V = Seq<T>;

    closed spec fn view(&self) -> Seq<T> {
        self.messages@
    }
}

impl<T> Default for ReceivedMessages<T> {
    /// No values.
    fn default() -> (received: Self)
        ensures
            received@ == Seq::<T>::empty(),
    {
        ReceivedMessages { messages: VecDeque::new() }
    }
}

/// The values among some outcomes, in their order.
pub open spec fn values<T>(outcomes: Seq<Option<T>>) -> Seq<T>
    decreases outcomes.len(),
{
    if outcomes.len() == 0 {
        Seq::empty()
    } else {
        match outcomes.last() {
            Some(value) => values(outcomes.drop_last()).push(value),
            None => values(outcomes.drop_last()),
        }
    }
}

/// Each message has been given to `decode`, which returned the outcome at its place.
pub open spec fn decoded<T, F: Fn(&Vec<u8>) -> Option<T>>(
    decode: F,
    messages: Seq<Seq<u8>>,
    outcomes: Seq<Option<T>>,
) -> bool {
    &&& outcomes.len() == messages.len()
    &&& forall|i: int|
        0 <= i < messages.len() ==> #[trigger] decoded_one(decode, messages[i], outcomes[i])
}

/// A message with these bytes has been given to `decode`, which returned the outcome.
pub open spec fn decoded_one<T, F: Fn(&Vec<u8>) -> Option<T>>(
    decode: F,
    message: Seq<u8>,
    outcome: Option<T>,
) -> bool {
    exists|bytes: &Vec<u8>| bytes@ == message && #[trigger] decode.ensures((bytes,), outcome)
}

impl<T> ReceivedMessages<T> {
    /// Takes all values.
    pub fn drain(&mut self) -> (messages: Vec<T>)
        ensures
            messages@ == old(self)@,
            final(self)@ == Seq::<T>::empty(),
    {
        let ghost all = self.messages@;
        let mut messages: Vec<T> = Vec::new();
        assert(messages@ + self.messages@ =~= all);
        loop
            invariant
                all == old(self).messages@,
                messages@ + self.messages@ == all,
            decreases self.messages@.len(),
        {
            match self.messages.pop_front() {
                None => {
                    assert(messages@ =~= all);
                    return messages;
                },
                Some(message) => {
                    messages.push(message);
                    assert(messages@ + self.messages@ =~= all);
                },
            }
        }
    }

    /// Takes the oldest value.
    pub fn next(&mut self) -> (message: Option<T>)
        ensures
            match message {
                Some(message) => old(self)@.len() > 0 && message == old(self)@[0] && final(self)@
                    == old(self)@.skip(1),
                None => old(self)@.len() == 0 && final(self)@ == old(self)@,
            },
    {
        let message = self.messages.pop_front();
        assert(message is Some ==> self.messages@ =~= old(self).messages@.skip(1));
        message
    }

    /// Adds a value behind the others.
    pub fn push(&mut self, message: T)
        ensures
            final(self)@ == old(self)@.push(message),
    {
        self.messages.push_back(message);
    }

    /// Decodes all waiting messages that have an id. Those that cannot be decoded are dropped.
    pub fn deserialize<S, F: Fn(&Vec<u8>) -> Option<T>>(
        &mut self,
        readers: &mut MessageStreamReaders<S>,
        id: u64,
        decode: F,
    )
        requires
            forall|bytes: &Vec<u8>| #[trigger] decode.requires((bytes,)),
        ensures
            final(readers).readers == old(readers).readers,
            waiting(final(readers).messages(), id) == Seq::<Seq<u8>>::empty(),
            forall|other: u64|
                other != id ==> #[trigger] waiting(final(readers).messages(), other) == waiting(
                    old(readers).messages(),
                    other,
                ),
            exists|outcomes: Seq<Option<T>>| #[trigger]
                decoded(decode, waiting(old(readers).messages(), id), outcomes) && final(self)@
                    == old(self)@ + values(outcomes),
    {
        let ghost messages = waiting(readers.messages(), id);
        let ghost mut outcomes: Seq<Option<T>> = Seq::empty();
        let ghost mut n: int = 0;
        proof {
            assert(messages.skip(0) =~= messages);
            assert(self@ + values(outcomes) =~= self@);
        }
        loop
            invariant
                0 <= n <= messages.len(),
                messages == waiting(old(readers).messages(), id),
                readers.readers == old(readers).readers,
                waiting(readers.messages(), id) == messages.skip(n),
                forall|other: u64|
                    other != id ==> #[trigger] waiting(readers.messages(), other) == waiting(
                        old(readers).messages(),
                        other,
                    ),
                forall|bytes: &Vec<u8>| #[trigger] decode.requires((bytes,)),
                decoded(decode, messages.take(n), outcomes),
                self@ == old(self)@ + values(outcomes),
            decreases messages.len() - n,
        {
            let ghost waiting_before = readers.messages();
            match readers.next_message(id) {
                None => {
                    assert(messages.take(n) =~= messages);
                    assert(messages.skip(n) =~= Seq::empty());
                    return ;
                },
                Some(message) => {
                    let outcome = decode(&message);
                    proof {
                        assert forall|other: u64| other != id implies #[trigger] waiting(
                            readers.messages(),
                            other,
                        ) == waiting(old(readers).messages(), other) by {
                            assert(waiting(waiting_before, other) == waiting(
                                old(readers).messages(),
                                other,
                            ));
                        }
                        assert(decode.ensures((&message,), outcome));
                        assert(decoded_one(decode, messages[n], outcome));
                        let more = outcomes.push(outcome);
                        assert(more.drop_last() =~= outcomes);
                        assert forall|i: int| 0 <= i < n + 1 implies #[trigger] decoded_one(
                            decode,
                            messages.take(n + 1)[i],
                            more[i],
                        ) by {
                            if i < n {
                                assert(decoded_one(decode, messages.take(n)[i], outcomes[i]));
                            }
                        }
                        assert(messages.skip(n).skip(1) =~= messages.skip(n + 1));
                        outcomes = more;
                        n = n + 1;
                    }
                    if let Some(value) = outcome {
                        self.messages.push_back(value);
                    }
                    assert(self@ =~= old(self)@ + values(outcomes));
                },
            }
        }
    }
}

/// The values are those of all outcomes that have one, in their order.
pub proof fn values_are_kept<T>(outcomes: Seq<Option<T>>)
    ensures
        values(outcomes) == outcomes.filter(|outcome: Option<T>| outcome is Some).map_values(
            |outcome: Option<T>| outcome->0,
        ),
    decreases outcomes.len(),
{
    reveal(Seq::filter);
    let there = |outcome: Option<T>| outcome is Some;
    let value = |outcome: Option<T>| outcome->0;
    if outcomes.len() > 0 {
        let front = outcomes.drop_last();
        values_are_kept(front);
        assert(outcomes.filter(there).map_values(value) =~= if there(outcomes.last()) {
            front.filter(there).map_values(value).push(value(outcomes.last()))
        } else {
            front.filter(there).map_values(value)
        });
    } else {
        assert(outcomes.filter(there).map_values(value) =~= Seq::empty());
    }
}

/// Where all messages can be decoded there is a value for each of them, in their order.
pub proof fn every_message_has_a_value<T, F: Fn(&Vec<u8>) -> Option<T>>(
    decode: F,
    messages: Seq<Seq<u8>>,
    outcomes: Seq<Option<T>>,
)
    requires
        decoded(decode, messages, outcomes),
        forall|i: int| 0 <= i < outcomes.len() ==> #[trigger] outcomes[i] is Some,
    ensures
        values(outcomes).len() == messages.len(),
        forall|i: int|
            0 <= i < messages.len() ==> decoded_one(
                decode,
                #[trigger] messages[i],
                Some(values(outcomes)[i]),
            ),
{
    lemma_all_values(outcomes);
    assert forall|i: int| 0 <= i < messages.len() implies decoded_one(
        decode,
        #[trigger] messages[i],
        Some(values(outcomes)[i]),
    ) by {
        assert(decoded_one(decode, messages[i], outcomes[i]));
        assert(outcomes[i] == Some(values(outcomes)[i]));
    }
}

proof fn lemma_all_values<T>(outcomes: Seq<Option<T>>)
    requires
        forall|i: int| 0 <= i < outcomes.len() ==> #[trigger] outcomes[i] is Some,
    ensures
        values(outcomes).len() == outcomes.len(),
        forall|i: int|
            0 <= i < outcomes.len() ==> #[trigger] outcomes[i] == Some(values(outcomes)[i]),
    decreases outcomes.len(),
{
    if outcomes.len() > 0 {
        let front = outcomes.drop_last();
        assert forall|i: int| 0 <= i < front.len() implies #[trigger] front[i] is Some by {
            assert(front[i] == outcomes[i]);
        }
        lemma_all_values(front);
        assert(outcomes[outcomes.len() - 1] is Some);
        assert forall|i: int| 0 <= i < outcomes.len() implies #[trigger] outcomes[i] == Some(
            values(outcomes)[i],
        ) by {
            if i < front.len() {
                assert(front[i] == outcomes[i]);
            }
        }
    }
}

} // verus!
