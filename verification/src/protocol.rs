//! Protocols: which message has which id.
use std::collections::HashMap;
use vstd::prelude::*;

verus! {

broadcast use vstd::std_specs::hash::group_hash_axioms;

/// The messages of a protocol, each a key that stands for its type. The id of a message is its
/// place in the order in which messages were added.
///
/// Client and server agree on all ids if they add the same messages in the same order.
pub struct Protocol {
    messages: Vec<u64>,
    lookup: HashMap<u64, usize>,
}

impl View for Protocol {
    type V = Seq<u64>;

    closed spec fn view(&self) -> Seq<u64> {
        self.messages@
    }
}

/// The place of a message, if it is one of the messages.
pub open spec fn id_in(messages: Seq<u64>, message: u64) -> Option<nat> {
    if messages.contains(message) {
        Some(messages.index_of(message) as nat)
    } else {
        None
    }
}

/// Messages to which those of `more` that are not among them have been added, in their order.
pub open spec fn extended(messages: Seq<u64>, more: Seq<u64>) -> Seq<u64>
    decreases more.len(),
{
    if more.len() == 0 {
        messages
    } else {
        let before = extended(messages, more.drop_last());
        if before.contains(more.last()) {
            before
        } else {
            before.push(more.last())
        }
    }
}

/// The id that an optional number stands for.
pub open spec fn id_value(id: Option<usize>) -> Option<nat> {
    match id {
        Some(id) => Some(id as nat),
        None => None,
    }
}

impl Default for Protocol {
    /// A protocol without messages.
    fn default() -> (protocol: Self)
        ensures
            protocol.wf(),
            protocol@ == Seq::<u64>::empty(),
    {
        Protocol { messages: Vec::new(), lookup: HashMap::new() }
    }
}

impl Protocol {
    /// No message occurs twice, and each is found under its place.
    pub closed spec fn wf(self) -> bool {
        &&& self.messages@.no_duplicates()
        &&& forall|message: u64|
            self.lookup@.contains_key(message) <==> #[trigger] self.messages@.contains(message)
        &&& forall|i: int|
            0 <= i < self.messages@.len() ==> self.lookup@[#[trigger] self.messages@[i]] == i
    }

    /// No message occurs twice.
    pub proof fn messages_are_distinct(&self)
        requires
            self.wf(),
        ensures
            self@.no_duplicates(),
    {
    }

    /// Returns the id of a message, if the protocol has it.
    pub fn message_id(&self, message: u64) -> (id: Option<usize>)
        requires
            self.wf(),
        ensures
            id_value(id) == id_in(self@, message),
    {
        match self.lookup.get(&message) {
            Some(id) => {
                proof {
                    let place = self.messages@.index_of(message);
                    assert(self.messages@.contains(message));
                    assert(self.messages@[place] == message);
                }
                Some(*id)
            },
            None => {
                assert(!self.messages@.contains(message));
                None
            },
        }
    }

    /// Returns whether the protocol has a message.
    pub fn contains(&self, message: u64) -> (contained: bool)
        requires
            self.wf(),
        ensures
            contained == self@.contains(message),
    {
        let contained = self.lookup.contains_key(&message);
        assert(self.lookup@.contains_key(message) <==> self.messages@.contains(message));
        contained
    }

    /// Adds a message, assigning it the next id. A message can be added once.
    pub fn add_message(&mut self, message: u64) -> (id: usize)
        requires
            old(self).wf(),
            !old(self)@.contains(message),
        ensures
            final(self).wf(),
            final(self)@ == old(self)@.push(message),
            id == old(self)@.len(),
    {
        let id: usize = self.messages.len();
        let ghost before = *self;
        self.messages.push(message);
        self.lookup.insert(message, id);
        proof {
            let messages = self.messages@;
            assert forall|other: u64|
                self.lookup@.contains_key(other) <==> #[trigger] messages.contains(other) by {
                if other == message {
                    assert(messages[id as int] == message);
                } else if messages.contains(other) {
                    let place = messages.index_of(other);
                    assert(before.messages@[place] == other);
                    assert(before.messages@.contains(other));
                } else {
                    if before.messages@.contains(other) {
                        let place = before.messages@.index_of(other);
                        assert(messages[place] == other);
                    }
                }
            }
            assert forall|i: int| 0 <= i < messages.len() implies self.lookup@[#[trigger]
            messages[i]] == i by {
                if i < id {
                    assert(before.messages@[i] == messages[i]);
                    assert(before.messages@.contains(messages[i]));
                }
            }
        }
        id
    }

    /// Adds all messages of another protocol that this one does not have, in their order.
    pub fn include_protocol(&mut self, other: &Protocol)
        requires
            old(self).wf(),
        ensures
            final(self).wf(),
            final(self)@ == extended(old(self)@, other@),
    {
        let mut i: usize = 0;
        assert(other.messages@.take(0) =~= Seq::empty());
        while i < other.messages.len()
            invariant
                self.wf(),
                i <= other.messages@.len(),
                self@ == extended(old(self)@, other.messages@.take(i as int)),
            decreases other.messages@.len() - i,
        {
            let message: u64 = other.messages[i];
            assert(other.messages@.take(i + 1).drop_last() =~= other.messages@.take(i as int));
            if !self.contains(message) {
                self.add_message(message);
            }
            i = i + 1;
        }
        assert(other.messages@.take(i as int) =~= other.messages@);
    }
}

/// Messages keep their ids when others are added, and every message that was to be added has one.
pub proof fn extending_keeps_ids(messages: Seq<u64>, more: Seq<u64>)
    requires
        messages.no_duplicates(),
    ensures
        messages.is_prefix_of(extended(messages, more)),
        extended(messages, more).no_duplicates(),
        forall|message: u64| messages.contains(message) ==> #[trigger] id_in(
            extended(messages, more),
            message,
        ) == id_in(messages, message),
        forall|message: u64| #[trigger]
            extended(messages, more).contains(message) <==> messages.contains(message)
                || more.contains(message),
    decreases more.len(),
{
    let all = extended(messages, more);
    if more.len() > 0 {
        let last = more.last();
        let before = extended(messages, more.drop_last());
        extending_keeps_ids(messages, more.drop_last());
        assert forall|message: u64| #[trigger] all.contains(message) <==> messages.contains(message)
            || more.contains(message) by {
            assert(before.contains(message) <==> messages.contains(message)
                || more.drop_last().contains(message));
            if more.contains(message) {
                let place = more.index_of(message);
                if place < more.len() - 1 {
                    assert(more.drop_last()[place] == message);
                }
            }
            if more.drop_last().contains(message) {
                let place = more.drop_last().index_of(message);
                assert(more[place] == message);
            }
            if before.contains(message) {
                let place = before.index_of(message);
                assert(all[place] == message);
            }
            if all.contains(message) {
                let place = all.index_of(message);
                if place < before.len() {
                    assert(before[place] == message);
                }
            }
            assert(more[more.len() - 1] == last);
            if !before.contains(last) {
                assert(all[all.len() - 1] == last);
            }
        }
    }
    assert forall|message: u64| messages.contains(message) implies #[trigger] id_in(all, message)
        == id_in(messages, message) by {
        let place = messages.index_of(message);
        assert(all[place] == message);
        assert(all.index_of(message) == place);
    }
}

/// Protocols to which the same messages were added in the same order give each message the same id.
pub proof fn same_order_same_ids(client: Protocol, server: Protocol)
    requires
        client@ == server@,
    ensures
        forall|message: u64| #[trigger] id_in(client@, message) == id_in(server@, message),
{
}

/// Different messages have different ids.
pub proof fn ids_are_distinct(messages: Seq<u64>, one: u64, other: u64)
    requires
        messages.contains(one),
        messages.contains(other),
        one != other,
    ensures
        id_in(messages, one) != id_in(messages, other),
{
}

/// Adding the messages of a protocol again changes nothing.
pub proof fn extending_twice(messages: Seq<u64>, more: Seq<u64>)
    requires
        messages.no_duplicates(),
    ensures
        extended(extended(messages, more), more) == extended(messages, more),
{
    extending_keeps_ids(messages, more);
    lemma_extended_by_known(extended(messages, more), more);
}

/// Messages that are there are not added.
proof fn lemma_extended_by_known(messages: Seq<u64>, more: Seq<u64>)
    requires
        forall|message: u64| more.contains(message) ==> messages.contains(message),
    ensures
        extended(messages, more) == messages,
    decreases more.len(),
{
    if more.len() > 0 {
        assert forall|message: u64| more.drop_last().contains(message) implies messages.contains(
            message,
        ) by {
            let place = more.drop_last().index_of(message);
            assert(more[place] == message);
            assert(more.contains(message));
        }
        lemma_extended_by_known(messages, more.drop_last());
        assert(more[more.len() - 1] == more.last());
        assert(more.contains(more.last()));
    }
}

/// The id of a message is its place: a message that is there is found under it, and ids are used up
/// from zero on.
pub proof fn ids_are_places(messages: Seq<u64>, message: u64)
    ensures
        id_in(messages, message) matches Some(id) ==> id < messages.len() && messages[id as int]
            == message,
        id_in(messages, message) is Some <==> messages.contains(message),
        messages.no_duplicates() ==> forall|i: int|
            0 <= i < messages.len() ==> id_in(messages, #[trigger] messages[i]) == Some(i as nat),
{
    if messages.no_duplicates() {
        assert forall|i: int| 0 <= i < messages.len() implies id_in(messages, #[trigger] messages[i])
            == Some(i as nat) by {
            assert(messages.contains(messages[i]));
            let place = messages.index_of(messages[i]);
            assert(messages[place] == messages[i]);
        }
    }
}

/// New messages get the next ids, in the order in which they are added.
pub proof fn new_messages_get_next_ids(messages: Seq<u64>, more: Seq<u64>)
    requires
        more.no_duplicates(),
        forall|i: int| 0 <= i < more.len() ==> !messages.contains(#[trigger] more[i]),
    ensures
        extended(messages, more) == messages + more,
    decreases more.len(),
{
    if more.len() > 0 {
        let front = more.drop_last();
        assert forall|i: int| 0 <= i < front.len() implies !messages.contains(#[trigger] front[i]) by {
            assert(front[i] == more[i]);
        }
        assert(front.no_duplicates()) by {
            assert forall|i: int, j: int|
                0 <= i < front.len() && 0 <= j < front.len() && i != j implies front[i]
                != front[j] by {
                assert(more[i] != more[j]);
            }
        }
        new_messages_get_next_ids(messages, front);
        let before = messages + front;
        assert(more[more.len() - 1] == more.last());
        assert(!before.contains(more.last())) by {
            if before.contains(more.last()) {
                let place = before.index_of(more.last());
                if place < messages.len() {
                    assert(messages[place] == more.last());
                } else {
                    assert(more[place - messages.len()] == more[more.len() - 1]);
                }
            }
        }
        assert(before.push(more.last()) =~= messages + more);
    } else {
        assert(messages + more =~= messages);
    }
}

} // verus!
