//! Received datagrams, each of which is read like a stream of its own.
use crate::chunk::chunk;
use crate::transport::StreamReadError;
use bytes::Bytes;
use std::collections::VecDeque;
use vstd::prelude::*;

verus! {

/// A datagram was asked for under a number that no datagram has been given.
#[derive(Clone, Copy, Debug, PartialEq, Eq, Structural)]
pub struct InvalidDatagramError;

/// Received datagrams by number. Those that have been read leave a gap until all before them have
/// been read.
pub struct DatagramQueue {
    /// The number of the first datagram that is kept.
    pub offset: usize,
    pub datagrams: VecDeque<Option<Bytes>>,
}

/// The datagrams that are kept, and the number of the first.
pub struct QueueView {
    pub offset: nat,
    pub slots: Seq<Option<Seq<u8>>>,
}

/// The bytes of a datagram, unless it has been read.
pub open spec fn slot(datagram: Option<Bytes>) -> Option<Seq<u8>> {
    match datagram {
        Some(bytes) => Some(chunk(bytes)),
        None => None,
    }
}

/// The bytes of datagrams, unless they have been read.
pub open spec fn slots(datagrams: Seq<Option<Bytes>>) -> Seq<Option<Seq<u8>>> {
    datagrams.map_values(|datagram: Option<Bytes>| slot(datagram))
}

impl View for DatagramQueue {
    type V = QueueView;

    open spec fn view(&self) -> QueueView {
        QueueView { offset: self.offset as nat, slots: slots(self.datagrams@) }
    }
}

/// The number of gaps at the front.
pub open spec fn leading_gaps(slots: Seq<Option<Seq<u8>>>) -> nat
    decreases slots.len(),
{
    if slots.len() == 0 || slots[0] is Some {
        0
    } else {
        1 + leading_gaps(slots.skip(1))
    }
}

impl QueueView {
    /// All datagrams have a number.
    pub open spec fn wf(self) -> bool {
        self.offset + self.slots.len() <= usize::MAX
    }

    /// The number that the next datagram gets.
    pub open spec fn next_index(self) -> nat {
        self.offset + self.slots.len()
    }

    /// The datagram with a number, unless there is none or it has been read.
    pub open spec fn datagram(self, index: nat) -> Option<Seq<u8>> {
        if self.offset <= index < self.next_index() {
            self.slots[index - self.offset]
        } else {
            None
        }
    }

    /// The queue without the gaps at the front.
    pub open spec fn trimmed(self) -> QueueView {
        let gaps = leading_gaps(self.slots);
        QueueView { offset: self.offset + gaps, slots: self.slots.skip(gaps as int) }
    }

    /// The queue after a datagram has come.
    pub open spec fn pushed(self, datagram: Seq<u8>) -> QueueView {
        QueueView { slots: self.slots.push(Some(datagram)), ..self }
    }

    /// The queue after a datagram has been read.
    pub open spec fn taken(self, index: nat) -> QueueView {
        if self.offset <= index < self.next_index() {
            QueueView { slots: self.slots.update(index - self.offset, None), ..self }.trimmed()
        } else {
            self
        }
    }
}

/// The bytes of a read.
pub open spec fn read_view(
    read: Result<Result<Bytes, StreamReadError>, InvalidDatagramError>,
) -> Result<Result<Seq<u8>, StreamReadError>, InvalidDatagramError> {
    match read {
        Ok(Ok(bytes)) => Ok(Ok(chunk(bytes))),
        Ok(Err(error)) => Ok(Err(error)),
        Err(error) => Err(error),
    }
}

/// What reading a datagram gives: the datagram, once.
pub open spec fn datagram_read(queue: QueueView, index: nat) -> Result<
    Result<Seq<u8>, StreamReadError>,
    InvalidDatagramError,
> {
    if index >= queue.next_index() {
        Err(InvalidDatagramError)
    } else {
        match queue.datagram(index) {
            Some(bytes) => Ok(Ok(bytes)),
            None => Ok(Err(StreamReadError::Closed)),
        }
    }
}

impl DatagramQueue {
    /// All datagrams have a number.
    pub open spec fn wf(self) -> bool {
        self@.wf()
    }

    /// No datagrams.
    pub fn new() -> (queue: Self)
        ensures
            queue.wf(),
            queue@ == (QueueView { offset: 0, slots: Seq::empty() }),
    {
        let queue = DatagramQueue { offset: 0, datagrams: VecDeque::new() };
        assert(queue@.slots =~= Seq::empty());
        queue
    }

    /// Adds a datagram, and returns its number.
    pub fn push(&mut self, datagram: Bytes) -> (index: usize)
        requires
            old(self)@.next_index() < usize::MAX,
        ensures
            final(self).wf(),
            final(self)@ == old(self)@.pushed(chunk(datagram)),
            index == old(self)@.next_index(),
    {
        let index: usize = self.offset + self.datagrams.len();
        self.datagrams.push_back(Some(datagram));
        assert(self@.slots =~= old(self)@.slots.push(Some(chunk(datagram))));
        index
    }

    /// Takes the datagram with a number. One that has been taken is closed.
    pub fn read(&mut self, index: usize) -> (read: Result<
        Result<Bytes, StreamReadError>,
        InvalidDatagramError,
    >)
        requires
            old(self).wf(),
        ensures
            final(self).wf(),
            final(self)@ == old(self)@.taken(index as nat),
            read_view(read) == datagram_read(old(self)@, index as nat),
    {
        if index < self.offset {
            return Ok(Err(StreamReadError::Closed));
        }
        let place: usize = index - self.offset;
        if place >= self.datagrams.len() {
            return Err(InvalidDatagramError);
        }
        let ghost before = self@;
        let ghost queue = self.datagrams@;
        let taken = match self.datagrams.remove(place) {
            Some(taken) => taken,
            None => None,
        };
        self.datagrams.insert(place, None);
        assert(slots(self.datagrams@) =~= before.slots.update(place as int, None));
        let ghost with_gap = self@;
        self.trim();
        assert(self@ == with_gap.trimmed());
        match taken {
            Some(datagram) => Ok(Ok(datagram)),
            None => Ok(Err(StreamReadError::Closed)),
        }
    }

    /// Drops the gaps at the front.
    fn trim(&mut self)
        requires
            old(self).wf(),
        ensures
            final(self).wf(),
            final(self)@ == old(self)@.trimmed(),
    {
        let ghost before = self@;
        let ghost mut gaps: int = 0;
        assert(before.slots.skip(0) =~= before.slots);
        while self.datagrams.len() > 0 && self.datagrams[0].is_none()
            invariant
                self.wf(),
                0 <= gaps <= before.slots.len(),
                self@.offset == before.offset + gaps,
                self@.slots == before.slots.skip(gaps),
                leading_gaps(before.slots) == gaps + leading_gaps(before.slots.skip(gaps)),
                before == old(self)@,
            decreases before.slots.len() - gaps,
        {
            let ghost queue = self.datagrams@;
            assert(before.slots.skip(gaps)[0] == slot(queue[0]));
            assert(before.slots.skip(gaps).skip(1) =~= before.slots.skip(gaps + 1));
            self.datagrams.pop_front();
            assert(slots(self.datagrams@) =~= slots(queue).skip(1));
            self.offset = self.offset + 1;
            proof {
                gaps = gaps + 1;
            }
        }
        proof {
            if self.datagrams@.len() > 0 {
                assert(before.slots.skip(gaps)[0] == slot(self.datagrams@[0]));
            }
        }
    }
}

/// A datagram that has come is read under its number.
pub proof fn pushed_datagram_is_read(queue: QueueView, datagram: Seq<u8>)
    ensures
        datagram_read(queue.pushed(datagram), queue.next_index()) == Ok::<
            _,
            InvalidDatagramError,
        >(Ok::<_, StreamReadError>(datagram)),
        queue.pushed(datagram).next_index() == queue.next_index() + 1,
        forall|other: nat|
            other < queue.next_index() ==> #[trigger] datagram_read(queue.pushed(datagram), other)
                == datagram_read(queue, other),
{
}

/// Reading a datagram takes it: it is closed from then on. No other datagram is affected, nor the
/// number that the next one gets.
pub proof fn read_takes_one_datagram(queue: QueueView, index: nat)
    requires
        index < queue.next_index(),
    ensures
        queue.taken(index).next_index() == queue.next_index(),
        datagram_read(queue.taken(index), index) == Ok::<_, InvalidDatagramError>(
            Err::<Seq<u8>, _>(StreamReadError::Closed),
        ),
        forall|other: nat|
            other != index ==> #[trigger] datagram_read(queue.taken(index), other)
                == datagram_read(queue, other),
{
    if queue.offset <= index {
        let with_gap = QueueView { slots: queue.slots.update(index - queue.offset, None), ..queue };
        lemma_trimmed(with_gap);
        assert forall|other: nat| other != index implies #[trigger] datagram_read(
            queue.taken(index),
            other,
        ) == datagram_read(queue, other) by {
            assert(datagram_read(with_gap, other) == datagram_read(queue, other));
            assert(datagram_read(with_gap.trimmed(), other) == datagram_read(with_gap, other));
        }
        assert(datagram_read(with_gap.trimmed(), index) == datagram_read(with_gap, index));
    }
}

/// Dropping the gaps at the front does not change what is read.
proof fn lemma_trimmed(queue: QueueView)
    ensures
        queue.trimmed().next_index() == queue.next_index(),
        forall|index: nat| #[trigger]
            datagram_read(queue.trimmed(), index) == datagram_read(queue, index),
    decreases queue.slots.len(),
{
    lemma_leading_gaps(queue.slots);
}

/// The gaps at the front are gaps.
proof fn lemma_leading_gaps(slots: Seq<Option<Seq<u8>>>)
    ensures
        leading_gaps(slots) <= slots.len(),
        forall|i: int| 0 <= i < leading_gaps(slots) ==> #[trigger] slots[i] is None,
    decreases slots.len(),
{
    if slots.len() > 0 && slots[0] is None {
        lemma_leading_gaps(slots.skip(1));
        assert forall|i: int| 0 <= i < leading_gaps(slots) implies #[trigger] slots[i] is None by {
            if i > 0 {
                assert(slots.skip(1)[i - 1] == slots[i]);
            }
        }
    }
}

/// Only numbers that no datagram has had yet are invalid. A datagram that has been dropped from the
/// front is closed.
pub proof fn only_future_datagrams_are_invalid(queue: QueueView, index: nat)
    ensures
        datagram_read(queue, index) is Err <==> index >= queue.offset + queue.slots.len(),
        index < queue.offset ==> datagram_read(queue, index) == Ok::<_, InvalidDatagramError>(
            Err::<Seq<u8>, _>(StreamReadError::Closed),
        ),
        queue.offset <= index < queue.offset + queue.slots.len() ==> datagram_read(queue, index)
            == Ok::<_, InvalidDatagramError>(
            match queue.slots[index - queue.offset] {
                Some(bytes) => Ok(bytes),
                None => Err(StreamReadError::Closed),
            },
        ),
        index >= queue.offset + queue.slots.len() ==> queue.taken(index) == queue,
{
}

/// A queue does not keep the places of datagrams that have been read from its front: after a read it
/// is empty or starts with a datagram that has not been read.
pub proof fn read_datagrams_are_dropped(queue: QueueView, index: nat)
    requires
        queue.offset <= index < queue.next_index(),
    ensures
        queue.taken(index).slots.len() > 0 ==> queue.taken(index).slots[0] is Some,
        queue.taken(index).offset >= queue.offset,
        queue.taken(index).slots.len() <= queue.slots.len(),
{
    let with_gap = QueueView { slots: queue.slots.update(index - queue.offset, None), ..queue };
    lemma_leading_gaps(with_gap.slots);
    lemma_gaps_end(with_gap.slots);
}

/// What follows the gaps at the front is no gap.
proof fn lemma_gaps_end(slots: Seq<Option<Seq<u8>>>)
    ensures
        leading_gaps(slots) < slots.len() ==> slots[leading_gaps(slots) as int] is Some,
    decreases slots.len(),
{
    if slots.len() > 0 && slots[0] is None {
        lemma_gaps_end(slots.skip(1));
    }
}

} // verus!
