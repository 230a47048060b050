//! The streams that a peer has opened, and that are open.
use super::engine::engine;
use super::streams::{accept_all, both_accepted};
use quinn_proto::Connection;
use std::collections::{HashSet, VecDeque};
use vstd::prelude::*;

verus! {

broadcast use vstd::std_specs::hash::group_hash_axioms;

/// What has become of a stream.
#[derive(Clone, Copy, Debug, PartialEq, Eq, Structural)]
pub enum StreamEventType {
    NewSendStream,
    NewRecvStream,
}

/// Something that happened to a stream.
#[derive(Clone, Copy, Debug, PartialEq, Eq, Structural)]
pub struct PeerStreamEvent {
    pub stream_id: u64,
    pub peer_generated: bool,
    pub event_type: StreamEventType,
}

/// The open streams of a connection, and what happened to them.
pub struct PeerStreams {
    pub stream_events: VecDeque<PeerStreamEvent>,
    pub open_send_streams: HashSet<u64>,
    pub open_recv_streams: HashSet<u64>,
}

/// The event of a new stream of the peer.
pub open spec fn new_stream_event(id: u64, event_type: StreamEventType) -> PeerStreamEvent {
    PeerStreamEvent { stream_id: id, peer_generated: true, event_type }
}

/// The events of new unidirectional streams.
pub open spec fn uni_events(ids: Seq<u64>) -> Seq<PeerStreamEvent> {
    ids.map_values(|id: u64| new_stream_event(id, StreamEventType::NewRecvStream))
}

/// The events of new bidirectional streams, which are new in both directions.
pub open spec fn bi_events(ids: Seq<u64>) -> Seq<PeerStreamEvent>
    decreases ids.len(),
{
    if ids.len() == 0 {
        Seq::empty()
    } else {
        bi_events(ids.drop_last()).push(
            new_stream_event(ids.last(), StreamEventType::NewRecvStream),
        ).push(new_stream_event(ids.last(), StreamEventType::NewSendStream))
    }
}

impl PeerStreams {
    /// No streams.
    pub fn new() -> (streams: Self)
        ensures
            streams.stream_events@ == Seq::<PeerStreamEvent>::empty(),
            streams.open_send_streams@ == Set::<u64>::empty(),
            streams.open_recv_streams@ == Set::<u64>::empty(),
    {
        PeerStreams {
            stream_events: VecDeque::new(),
            open_send_streams: HashSet::new(),
            open_recv_streams: HashSet::new(),
        }
    }

    /// Accepts all streams that the peer has opened: unidirectional ones can be received,
    /// bidirectional ones can be received and sent.
    pub fn accept_streams(&mut self, connection: &mut Connection)
        ensures
            both_accepted(engine(*old(connection)), engine(*final(connection))),
            ({
                let held = engine(*old(connection));
                &&& final(self).stream_events@ == old(self).stream_events@ + uni_events(
                    held.uni_waiting,
                ) + bi_events(held.bi_waiting)
                &&& final(self).open_recv_streams@ == old(self).open_recv_streams@.union(
                    held.uni_waiting.to_set(),
                ).union(held.bi_waiting.to_set())
                &&& final(self).open_send_streams@ == old(self).open_send_streams@.union(
                    held.bi_waiting.to_set(),
                )
            }),
    {
        let ghost held = engine(*connection);
        let ghost events = self.stream_events@;
        let ghost recv = self.open_recv_streams@;
        let ghost send = self.open_send_streams@;
        let uni = accept_all(connection, false);
        let mut i: usize = 0;
        proof {
            assert(uni@.take(0).to_set() =~= Set::empty());
            assert(recv.union(uni@.take(0).to_set()) =~= recv);
            assert(events + uni_events(uni@.take(0)) =~= events);
        }
        while i < uni.len()
            invariant
                i <= uni@.len(),
                self.open_send_streams@ == send,
                self.open_recv_streams@ == recv.union(uni@.take(i as int).to_set()),
                self.stream_events@ == events + uni_events(uni@.take(i as int)),
            decreases uni@.len() - i,
        {
            let ghost open = self.open_recv_streams@;
            let ghost so_far = self.stream_events@;
            let stream_id: u64 = uni[i];
            self.open_recv_streams.insert(stream_id);
            self.stream_events.push_back(
                PeerStreamEvent {
                    stream_id,
                    peer_generated: true,
                    event_type: StreamEventType::NewRecvStream,
                },
            );
            proof {
                let more = uni@.take(i + 1);
                assert(more =~= uni@.take(i as int).push(stream_id));
                lemma_push_to_set(uni@.take(i as int), stream_id);
                assert(self.open_recv_streams@ =~= recv.union(more.to_set()));
                assert(self.stream_events@ =~= events + uni_events(more));
            }
            i = i + 1;
        }
        assert(uni@.take(i as int) =~= uni@);
        let ghost with_uni = self.stream_events@;
        let ghost recv_uni = self.open_recv_streams@;
        let bi = accept_all(connection, true);
        let mut k: usize = 0;
        proof {
            assert(bi@.take(0) =~= Seq::empty());
            assert(bi@.take(0).to_set() =~= Set::empty());
            assert(recv_uni.union(bi@.take(0).to_set()) =~= recv_uni);
            assert(send.union(bi@.take(0).to_set()) =~= send);
            assert(with_uni + bi_events(bi@.take(0)) =~= with_uni);
        }
        while k < bi.len()
            invariant
                k <= bi@.len(),
                self.open_send_streams@ == send.union(bi@.take(k as int).to_set()),
                self.open_recv_streams@ == recv_uni.union(bi@.take(k as int).to_set()),
                self.stream_events@ == with_uni + bi_events(bi@.take(k as int)),
            decreases bi@.len() - k,
        {
            let stream_id: u64 = bi[k];
            self.open_recv_streams.insert(stream_id);
            self.open_send_streams.insert(stream_id);
            self.stream_events.push_back(
                PeerStreamEvent {
                    stream_id,
                    peer_generated: true,
                    event_type: StreamEventType::NewRecvStream,
                },
            );
            self.stream_events.push_back(
                PeerStreamEvent {
                    stream_id,
                    peer_generated: true,
                    event_type: StreamEventType::NewSendStream,
                },
            );
            proof {
                let more = bi@.take(k + 1);
                assert(more =~= bi@.take(k as int).push(stream_id));
                assert(more.drop_last() =~= bi@.take(k as int));
                lemma_push_to_set(bi@.take(k as int), stream_id);
                assert(self.open_recv_streams@ =~= recv_uni.union(more.to_set()));
                assert(self.open_send_streams@ =~= send.union(more.to_set()));
                assert(self.stream_events@ =~= with_uni + bi_events(more));
            }
            k = k + 1;
        }
        assert(bi@.take(k as int) =~= bi@);
    }
}

/// The elements of a sequence with one more.
proof fn lemma_push_to_set(elements: Seq<u64>, last: u64)
    ensures
        elements.push(last).to_set() == elements.to_set().insert(last),
{
    let more = elements.push(last);
    assert forall|element: u64| more.to_set().contains(element) == elements.to_set().insert(
        last,
    ).contains(element) by {
        if elements.contains(element) {
            let place = elements.index_of(element);
            assert(more[place] == element);
        }
        if element == last {
            assert(more[elements.len() as int] == element);
        }
        if more.contains(element) && element != last {
            let place = more.index_of(element);
            assert(elements[place] == element);
        }
    }
    assert(more.to_set() =~= elements.to_set().insert(last));
}

/// Each new stream of the peer gives its events, in the order of the streams: a unidirectional one
/// that it can be received, a bidirectional one that it can be received, then that it can be sent.
pub proof fn new_streams_give_events(ids: Seq<u64>)
    ensures
        uni_events(ids).len() == ids.len(),
        bi_events(ids).len() == 2 * ids.len(),
        forall|i: int|
            0 <= i < ids.len() ==> #[trigger] uni_events(ids)[i] == (PeerStreamEvent {
                stream_id: ids[i],
                peer_generated: true,
                event_type: StreamEventType::NewRecvStream,
            }),
        forall|i: int|
            0 <= i < ids.len() ==> bi_events(ids)[2 * i] == (PeerStreamEvent {
                stream_id: #[trigger] ids[i],
                peer_generated: true,
                event_type: StreamEventType::NewRecvStream,
            }) && bi_events(ids)[2 * i + 1] == (PeerStreamEvent {
                stream_id: ids[i],
                peer_generated: true,
                event_type: StreamEventType::NewSendStream,
            }),
    decreases ids.len(),
{
    if ids.len() > 0 {
        let front = ids.drop_last();
        new_streams_give_events(front);
        assert forall|i: int| 0 <= i < ids.len() implies bi_events(ids)[2 * i] == (PeerStreamEvent {
            stream_id: #[trigger] ids[i],
            peer_generated: true,
            event_type: StreamEventType::NewRecvStream,
        }) && bi_events(ids)[2 * i + 1] == (PeerStreamEvent {
            stream_id: ids[i],
            peer_generated: true,
            event_type: StreamEventType::NewSendStream,
        }) by {
            if i < front.len() {
                assert(front[i] == ids[i]);
            }
        }
    }
}

} // verus!
