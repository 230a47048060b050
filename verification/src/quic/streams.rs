//! Reading, writing and accepting streams of a QUIC connection as far as that is possible.
use super::engine::{
    accept_stream, engine, read_stream, status, write_stream, EngineView, StreamRead,
    StreamWrite,
};
use crate::chunk::{as_slice, chunk};
use bytes::Bytes;
use quinn_proto::Connection;
use vstd::prelude::*;

verus! {

/// Whether a connection is as before, but for a stream of which all has been read, with its end if
/// it is over.
pub open spec fn drained(before: EngineView, after: EngineView, id: u64) -> bool {
    &&& after == (EngineView {
        unread: after.unread,
        closed: if before.over.contains(id) {
            before.closed.insert(id)
        } else {
            before.closed
        },
        ..before
    })
    &&& after.unread_on(id).len() == 0
    &&& forall|other: u64| other != id ==> #[trigger] after.unread_on(other) == before.unread_on(
        other,
    )
}

/// Reads all that has been received on a stream.
pub(crate) fn read_all(connection: &mut Connection, id: u64) -> (data: Vec<u8>)
    requires
        engine(*old(connection)).recv_ids.contains(id),
        !engine(*old(connection)).unordered.contains(id),
    ensures
        data@ == engine(*old(connection)).unread_on(id),
        drained(
            engine(*old(connection)),
            engine(*final(connection)),
            id,
        ),
        status(*final(connection)).sends_as(status(*old(connection))),
{
    let mut data: Vec<u8> = Vec::new();
    let ghost before = engine(*connection);
    let ghost unread = before.unread_on(id);
    assert(unread.take(0) =~= Seq::empty());
    assert(unread.skip(0) =~= unread);
    loop
        invariant
            before == engine(*old(connection)),
            unread == before.unread_on(id),
            before.recv_ids.contains(id),
            !before.unordered.contains(id),
            data@.len() <= unread.len(),
            data@ == unread.take(data@.len() as int),
            engine(*connection) == before || engine(
                *connection,
            ) == (EngineView {
                unread: before.unread.insert(id, unread.skip(data@.len() as int)),
                ..before
            }),
            engine(*connection).unread_on(id) == unread.skip(
                data@.len() as int,
            ),
            status(*connection).sends_as(status(*old(connection))),
        decreases unread.len() - data@.len(),
    {
        let ghost current = engine(*connection);
        match read_stream(connection, id, usize::MAX, true) {
            StreamRead::Chunk { offset: _, data: piece } => {
                let ghost taken = data@.len() as int;
                data.extend_from_slice(as_slice(&piece));
                proof {
                    let len = chunk(piece).len() as int;
                    assert(data@ =~= unread.take(taken + len));
                    assert(unread.skip(taken).skip(len) =~= unread.skip(taken + len));
                    assert(current.unread.insert(id, unread.skip(taken + len))
                        =~= before.unread.insert(id, unread.skip(taken + len)));
                }
            },
            _ => {
                proof {
                    assert(data@ =~= unread);
                    if before.closed.contains(id) {
                        assert(before.closed.insert(id) =~= before.closed);
                    }
                }
                return data;
            },
        }
    }
}

/// Whether a stream was opened, and then asked to take data.
pub open spec fn opened_with(
    before: EngineView,
    after: EngineView,
    id: u64,
    bidirectional: bool,
    data: Seq<u8>,
) -> bool {
    &&& before.unused(id)
    &&& exists|opened: Connection|
        #![trigger engine(opened)]
        engine(opened) == before.opened(id, bidirectional) && after == engine(opened).write_asked(
            status(opened),
            id,
            data,
        )
}

/// Whether a stream was opened, and then asked to take data, which came to a result.
pub open spec fn opened_giving(
    before: EngineView,
    after: EngineView,
    id: u64,
    bidirectional: bool,
    data: Seq<u8>,
    written: StreamWrite,
) -> bool {
    &&& before.unused(id)
    &&& exists|opened: Connection|
        #![trigger engine(opened)]
        engine(opened) == before.opened(id, bidirectional) && engine(opened).write_gives(
            status(opened),
            id,
            data.len(),
            written,
        ) && after == engine(opened).write_asked(status(opened), id, data)
}

/// Writes data on a stream, as far as it can be written.
pub(crate) fn write_what_fits(connection: &mut Connection, id: u64, data: &Bytes)
    requires
        engine(*old(connection)).send_ids.contains(id),
    ensures
        engine(*final(connection)) == engine(*old(connection)).write_asked(
            status(*old(connection)),
            id,
            chunk(*data),
        ),
{
    let _ = write_stream(connection, id, as_slice(data));
}

/// What is read of the stream at a place when streams are read one after the other: what it has
/// received, unless it has been read before.
pub open spec fn share_of(before: EngineView, ids: Seq<u64>, i: int) -> Seq<u8> {
    if ids.take(i).contains(ids[i]) {
        Seq::empty()
    } else {
        before.unread_on(ids[i])
    }
}

/// Whether all that some streams have received has been read, and nothing else.
pub open spec fn read_out(before: EngineView, after: EngineView, ids: Seq<u64>) -> bool {
    forall|id: u64| #[trigger]
        after.unread_on(id) == if ids.contains(id) {
            Seq::empty()
        } else {
            before.unread_on(id)
        }
}

/// Reading one more stream reads it out.
pub proof fn lemma_read_out(
    before: EngineView,
    middle: EngineView,
    after: EngineView,
    ids: Seq<u64>,
    n: int,
)
    requires
        0 <= n < ids.len(),
        read_out(before, middle, ids.take(n)),
        drained(middle, after, ids[n]),
    ensures
        middle.unread_on(ids[n]) == share_of(before, ids, n),
        read_out(before, after, ids.take(n + 1)),
{
    let id = ids[n];
    assert(middle.unread_on(id) == share_of(before, ids, n));
    assert forall|other: u64| #[trigger]
        after.unread_on(other) == if ids.take(n + 1).contains(other) {
            Seq::empty()
        } else {
            before.unread_on(other)
        } by {
        let front = ids.take(n);
        let longer = ids.take(n + 1);
        assert(longer =~= front.push(id));
        if other == id {
            assert(longer[n] == other);
            assert(after.unread_on(other) =~= Seq::empty());
        } else {
            assert(after.unread_on(other) == middle.unread_on(other));
            if front.contains(other) {
                let place = front.index_of(other);
                assert(longer[place] == other);
            }
            if longer.contains(other) {
                let place = longer.index_of(other);
                assert(front[place] == other);
            }
        }
    }
}

/// Whether nothing but the streams that wait and those that are known is different.
pub open spec fn only_accepted(before: EngineView, after: EngineView) -> bool {
    after == (EngineView {
        send_ids: after.send_ids,
        recv_ids: after.recv_ids,
        uni_waiting: after.uni_waiting,
        bi_waiting: after.bi_waiting,
        over: after.over,
        ..before
    })
}

/// What accepting all waiting streams of a direction does.
pub open spec fn all_accepted(before: EngineView, after: EngineView, bidirectional: bool) -> bool {
    &&& after.waiting(bidirectional) == Seq::<u64>::empty()
    &&& after.waiting(!bidirectional) == before.waiting(!bidirectional)
    &&& only_accepted(before, after)
    &&& after.recv_ids == before.recv_ids.union(before.waiting(bidirectional).to_set())
    &&& after.send_ids == if bidirectional {
        before.send_ids.union(before.waiting(bidirectional).to_set())
    } else {
        before.send_ids
    }
    &&& forall|id: u64|
        !before.waiting(bidirectional).contains(id) ==> #[trigger] after.over.contains(id)
            == before.over.contains(id)
    &&& forall|i: int|
        0 <= i < before.waiting(bidirectional).len() ==> {
            let id = #[trigger] before.waiting(bidirectional)[i];
            &&& after.recv_ids.contains(id)
            &&& !after.unordered.contains(id)
            &&& bidirectional ==> after.send_ids.contains(id)
        }
}

/// What accepting all waiting streams of both directions does.
pub open spec fn both_accepted(before: EngineView, after: EngineView) -> bool {
    let uni = before.uni_waiting;
    let bi = before.bi_waiting;
    &&& after.uni_waiting == Seq::<u64>::empty()
    &&& after.bi_waiting == Seq::<u64>::empty()
    &&& only_accepted(before, after)
    &&& after.recv_ids == before.recv_ids.union(uni.to_set()).union(bi.to_set())
    &&& after.send_ids == before.send_ids.union(bi.to_set())
    &&& forall|id: u64|
        !uni.contains(id) && !bi.contains(id) ==> #[trigger] after.over.contains(id)
            == before.over.contains(id)
}

/// Whether all that some streams have received has been read, with their ends if they are over, and
/// nothing else was done.
pub open spec fn read_through(before: EngineView, after: EngineView, ids: Seq<u64>) -> bool {
    &&& after == (EngineView { unread: after.unread, closed: after.closed, ..before })
    &&& read_out(before, after, ids)
    &&& forall|id: u64| #[trigger]
        after.closed.contains(id) <==> before.closed.contains(id) || ids.contains(id)
            && before.over.contains(id)
}

/// Reading one more stream reads it through.
pub proof fn lemma_read_through(
    before: EngineView,
    middle: EngineView,
    after: EngineView,
    ids: Seq<u64>,
    n: int,
)
    requires
        0 <= n < ids.len(),
        read_through(before, middle, ids.take(n)),
        drained(middle, after, ids[n]),
    ensures
        middle.unread_on(ids[n]) == share_of(before, ids, n),
        read_through(before, after, ids.take(n + 1)),
{
    lemma_read_out(before, middle, after, ids, n);
    let front = ids.take(n);
    let longer = ids.take(n + 1);
    assert forall|id: u64| #[trigger]
        after.closed.contains(id) <==> before.closed.contains(id) || longer.contains(id)
            && before.over.contains(id) by {
        if front.contains(id) {
            assert(longer[front.index_of(id)] == id);
        }
        if longer.contains(id) && id != ids[n] {
            assert(front[longer.index_of(id)] == id);
        }
        assert(longer[n] == ids[n]);
    }
}

/// Accepts all waiting streams of a direction.
pub(crate) fn accept_all(connection: &mut Connection, bidirectional: bool) -> (ids: Vec<u64>)
    ensures
        ids@ == engine(*old(connection)).waiting(bidirectional),
        all_accepted(engine(*old(connection)), engine(*final(connection)), bidirectional),
        status(*final(connection)).sends_as(status(*old(connection))),
{
    let ghost before = engine(*connection);
    let ghost waiting = before.waiting(bidirectional);
    let mut ids: Vec<u64> = Vec::new();
    proof {
        assert(waiting.take(0) =~= Seq::empty());
        assert(waiting.skip(0) =~= waiting);
        assert(ids@.to_set() =~= Set::empty());
        assert(before.recv_ids.union(Set::empty()) =~= before.recv_ids);
        assert(before.send_ids.union(Set::empty()) =~= before.send_ids);
    }
    loop
        invariant
            before == engine(*old(connection)),
            waiting == before.waiting(bidirectional),
            ids@.len() <= waiting.len(),
            ids@ == waiting.take(ids@.len() as int),
            engine(*connection).waiting(bidirectional) == waiting.skip(ids@.len() as int),
            engine(*connection).waiting(!bidirectional) == before.waiting(!bidirectional),
            only_accepted(before, engine(*connection)),
            status(*connection).sends_as(status(*old(connection))),
            engine(*connection).recv_ids == before.recv_ids.union(ids@.to_set()),
            engine(*connection).send_ids == if bidirectional {
                before.send_ids.union(ids@.to_set())
            } else {
                before.send_ids
            },
            forall|id: u64|
                !ids@.contains(id) ==> #[trigger] engine(*connection).over.contains(id)
                    == before.over.contains(id),
            forall|i: int|
                0 <= i < ids@.len() ==> {
                    let id = #[trigger] waiting[i];
                    &&& engine(*connection).recv_ids.contains(id)
                    &&& !before.unordered.contains(id)
                    &&& bidirectional ==> engine(*connection).send_ids.contains(id)
                },
        decreases waiting.len() - ids@.len(),
    {
        match accept_stream(&mut *connection, bidirectional) {
            None => {
                assert(ids@ =~= waiting);
                assert(engine(*connection).waiting(bidirectional) =~= Seq::empty());
                return ids;
            },
            Some(id) => {
                let ghost count = ids@.len() as int;
                let ghost accepted = ids@;
                ids.push(id);
                proof {
                    assert forall|other: u64| #[trigger] ids@.contains(other) <==>
                        accepted.contains(other) || other == id by {
                        if accepted.contains(other) {
                            assert(ids@[accepted.index_of(other)] == other);
                        }
                        if other == id {
                            assert(ids@[count] == other);
                        }
                        if ids@.contains(other) && other != id {
                            assert(accepted[ids@.index_of(other)] == other);
                        }
                    }
                    assert(ids@.to_set() =~= accepted.to_set().insert(id));
                    assert(before.recv_ids.union(ids@.to_set()) =~= before.recv_ids.union(
                        accepted.to_set(),
                    ).insert(id));
                    assert(before.send_ids.union(ids@.to_set()) =~= before.send_ids.union(
                        accepted.to_set(),
                    ).insert(id));
                }
                assert(ids@ =~= waiting.take(count + 1));
                assert(waiting.skip(count).skip(1) =~= waiting.skip(count + 1));
            },
        }
    }
}

/// Accepting the streams of a direction leaves none of them waiting: each can be read from then on,
/// and be written if it has both directions. Those of the other direction wait still.
pub proof fn accepted_streams_are_known(
    before: EngineView,
    after: EngineView,
    bidirectional: bool,
    id: u64,
)
    requires
        all_accepted(before, after, bidirectional),
    ensures
        bidirectional ==> after.bi_waiting.len() == 0 && after.uni_waiting == before.uni_waiting,
        !bidirectional ==> after.uni_waiting.len() == 0 && after.bi_waiting == before.bi_waiting,
        after.recv_ids.contains(id) <==> before.recv_ids.contains(id) || if bidirectional {
            before.bi_waiting.contains(id)
        } else {
            before.uni_waiting.contains(id)
        },
        after.send_ids.contains(id) <==> before.send_ids.contains(id) || bidirectional
            && before.bi_waiting.contains(id),
        after.unread == before.unread,
        after.sent == before.sent,
{
}

} // verus!
