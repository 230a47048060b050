//! The messages that two channel connections exchange, and the channels of the
//! `crossbeam-channel` crate that carry them.
use crate::chunk::chunk;
use crate::transport::StreamRequirements;
use bytes::Bytes;
use crossbeam_channel::{Receiver, Sender};
use vstd::prelude::*;

verus! {

/// `crossbeam_channel::Sender`, the sending side of a channel.
#[verifier::external_type_specification]
#[verifier::external_body]
#[verifier::reject_recursive_types(T)]
pub struct ExSender<T>(crossbeam_channel::Sender<T>);

/// `crossbeam_channel::Receiver`, the receiving side of a channel.
#[verifier::external_type_specification]
#[verifier::external_body]
#[verifier::reject_recursive_types(T)]
pub struct ExReceiver<T>(crossbeam_channel::Receiver<T>);

/// Message type for channel based communication.
#[derive(Debug)]
pub enum ChannelMessage {
    /// Open a new stream with the given requirements.
    StreamOpen { stream_id: u32, requirements: StreamRequirements },
    /// Data for a stream.
    StreamData { stream_id: u32, data: Bytes },
    /// Close a stream.
    StreamClose { stream_id: u32 },
    /// Datagram (unreliable, unordered).
    Datagram(Bytes),
}

/// What a message says.
pub enum MessageView {
    StreamOpen { stream_id: u32, requirements: StreamRequirements },
    StreamData { stream_id: u32, data: Seq<u8> },
    StreamClose { stream_id: u32 },
    Datagram(Seq<u8>),
}

impl View for ChannelMessage {
    type V = MessageView;

    open spec fn view(&self) -> MessageView {
        match self {
            ChannelMessage::StreamOpen { stream_id, requirements } => MessageView::StreamOpen {
                stream_id: *stream_id,
                requirements: *requirements,
            },
            ChannelMessage::StreamData { stream_id, data } => MessageView::StreamData {
                stream_id: *stream_id,
                data: chunk(*data),
            },
            ChannelMessage::StreamClose { stream_id } => MessageView::StreamClose {
                stream_id: *stream_id,
            },
            ChannelMessage::Datagram(data) => MessageView::Datagram(chunk(*data)),
        }
    }
}

impl Clone for ChannelMessage {
    /// A message that says the same.
    fn clone(&self) -> (copy: Self)
        ensures
            copy@ == self@,
    {
        match self {
            ChannelMessage::StreamOpen { stream_id, requirements } => ChannelMessage::StreamOpen {
                stream_id: *stream_id,
                requirements: *requirements,
            },
            ChannelMessage::StreamData { stream_id, data } => ChannelMessage::StreamData {
                stream_id: *stream_id,
                data: data.clone(),
            },
            ChannelMessage::StreamClose { stream_id } => ChannelMessage::StreamClose {
                stream_id: *stream_id,
            },
            ChannelMessage::Datagram(data) => ChannelMessage::Datagram(data.clone()),
        }
    }
}

/// What several messages say.
pub open spec fn message_views(messages: Seq<ChannelMessage>) -> Seq<MessageView> {
    messages.map_values(|message: ChannelMessage| message@)
}

/// The messages that have been put on the channel through a sender, in their order.
pub uninterp spec fn messages_sent(tx: Sender<ChannelMessage>) -> Seq<MessageView>;

/// The messages that have been handed to a sender, in their order, whether they were put on the
/// channel or not.
pub uninterp spec fn messages_offered(tx: Sender<ChannelMessage>) -> Seq<MessageView>;

/// The messages that have been taken off the channel through a receiver, in their order.
pub uninterp spec fn messages_received(rx: Receiver<ChannelMessage>) -> Seq<MessageView>;

/// Whether some messages came when a receiver was asked for those that are on the channel, which
/// got it from one state to another.
pub uninterp spec fn came_off(
    before: Receiver<ChannelMessage>,
    after: Receiver<ChannelMessage>,
    messages: Seq<MessageView>,
) -> bool;

/// Whether what is put on the channel through a sender is taken off it through a receiver.
pub uninterp spec fn messages_lead(
    tx: Sender<ChannelMessage>,
    rx: Receiver<ChannelMessage>,
) -> bool;

/// `crossbeam_channel::unbounded`, which makes a channel. Nothing has gone through it, and the
/// sender leads to the receiver.
#[verifier::external_body]
pub(crate) fn open_channel() -> (ends: (Sender<ChannelMessage>, Receiver<ChannelMessage>))
    ensures
        messages_sent(ends.0) == Seq::<MessageView>::empty(),
        messages_received(ends.1) == Seq::<MessageView>::empty(),
        messages_lead(ends.0, ends.1),
{
    crossbeam_channel::unbounded()
}

/// Whether two senders put messages on the same channel.
pub open spec fn send_alike(one: Sender<ChannelMessage>, other: Sender<ChannelMessage>) -> bool {
    forall|rx: Receiver<ChannelMessage>| #[trigger]
        messages_lead(one, rx) == messages_lead(other, rx)
}

/// Whether two receivers take messages off the same channel.
pub open spec fn receive_alike(
    one: Receiver<ChannelMessage>,
    other: Receiver<ChannelMessage>,
) -> bool {
    forall|tx: Sender<ChannelMessage>| #[trigger]
        messages_lead(tx, one) == messages_lead(tx, other)
}

/// Whether a sender was handed a message, which it has put on the channel or not.
pub open spec fn handed_over(
    before: Sender<ChannelMessage>,
    after: Sender<ChannelMessage>,
    message: MessageView,
    sent: bool,
) -> bool {
    &&& messages_offered(after) == messages_offered(before).push(message)
    &&& messages_sent(after) == if sent {
        messages_sent(before).push(message)
    } else {
        messages_sent(before)
    }
    &&& send_alike(after, before)
}

/// `Sender::try_send`, which is handed a message and puts it on the channel, or puts nothing there
/// and fails. Whether it fails depends on the other side of the channel. The sender still leads
/// where it did.
#[verifier::external_body]
pub(crate) fn send(tx: &mut Sender<ChannelMessage>, message: ChannelMessage) -> (sent: bool)
    ensures
        messages_offered(*final(tx)) == messages_offered(*old(tx)).push(message@),
        messages_sent(*final(tx)) == if sent {
            messages_sent(*old(tx)).push(message@)
        } else {
            messages_sent(*old(tx))
        },
        forall|rx: Receiver<ChannelMessage>| #[trigger]
            messages_lead(*final(tx), rx) == messages_lead(*old(tx), rx),
{
    tx.try_send(message).is_ok()
}

/// `Receiver::try_iter`, which takes the messages off the channel that are on it. Which these are
/// depends on the other side of the channel. The same senders still lead to the receiver.
#[verifier::external_body]
pub(crate) fn receive(rx: &mut Receiver<ChannelMessage>) -> (messages: Vec<ChannelMessage>)
    ensures
        came_off(*old(rx), *final(rx), message_views(messages@)),
        messages_received(*final(rx)) == messages_received(*old(rx)) + message_views(messages@),
        forall|tx: Sender<ChannelMessage>| #[trigger]
            messages_lead(tx, *final(rx)) == messages_lead(tx, *old(rx)),
{
    rx.try_iter().collect()
}

} // verus!
