//! Channel-layer configuration, errors, and the on-wire packet variants the
//! unreliable channels emit and consume.

use vstd::prelude::*;
use crate::byte_buf::bytes_view;
use crate::slice_constructor::Slice;

verus! {

/// Largest payload a single slice (message fragment) may carry, in octets;
/// also the payload budget of one batch of small messages.
pub const SLICE_SIZE: usize = 1200;

/// Delivery policy of a channel. Resend times are in milliseconds.
#[derive(Debug, Clone)]
pub enum SendType {
    Unreliable,
    ReliableOrdered { resend_time_millis: u64 },
    ReliableUnordered { resend_time_millis: u64 },
}

/// Default channels used when using the default configuration.
/// Use this enum only when using the default channels configuration.
pub enum DefaultChannel {
    Unreliable,
    ReliableOrdered,
    ReliableUnordered,
}

/// Configuration of one channel.
#[derive(Debug, Clone)]
pub struct ChannelConfig {
    /// Channel identifier, unique between all channels
    pub channel_id: u8,
    /// Maximum number of bytes that the channel may hold.
    /// Unreliable channels will drop new messages when this value is reached;
    /// reliable channels will cause a disconnect when this value is reached.
    pub max_memory_usage_bytes: usize,
    pub send_type: SendType,
}

/// Errors a channel latches while reassembling sliced messages.
#[derive(Debug, Clone, Copy, PartialEq, Eq, Structural)]
pub enum ChannelError {
    /// A slice carried an index at or above its message's slice count.
    InvalidSliceIndex,
    /// A slice payload had the wrong length for its position.
    InvalidSliceLength,
}

/// On-wire packet variants of the channel layer.
#[derive(Debug)]
pub enum Packet {
    /// A batch of whole small messages, each at most `SLICE_SIZE` octets,
    /// totalling at most `SLICE_SIZE` octets of payload.
    SmallUnreliable { channel_id: u8, messages: Vec<bytes::Bytes> },
    /// One fragment of a message larger than `SLICE_SIZE`.
    UnreliableSlice { channel_id: u8, slice: Slice },
}

/// Mathematical view of a channel-layer packet.
pub enum PacketView {
    Small { channel_id: u8, messages: Seq<Seq<u8>> },
    Sliced { channel_id: u8, message_id: u64, slice_index: int, num_slices: int, payload: Seq<u8> },
}

impl View for Packet {
    type V = PacketView;

    open spec fn view(&self) -> PacketView {
        match self {
            Packet::SmallUnreliable { channel_id, messages } => PacketView::Small {
                channel_id: *channel_id,
                messages: messages@.map_values(|b: bytes::Bytes| bytes_view(b)),
            },
            Packet::UnreliableSlice { channel_id, slice } => PacketView::Sliced {
                channel_id: *channel_id,
                message_id: slice.message_id,
                slice_index: slice.slice_index as int,
                num_slices: slice.num_slices as int,
                payload: bytes_view(slice.payload),
            },
        }
    }
}

impl DefaultChannel {
    /// The channel id a default channel stands for.
    pub fn id(self) -> (r: u8)
        ensures
            r == match self {
                DefaultChannel::Unreliable => 0u8,
                DefaultChannel::ReliableUnordered => 1u8,
                DefaultChannel::ReliableOrdered => 2u8,
            },
    {
        match self {
            DefaultChannel::Unreliable => 0,
            DefaultChannel::ReliableUnordered => 1,
            DefaultChannel::ReliableOrdered => 2,
        }
    }
}

impl From<DefaultChannel> for u8 {
    fn from(channel: DefaultChannel) -> (r: u8) {
        channel.id()
    }
}

impl vstd::std_specs::convert::FromSpecImpl<DefaultChannel> for u8 {
    open spec fn obeys_from_spec() -> bool {
        true
    }

    open spec fn from_spec(channel: DefaultChannel) -> u8 {
        match channel {
            DefaultChannel::Unreliable => 0u8,
            DefaultChannel::ReliableUnordered => 1u8,
            DefaultChannel::ReliableOrdered => 2u8,
        }
    }
}

} // verus!
