use renet_core::channel::{ChannelConfig, ChannelError, DefaultChannel, Packet, SendType, SLICE_SIZE};
use renet_core::unreliable::{ReceiveChannelUnreliable, SendChannelUnreliable};

#[test]
fn small_packet() {
    let max_memory: usize = 10000;
    let mut recv = ReceiveChannelUnreliable::new(0, max_memory);
    let mut send = SendChannelUnreliable::new(0, max_memory);

    let message1 = vec![1, 2, 3];
    let message2 = vec![3, 4, 5];

    send.send_message(message1.clone().into());
    send.send_message(message2.clone().into());

    let packets = send.get_messages_to_send();
    for packet in packets {
        let Packet::SmallUnreliable { channel_id: 0, messages } = packet else {
            unreachable!();
        };
        for message in messages {
            recv.process_message(message);
        }
    }

    let new_message1 = recv.receive_message().unwrap();
    let new_message2 = recv.receive_message().unwrap();
    assert!(recv.receive_message().is_none());

    assert_eq!(message1, new_message1);
    assert_eq!(message2, new_message2);

    let packets = send.get_messages_to_send();
    assert!(packets.is_empty());
}

#[test]
fn slice_packet() {
    let max_memory: usize = 10000;
    let current_time: u64 = 0;
    let mut recv = ReceiveChannelUnreliable::new(0, max_memory);
    let mut send = SendChannelUnreliable::new(0, max_memory);

    let message = vec![5; SLICE_SIZE * 3];

    send.send_message(message.clone().into());

    let packets = send.get_messages_to_send();
    for packet in packets {
        let Packet::UnreliableSlice { channel_id: 0, slice } = packet else {
            unreachable!();
        };
        recv.process_slice(slice, current_time);
    }

    let new_message = recv.receive_message().unwrap();
    assert!(recv.receive_message().is_none());

    assert_eq!(message, new_message);

    let packets = send.get_messages_to_send();
    assert!(packets.is_empty());
}

#[test]
fn max_memory() {
    let mut recv = ReceiveChannelUnreliable::new(0, 50);
    let mut send = SendChannelUnreliable::new(0, 40);

    let message = vec![5; 50];

    send.send_message(message.clone().into());
    send.send_message(message.clone().into());

    let packets = send.get_messages_to_send();
    for packet in packets {
        let Packet::SmallUnreliable { channel_id: 0, messages } = packet else {
            unreachable!();
        };

        // Second message was dropped
        assert_eq!(messages.len(), 1);
        for message in messages {
            recv.process_message(message);
        }
    }

    // The processed message was dropped because there was no memory available
    assert!(recv.receive_message().is_none());
}

#[test]
fn slice_packet_fields() {
    let mut send = SendChannelUnreliable::new(3, 10000);
    let message = vec![5u8; 3600];
    send.send_message(message.clone().into());
    let packets = send.get_messages_to_send();
    assert_eq!(packets.len(), 3);
    let mut index: usize = 0;
    for packet in packets {
        let Packet::UnreliableSlice { channel_id: 3, slice } = packet else {
            unreachable!();
        };
        assert_eq!(slice.message_id, 0);
        assert_eq!(slice.slice_index, index);
        assert_eq!(slice.num_slices, 3);
        assert_eq!(slice.payload, message[index * SLICE_SIZE..(index + 1) * SLICE_SIZE].to_vec());
        index += 1;
    }
}

#[test]
fn slice_out_of_order() {
    let mut recv = ReceiveChannelUnreliable::new(0, 10000);
    let mut send = SendChannelUnreliable::new(0, 10000);
    let mut message = vec![0u8; 2500];
    for (i, b) in message.iter_mut().enumerate() {
        *b = (i % 251) as u8;
    }
    send.send_message(message.clone().into());
    let mut slices = Vec::new();
    for packet in send.get_messages_to_send() {
        let Packet::UnreliableSlice { channel_id: 0, slice } = packet else {
            unreachable!();
        };
        slices.push(slice);
    }
    assert_eq!(slices.len(), 3);
    // feed the fragments in reverse order
    while let Some(slice) = slices.pop() {
        recv.process_slice(slice, 7);
    }
    let got = recv.receive_message().unwrap();
    assert_eq!(message, got);
    assert!(recv.error().is_none());
}

#[test]
fn bad_slice_latches_error() {
    let mut recv = ReceiveChannelUnreliable::new(0, 10000);
    let mut send = SendChannelUnreliable::new(0, 10000);
    send.send_message(vec![9u8; 2000].into());
    let mut packets = send.get_messages_to_send();
    let Packet::UnreliableSlice { slice: mut bad, .. } = packets.remove(0) else {
        unreachable!();
    };
    bad.slice_index = 99;
    recv.process_slice(bad, 0);
    assert_eq!(recv.error(), Some(ChannelError::InvalidSliceIndex));
}

#[test]
fn batch_split_at_slice_size() {
    // two messages that together exceed one batch budget go in two batches
    let mut send = SendChannelUnreliable::new(0, 10000);
    send.send_message(vec![1u8; 800].into());
    send.send_message(vec![2u8; 800].into());
    let packets = send.get_messages_to_send();
    assert_eq!(packets.len(), 2);
    for packet in packets {
        let Packet::SmallUnreliable { channel_id: 0, messages } = packet else {
            unreachable!();
        };
        assert_eq!(messages.len(), 1);
    }
}

#[test]
fn default_channel_ids() {
    assert_eq!(u8::from(DefaultChannel::Unreliable), 0);
    assert_eq!(u8::from(DefaultChannel::ReliableUnordered), 1);
    assert_eq!(u8::from(DefaultChannel::ReliableOrdered), 2);
    let config = ChannelConfig {
        channel_id: DefaultChannel::Unreliable.id(),
        max_memory_usage_bytes: 10000,
        send_type: SendType::Unreliable,
    };
    assert_eq!(config.channel_id, 0);
}
