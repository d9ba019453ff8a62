use rusted_pipe::channels::{untyped_channel, ChannelError, ChannelID, ReceiveErrorKind};
use rusted_pipe::channels::BufferedReadData;
use rusted_pipe::packet::{DataVersion, UntypedPacket};
use rusted_pipe::read_channel::ReadChannel;
use rusted_pipe::write_channel::WriteChannel;

fn string_packet(data: &str, version: DataVersion) -> UntypedPacket {
    UntypedPacket::new(version, data.as_bytes().to_vec())
}

#[test]
fn test_untyped_channel_round_trip() {
    let (sender, receiver) = untyped_channel();
    let version = DataVersion { timestamp: 7 };
    sender.send(string_packet("payload", version)).unwrap();
    let got = receiver.try_receive().unwrap();
    assert_eq!(got.version.timestamp, 7);
    assert_eq!(got.payload, "payload".as_bytes().to_vec());
    // a duplicated endpoint feeds the same queue
    let second = sender.duplicate();
    second
        .send(string_packet("again", DataVersion { timestamp: 8 }))
        .unwrap();
    assert_eq!(receiver.try_receive().unwrap().version.timestamp, 8);
}

#[test]
fn test_try_receive_reports_empty_then_disconnected() {
    let (sender, receiver) = untyped_channel();
    assert_eq!(
        receiver.try_receive().unwrap_err(),
        ChannelError::ReceiveError(ReceiveErrorKind::Empty)
    );
    drop(sender);
    assert_eq!(
        receiver.try_receive().unwrap_err(),
        ChannelError::ReceiveError(ReceiveErrorKind::Disconnected)
    );
}

#[test]
fn test_send_fails_when_receiver_is_gone() {
    let (sender, receiver) = untyped_channel();
    drop(receiver);
    let err = sender
        .send(string_packet("x", DataVersion { timestamp: 1 }))
        .unwrap_err();
    assert!(matches!(err, ChannelError::SendError(_)));
}

#[test]
fn test_buffered_read_data_insert_and_remove() {
    let mut store = BufferedReadData::new();
    let channel = ChannelID::from("a");
    let version = DataVersion { timestamp: 2 };
    assert!(!store.has_version(&channel, &version));
    store.insert(&channel, string_packet("one", version));
    assert!(store.has_version(&channel, &version));
    // a second insert under the same address replaces the packet
    store.insert(&channel, string_packet("two", version));
    let got = store.remove_version(&channel, &version).unwrap();
    assert_eq!(got.payload, "two".as_bytes().to_vec());
    assert!(!store.has_version(&channel, &version));
    assert!(store.remove_version(&channel, &version).is_none());
}

#[test]
fn test_write_channel_fans_out_to_every_queue() {
    let mut write_channel = WriteChannel::new();
    let channel = ChannelID::from("out");
    let (sender_a, receiver_a) = untyped_channel();
    let (sender_b, receiver_b) = untyped_channel();
    write_channel.add_channel(&channel, sender_a);
    write_channel.add_channel(&channel, sender_b);
    let version = DataVersion { timestamp: 3 };
    write_channel
        .write(&channel, &string_packet("fan", version))
        .unwrap();
    assert_eq!(receiver_a.try_receive().unwrap().payload, "fan".as_bytes().to_vec());
    assert_eq!(receiver_b.try_receive().unwrap().payload, "fan".as_bytes().to_vec());

    let missing = ChannelID::from("missing");
    let err = write_channel
        .write(&missing, &string_packet("x", version))
        .unwrap_err();
    assert_eq!(err, ChannelError::MissingChannel(missing));
}

#[test]
fn test_write_channel_keeps_sending_after_one_failure() {
    let mut write_channel = WriteChannel::new();
    let channel = ChannelID::from("out");
    let (sender_dead, receiver_dead) = untyped_channel();
    drop(receiver_dead);
    let (sender_live, receiver_live) = untyped_channel();
    write_channel.add_channel(&channel, sender_dead);
    write_channel.add_channel(&channel, sender_live);
    let version = DataVersion { timestamp: 9 };
    let err = write_channel
        .write(&channel, &string_packet("still", version))
        .unwrap_err();
    assert!(matches!(err, ChannelError::SendError(_)));
    // the live queue still received the packet
    assert_eq!(
        receiver_live.try_receive().unwrap().payload,
        "still".as_bytes().to_vec()
    );
}

#[test]
fn test_read_channel_aligns_two_channels_in_order() {
    // two input channels; versions 1..=100 arrive in a scrambled order on
    // each; the node must observe exactly the tuples 1,2,...,100 in order,
    // each aligned across both channels
    let channel_a = ChannelID::from("a");
    let channel_b = ChannelID::from("b");
    let (sender_a, receiver_a) = untyped_channel();
    let (sender_b, receiver_b) = untyped_channel();
    let mut read_channel = ReadChannel::new(
        vec![channel_a, channel_b],
        vec![receiver_a, receiver_b],
        20,
    );

    let mut observed: Vec<u64> = Vec::new();
    for block in 0..10u64 {
        // a different scramble of each block of ten on each channel
        let mut order_a: Vec<u64> = Vec::new();
        let mut order_b: Vec<u64> = Vec::new();
        for k in 0..10u64 {
            order_a.push(block * 10 + (k * 3 + 1) % 10 + 1);
            order_b.push(block * 10 + (k * 7 + 5) % 10 + 1);
        }
        for ts in order_a {
            sender_a
                .send(string_packet("a", DataVersion { timestamp: ts }))
                .unwrap();
        }
        for ts in order_b {
            sender_b
                .send(string_packet("b", DataVersion { timestamp: ts }))
                .unwrap();
        }
        // let the reader catch up on this block
        for _ in 0..40 {
            if let Some(tuple) = read_channel.read_cycle() {
                assert_eq!(tuple.packets.len(), 2);
                let version = tuple.packets[0].version;
                for packet in &tuple.packets {
                    assert_eq!(packet.version, version);
                }
                observed.push(version.timestamp);
            }
        }
    }
    let expected: Vec<u64> = (1..=100).collect();
    assert_eq!(observed, expected);
}

#[test]
fn test_read_channel_stop_flushes_buffered_packets() {
    let channel_a = ChannelID::from("a");
    let channel_b = ChannelID::from("b");
    let (sender_a, receiver_a) = untyped_channel();
    let (sender_b, receiver_b) = untyped_channel();
    let mut read_channel = ReadChannel::new(
        vec![channel_a, channel_b],
        vec![receiver_a, receiver_b],
        20,
    );
    // an unmatched packet waits in the buffer
    sender_a
        .send(string_packet("orphan", DataVersion { timestamp: 1 }))
        .unwrap();
    assert!(read_channel.read_cycle().is_none());
    read_channel.stop();
    // the flushed packet is gone: its partner arriving later aligns nothing
    sender_b
        .send(string_packet("late", DataVersion { timestamp: 1 }))
        .unwrap();
    assert!(read_channel.read_cycle().is_none());
}

#[test]
fn test_read_channel_drops_stale_arrivals() {
    // a packet older than the last emitted tuple is never assembled again
    let channel_a = ChannelID::from("a");
    let (sender_a, receiver_a) = untyped_channel();
    let mut read_channel = ReadChannel::new(vec![channel_a], vec![receiver_a], 20);

    sender_a
        .send(string_packet("x", DataVersion { timestamp: 5 }))
        .unwrap();
    let tuple = read_channel.read_cycle().unwrap();
    assert_eq!(tuple.packets[0].version.timestamp, 5);

    // a straggler with an older version arrives late
    sender_a
        .send(string_packet("x", DataVersion { timestamp: 3 }))
        .unwrap();
    assert!(read_channel.read_cycle().is_none());

    // newer versions still flow
    sender_a
        .send(string_packet("x", DataVersion { timestamp: 6 }))
        .unwrap();
    let tuple = read_channel.read_cycle().unwrap();
    assert_eq!(tuple.packets[0].version.timestamp, 6);
}
