use rusted_pipe::btree_data_buffers::BtreeBufferedData;
use rusted_pipe::channels::ChannelID;
use rusted_pipe::errors::BufferError;
use rusted_pipe::packet::{DataVersion, UntypedPacket};
use rusted_pipe::single_buffers::FixedSizeOrdered;

fn string_packet(data: &str, version: DataVersion) -> UntypedPacket {
    UntypedPacket::new(version, data.as_bytes().to_vec())
}

#[test]
fn test_buffer_errors_if_inserts_on_missing_channel() {
    let max_size = 20;
    let mut buffer = BtreeBufferedData::new(max_size);

    let channel_0 = ChannelID::from("ch0");
    let channel_1 = ChannelID::from("ch1");
    buffer.create_channel(&channel_1).unwrap();
    let version = DataVersion { timestamp: 1 };

    let packet = string_packet("test", version);
    assert!(buffer.insert(&channel_0, packet).is_err())
}

#[test]
fn test_buffer_throws_if_same_channel_created() {
    let max_size = 20;
    let mut buffer = BtreeBufferedData::new(max_size);

    let channel_0 = ChannelID::from("ch0");
    assert!(buffer.create_channel(&channel_0).is_ok());
    assert!(buffer.create_channel(&channel_0).is_err());
}

#[test]
fn test_buffer_inserts_returns_data_and_gets_retained() {
    let max_size = 20;
    let mut buffer = BtreeBufferedData::new(max_size);

    let channel_0 = ChannelID::from("ch0");
    let channel_1 = ChannelID::from("ch1");
    buffer.create_channel(&channel_0).unwrap();
    buffer.create_channel(&channel_1).unwrap();
    let version = DataVersion { timestamp: 1 };

    let packet = string_packet("test", version);
    buffer.insert(&channel_0, packet).unwrap();
    for _i in 0..2 {
        let untyped = buffer
            .get(&(channel_0.clone(), version))
            .unwrap()
            .unwrap();
        assert_eq!(untyped.payload, "test".as_bytes().to_vec());
    }

    assert!(buffer
        .get(&(channel_1.clone(), version))
        .unwrap()
        .is_none())
}

#[test]
fn test_buffer_insert_random_order_then_removes_old_data_once_consumed() {
    // the buffer must hold all hundred in-flight versions: capacity is
    // honored per channel, and overflow would silently evict the smallest
    let max_size = 100;
    let mut buffer = BtreeBufferedData::new(max_size);

    let channel_0 = ChannelID::from("ch0");
    let channel_1 = ChannelID::from("ch1");
    buffer.create_channel(&channel_0).unwrap();
    buffer.create_channel(&channel_1).unwrap();

    // versions 0..100 in a scrambled order
    let mut vals: Vec<u64> = Vec::new();
    for k in 0..100u64 {
        vals.push((k * 37 + 11) % 100);
    }

    for i in vals {
        let version = DataVersion { timestamp: i };
        let packet = string_packet("test_0", version);
        buffer.insert(&channel_0, packet).unwrap();
        let packet = string_packet("test_1", version);
        buffer.insert(&channel_1, packet).unwrap();
    }
    let version = DataVersion { timestamp: 10 };
    let address = (channel_0.clone(), version);
    let _ = buffer.consume(&address).unwrap().unwrap();

    for old_version in 0..9 {
        let version = DataVersion {
            timestamp: old_version,
        };
        let address = (channel_0.clone(), version);
        assert!(buffer.get(&address).unwrap().is_none())
    }
}

#[test]
fn test_consume_erases_all_older_versions() {
    // one channel; insert 1..=5, consume version 3
    let mut buffer = BtreeBufferedData::new(20);
    let channel = ChannelID::from("a");
    buffer.create_channel(&channel).unwrap();
    for ts in 1..=5u64 {
        let version = DataVersion { timestamp: ts };
        buffer.insert(&channel, string_packet("x", version)).unwrap();
    }
    let consumed = buffer
        .consume(&(channel.clone(), DataVersion { timestamp: 3 }))
        .unwrap();
    assert!(consumed.is_some());
    for ts in 1..=3u64 {
        let addr = (channel.clone(), DataVersion { timestamp: ts });
        assert!(buffer.get(&addr).unwrap().is_none());
    }
    for ts in 4..=5u64 {
        let addr = (channel.clone(), DataVersion { timestamp: ts });
        assert!(buffer.get(&addr).unwrap().is_some());
    }
}

#[test]
fn test_duplicate_version_keeps_first_packet() {
    let mut buffer = BtreeBufferedData::new(20);
    let channel = ChannelID::from("a");
    buffer.create_channel(&channel).unwrap();
    let version = DataVersion { timestamp: 1 };
    buffer
        .insert(&channel, string_packet("hello", version))
        .unwrap();
    let err = buffer
        .insert(&channel, string_packet("world", version))
        .unwrap_err();
    assert_eq!(
        err,
        BufferError::DuplicateDataVersionError((channel.clone(), version))
    );
    let got = buffer.get(&(channel.clone(), version)).unwrap().unwrap();
    assert_eq!(got.payload, "hello".as_bytes().to_vec());
}

#[test]
fn test_double_create_reports_duplicate_channel() {
    let mut buffer = BtreeBufferedData::new(20);
    let channel = ChannelID::from("ch0");
    buffer.create_channel(&channel).unwrap();
    let err = buffer.create_channel(&channel).unwrap_err();
    assert_eq!(err, BufferError::DuplicateChannelError(channel.clone()));
}

#[test]
fn test_missing_channel_reports_which_channel() {
    let mut buffer = BtreeBufferedData::new(20);
    let channel = ChannelID::from("nowhere");
    let version = DataVersion { timestamp: 1 };
    let err = buffer
        .insert(&channel, string_packet("x", version))
        .unwrap_err();
    assert_eq!(err, BufferError::MissingChannel(channel.clone()));
}

#[test]
fn test_available_channels_lists_created_channels() {
    let mut buffer = BtreeBufferedData::new(20);
    buffer.create_channel(&ChannelID::from("a")).unwrap();
    buffer.create_channel(&ChannelID::from("b")).unwrap();
    let channels = buffer.available_channels();
    assert_eq!(channels.len(), 2);
    assert_eq!(channels[0], ChannelID::from("a"));
    assert_eq!(channels[1], ChannelID::from("b"));
}

#[test]
fn test_single_buffer_orders_versions_and_evicts_oldest() {
    let mut buffer = FixedSizeOrdered::new(3);
    for ts in [5u64, 1, 3] {
        let version = DataVersion { timestamp: ts };
        buffer.insert(string_packet("p", version)).unwrap();
    }
    // ascending iteration order
    assert_eq!(buffer.len(), 3);
    assert_eq!(buffer.version_at(0).timestamp, 1);
    assert_eq!(buffer.version_at(1).timestamp, 3);
    assert_eq!(buffer.version_at(2).timestamp, 5);
    // overflow evicts the smallest version
    buffer
        .insert(string_packet("p", DataVersion { timestamp: 4 }))
        .unwrap();
    assert_eq!(buffer.len(), 3);
    assert!(!buffer.contains_key(&DataVersion { timestamp: 1 }));
    assert!(buffer.contains_key(&DataVersion { timestamp: 4 }));
    // duplicate version is rejected
    let err = buffer
        .insert(string_packet("q", DataVersion { timestamp: 4 }))
        .unwrap_err();
    assert_eq!(err, BufferError::DuplicateVersion(DataVersion { timestamp: 4 }));
}

#[test]
fn test_single_buffer_remove_and_cleanup_before() {
    let mut buffer = FixedSizeOrdered::new(10);
    for ts in 1..=6u64 {
        buffer
            .insert(string_packet("p", DataVersion { timestamp: ts }))
            .unwrap();
    }
    let removed = buffer.remove(&DataVersion { timestamp: 4 }).unwrap();
    assert_eq!(removed.version.timestamp, 4);
    assert!(buffer.remove(&DataVersion { timestamp: 4 }).is_none());
    buffer.cleanup_before(&DataVersion { timestamp: 3 });
    assert!(!buffer.contains_key(&DataVersion { timestamp: 1 }));
    assert!(!buffer.contains_key(&DataVersion { timestamp: 2 }));
    assert!(buffer.contains_key(&DataVersion { timestamp: 3 }));
    // cleanup is idempotent
    buffer.cleanup_before(&DataVersion { timestamp: 3 });
    assert!(buffer.contains_key(&DataVersion { timestamp: 3 }));
    assert_eq!(buffer.len(), 3);
    // get retains the packet
    assert!(buffer.get(&DataVersion { timestamp: 5 }).is_some());
    assert!(buffer.get(&DataVersion { timestamp: 5 }).is_some());
}
