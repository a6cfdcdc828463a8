use std::collections::VecDeque;
use tap::l7_tagger::{L7Tag, TagSet, TaggerCommand};
use tap::net::IpAddress;
use tap::udp_table::{
    orient_webrtc, UdpEntry, push_bounded, push_recent, Datagram, TrafficDirection, UdpConversation,
    UdpConversationState, UdpTable, MAX_BYTES_PER_DIRECTION, RECENT_RING_MAX_DATAGRAMS,
};
use tap::webrtc_conversation::L4Key;

const SRC: IpAddress = IpAddress::V4(0xC0A8_0001); // 192.168.0.1
const DST: IpAddress = IpAddress::V4(0x0808_0808); // 8.8.8.8

fn key() -> L4Key {
    L4Key { source_address: SRC, source_port: 5000, destination_address: DST, destination_port: 3478 }
}

fn datagram(timestamp: i128, size: u64, payload: Vec<u8>, tags: &[L7Tag]) -> Datagram {
    let mut set = TagSet::new();
    for t in tags {
        set.insert(*t);
    }
    Datagram {
        session_key: key(),
        source_mac: Some("AA:BB:CC:DD:EE:FF".to_string()),
        destination_mac: None,
        source_address: SRC,
        source_port: 5000,
        destination_address: DST,
        destination_port: 3478,
        timestamp,
        size,
        payload,
        tags: set,
    }
}

#[test]
fn push_bounded_stops_at_the_byte_limit() {
    let mut q: VecDeque<Vec<u8>> = VecDeque::new();
    push_bounded(&mut q, vec![0; 200]);
    push_bounded(&mut q, vec![0; 57]); // 257 > 256: refused.
    assert_eq!(q.len(), 1);
    push_bounded(&mut q, vec![0; 56]); // exactly 256: accepted.
    assert_eq!(q.len(), 2);
    push_bounded(&mut q, vec![]); // full: refused even when empty.
    assert_eq!(q.len(), 2);
    let total: usize = q.iter().map(|v| v.len()).sum();
    assert_eq!(total, MAX_BYTES_PER_DIRECTION);
}

#[test]
fn push_recent_keeps_the_latest_datagrams() {
    let mut q: VecDeque<Vec<u8>> = VecDeque::new();
    for i in 0..100u8 {
        push_recent(&mut q, vec![i]);
    }
    assert_eq!(q.len(), RECENT_RING_MAX_DATAGRAMS);
    assert_eq!(q.front(), Some(&vec![36u8]));
    assert_eq!(q.back(), Some(&vec![99u8]));
}

#[test]
fn first_datagram_starts_a_conversation() {
    let d = datagram(1_000, 120, vec![1, 2, 3], &[L7Tag::DNS]);
    let c = UdpConversation::from_first_datagram(&d);
    assert_eq!(c.state, UdpConversationState::Active);
    assert_eq!(c.source_mac.as_deref(), Some("AA:BB:CC:DD:EE:FF"));
    assert_eq!(c.start_time, 1_000);
    assert_eq!(c.end_time, None);
    assert_eq!(c.datagrams_count, 1);
    assert_eq!(c.bytes_count_tx, 120);
    assert_eq!(c.bytes_count_rx, 0);
    assert_eq!(c.bytes_count_tx_incremental, 120);
    assert_eq!(c.datagrams_client_to_server, VecDeque::from(vec![vec![1u8, 2, 3]]));
    assert!(c.datagrams_server_to_client.is_empty());
    assert!(!c.capture_recent);
    assert!(c.tags.contains(L7Tag::DNS));
}

#[test]
fn existing_conversation_accumulates() {
    let d = datagram(1_000, 120, vec![1], &[]);
    let mut c = UdpConversation::from_first_datagram(&d);
    c.capture_recent = true;
    let mut tags = TagSet::new();
    tags.insert(L7Tag::STUN);
    c.register_existing(TrafficDirection::ServerToClient, 0, 80, 2_000, &vec![9, 9], &tags);
    assert_eq!(c.bytes_count_rx, 80);
    assert_eq!(c.bytes_count_tx, 120);
    assert_eq!(c.bytes_count_rx_incremental, 80);
    assert_eq!(c.datagrams_count, 2);
    assert_eq!(c.most_recent_segment_time, 2_000);
    assert_eq!(c.datagrams_server_to_client, VecDeque::from(vec![vec![9u8, 9]]));
    assert_eq!(c.recent_server_to_client, VecDeque::from(vec![vec![9u8, 9]]));
    assert!(c.recent_client_to_server.is_empty());
    assert!(c.tags.contains(L7Tag::STUN));
}

#[test]
fn staleness_and_expiry() {
    let mut c = UdpConversation::from_first_datagram(&datagram(10_000_000_000, 1, vec![], &[]));
    assert!(!c.is_stale(13_000_000_000));
    assert!(c.is_stale(13_000_000_001));
    c.expire(70_000_000_000);
    assert_eq!(c.state, UdpConversationState::Active);
    c.expire(70_000_000_001);
    assert_eq!(c.state, UdpConversationState::Closed);
    assert_eq!(c.end_time, Some(10_000_000_000));
    assert!(c.is_closed());
    assert_eq!(c.state.name(), "Closed");
}

#[test]
fn table_registers_new_existing_and_stale() {
    let mut table = UdpTable::new();
    table.register_datagram(&datagram(1_000_000_000, 100, vec![1], &[]), 1_000_000_000, TrafficDirection::ClientToServer, 0, 0);
    assert_eq!(table.len(), 1);
    let k = key();
    table.register_datagram(&datagram(2_000_000_000, 50, vec![2], &[]), 2_000_000_000, TrafficDirection::ServerToClient, 0, 50);
    assert_eq!(table.len(), 1);
    {
        let c = table.get(&k).unwrap();
        assert_eq!(c.datagrams_count, 2);
        assert_eq!(c.bytes_count_rx, 50);
        assert_eq!(c.bytes_count_tx, 100);
    }
    // More than three seconds of silence: a new conversation replaces it.
    table.register_datagram(&datagram(6_000_000_000, 7, vec![3], &[]), 6_000_000_000, TrafficDirection::ServerToClient, 0, 7);
    assert_eq!(table.len(), 1);
    let c = table.get(&k).unwrap();
    assert_eq!(c.datagrams_count, 1);
    assert_eq!(c.bytes_count_tx, 7);
    assert_eq!(c.start_time, 6_000_000_000);
}

#[test]
fn report_maintenance() {
    let mut table = UdpTable::new();
    table.register_datagram(&datagram(1_000_000_000, 100, vec![1], &[]), 1_000_000_000, TrafficDirection::ClientToServer, 0, 0);
    let mut other = datagram(50_000_000_000, 10, vec![1], &[]);
    other.session_key.source_port = 6000;
    other.source_port = 6000;
    table.register_datagram(&other, 50_000_000_000, TrafficDirection::ClientToServer, 0, 0);
    table.expire_conversations(70_000_000_000);
    assert_eq!(table.conversations()[0].conversation.state, UdpConversationState::Closed);
    assert_eq!(table.conversations()[1].conversation.state, UdpConversationState::Active);
    table.remove_closed();
    assert_eq!(table.len(), 1);
    assert_eq!(table.conversations()[0].key.source_port, 6000);
    table.incremental_counter_sweep();
    let c = &table.conversations()[0].conversation;
    assert_eq!(c.datagrams_count_incremental, 0);
    assert_eq!(c.bytes_count_tx_incremental, 0);
    assert_eq!(c.bytes_count_tx, 10);
}

fn stun_conversation(tx: u64, rx: u64) -> UdpConversation {
    let mut c = UdpConversation::from_first_datagram(&datagram(0, 0, vec![], &[L7Tag::STUN]));
    c.bytes_count_tx = tx;
    c.bytes_count_rx = rx;
    c
}

#[test]
fn orientation_levels() {
    let to_dst = Some(TaggerCommand::OrientClientTo { address: DST, port: 3478 });
    // Not STUN: untouched.
    let mut plain = stun_conversation(0, 100_000);
    plain.tags = TagSet::new();
    assert_eq!(orient_webrtc(&plain, false, false), None);
    // Destination sent at least 70% of a large volume.
    assert_eq!(orient_webrtc(&stun_conversation(30_000, 70_000), true, false), to_dst);
    // Source is the heavy sender.
    assert_eq!(orient_webrtc(&stun_conversation(70_000, 30_000), false, true), None);
    // Balanced: site-locality decides.
    assert_eq!(orient_webrtc(&stun_conversation(50_000, 50_000), true, false), None);
    assert_eq!(orient_webrtc(&stun_conversation(50_000, 50_000), false, true), to_dst);
    // Below the volume threshold and no clear split: the lower endpoint
    // (8.8.8.8 < 192.168.0.1) becomes the source.
    assert_eq!(orient_webrtc(&stun_conversation(10, 10_000), true, true), to_dst);
}

#[test]
fn concluding_a_report_deletes_closed_and_resets_counters() {
    let mut table = UdpTable::new();
    table.register_datagram(&datagram(1_000_000_000, 100, vec![1], &[]), 1_000_000_000, TrafficDirection::ClientToServer, 0, 0);
    let mut other = datagram(50_000_000_000, 10, vec![1], &[]);
    other.session_key.source_port = 6000;
    other.source_port = 6000;
    table.register_datagram(&other, 50_000_000_000, TrafficDirection::ClientToServer, 0, 0);
    table.expire_conversations(70_000_000_000);
    // A report that could not be produced leaves everything for the next one.
    table.conclude_report(false);
    assert_eq!(table.len(), 2);
    assert_eq!(table.conversations()[0].conversation.state, UdpConversationState::Closed);
    table.conclude_report(true);
    assert_eq!(table.len(), 1);
    let e = &table.conversations()[0];
    assert_eq!(e.key.source_port, 6000);
    assert_eq!(e.conversation.datagrams_count_incremental, 0);
    assert_eq!(e.conversation.bytes_count_tx_incremental, 0);
    assert_eq!(e.conversation.bytes_count_tx, 10);
}

#[test]
fn tags_merge_in_place_and_entries_go_back_only_when_consistent() {
    let mut table = UdpTable::new();
    table.register_datagram(&datagram(1_000_000_000, 100, vec![1], &[L7Tag::STUN]), 1_000_000_000, TrafficDirection::ClientToServer, 0, 0);
    let mut found = TagSet::new();
    found.insert(L7Tag::RTP);
    table.merge_tags_at(0, &found);
    let tags = &table.conversations()[0].conversation.tags;
    assert!(tags.contains(L7Tag::STUN) && tags.contains(L7Tag::RTP) && tags.contains(L7Tag::WebRTC));

    let entry: UdpEntry = table.take_entry(0);
    assert_eq!(table.len(), 0);
    assert!(entry.conversation.is_consistent());
    assert!(table.put_entry(0, entry).is_ok());
    assert_eq!(table.len(), 1);

    let mut broken = table.take_entry(0);
    broken.conversation.datagrams_count_incremental = broken.conversation.datagrams_count + 1;
    assert!(!broken.conversation.is_consistent());
    assert!(table.put_entry(0, broken).is_err());
    assert_eq!(table.len(), 0);

    let first = UdpEntry { key: key(), conversation: UdpConversation::from_first_datagram(&datagram(1, 1, vec![], &[])) };
    let second = UdpEntry { key: key(), conversation: UdpConversation::from_first_datagram(&datagram(2, 1, vec![], &[])) };
    assert!(table.put_entry(0, first).is_ok());
    assert!(table.put_entry(1, second).is_err());
    assert_eq!(table.len(), 1);
}

#[test]
fn stale_conversation_is_replaced_whatever_its_counters() {
    let mut table = UdpTable::new();
    table.register_datagram(&datagram(1_000_000_000, u64::MAX, vec![1], &[]), 1_000_000_000, TrafficDirection::ClientToServer, 0, 0);
    table.register_datagram(&datagram(9_000_000_000, 5, vec![2], &[]), 9_000_000_000, TrafficDirection::ClientToServer, u64::MAX, 0);
    let c = table.get(&key()).unwrap();
    assert_eq!(c.bytes_count_tx, 5);
    assert_eq!(c.datagrams_count, 1);
}
