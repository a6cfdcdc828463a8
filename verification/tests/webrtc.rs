use tap::l7_tagger::TagSet;
use tap::net::IpAddress;
use tap::rtp_tagger::{RtpDirection, RtpMediaKind, RtpStream};
use tap::udp_table::{Datagram, UdpConversation};
use tap::webrtc_conversation::{L4Key, WebRtcConversation};
use tap::webrtc_report::{generate, stream_to_report};
use tap::webrtc_table::{merge_into, WebRtcTable};

fn stream(ssrc: u32, kind: RtpMediaKind, byte_count: u64) -> RtpStream {
    RtpStream {
        ssrc,
        direction: RtpDirection::ServerToClient,
        payload_types: vec![96, 97],
        packet_count: 10,
        byte_count,
        media_kind: kind,
        estimated_lost: 2,
        sequence_min: 1,
        sequence_max: 12,
        timestamp_span: 900,
        marker_count: 3,
    }
}

fn conversation(port: u16, start: i128, last: i128, rx: u64) -> UdpConversation {
    let d = Datagram {
        session_key: L4Key {
            source_address: IpAddress::V4(1),
            source_port: port,
            destination_address: IpAddress::V6(2),
            destination_port: 443,
        },
        source_mac: Some("aa".to_string()),
        destination_mac: Some("bb".to_string()),
        source_address: IpAddress::V4(1),
        source_port: port,
        destination_address: IpAddress::V6(2),
        destination_port: 443,
        timestamp: start,
        size: 5,
        payload: vec![],
        tags: TagSet::new(),
    };
    let mut c = UdpConversation::from_first_datagram(&d);
    c.most_recent_segment_time = last;
    c.bytes_count_rx = rx;
    c
}

#[test]
fn build_summarizes_the_flow() {
    let c = conversation(1000, 10, 20, 99);
    let w = WebRtcConversation::build(&c, "key".to_string(), vec![stream(1, RtpMediaKind::Video, 5)], 0);
    assert_eq!(w.session_key.source_port, 1000);
    assert_eq!(w.desteination_mac.as_deref(), Some("bb"));
    assert!(w.has_rtp && w.has_video && !w.has_audio && !w.has_dtls);
    assert_eq!(w.stream_count, 1);
    assert_eq!(w.first_seen, 10);
    assert_eq!(w.last_activity, 20);
    assert_eq!(w.bytes_rx, 99);
    assert_eq!(w.bytes_tx, 5);

    let d = WebRtcConversation::build(&c, "key".to_string(), vec![], 4);
    assert!(!d.has_rtp && d.has_dtls);
    assert_eq!(d.dtls_app_data_records, 4);
}

#[test]
fn merge_replaces_streams_by_ssrc_and_widens_activity() {
    let c = conversation(1000, 10, 20, 1);
    let mut existing = WebRtcConversation::build(
        &c,
        "key".to_string(),
        vec![stream(1, RtpMediaKind::Audio, 5), stream(2, RtpMediaKind::Audio, 6)],
        0,
    );
    let later = conversation(1000, 15, 40, 77);
    let incoming = WebRtcConversation::build(
        &later,
        "other".to_string(),
        vec![stream(2, RtpMediaKind::Video, 60), stream(3, RtpMediaKind::Audio, 7)],
        9,
    );
    merge_into(&mut existing, &incoming);
    let ssrcs: Vec<u32> = existing.rtp_streams.iter().map(|s| s.ssrc).collect();
    assert_eq!(ssrcs, vec![1, 2, 3]);
    assert_eq!(existing.rtp_streams[1].byte_count, 60);
    assert_eq!(existing.stream_count, 3);
    assert!(existing.has_audio && existing.has_video && existing.has_dtls);
    assert_eq!(existing.dtls_app_data_records, 9);
    assert_eq!(existing.first_seen, 10);
    assert_eq!(existing.last_activity, 40);
    assert_eq!(existing.bytes_rx, 77);
    assert_eq!(existing.negotiation_key, "key");
}

#[test]
fn table_merges_by_key_and_drops_stale_conversations() {
    let mut table = WebRtcTable::new();
    let a = conversation(1000, 0, 1_000_000_000, 1);
    let b = conversation(2000, 0, 100_000_000_000, 1);
    table.register_conversation(WebRtcConversation::build(&a, "a".to_string(), vec![], 2));
    table.register_conversation(WebRtcConversation::build(&b, "b".to_string(), vec![], 2));
    table.register_conversation(WebRtcConversation::build(&a, "a2".to_string(), vec![stream(5, RtpMediaKind::Audio, 1)], 2));
    assert_eq!(table.len(), 2);
    assert_eq!(table.conversations()[0].stream_count, 1);

    // At 100 s, conversation a (last seen at 1 s) is stale; b is not.
    let report = table.process_report(100_000_000_000).unwrap();
    assert_eq!(table.len(), 1);
    assert_eq!(report.conversations.len(), 1);
    assert_eq!(report.conversations[0].negotiation_key, "b");

    // Much later nothing remains and there is no report.
    assert!(table.process_report(1_000_000_000_000).is_none());
    assert_eq!(table.len(), 0);
}

#[test]
fn stream_report_lines() {
    let r = stream_to_report(&stream(7, RtpMediaKind::Video, 1234));
    assert_eq!(r.ssrc, 7);
    assert_eq!(r.direction, "SERVER_TO_CLIENT");
    assert_eq!(r.media_kind, "Video");
    assert_eq!(r.payload_types, vec![96, 97]);
    assert_eq!(r.packet_count, 10);
    assert_eq!(r.byte_count, 1234);
    assert_eq!(r.marker_count, 3);
    let mut s = stream(7, RtpMediaKind::Unknown, 0);
    s.direction = RtpDirection::ClientToServer;
    let r = stream_to_report(&s);
    assert_eq!(r.direction, "CLIENT_TO_SERVER");
    assert_eq!(r.media_kind, "Unknown");
}

#[test]
fn report_has_one_entry_per_conversation() {
    let c = conversation(1000, 3, 4, 5);
    let convs = vec![WebRtcConversation::build(&c, "k".to_string(), vec![stream(1, RtpMediaKind::Audio, 5)], 7)];
    let report = generate(&convs);
    assert_eq!(report.conversations.len(), 1);
    let r = &report.conversations[0];
    assert_eq!(r.source_address, IpAddress::V4(1));
    assert_eq!(r.source_mac.as_deref(), Some("aa"));
    assert_eq!(r.dtls_app_data_records, 7);
    assert_eq!(r.first_seen, 3);
    assert_eq!(r.rtp_streams.len(), 1);
}

#[test]
fn estimated_size_counts_strings_and_streams() {
    let c = conversation(1000, 3, 4, 5);
    let empty = WebRtcConversation::build(&c, String::new(), vec![], 0);
    let base = empty.estimate_struct_size();
    let with_key = WebRtcConversation::build(&c, "abcd".to_string(), vec![], 0);
    assert_eq!(with_key.estimate_struct_size(), base + 4);
    let with_stream = WebRtcConversation::build(&c, String::new(), vec![stream(1, RtpMediaKind::Audio, 5)], 0);
    assert_eq!(
        with_stream.estimate_struct_size(),
        base + std::mem::size_of::<RtpStream>() as u32 + 2
    );
}

#[test]
fn merging_the_same_observation_twice_changes_nothing_more() {
    let c = conversation(1000, 10, 20, 1);
    let mut existing = WebRtcConversation::build(
        &c,
        "key".to_string(),
        vec![stream(1, RtpMediaKind::Audio, 5), stream(2, RtpMediaKind::Audio, 6)],
        0,
    );
    let later = conversation(1000, 15, 40, 77);
    let incoming = WebRtcConversation::build(
        &later,
        "other".to_string(),
        vec![stream(2, RtpMediaKind::Video, 60), stream(2, RtpMediaKind::Video, 61), stream(3, RtpMediaKind::Audio, 7)],
        9,
    );
    merge_into(&mut existing, &incoming);
    let once = format!("{:?}", existing);
    merge_into(&mut existing, &incoming);
    assert_eq!(format!("{:?}", existing), once);
    let ssrcs: Vec<u32> = existing.rtp_streams.iter().map(|s| s.ssrc).collect();
    assert_eq!(ssrcs, vec![1, 2, 3]);
    assert_eq!(existing.rtp_streams[1].byte_count, 61);
}
