use std::collections::VecDeque;
use tap::l7_tagger::{
    tag_tcp_sessions, TcpVerdicts,
    concat_payloads, merge_udp_tags, tag_all_udp, tcp_tags, L7Tag, StunFinding, TagSet,
    TaggerCommand,
};
use tap::net::IpAddress;
use tap::udp_table::{Datagram, UdpConversation};
use tap::webrtc_conversation::L4Key;

fn set(tags: &[L7Tag]) -> TagSet {
    let mut s = TagSet::new();
    for t in tags {
        s.insert(*t);
    }
    s
}

fn sorted_names(s: &TagSet) -> Vec<&'static str> {
    let mut v: Vec<&'static str> = s.to_vec().iter().map(|t| t.name()).collect();
    v.sort();
    v
}

#[test]
fn tag_set_behaves_as_a_set() {
    let mut s = TagSet::new();
    s.insert(L7Tag::RTP);
    s.insert(L7Tag::RTP);
    assert_eq!(s.to_vec(), vec![L7Tag::RTP]);
    assert!(s.contains(L7Tag::RTP));
    assert!(!s.contains(L7Tag::DTLS));
    s.extend(&set(&[L7Tag::DTLS, L7Tag::RTP]));
    assert_eq!(sorted_names(&s), vec!["DTLS", "RTP"]);
}

#[test]
fn tag_names() {
    assert_eq!(L7Tag::WebRTC.name(), "WebRTC");
    assert_eq!(L7Tag::POP3.name(), "POP3");
    assert_eq!(L7Tag::Unencrypted.name(), "Unencrypted");
}

#[test]
fn tcp_session_tags() {
    assert_eq!(sorted_names(&tcp_tags(true, false, false, false, None)), vec!["HTTP", "Unencrypted"]);
    assert_eq!(sorted_names(&tcp_tags(false, false, false, true, None)), vec!["RTSP", "Unencrypted"]);
    assert_eq!(sorted_names(&tcp_tags(false, true, true, false, Some(false))), vec!["SOCKS", "SSH", "STUN"]);
    assert_eq!(sorted_names(&tcp_tags(false, false, false, false, Some(true))), vec!["STUN", "TURN"]);
    assert!(tcp_tags(false, false, false, false, None).to_vec().is_empty());
}

#[test]
fn stun_with_rtp_or_dtls_is_webrtc() {
    let mut tags = set(&[L7Tag::STUN]);
    merge_udp_tags(&mut tags, &set(&[L7Tag::RTP]));
    assert!(tags.contains(L7Tag::WebRTC));

    let mut tags = set(&[L7Tag::DTLS]);
    merge_udp_tags(&mut tags, &set(&[L7Tag::STUN]));
    assert!(tags.contains(L7Tag::WebRTC));

    let mut tags = set(&[L7Tag::STUN]);
    merge_udp_tags(&mut tags, &set(&[L7Tag::TURN]));
    assert!(!tags.contains(L7Tag::WebRTC));
    assert!(tags.contains(L7Tag::TURN));
}

#[test]
fn payloads_are_concatenated_in_order() {
    let q: VecDeque<Vec<u8>> = VecDeque::from(vec![vec![1, 2], vec![], vec![3]]);
    assert_eq!(concat_payloads(&q), vec![1, 2, 3]);
    assert!(concat_payloads(&VecDeque::new()).is_empty());
}

fn rtp(seq: u16, ssrc: u32, payload: usize) -> Vec<u8> {
    let mut v = vec![0x80u8, 0];
    v.extend_from_slice(&seq.to_be_bytes());
    v.extend_from_slice(&0u32.to_be_bytes());
    v.extend_from_slice(&ssrc.to_be_bytes());
    v.extend(std::iter::repeat(0u8).take(payload));
    v
}

fn conversation() -> UdpConversation {
    let d = Datagram {
        session_key: L4Key {
            source_address: IpAddress::V4(1),
            source_port: 1000,
            destination_address: IpAddress::V4(2),
            destination_port: 2000,
        },
        source_mac: None,
        destination_mac: None,
        source_address: IpAddress::V4(1),
        source_port: 1000,
        destination_address: IpAddress::V4(2),
        destination_port: 2000,
        timestamp: 5,
        size: 10,
        payload: vec![],
        tags: TagSet::new(),
    };
    UdpConversation::from_first_datagram(&d)
}

#[test]
fn udp_tagging_without_recent_buffer_only_reports_stun() {
    let c = conversation();
    let out = tag_all_udp(&c, &Some(StunFinding { is_turn: true, negotiation_key: Some("k".to_string()) }));
    assert_eq!(sorted_names(&out.tags), vec!["STUN", "TURN"]);
    assert!(out.orient.is_none());
    assert!(out.webrtc.is_none());
}

#[test]
fn udp_tagging_finds_rtp_and_builds_webrtc() {
    let mut c = conversation();
    c.capture_recent = true;
    c.recent_server_to_client = VecDeque::from(vec![rtp(1, 7, 100), rtp(2, 7, 100), rtp(3, 7, 100)]);
    let out = tag_all_udp(&c, &Some(StunFinding { is_turn: false, negotiation_key: Some("neg".to_string()) }));
    assert_eq!(sorted_names(&out.tags), vec!["RTP", "STUN"]);
    assert_eq!(out.orient, Some(TaggerCommand::OrientClientTo { address: IpAddress::V4(2), port: 2000 }));
    let w = out.webrtc.unwrap();
    assert_eq!(w.negotiation_key, "neg");
    assert!(w.has_rtp);
    assert!(!w.has_dtls);
    assert!(w.has_audio);
    assert_eq!(w.stream_count, 1);
    assert_eq!(w.rtp_streams[0].ssrc, 7);

    // Without a negotiation key there is no WebRTC conversation.
    let out = tag_all_udp(&c, &Some(StunFinding { is_turn: false, negotiation_key: None }));
    assert!(out.webrtc.is_none());
    // Without STUN neither, though RTP is still tagged.
    let out = tag_all_udp(&c, &None);
    assert_eq!(sorted_names(&out.tags), vec!["RTP"]);
    assert!(out.webrtc.is_none());
}

#[test]
fn tcp_sessions_are_retagged_or_keep_their_tags() {
    let mut tags = vec![set(&[L7Tag::SSH]), set(&[L7Tag::SOCKS])];
    let verdicts = vec![
        Some(TcpVerdicts { http: true, socks: false, ssh: false, rtsp: false, stun_is_turn: Some(true) }),
        None,
    ];
    tag_tcp_sessions(&mut tags, &verdicts);
    assert_eq!(sorted_names(&tags[0]), vec!["HTTP", "STUN", "TURN", "Unencrypted"]);
    assert_eq!(sorted_names(&tags[1]), vec!["SOCKS"]);
}
