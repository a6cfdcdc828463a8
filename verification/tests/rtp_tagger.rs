use tap::rtp_tagger::{
    classify_media, dominant_direction, parse_rtp_packet, sequences_advance, tag, RtpDirection,
    RtpMediaKind, RtpPacket, RtpStream,
};

fn rtp(marker: bool, pt: u8, seq: u16, ts: u32, ssrc: u32, payload: usize) -> Vec<u8> {
    let mut v = vec![0x80u8, (if marker { 0x80 } else { 0 }) | pt];
    v.extend_from_slice(&seq.to_be_bytes());
    v.extend_from_slice(&ts.to_be_bytes());
    v.extend_from_slice(&ssrc.to_be_bytes());
    v.extend(std::iter::repeat(0xAAu8).take(payload));
    v
}

fn packet(seq: u16) -> RtpPacket {
    RtpPacket {
        direction: RtpDirection::ClientToServer,
        payload_type: 0,
        sequence: seq,
        timestamp: 0,
        ssrc: 1,
        marker: false,
        payload_len: 0,
    }
}

#[test]
fn parses_a_version_two_header() {
    let p = parse_rtp_packet(&rtp(true, 96, 0x1234, 0xDEADBEEF, 0xCAFEBABE, 20), RtpDirection::ServerToClient)
        .unwrap();
    assert_eq!(p.direction, RtpDirection::ServerToClient);
    assert_eq!(p.payload_type, 96);
    assert_eq!(p.sequence, 0x1234);
    assert_eq!(p.timestamp, 0xDEADBEEF);
    assert_eq!(p.ssrc, 0xCAFEBABE);
    assert!(p.marker);
    assert_eq!(p.payload_len, 20);
}

#[test]
fn rejects_short_stun_dtls_rtcp_and_other_versions() {
    assert!(parse_rtp_packet(&[0x80, 0, 0, 1, 0, 0, 0, 0, 0, 0, 0], RtpDirection::ClientToServer).is_none());
    let mut stun = rtp(false, 0, 1, 0, 1, 4);
    stun[4..8].copy_from_slice(&[0x21, 0x12, 0xA4, 0x42]);
    assert!(parse_rtp_packet(&stun, RtpDirection::ClientToServer).is_none());
    let mut dtls = rtp(false, 0, 1, 0, 1, 4);
    dtls[0] = 23;
    assert!(parse_rtp_packet(&dtls, RtpDirection::ClientToServer).is_none());
    let mut v1 = rtp(false, 0, 1, 0, 1, 4);
    v1[0] = 0x40;
    assert!(parse_rtp_packet(&v1, RtpDirection::ClientToServer).is_none());
    assert!(parse_rtp_packet(&rtp(false, 72, 1, 0, 1, 4), RtpDirection::ClientToServer).is_none());
    assert!(parse_rtp_packet(&rtp(true, 76, 1, 0, 1, 4), RtpDirection::ClientToServer).is_none());
    assert!(parse_rtp_packet(&rtp(false, 77, 1, 0, 1, 4), RtpDirection::ClientToServer).is_some());
}

#[test]
fn sequences_advance_needs_half_the_steps() {
    assert!(!sequences_advance(&[packet(1)]));
    assert!(sequences_advance(&[packet(1), packet(2)]));
    assert!(!sequences_advance(&[packet(1), packet(1)]));
    // Two of four steps advance: enough.
    assert!(sequences_advance(&[packet(1), packet(2), packet(500), packet(501), packet(1)]));
    // One of three steps advances: not enough.
    assert!(!sequences_advance(&[packet(1), packet(2), packet(500), packet(1)]));
    // Wrap-around counts as advancing.
    assert!(sequences_advance(&[packet(65535), packet(0), packet(1)]));
    // A jump of 101 does not.
    assert!(!sequences_advance(&[packet(0), packet(101)]));
}

#[test]
fn classify_media_thresholds() {
    assert_eq!(classify_media(100, 1, 20), RtpMediaKind::Video);
    assert_eq!(classify_media(100, 1, 21), RtpMediaKind::Audio);
    assert_eq!(classify_media(600, 1, 21), RtpMediaKind::Video);
    assert_eq!(classify_media(599, 1, 21), RtpMediaKind::Audio);
    assert_eq!(classify_media(5000, 0, 21), RtpMediaKind::Audio);
    assert_eq!(classify_media(5000, 0, 0), RtpMediaKind::Audio);
    assert_eq!(classify_media(5000, 3, 0), RtpMediaKind::Video);
}

#[test]
fn too_few_packets_is_not_rtp() {
    let c2s = vec![rtp(false, 0, 1, 0, 7, 10), rtp(false, 0, 2, 160, 7, 10)];
    assert!(tag(&c2s, &[]).is_none());
}

#[test]
fn one_audio_stream() {
    let c2s = vec![
        rtp(false, 0, 12, 320, 7, 160),
        rtp(false, 0, 10, 0, 7, 160),
        rtp(false, 8, 11, 160, 7, 160),
        rtp(false, 0, 14, 640, 7, 160),
    ];
    let streams = tag(&c2s, &[]).unwrap();
    assert_eq!(streams.len(), 1);
    let s = &streams[0];
    assert_eq!(s.ssrc, 7);
    assert_eq!(s.direction, RtpDirection::ClientToServer);
    // Payload types in sequence order: 10 (pt 0), 11 (pt 8), 12, 14.
    assert_eq!(s.payload_types, vec![0, 8]);
    assert_eq!(s.packet_count, 4);
    assert_eq!(s.byte_count, 640);
    assert_eq!(s.media_kind, RtpMediaKind::Audio);
    assert_eq!(s.sequence_min, 10);
    assert_eq!(s.sequence_max, 14);
    assert_eq!(s.estimated_lost, 1);
    assert_eq!(s.timestamp_span, 640);
    assert_eq!(s.marker_count, 0);
}

#[test]
fn streams_per_ssrc_in_order_of_first_appearance() {
    let c2s = vec![
        rtp(true, 96, 100, 0, 9, 1000),
        rtp(false, 96, 101, 3000, 9, 1000),
        rtp(false, 96, 102, 6000, 9, 1000),
    ];
    let s2c = vec![
        rtp(false, 0, 1, 0, 5, 10),
        rtp(false, 0, 2, 0, 5, 10),
        rtp(false, 0, 3, 0, 5, 10),
        // Too few packets of this SSRC: dropped.
        rtp(false, 0, 3, 0, 77, 10),
    ];
    let streams = tag(&c2s, &s2c).unwrap();
    assert_eq!(streams.len(), 2);
    assert_eq!(streams[0].ssrc, 9);
    assert_eq!(streams[0].media_kind, RtpMediaKind::Video);
    assert_eq!(streams[0].marker_count, 1);
    assert_eq!(streams[1].ssrc, 5);
    assert_eq!(streams[1].direction, RtpDirection::ServerToClient);
    assert_eq!(dominant_direction(&streams), Some(RtpDirection::ClientToServer));
}

#[test]
fn non_advancing_group_is_dropped() {
    let c2s = vec![
        rtp(false, 0, 1, 0, 5, 10),
        rtp(false, 0, 1000, 0, 5, 10),
        rtp(false, 0, 3000, 0, 5, 10),
    ];
    assert!(tag(&c2s, &[]).is_none());
}

#[test]
fn direction_comes_from_the_earliest_lowest_sequence() {
    let c2s = vec![rtp(false, 0, 6, 0, 5, 10), rtp(false, 0, 7, 0, 5, 10)];
    let s2c = vec![rtp(false, 0, 5, 0, 5, 10), rtp(false, 0, 8, 0, 5, 10)];
    let streams = tag(&c2s, &s2c).unwrap();
    assert_eq!(streams[0].direction, RtpDirection::ServerToClient);
}

fn stream(byte_count: u64, direction: RtpDirection) -> RtpStream {
    RtpStream {
        ssrc: 1,
        direction,
        payload_types: vec![],
        packet_count: 3,
        byte_count,
        media_kind: RtpMediaKind::Audio,
        estimated_lost: 0,
        sequence_min: 0,
        sequence_max: 2,
        timestamp_span: 0,
        marker_count: 0,
    }
}

#[test]
fn dominant_direction_prefers_the_last_heaviest() {
    assert_eq!(dominant_direction(&[]), None);
    let streams = vec![
        stream(10, RtpDirection::ClientToServer),
        stream(50, RtpDirection::ServerToClient),
        stream(50, RtpDirection::ClientToServer),
        stream(20, RtpDirection::ServerToClient),
    ];
    assert_eq!(dominant_direction(&streams), Some(RtpDirection::ClientToServer));
}

#[test]
fn datagrams_that_are_not_rtp_change_nothing() {
    let c2s: Vec<Vec<u8>> = (0..4u16).map(|i| rtp(false, 0, 100 + i, 160 * i as u32, 7, 160)).collect();
    let s2c: Vec<Vec<u8>> = vec![];
    let base = tag(&c2s, &s2c).map(|v| format!("{:?}", v));
    assert!(base.is_some());
    let noise = vec![0x16u8, 0xFE, 0xFD, 0, 0, 0, 0, 0, 0, 0, 0, 0, 0];
    assert!(parse_rtp_packet(&noise, RtpDirection::ClientToServer).is_none());
    let mut with_noise = c2s.clone();
    with_noise.insert(2, noise.clone());
    assert_eq!(tag(&with_noise, &s2c).map(|v| format!("{:?}", v)), base);
    assert_eq!(tag(&c2s, &vec![noise]).map(|v| format!("{:?}", v)), base);
}
