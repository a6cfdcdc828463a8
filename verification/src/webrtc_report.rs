use vstd::prelude::*;
use crate::net::IpAddress;
use crate::rtp_tagger::{RtpDirection, RtpMediaKind, RtpStream};
use crate::webrtc_conversation::{clone_opt_string, opt_string_view, WebRtcConversation};

verus! {

/// The report line of one RTP stream.
#[derive(Debug, Clone, PartialEq, Eq)]
pub struct RtpStreamReport {
    pub ssrc: u32,
    pub direction: String,
    pub payload_types: Vec<u8>,
    pub packet_count: u64,
    pub byte_count: u64,
    pub media_kind: String,
    pub estimated_lost: u32,
    pub sequence_min: u16,
    pub sequence_max: u16,
    pub timestamp_span: u32,
    pub marker_count: u64,
}

/// The report of one WebRTC conversation. Addresses are reported as
/// values and times as nanoseconds since the Unix epoch; they are
/// rendered as text when the report is serialized.
#[derive(Debug)]
pub struct WebRTCConversationReport {
    pub negotiation_key: String,
    pub source_address: IpAddress,
    pub source_mac: Option<String>,
    pub source_port: u16,
    pub destination_address: IpAddress,
    pub destination_port: u16,
    pub has_rtp: bool,
    pub has_dtls: bool,
    pub has_audio: bool,
    pub has_video: bool,
    pub stream_count: u16,
    pub rtp_streams: Vec<RtpStreamReport>,
    pub dtls_app_data_records: u64,
    pub first_seen: i128,
    pub last_activity: i128,
    pub bytes_rx: u64,
    pub bytes_tx: u64,
}

/// The WebRTC report: one entry per conversation.
#[derive(Debug)]
pub struct WebRTCReport {
    pub conversations: Vec<WebRTCConversationReport>,
}

/// How a stream direction is written in reports.
pub open spec fn direction_name(d: RtpDirection) -> Seq<char> {
    match d {
        RtpDirection::ClientToServer => "CLIENT_TO_SERVER"@,
        RtpDirection::ServerToClient => "SERVER_TO_CLIENT"@,
    }
}

/// How a media kind is written in reports.
pub open spec fn media_kind_name(k: RtpMediaKind) -> Seq<char> {
    match k {
        RtpMediaKind::Audio => "Audio"@,
        RtpMediaKind::Video => "Video"@,
        RtpMediaKind::Unknown => "Unknown"@,
    }
}

/// `r` reports the stream `s`.
pub open spec fn reports_stream(r: RtpStreamReport, s: RtpStream) -> bool {
    &&& r.ssrc == s.ssrc
    &&& r.direction@ == direction_name(s.direction)
    &&& r.payload_types@ == s.payload_types@
    &&& r.packet_count == s.packet_count
    &&& r.byte_count == s.byte_count
    &&& r.media_kind@ == media_kind_name(s.media_kind)
    &&& r.estimated_lost == s.estimated_lost
    &&& r.sequence_min == s.sequence_min
    &&& r.sequence_max == s.sequence_max
    &&& r.timestamp_span == s.timestamp_span
    &&& r.marker_count == s.marker_count
}

/// `r` reports the conversation `c`.
pub open spec fn reports_conversation(r: WebRTCConversationReport, c: WebRtcConversation) -> bool {
    &&& r.negotiation_key@ == c.negotiation_key@
    &&& r.source_address == c.source_address
    &&& opt_string_view(r.source_mac) == opt_string_view(c.source_mac)
    &&& r.source_port == c.source_port
    &&& r.destination_address == c.destination_address
    &&& r.destination_port == c.destination_port
    &&& r.has_rtp == c.has_rtp
    &&& r.has_dtls == c.has_dtls
    &&& r.has_audio == c.has_audio
    &&& r.has_video == c.has_video
    &&& r.stream_count == c.stream_count
    &&& r.rtp_streams@.len() == c.rtp_streams@.len()
    &&& forall|i: int| 0 <= i < r.rtp_streams@.len() ==> reports_stream(#[trigger] r.rtp_streams@[i], c.rtp_streams@[i])
    &&& r.dtls_app_data_records == c.dtls_app_data_records
    &&& r.first_seen == c.first_seen
    &&& r.last_activity == c.last_activity
    &&& r.bytes_rx == c.bytes_rx
    &&& r.bytes_tx == c.bytes_tx
}

fn media_kind_text(k: RtpMediaKind) -> (res: String)
    ensures
        res@ == media_kind_name(k),
{
    match k {
        RtpMediaKind::Audio => "Audio".to_owned(),
        RtpMediaKind::Video => "Video".to_owned(),
        RtpMediaKind::Unknown => "Unknown".to_owned(),
    }
}

/// The report line of an RTP stream.
pub fn stream_to_report(s: &RtpStream) -> (res: RtpStreamReport)
    ensures
        reports_stream(res, *s),
{
    let direction = match s.direction {
        RtpDirection::ClientToServer => "CLIENT_TO_SERVER".to_owned(),
        RtpDirection::ServerToClient => "SERVER_TO_CLIENT".to_owned(),
    };
    let payload_types = s.payload_types.clone();
    assert(payload_types@ =~= s.payload_types@);
    RtpStreamReport {
        ssrc: s.ssrc,
        direction,
        payload_types,
        packet_count: s.packet_count as u64,
        byte_count: s.byte_count,
        media_kind: media_kind_text(s.media_kind),
        estimated_lost: s.estimated_lost,
        sequence_min: s.sequence_min,
        sequence_max: s.sequence_max,
        timestamp_span: s.timestamp_span,
        marker_count: s.marker_count as u64,
    }
}

fn conversation_to_report(c: &WebRtcConversation) -> (res: WebRTCConversationReport)
    ensures
        reports_conversation(res, *c),
{
    let mut rtp_streams: Vec<RtpStreamReport> = Vec::new();
    let mut i: usize = 0;
    while i < c.rtp_streams.len()
        invariant
            i <= c.rtp_streams.len(),
            rtp_streams@.len() == i,
            forall|k: int| 0 <= k < i ==> reports_stream(#[trigger] rtp_streams@[k], c.rtp_streams@[k]),
        decreases c.rtp_streams.len() - i,
    {
        rtp_streams.push(stream_to_report(&c.rtp_streams[i]));
        i += 1;
    }
    let negotiation_key = c.negotiation_key.clone();
    WebRTCConversationReport {
        negotiation_key,
        source_address: c.source_address,
        source_mac: clone_opt_string(&c.source_mac),
        source_port: c.source_port,
        destination_address: c.destination_address,
        destination_port: c.destination_port,
        has_rtp: c.has_rtp,
        has_dtls: c.has_dtls,
        has_audio: c.has_audio,
        has_video: c.has_video,
        stream_count: c.stream_count,
        rtp_streams,
        dtls_app_data_records: c.dtls_app_data_records as u64,
        first_seen: c.first_seen,
        last_activity: c.last_activity,
        bytes_rx: c.bytes_rx,
        bytes_tx: c.bytes_tx,
    }
}

/// The WebRTC report of a table of conversations, one entry per
/// conversation, in table order.
pub fn generate(conversations: &Vec<WebRtcConversation>) -> (res: WebRTCReport)
    ensures
        res.conversations@.len() == conversations@.len(),
        forall|i: int| 0 <= i < conversations@.len() ==> reports_conversation(#[trigger] res.conversations@[i], conversations@[i]),
{
    let mut out: Vec<WebRTCConversationReport> = Vec::new();
    let mut i: usize = 0;
    while i < conversations.len()
        invariant
            i <= conversations.len(),
            out@.len() == i,
            forall|k: int| 0 <= k < i ==> reports_conversation(#[trigger] out@[k], conversations@[k]),
        decreases conversations.len() - i,
    {
        out.push(conversation_to_report(&conversations[i]));
        i += 1;
    }
    WebRTCReport { conversations: out }
}

} // verus!
