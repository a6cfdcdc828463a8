use vstd::prelude::*;
use vstd::layout::size_of;
use vstd::utf8::encode_utf8;
use crate::net::IpAddress;
use crate::rtp_tagger::{streams_view, RtpMediaKind, RtpStream, RtpStreamModel};
use crate::udp_table::UdpConversation;

verus! {

/// The key of a layer-4 flow: its two endpoints.
#[derive(Debug, Clone, Copy, PartialEq, Eq, Hash, Structural)]
pub struct L4Key {
    pub source_address: IpAddress,
    pub source_port: u16,
    pub destination_address: IpAddress,
    pub destination_port: u16,
}

impl L4Key {
    pub fn new(source_address: IpAddress, source_port: u16, destination_address: IpAddress, destination_port: u16) -> (res: L4Key)
        ensures
            res == (L4Key { source_address, source_port, destination_address, destination_port }),
    {
        L4Key { source_address, source_port, destination_address, destination_port }
    }
}

/// The text of an optional string.
pub open spec fn opt_string_view(o: Option<String>) -> Option<Seq<char>> {
    match o {
        Some(s) => Some(s@),
        None => None,
    }
}

/// A copy of an optional string.
pub fn clone_opt_string(o: &Option<String>) -> (res: Option<String>)
    ensures
        opt_string_view(res) == opt_string_view(*o),
{
    match o {
        Some(s) => Some(s.clone()),
        None => None,
    }
}

/// A WebRTC conversation: a UDP flow that carried STUN together with RTP
/// media or a DTLS data channel. Times are nanoseconds since the Unix
/// epoch.
#[derive(Debug)]
pub struct WebRtcConversation {
    pub session_key: L4Key,
    pub negotiation_key: String,
    pub source_address: IpAddress,
    pub source_mac: Option<String>,
    pub source_port: u16,
    pub destination_address: IpAddress,
    pub desteination_mac: Option<String>,
    pub destination_port: u16,
    pub has_rtp: bool,
    pub has_dtls: bool,
    pub has_audio: bool,
    pub has_video: bool,
    pub stream_count: u16,
    pub rtp_streams: Vec<RtpStream>,
    pub dtls_app_data_records: usize,
    pub first_seen: i128,
    pub last_activity: i128,
    pub bytes_rx: u64,
    pub bytes_tx: u64,
}

/// A WebRTC conversation, with its strings and streams as values.
#[verifier::ext_equal]
pub struct WebRtcConversationModel {
    pub session_key: L4Key,
    pub negotiation_key: Seq<char>,
    pub source_address: IpAddress,
    pub source_mac: Option<Seq<char>>,
    pub source_port: u16,
    pub destination_address: IpAddress,
    pub desteination_mac: Option<Seq<char>>,
    pub destination_port: u16,
    pub has_rtp: bool,
    pub has_dtls: bool,
    pub has_audio: bool,
    pub has_video: bool,
    pub stream_count: u16,
    pub rtp_streams: Seq<RtpStreamModel>,
    pub dtls_app_data_records: usize,
    pub first_seen: i128,
    pub last_activity: i128,
    pub bytes_rx: u64,
    pub bytes_tx: u64,
}

impl View for WebRtcConversation {
    type V = WebRtcConversationModel;

    open spec fn view(&self) -> WebRtcConversationModel {
        WebRtcConversationModel {
            session_key: self.session_key,
            negotiation_key: self.negotiation_key@,
            source_address: self.source_address,
            source_mac: opt_string_view(self.source_mac),
            source_port: self.source_port,
            destination_address: self.destination_address,
            desteination_mac: opt_string_view(self.desteination_mac),
            destination_port: self.destination_port,
            has_rtp: self.has_rtp,
            has_dtls: self.has_dtls,
            has_audio: self.has_audio,
            has_video: self.has_video,
            stream_count: self.stream_count,
            rtp_streams: streams_view(self.rtp_streams@),
            dtls_app_data_records: self.dtls_app_data_records,
            first_seen: self.first_seen,
            last_activity: self.last_activity,
            bytes_rx: self.bytes_rx,
            bytes_tx: self.bytes_tx,
        }
    }
}

/// Some stream is of the given media kind.
pub open spec fn has_media(streams: Seq<RtpStreamModel>, kind: RtpMediaKind) -> bool {
    exists|i: int| 0 <= i < streams.len() && #[trigger] streams[i].media_kind == kind
}

/// The WebRTC conversation built from a UDP conversation, its STUN
/// negotiation key, its RTP streams and its count of DTLS application data
/// records.
pub open spec fn spec_build(
    c: &UdpConversation,
    negotiation_key: Seq<char>,
    streams: Seq<RtpStreamModel>,
    dtls_app_data_records: usize,
) -> WebRtcConversationModel {
    WebRtcConversationModel {
        session_key: L4Key {
            source_address: c.source_address,
            source_port: c.source_port,
            destination_address: c.destination_address,
            destination_port: c.destination_port,
        },
        negotiation_key,
        source_address: c.source_address,
        source_mac: opt_string_view(c.source_mac),
        source_port: c.source_port,
        destination_address: c.destination_address,
        desteination_mac: opt_string_view(c.destination_mac),
        destination_port: c.destination_port,
        has_rtp: streams.len() > 0,
        has_dtls: dtls_app_data_records > 0,
        has_audio: has_media(streams, RtpMediaKind::Audio),
        has_video: has_media(streams, RtpMediaKind::Video),
        stream_count: streams.len() as u16,
        rtp_streams: streams,
        dtls_app_data_records,
        first_seen: c.start_time,
        last_activity: c.most_recent_segment_time,
        bytes_rx: c.bytes_count_rx,
        bytes_tx: c.bytes_count_tx,
    }
}

fn any_media(streams: &Vec<RtpStream>, kind: RtpMediaKind) -> (res: bool)
    ensures
        res == has_media(streams_view(streams@), kind),
{
    let mut i: usize = 0;
    while i < streams.len()
        invariant
            i <= streams.len(),
            forall|k: int| 0 <= k < i ==> streams@[k].media_kind != kind,
        decreases streams.len() - i,
    {
        if streams[i].media_kind == kind {
            assert(streams_view(streams@)[i as int].media_kind == kind);
            return true;
        }
        i += 1;
    }
    assert forall|k: int| 0 <= k < streams_view(streams@).len() implies #[trigger] streams_view(streams@)[k].media_kind != kind by {
        assert(streams_view(streams@)[k] == streams@[k]@);
    }
    false
}

impl WebRtcConversation {
    /// Builds the WebRTC conversation of a UDP conversation; see
    /// `spec_build`.
    pub fn build(
        conversation: &UdpConversation,
        negotiation_key: String,
        rtp_streams: Vec<RtpStream>,
        dtls_app_data_records: usize,
    ) -> (res: WebRtcConversation)
        ensures
            res@ == spec_build(conversation, negotiation_key@, streams_view(rtp_streams@), dtls_app_data_records),
    {
        let has_rtp = rtp_streams.len() > 0;
        let has_dtls = dtls_app_data_records > 0;
        let has_audio = any_media(&rtp_streams, RtpMediaKind::Audio);
        let has_video = any_media(&rtp_streams, RtpMediaKind::Video);
        let stream_count = rtp_streams.len() as u16;

        let session_key = L4Key::new(
            conversation.source_address,
            conversation.source_port,
            conversation.destination_address,
            conversation.destination_port,
        );

        let res = WebRtcConversation {
            session_key,
            negotiation_key,
            source_address: conversation.source_address,
            source_mac: clone_opt_string(&conversation.source_mac),
            source_port: conversation.source_port,
            destination_address: conversation.destination_address,
            desteination_mac: clone_opt_string(&conversation.destination_mac),
            destination_port: conversation.destination_port,
            has_rtp,
            has_dtls,
            has_audio,
            has_video,
            stream_count,
            rtp_streams,
            dtls_app_data_records,
            first_seen: conversation.start_time,
            last_activity: conversation.most_recent_segment_time,
            bytes_rx: conversation.bytes_count_rx,
            bytes_tx: conversation.bytes_count_tx,
        };
        assert(res@ =~= spec_build(conversation, res.negotiation_key@, streams_view(res.rtp_streams@), dtls_app_data_records));
        res
    }
}


/// Size counted for each stream: the stream itself and its payload types.
pub open spec fn stream_sizes(streams: Seq<RtpStreamModel>) -> int
    decreases streams.len(),
{
    if streams.len() == 0 {
        0
    } else {
        stream_sizes(streams.drop_last()) + (size_of::<RtpStream>() as u32) as int
            + ((streams.last().payload_types.len() * size_of::<u8>()) as u32) as int
    }
}

/// Estimated in-memory size of a conversation: the struct, the bytes of
/// its negotiation key and source MAC, and its streams, each size taken
/// as a `u32`.
pub open spec fn spec_estimated_size(c: WebRtcConversationModel) -> int {
    (size_of::<WebRtcConversation>() as u32) as int + ((encode_utf8(c.negotiation_key).len() as usize) as u32) as int
        + match c.source_mac {
        Some(mac) => ((encode_utf8(mac).len() as usize) as u32) as int,
        None => 0,
    } + stream_sizes(c.rtp_streams)
}

impl WebRtcConversation {
    /// Estimated in-memory size of the conversation; see
    /// `spec_estimated_size`.
    pub fn estimate_struct_size(&self) -> (res: u32)
        requires
            spec_estimated_size(self@) <= u32::MAX,
        ensures
            res == spec_estimated_size(self@),
    {
        broadcast use vstd::layout::group_layout_axioms;

        let ghost streams = streams_view(self.rtp_streams@);
        proof {
            lemma_stream_sizes_prefix(streams, 0);
        }
        let mut size: u32 = core::mem::size_of::<Self>() as u32;
        size = size + self.negotiation_key.as_str().len() as u32;
        match &self.source_mac {
            Some(mac) => {
                size = size + mac.as_str().len() as u32;
            },
            None => {},
        }
        let ghost base = size as int;
        let mut i: usize = 0;
        while i < self.rtp_streams.len()
            invariant
                i <= self.rtp_streams.len(),
                streams == streams_view(self.rtp_streams@),
                size as int == base + stream_sizes(streams.take(i as int)),
                base + stream_sizes(streams) <= u32::MAX,
            decreases self.rtp_streams.len() - i,
        {
            proof {
                assert(streams.take(i + 1).drop_last() =~= streams.take(i as int));
                lemma_stream_sizes_prefix(streams, i + 1);
            }
            let stream = &self.rtp_streams[i];
            size = size + core::mem::size_of::<RtpStream>() as u32;
            size = size + (stream.payload_types.len() * core::mem::size_of::<u8>()) as u32;
            i += 1;
        }
        assert(streams.take(self.rtp_streams.len() as int) =~= streams);
        size
    }
}

proof fn lemma_stream_sizes_prefix(streams: Seq<RtpStreamModel>, n: int)
    requires
        0 <= n <= streams.len(),
    ensures
        0 <= stream_sizes(streams.take(n)) <= stream_sizes(streams),
    decreases streams.len(),
{
    if n < streams.len() {
        assert(streams.drop_last().take(n) =~= streams.take(n));
        lemma_stream_sizes_prefix(streams.drop_last(), n);
    } else {
        assert(streams.take(n) =~= streams);
        if streams.len() > 0 {
            let prev = streams.drop_last();
            lemma_stream_sizes_prefix(prev, prev.len() as int);
            assert(prev.take(prev.len() as int) =~= prev);
        }
    }
}

} // verus!
