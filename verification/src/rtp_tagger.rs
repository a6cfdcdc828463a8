use vstd::prelude::*;
use crate::datagrams::{lemma_payloads_prefix, payloads, total_bytes};

verus! {

/// Minimum number of packets a stream (and the whole flow) needs before it
/// is considered RTP.
pub const RTP_STREAM_MIN_PACKETS: usize = 3;

#[derive(Debug, Clone, Copy, PartialEq, Eq, Structural)]
pub enum RtpDirection {
    ClientToServer,
    ServerToClient,
}

#[derive(Debug, Clone, Copy, PartialEq, Eq, Structural)]
pub enum RtpMediaKind {
    Audio,
    Video,
    Unknown,
}

/// One fixed RTP header, as read off a datagram.
#[derive(Debug, Clone, Copy, PartialEq, Eq, Structural)]
pub struct RtpPacket {
    pub direction: RtpDirection,
    pub payload_type: u8,
    pub sequence: u16,
    pub timestamp: u32,
    pub ssrc: u32,
    pub marker: bool,
    pub payload_len: usize,
}

/// Big-endian value of two bytes.
pub open spec fn be_u16(b0: u8, b1: u8) -> u16 {
    (b0 as int * 256 + b1 as int) as u16
}

/// Big-endian value of four bytes.
pub open spec fn be_u32(b0: u8, b1: u8, b2: u8, b3: u8) -> u32 {
    (b0 as int * 16777216 + b1 as int * 65536 + b2 as int * 256 + b3 as int) as u32
}

/// Bytes 4..8 hold the STUN magic cookie, so the datagram is STUN, not RTP.
pub open spec fn has_stun_cookie(buf: Seq<u8>) -> bool {
    buf[4] == 0x21 && buf[5] == 0x12 && buf[6] == 0xA4 && buf[7] == 0x42
}

/// What `parse_rtp_packet` makes of a datagram.
pub open spec fn spec_parse_rtp_packet(buf: Seq<u8>, direction: RtpDirection) -> Option<RtpPacket> {
    if buf.len() < 12 {
        None
    } else if has_stun_cookie(buf) {
        None
    } else if 20 <= buf[0] <= 63 {
        None
    } else if buf[0] / 64 != 2 {
        None
    } else if 72 <= buf[1] % 128 <= 76 {
        None
    } else {
        Some(RtpPacket {
            direction,
            payload_type: (buf[1] % 128) as u8,
            sequence: be_u16(buf[2], buf[3]),
            timestamp: be_u32(buf[4], buf[5], buf[6], buf[7]),
            ssrc: be_u32(buf[8], buf[9], buf[10], buf[11]),
            marker: buf[1] >= 128,
            payload_len: (buf.len() - 12) as usize,
        })
    }
}

/// Reads the fixed 12-byte RTP header of a datagram. Rejects datagrams that
/// are too short, carry the STUN magic cookie, start like a DTLS record
/// (first byte 20..=63), are not RTP version 2, or carry an RTCP payload
/// type (72..=76).
pub fn parse_rtp_packet(buf: &[u8], direction: RtpDirection) -> (res: Option<RtpPacket>)
    ensures
        res == spec_parse_rtp_packet(buf@, direction),
{
    if buf.len() < 12 {
        return None;
    }
    if buf[4] == 0x21 && buf[5] == 0x12 && buf[6] == 0xA4 && buf[7] == 0x42 {
        return None;
    }
    let first = buf[0];
    if 20 <= first && first <= 63 {
        return None;
    }
    if first / 64 != 2 {
        return None;
    }
    let marker = buf[1] >= 128;
    let payload_type = buf[1] % 128;
    if 72 <= payload_type && payload_type <= 76 {
        return None;
    }
    let sequence: u16 = (buf[2] as u16) * 256 + (buf[3] as u16);
    let timestamp: u32 = (buf[4] as u32) * 16777216 + (buf[5] as u32) * 65536 + (buf[6] as u32) * 256
        + (buf[7] as u32);
    let ssrc: u32 = (buf[8] as u32) * 16777216 + (buf[9] as u32) * 65536 + (buf[10] as u32) * 256
        + (buf[11] as u32);
    Some(RtpPacket {
        direction,
        payload_type,
        sequence,
        timestamp,
        ssrc,
        marker,
        payload_len: buf.len() - 12,
    })
}


/// A stream as the tagger reports it, with its payload types as a sequence.
#[verifier::ext_equal]
pub struct RtpStreamModel {
    pub ssrc: u32,
    pub direction: RtpDirection,
    pub payload_types: Seq<u8>,
    pub packet_count: usize,
    pub byte_count: u64,
    pub media_kind: RtpMediaKind,
    pub estimated_lost: u32,
    pub sequence_min: u16,
    pub sequence_max: u16,
    pub timestamp_span: u32,
    pub marker_count: usize,
}

/// One RTP media stream (one SSRC) found in a flow.
#[derive(Debug, Clone, PartialEq, Eq)]
pub struct RtpStream {
    pub ssrc: u32,
    pub direction: RtpDirection,
    pub payload_types: Vec<u8>,
    pub packet_count: usize,
    pub byte_count: u64,
    /// Suspected type of media in the stream.
    pub media_kind: RtpMediaKind,
    /// Best effort estimate of lost packets from sequence number gaps.
    pub estimated_lost: u32,
    pub sequence_min: u16,
    pub sequence_max: u16,
    pub timestamp_span: u32,
    /// Packets with the marker bit set (video frame boundaries).
    pub marker_count: usize,
}

impl View for RtpStream {
    type V = RtpStreamModel;

    open spec fn view(&self) -> RtpStreamModel {
        RtpStreamModel {
            ssrc: self.ssrc,
            direction: self.direction,
            payload_types: self.payload_types@,
            packet_count: self.packet_count,
            byte_count: self.byte_count,
            media_kind: self.media_kind,
            estimated_lost: self.estimated_lost,
            sequence_min: self.sequence_min,
            sequence_max: self.sequence_max,
            timestamp_span: self.timestamp_span,
            marker_count: self.marker_count,
        }
    }
}

impl RtpStream {
    /// A copy of the stream.
    pub fn duplicate(&self) -> (res: RtpStream)
        ensures
            res@ == self@,
    {
        let payload_types = self.payload_types.clone();
        assert(payload_types@ =~= self.payload_types@);
        RtpStream {
            ssrc: self.ssrc,
            direction: self.direction,
            payload_types,
            packet_count: self.packet_count,
            byte_count: self.byte_count,
            media_kind: self.media_kind,
            estimated_lost: self.estimated_lost,
            sequence_min: self.sequence_min,
            sequence_max: self.sequence_max,
            timestamp_span: self.timestamp_span,
            marker_count: self.marker_count,
        }
    }
}

/// The models of a sequence of streams.
pub open spec fn streams_view(streams: Seq<RtpStream>) -> Seq<RtpStreamModel> {
    streams.map_values(|s: RtpStream| s@)
}

/// The RTP packets among `bufs`, in order.
pub open spec fn parse_all(bufs: Seq<Seq<u8>>, direction: RtpDirection) -> Seq<RtpPacket>
    decreases bufs.len(),
{
    if bufs.len() == 0 {
        Seq::empty()
    } else {
        let rest = parse_all(bufs.drop_last(), direction);
        match spec_parse_rtp_packet(bufs.last(), direction) {
            Some(p) => rest.push(p),
            None => rest,
        }
    }
}

/// All RTP packets of a flow: client-to-server ones first, then
/// server-to-client ones.
pub open spec fn flow_packets(c2s: Seq<Seq<u8>>, s2c: Seq<Seq<u8>>) -> Seq<RtpPacket> {
    parse_all(c2s, RtpDirection::ClientToServer) + parse_all(s2c, RtpDirection::ServerToClient)
}

/// The SSRCs of `ps`, each once, in order of first appearance.
pub open spec fn first_seen_ssrcs(ps: Seq<RtpPacket>) -> Seq<u32>
    decreases ps.len(),
{
    if ps.len() == 0 {
        Seq::empty()
    } else {
        let rest = first_seen_ssrcs(ps.drop_last());
        if rest.contains(ps.last().ssrc) {
            rest
        } else {
            rest.push(ps.last().ssrc)
        }
    }
}

/// The payload types of `ps`, each once, in order of first appearance.
pub open spec fn first_seen_payload_types(ps: Seq<RtpPacket>) -> Seq<u8>
    decreases ps.len(),
{
    if ps.len() == 0 {
        Seq::empty()
    } else {
        let rest = first_seen_payload_types(ps.drop_last());
        if rest.contains(ps.last().payload_type) {
            rest
        } else {
            rest.push(ps.last().payload_type)
        }
    }
}

/// The packets of `ps` that carry `ssrc`, in order.
pub open spec fn packets_with_ssrc(ps: Seq<RtpPacket>, ssrc: u32) -> Seq<RtpPacket>
    decreases ps.len(),
{
    if ps.len() == 0 {
        Seq::empty()
    } else {
        let rest = packets_with_ssrc(ps.drop_last(), ssrc);
        if ps.last().ssrc == ssrc {
            rest.push(ps.last())
        } else {
            rest
        }
    }
}

/// Sequence number distance from `a` forward to `b`, modulo 2^16.
pub open spec fn sequence_delta(a: u16, b: u16) -> int {
    (b as int - a as int) % 65536
}

/// Number of consecutive pairs in `ps` whose sequence number advances by
/// 1 to 100.
pub open spec fn advancing_steps(ps: Seq<RtpPacket>) -> nat
    decreases ps.len(),
{
    if ps.len() < 2 {
        0
    } else {
        let d = sequence_delta(ps[ps.len() - 2].sequence, ps.last().sequence);
        advancing_steps(ps.drop_last()) + if 1 <= d <= 100 { 1nat } else { 0nat }
    }
}

/// At least half of the consecutive pairs advance in sequence number.
pub open spec fn spec_sequences_advance(ps: Seq<RtpPacket>) -> bool {
    ps.len() >= 2 && advancing_steps(ps) * 2 >= ps.len() - 1
}

/// Inserts `p` into `s` after every element whose sequence number is not
/// above that of `p`.
pub open spec fn insert_by_sequence(s: Seq<RtpPacket>, p: RtpPacket) -> Seq<RtpPacket>
    decreases s.len(),
{
    if s.len() == 0 {
        seq![p]
    } else if s.last().sequence <= p.sequence {
        s.push(p)
    } else {
        insert_by_sequence(s.drop_last(), p).push(s.last())
    }
}

/// `ps` sorted by sequence number, packets with equal numbers kept in their
/// original order (a stable sort).
pub open spec fn sort_by_sequence(ps: Seq<RtpPacket>) -> Seq<RtpPacket>
    decreases ps.len(),
{
    if ps.len() == 0 {
        Seq::empty()
    } else {
        insert_by_sequence(sort_by_sequence(ps.drop_last()), ps.last())
    }
}

/// Sum of the payload lengths of `ps`.
pub open spec fn payload_bytes(ps: Seq<RtpPacket>) -> nat
    decreases ps.len(),
{
    if ps.len() == 0 {
        0
    } else {
        payload_bytes(ps.drop_last()) + ps.last().payload_len as nat
    }
}

/// Number of packets of `ps` with the marker bit set.
pub open spec fn marker_packets(ps: Seq<RtpPacket>) -> nat
    decreases ps.len(),
{
    if ps.len() == 0 {
        0
    } else {
        marker_packets(ps.drop_last()) + if ps.last().marker { 1nat } else { 0nat }
    }
}

pub open spec fn min_sequence(ps: Seq<RtpPacket>) -> u16
    decreases ps.len(),
{
    if ps.len() <= 1 {
        ps[0].sequence
    } else {
        let m = min_sequence(ps.drop_last());
        if ps.last().sequence < m { ps.last().sequence } else { m }
    }
}

pub open spec fn max_sequence(ps: Seq<RtpPacket>) -> u16
    decreases ps.len(),
{
    if ps.len() <= 1 {
        ps[0].sequence
    } else {
        let m = max_sequence(ps.drop_last());
        if ps.last().sequence > m { ps.last().sequence } else { m }
    }
}

pub open spec fn min_timestamp(ps: Seq<RtpPacket>) -> u32
    decreases ps.len(),
{
    if ps.len() <= 1 {
        ps[0].timestamp
    } else {
        let m = min_timestamp(ps.drop_last());
        if ps.last().timestamp < m { ps.last().timestamp } else { m }
    }
}

pub open spec fn max_timestamp(ps: Seq<RtpPacket>) -> u32
    decreases ps.len(),
{
    if ps.len() <= 1 {
        ps[0].timestamp
    } else {
        let m = max_timestamp(ps.drop_last());
        if ps.last().timestamp > m { ps.last().timestamp } else { m }
    }
}

/// Direction of the earliest packet among those with the lowest sequence
/// number (the first packet once the stream is sorted by sequence).
pub open spec fn lead_direction(ps: Seq<RtpPacket>) -> RtpDirection
    decreases ps.len(),
{
    if ps.len() <= 1 {
        ps[0].direction
    } else if ps.last().sequence < min_sequence(ps.drop_last()) {
        ps.last().direction
    } else {
        lead_direction(ps.drop_last())
    }
}

/// Media kind from the marker ratio and the mean payload size: a marker
/// ratio of at least 5% means video; no markers at all means audio; a few
/// markers with a mean payload of at least 600 bytes means video.
pub open spec fn spec_classify_media(mean_payload: u64, marker_count: usize, packet_count: usize) -> RtpMediaKind {
    if packet_count > 0 && 20 * marker_count >= packet_count {
        RtpMediaKind::Video
    } else if marker_count == 0 {
        RtpMediaKind::Audio
    } else if mean_payload >= 600 {
        RtpMediaKind::Video
    } else {
        RtpMediaKind::Audio
    }
}

/// Expected packets over the sequence span, minus the packets seen,
/// saturating at zero.
pub open spec fn estimated_loss(sequence_min: u16, sequence_max: u16, packet_count: usize) -> u32 {
    let expected = sequence_max as int - sequence_min as int + 1;
    let seen = (packet_count as u32) as int;
    if expected - seen < 0 { 0 } else { (expected - seen) as u32 }
}

/// The summary of the packets of one SSRC.
pub open spec fn stream_model(ssrc: u32, group: Seq<RtpPacket>) -> RtpStreamModel {
    let packet_count = group.len() as usize;
    let byte_count = payload_bytes(group) as u64;
    let marker_count = marker_packets(group) as usize;
    RtpStreamModel {
        ssrc,
        direction: lead_direction(group),
        payload_types: first_seen_payload_types(sort_by_sequence(group)),
        packet_count,
        byte_count,
        media_kind: spec_classify_media((byte_count / (packet_count as u64)) as u64, marker_count, packet_count),
        estimated_lost: estimated_loss(min_sequence(group), max_sequence(group), packet_count),
        sequence_min: min_sequence(group),
        sequence_max: max_sequence(group),
        timestamp_span: (max_timestamp(group) - min_timestamp(group)) as u32,
        marker_count,
    }
}

/// A group of packets counts as a stream when it has enough packets and its
/// sequence numbers advance.
pub open spec fn stream_kept(group: Seq<RtpPacket>) -> bool {
    group.len() >= RTP_STREAM_MIN_PACKETS && spec_sequences_advance(group)
}

/// The streams of `ps`, one per SSRC of `ssrcs` whose group is kept, in the
/// order of `ssrcs`.
pub open spec fn flow_streams(ps: Seq<RtpPacket>, ssrcs: Seq<u32>) -> Seq<RtpStreamModel>
    decreases ssrcs.len(),
{
    if ssrcs.len() == 0 {
        Seq::empty()
    } else {
        let rest = flow_streams(ps, ssrcs.drop_last());
        let group = packets_with_ssrc(ps, ssrcs.last());
        if stream_kept(group) {
            rest.push(stream_model(ssrcs.last(), group))
        } else {
            rest
        }
    }
}

/// What `tag` finds in a flow: nothing when it holds fewer than three RTP
/// packets or no SSRC group qualifies as a stream, else the streams in order
/// of first appearance of their SSRC.
pub open spec fn spec_tag(c2s: Seq<Seq<u8>>, s2c: Seq<Seq<u8>>) -> Option<Seq<RtpStreamModel>> {
    let ps = flow_packets(c2s, s2c);
    if ps.len() < RTP_STREAM_MIN_PACKETS {
        None
    } else {
        let streams = flow_streams(ps, first_seen_ssrcs(ps));
        if streams.len() == 0 { None } else { Some(streams) }
    }
}


proof fn lemma_insert_by_sequence(s: Seq<RtpPacket>, p: RtpPacket, j: int)
    requires
        0 <= j <= s.len(),
        j == 0 || s[j - 1].sequence <= p.sequence,
        forall|k: int| j <= k < s.len() ==> s[k].sequence > p.sequence,
    ensures
        insert_by_sequence(s, p) == s.insert(j, p),
    decreases s.len(),
{
    if s.len() == 0 {
        assert(s.insert(j, p) =~= seq![p]);
    } else if j == s.len() {
        assert(s.insert(j, p) =~= s.push(p));
    } else {
        lemma_insert_by_sequence(s.drop_last(), p, j);
        assert(s.insert(j, p) =~= s.drop_last().insert(j, p).push(s.last()));
    }
}

proof fn lemma_payload_bytes_concat(a: Seq<RtpPacket>, b: Seq<RtpPacket>)
    ensures
        payload_bytes(a + b) == payload_bytes(a) + payload_bytes(b),
    decreases b.len(),
{
    if b.len() > 0 {
        lemma_payload_bytes_concat(a, b.drop_last());
        assert((a + b).drop_last() =~= a + b.drop_last());
    } else {
        assert(a + b =~= a);
    }
}

proof fn lemma_parse_all_bytes(bufs: Seq<Seq<u8>>, direction: RtpDirection)
    ensures
        payload_bytes(parse_all(bufs, direction)) <= total_bytes(bufs),
    decreases bufs.len(),
{
    if bufs.len() > 0 {
        lemma_parse_all_bytes(bufs.drop_last(), direction);
        let rest = parse_all(bufs.drop_last(), direction);
        match spec_parse_rtp_packet(bufs.last(), direction) {
            Some(p) => {
                assert(rest.push(p).drop_last() =~= rest);
            },
            None => {},
        }
    }
}

proof fn lemma_group_bytes(ps: Seq<RtpPacket>, ssrc: u32)
    ensures
        payload_bytes(packets_with_ssrc(ps, ssrc)) <= payload_bytes(ps),
    decreases ps.len(),
{
    if ps.len() > 0 {
        lemma_group_bytes(ps.drop_last(), ssrc);
        let rest = packets_with_ssrc(ps.drop_last(), ssrc);
        assert(rest.push(ps.last()).drop_last() =~= rest);
    }
}

proof fn lemma_prefix_bytes(ps: Seq<RtpPacket>, i: int)
    requires
        0 <= i <= ps.len(),
    ensures
        payload_bytes(ps.take(i)) <= payload_bytes(ps),
    decreases ps.len(),
{
    if i == ps.len() {
        assert(ps.take(i) =~= ps);
    } else {
        lemma_prefix_bytes(ps.drop_last(), i);
        assert(ps.drop_last().take(i) =~= ps.take(i));
    }
}

proof fn lemma_timestamp_bounds(ps: Seq<RtpPacket>)
    requires
        ps.len() > 0,
    ensures
        min_timestamp(ps) <= max_timestamp(ps),
    decreases ps.len(),
{
    if ps.len() > 1 {
        lemma_timestamp_bounds(ps.drop_last());
    }
}

proof fn lemma_sequence_bounds(ps: Seq<RtpPacket>)
    requires
        ps.len() > 0,
    ensures
        min_sequence(ps) <= max_sequence(ps),
    decreases ps.len(),
{
    if ps.len() > 1 {
        lemma_sequence_bounds(ps.drop_last());
    }
}

/// Whether at least half of the consecutive packet pairs advance their
/// sequence number by 1 to 100 (modulo 2^16).
pub fn sequences_advance(group: &[RtpPacket]) -> (res: bool)
    ensures
        res == spec_sequences_advance(group@),
{
    if group.len() < 2 {
        return false;
    }
    let mut advancing: usize = 0;
    let mut i: usize = 1;
    while i < group.len()
        invariant
            1 <= i <= group.len(),
            advancing == advancing_steps(group@.take(i as int)),
            advancing <= i - 1,
        decreases group.len() - i,
    {
        let delta: u16 = group[i].sequence.wrapping_sub(group[i - 1].sequence);
        proof {
            let t = group@.take(i + 1);
            assert(t.drop_last() =~= group@.take(i as int));
            assert(delta as int == sequence_delta(group[i - 1].sequence, group[i as int].sequence));
        }
        if 1 <= delta && delta <= 100 {
            advancing += 1;
        }
        i += 1;
    }
    assert(group@.take(group.len() as int) =~= group@);
    advancing >= (group.len() - 1) - advancing
}

/// Media kind of a stream; see `spec_classify_media`.
pub fn classify_media(mean_payload: u64, marker_count: usize, packet_count: usize) -> (res: RtpMediaKind)
    ensures
        res == spec_classify_media(mean_payload, marker_count, packet_count),
{
    if packet_count > 0 && (marker_count as u128) * 20 >= packet_count as u128 {
        RtpMediaKind::Video
    } else if marker_count == 0 {
        RtpMediaKind::Audio
    } else if mean_payload >= 600 {
        RtpMediaKind::Video
    } else {
        RtpMediaKind::Audio
    }
}

fn contains_u32(v: &Vec<u32>, x: u32) -> (res: bool)
    ensures
        res == v@.contains(x),
{
    let mut i: usize = 0;
    while i < v.len()
        invariant
            i <= v.len(),
            forall|k: int| 0 <= k < i ==> v@[k] != x,
        decreases v.len() - i,
    {
        if v[i] == x {
            return true;
        }
        i += 1;
    }
    false
}

fn contains_u8(v: &Vec<u8>, x: u8) -> (res: bool)
    ensures
        res == v@.contains(x),
{
    let mut i: usize = 0;
    while i < v.len()
        invariant
            i <= v.len(),
            forall|k: int| 0 <= k < i ==> v@[k] != x,
        decreases v.len() - i,
    {
        if v[i] == x {
            return true;
        }
        i += 1;
    }
    false
}

fn sorted_by_sequence(group: &Vec<RtpPacket>) -> (res: Vec<RtpPacket>)
    ensures
        res@ == sort_by_sequence(group@),
{
    let mut sorted: Vec<RtpPacket> = Vec::new();
    let mut i: usize = 0;
    while i < group.len()
        invariant
            i <= group.len(),
            sorted@ == sort_by_sequence(group@.take(i as int)),
        decreases group.len() - i,
    {
        let p = group[i];
        let mut j: usize = sorted.len();
        while j > 0 && sorted[j - 1].sequence > p.sequence
            invariant
                j <= sorted.len(),
                forall|k: int| j <= k < sorted.len() ==> sorted@[k].sequence > p.sequence,
            decreases j,
        {
            j -= 1;
        }
        proof {
            lemma_insert_by_sequence(sorted@, p, j as int);
            assert(group@.take(i + 1).drop_last() =~= group@.take(i as int));
        }
        sorted.insert(j, p);
        i += 1;
    }
    assert(group@.take(group.len() as int) =~= group@);
    sorted
}

fn distinct_payload_types(ps: &Vec<RtpPacket>) -> (res: Vec<u8>)
    ensures
        res@ == first_seen_payload_types(ps@),
{
    let mut types: Vec<u8> = Vec::new();
    let mut i: usize = 0;
    while i < ps.len()
        invariant
            i <= ps.len(),
            types@ == first_seen_payload_types(ps@.take(i as int)),
        decreases ps.len() - i,
    {
        proof {
            assert(ps@.take(i + 1).drop_last() =~= ps@.take(i as int));
        }
        if !contains_u8(&types, ps[i].payload_type) {
            types.push(ps[i].payload_type);
        }
        i += 1;
    }
    assert(ps@.take(ps.len() as int) =~= ps@);
    types
}

fn sum_payload(ps: &Vec<RtpPacket>) -> (res: u64)
    requires
        payload_bytes(ps@) <= u64::MAX,
    ensures
        res == payload_bytes(ps@),
{
    let mut sum: u64 = 0;
    let mut i: usize = 0;
    while i < ps.len()
        invariant
            i <= ps.len(),
            sum == payload_bytes(ps@.take(i as int)),
            payload_bytes(ps@) <= u64::MAX,
        decreases ps.len() - i,
    {
        proof {
            assert(ps@.take(i + 1).drop_last() =~= ps@.take(i as int));
            lemma_prefix_bytes(ps@, i + 1);
        }
        sum = sum + ps[i].payload_len as u64;
        i += 1;
    }
    assert(ps@.take(ps.len() as int) =~= ps@);
    sum
}

fn count_markers(ps: &Vec<RtpPacket>) -> (res: usize)
    ensures
        res == marker_packets(ps@),
{
    let mut count: usize = 0;
    let mut i: usize = 0;
    while i < ps.len()
        invariant
            i <= ps.len(),
            count == marker_packets(ps@.take(i as int)),
            count <= i,
        decreases ps.len() - i,
    {
        proof {
            assert(ps@.take(i + 1).drop_last() =~= ps@.take(i as int));
        }
        if ps[i].marker {
            count += 1;
        }
        i += 1;
    }
    assert(ps@.take(ps.len() as int) =~= ps@);
    count
}

/// Lowest and highest sequence number of a non-empty group, and the lead
/// direction.
fn sequence_bounds(ps: &Vec<RtpPacket>) -> (res: (u16, u16, RtpDirection))
    requires
        ps.len() > 0,
    ensures
        res.0 == min_sequence(ps@),
        res.1 == max_sequence(ps@),
        res.2 == lead_direction(ps@),
{
    let mut lo = ps[0].sequence;
    let mut hi = ps[0].sequence;
    let mut dir = ps[0].direction;
    let mut i: usize = 1;
    while i < ps.len()
        invariant
            1 <= i <= ps.len(),
            lo == min_sequence(ps@.take(i as int)),
            hi == max_sequence(ps@.take(i as int)),
            dir == lead_direction(ps@.take(i as int)),
        decreases ps.len() - i,
    {
        proof {
            assert(ps@.take(i + 1).drop_last() =~= ps@.take(i as int));
        }
        let p = ps[i];
        if p.sequence < lo {
            lo = p.sequence;
            dir = p.direction;
        }
        if p.sequence > hi {
            hi = p.sequence;
        }
        i += 1;
    }
    assert(ps@.take(ps.len() as int) =~= ps@);
    (lo, hi, dir)
}

fn timestamp_bounds(ps: &Vec<RtpPacket>) -> (res: (u32, u32))
    requires
        ps.len() > 0,
    ensures
        res.0 == min_timestamp(ps@),
        res.1 == max_timestamp(ps@),
{
    let mut lo = ps[0].timestamp;
    let mut hi = ps[0].timestamp;
    let mut i: usize = 1;
    while i < ps.len()
        invariant
            1 <= i <= ps.len(),
            lo == min_timestamp(ps@.take(i as int)),
            hi == max_timestamp(ps@.take(i as int)),
        decreases ps.len() - i,
    {
        proof {
            assert(ps@.take(i + 1).drop_last() =~= ps@.take(i as int));
        }
        let p = ps[i];
        if p.timestamp < lo {
            lo = p.timestamp;
        }
        if p.timestamp > hi {
            hi = p.timestamp;
        }
        i += 1;
    }
    assert(ps@.take(ps.len() as int) =~= ps@);
    (lo, hi)
}

/// Summarizes the packets of one SSRC into a stream.
fn summarize_group(ssrc: u32, group: &Vec<RtpPacket>) -> (res: RtpStream)
    requires
        group.len() > 0,
        payload_bytes(group@) <= u64::MAX,
    ensures
        res@ == stream_model(ssrc, group@),
{
    let packet_count = group.len();
    let byte_count = sum_payload(group);
    let marker_count = count_markers(group);
    let (sequence_min, sequence_max, direction) = sequence_bounds(group);
    let (ts_min, ts_max) = timestamp_bounds(group);
    proof {
        lemma_sequence_bounds(group@);
        lemma_timestamp_bounds(group@);
    }
    let sorted = sorted_by_sequence(group);
    let payload_types = distinct_payload_types(&sorted);

    let span = sequence_max.wrapping_sub(sequence_min) as u32;
    let estimated_lost = span.saturating_add(1).saturating_sub(packet_count as u32);
    let timestamp_span = ts_max.wrapping_sub(ts_min);
    let mean_payload = byte_count / packet_count as u64;
    let media_kind = classify_media(mean_payload, marker_count, packet_count);

    let res = RtpStream {
        ssrc,
        direction,
        payload_types,
        packet_count,
        byte_count,
        media_kind,
        estimated_lost,
        sequence_min,
        sequence_max,
        timestamp_span,
        marker_count,
    };
    assert(res@ =~= stream_model(ssrc, group@));
    res
}

fn collect_ssrc(ps: &Vec<RtpPacket>, ssrc: u32) -> (res: Vec<RtpPacket>)
    ensures
        res@ == packets_with_ssrc(ps@, ssrc),
{
    let mut group: Vec<RtpPacket> = Vec::new();
    let mut i: usize = 0;
    while i < ps.len()
        invariant
            i <= ps.len(),
            group@ == packets_with_ssrc(ps@.take(i as int), ssrc),
        decreases ps.len() - i,
    {
        proof {
            assert(ps@.take(i + 1).drop_last() =~= ps@.take(i as int));
        }
        if ps[i].ssrc == ssrc {
            group.push(ps[i]);
        }
        i += 1;
    }
    assert(ps@.take(ps.len() as int) =~= ps@);
    group
}

fn parse_direction(bufs: &[Vec<u8>], direction: RtpDirection, packets: &mut Vec<RtpPacket>)
    ensures
        final(packets)@ == old(packets)@ + parse_all(payloads(bufs@), direction),
{
    let ghost start = packets@;
    let ghost view = payloads(bufs@);
    let mut i: usize = 0;
    while i < bufs.len()
        invariant
            i <= bufs.len(),
            view == payloads(bufs@),
            packets@ == start + parse_all(view.take(i as int), direction),
        decreases bufs.len() - i,
    {
        proof {
            lemma_payloads_prefix(bufs@, i as int);
        }
        let ghost before = packets@;
        match parse_rtp_packet(bufs[i].as_slice(), direction) {
            Some(p) => {
                packets.push(p);
                assert(packets@ =~= start + parse_all(view.take(i + 1), direction));
            },
            None => {},
        }
        i += 1;
    }
    assert(view.take(bufs.len() as int) =~= view);
}

/// Finds the RTP media streams of a UDP flow from its recent datagrams in
/// both directions: packets are grouped by SSRC, and a group is reported
/// as a stream when it holds at least three packets whose sequence numbers
/// mostly advance.
pub fn tag(c2s: &[Vec<u8>], s2c: &[Vec<u8>]) -> (res: Option<Vec<RtpStream>>)
    requires
        total_bytes(payloads(c2s@)) + total_bytes(payloads(s2c@)) <= u64::MAX,
    ensures
        match spec_tag(payloads(c2s@), payloads(s2c@)) {
            None => res is None,
            Some(streams) => res is Some && streams_view(res->0@) == streams,
        },
{
    let mut packets: Vec<RtpPacket> = Vec::new();
    parse_direction(c2s, RtpDirection::ClientToServer, &mut packets);
    parse_direction(s2c, RtpDirection::ServerToClient, &mut packets);
    proof {
        assert(packets@ =~= flow_packets(payloads(c2s@), payloads(s2c@)));
        lemma_parse_all_bytes(payloads(c2s@), RtpDirection::ClientToServer);
        lemma_parse_all_bytes(payloads(s2c@), RtpDirection::ServerToClient);
        lemma_payload_bytes_concat(
            parse_all(payloads(c2s@), RtpDirection::ClientToServer),
            parse_all(payloads(s2c@), RtpDirection::ServerToClient),
        );
    }

    if packets.len() < RTP_STREAM_MIN_PACKETS {
        return None;
    }

    // Group by SSRC. Each SSRC is one media stream.
    let mut ssrcs: Vec<u32> = Vec::new();
    let mut i: usize = 0;
    while i < packets.len()
        invariant
            i <= packets.len(),
            ssrcs@ == first_seen_ssrcs(packets@.take(i as int)),
        decreases packets.len() - i,
    {
        proof {
            assert(packets@.take(i + 1).drop_last() =~= packets@.take(i as int));
        }
        if !contains_u32(&ssrcs, packets[i].ssrc) {
            ssrcs.push(packets[i].ssrc);
        }
        i += 1;
    }
    assert(packets@.take(packets.len() as int) =~= packets@);

    let mut streams: Vec<RtpStream> = Vec::new();
    let mut k: usize = 0;
    while k < ssrcs.len()
        invariant
            k <= ssrcs.len(),
            payload_bytes(packets@) <= u64::MAX,
            streams_view(streams@) == flow_streams(packets@, ssrcs@.take(k as int)),
        decreases ssrcs.len() - k,
    {
        let ssrc = ssrcs[k];
        let group = collect_ssrc(&packets, ssrc);
        proof {
            lemma_group_bytes(packets@, ssrc);
            assert(ssrcs@.take(k + 1).drop_last() =~= ssrcs@.take(k as int));
        }
        let ghost before = streams@;
        if group.len() >= RTP_STREAM_MIN_PACKETS && sequences_advance(group.as_slice()) {
            let stream = summarize_group(ssrc, &group);
            streams.push(stream);
            assert(streams_view(streams@) =~= streams_view(before).push(stream@));
        }
        k += 1;
    }
    assert(ssrcs@.take(ssrcs.len() as int) =~= ssrcs@);

    if streams.len() == 0 {
        None
    } else {
        Some(streams)
    }
}

/// Index of the last of the streams with the highest byte count.
pub open spec fn heaviest_index(streams: Seq<RtpStreamModel>) -> int
    decreases streams.len(),
{
    if streams.len() <= 1 {
        0
    } else {
        let b = heaviest_index(streams.drop_last());
        if streams.last().byte_count >= streams[b].byte_count {
            streams.len() - 1
        } else {
            b
        }
    }
}

/// Direction of the stream carrying the most bytes (the last such stream
/// when several tie); `None` without streams.
pub open spec fn spec_dominant_direction(streams: Seq<RtpStreamModel>) -> Option<RtpDirection> {
    if streams.len() == 0 {
        None
    } else {
        Some(streams[heaviest_index(streams)].direction)
    }
}

/// `i` indexes the last of the streams with the highest byte count.
pub open spec fn is_last_heaviest(streams: Seq<RtpStreamModel>, i: int) -> bool {
    &&& 0 <= i < streams.len()
    &&& forall|j: int| 0 <= j < streams.len() ==> streams[j].byte_count <= streams[i].byte_count
    &&& forall|j: int| i < j < streams.len() ==> streams[j].byte_count < streams[i].byte_count
}

/// The dominant stream is the last of the streams with the highest byte
/// count.
pub proof fn lemma_heaviest_index(streams: Seq<RtpStreamModel>)
    requires
        streams.len() > 0,
    ensures
        is_last_heaviest(streams, heaviest_index(streams)),
    decreases streams.len(),
{
    if streams.len() > 1 {
        let prev = streams.drop_last();
        lemma_heaviest_index(prev);
        let b = heaviest_index(prev);
        assert(streams[b] == prev[b]);
        assert forall|j: int| 0 <= j < prev.len() implies #[trigger] streams[j] == prev[j] by {}
    }
}

/// Direction of the stream that carries the most bytes (the last such
/// stream when several tie), or `None` for no streams.
pub fn dominant_direction(streams: &[RtpStream]) -> (res: Option<RtpDirection>)
    ensures
        res == spec_dominant_direction(streams_view(streams@)),
{
    let ghost view = streams_view(streams@);
    if streams.len() == 0 {
        return None;
    }
    let mut best: usize = 0;
    let mut i: usize = 1;
    assert(heaviest_index(view.take(1)) == 0);
    while i < streams.len()
        invariant
            1 <= i <= streams.len(),
            view == streams_view(streams@),
            best as int == heaviest_index(view.take(i as int)),
            best < i,
        decreases streams.len() - i,
    {
        assert(view.take(i + 1).drop_last() =~= view.take(i as int));
        assert(view.take(i + 1)[best as int] == view[best as int]);
        if streams[i].byte_count >= streams[best].byte_count {
            best = i;
        }
        i += 1;
    }
    assert(view.take(streams.len() as int) =~= view);
    Some(streams[best].direction)
}

proof fn lemma_first_seen_ssrcs(ps: Seq<RtpPacket>)
    ensures
        first_seen_ssrcs(ps).no_duplicates(),
        forall|x: u32| first_seen_ssrcs(ps).contains(x) ==> exists|k: int| 0 <= k < ps.len() && ps[k].ssrc == x,
    decreases ps.len(),
{
    if ps.len() > 0 {
        lemma_first_seen_ssrcs(ps.drop_last());
        let rest = first_seen_ssrcs(ps.drop_last());
        if !rest.contains(ps.last().ssrc) {
            let r = rest.push(ps.last().ssrc);
            assert forall|x: u32| r.contains(x) implies exists|k: int| 0 <= k < ps.len() && ps[k].ssrc == x by {
                if x == ps.last().ssrc {
                    assert(ps[ps.len() - 1].ssrc == x);
                } else {
                    assert(rest.contains(x));
                    let k = choose|k: int| 0 <= k < ps.drop_last().len() && ps.drop_last()[k].ssrc == x;
                    assert(ps[k].ssrc == x);
                }
            }
        }
    }
}

proof fn lemma_group_len(ps: Seq<RtpPacket>, ssrc: u32)
    ensures
        packets_with_ssrc(ps, ssrc).len() <= ps.len(),
        forall|k: int| 0 <= k < packets_with_ssrc(ps, ssrc).len() ==> #[trigger] packets_with_ssrc(ps, ssrc)[k].ssrc == ssrc,
    decreases ps.len(),
{
    if ps.len() > 0 {
        lemma_group_len(ps.drop_last(), ssrc);
    }
}

proof fn lemma_markers_bounded(ps: Seq<RtpPacket>)
    ensures
        marker_packets(ps) <= ps.len(),
    decreases ps.len(),
{
    if ps.len() > 0 {
        lemma_markers_bounded(ps.drop_last());
    }
}

proof fn lemma_flow_streams(ps: Seq<RtpPacket>, ssrcs: Seq<u32>)
    requires
        ssrcs.no_duplicates(),
        ps.len() <= usize::MAX,
    ensures
        forall|i: int| 0 <= i < flow_streams(ps, ssrcs).len() ==> ssrcs.contains(#[trigger] flow_streams(ps, ssrcs)[i].ssrc),
        forall|i: int, j: int| 0 <= i < j < flow_streams(ps, ssrcs).len()
            ==> #[trigger] flow_streams(ps, ssrcs)[i].ssrc != #[trigger] flow_streams(ps, ssrcs)[j].ssrc,
        forall|i: int| 0 <= i < flow_streams(ps, ssrcs).len() ==> {
            let s = #[trigger] flow_streams(ps, ssrcs)[i];
            &&& s.packet_count >= RTP_STREAM_MIN_PACKETS
            &&& s.marker_count <= s.packet_count
            &&& s.sequence_min <= s.sequence_max
            &&& s.estimated_lost <= s.sequence_max - s.sequence_min + 1
        },
    decreases ssrcs.len(),
{
    if ssrcs.len() > 0 {
        let prev = ssrcs.drop_last();
        assert(prev.no_duplicates());
        lemma_flow_streams(ps, prev);
        let rest = flow_streams(ps, prev);
        let group = packets_with_ssrc(ps, ssrcs.last());
        lemma_group_len(ps, ssrcs.last());
        assert forall|i: int| 0 <= i < rest.len() implies ssrcs.contains(#[trigger] rest[i].ssrc)
            && rest[i].ssrc != ssrcs.last() by {
            let k = choose|k: int| 0 <= k < prev.len() && prev[k] == rest[i].ssrc;
            assert(ssrcs[k] == rest[i].ssrc);
            assert(ssrcs[ssrcs.len() - 1] == ssrcs.last());
        }
        if stream_kept(group) {
            lemma_markers_bounded(group);
            lemma_sequence_bounds(group);
            let m = stream_model(ssrcs.last(), group);
            assert(ssrcs[ssrcs.len() - 1] == ssrcs.last());
            assert(rest.push(m)[rest.len() as int] == m);
        }
    }
}

/// Every stream that `tag` reports has at least three packets, no more
/// marked packets than packets, a sequence range that is not inverted and
/// a loss estimate within that range, and no two streams share an SSRC.
pub proof fn lemma_tag_streams_well_formed(c2s: Seq<Seq<u8>>, s2c: Seq<Seq<u8>>)
    requires
        c2s.len() + s2c.len() <= usize::MAX,
    ensures
        spec_tag(c2s, s2c) matches Some(streams) ==> {
            &&& streams.len() > 0
            &&& forall|i: int| 0 <= i < streams.len() ==> {
                let s = #[trigger] streams[i];
                &&& s.packet_count >= RTP_STREAM_MIN_PACKETS
                &&& s.marker_count <= s.packet_count
                &&& s.sequence_min <= s.sequence_max
                &&& s.estimated_lost <= s.sequence_max - s.sequence_min + 1
            }
            &&& forall|i: int, j: int| 0 <= i < j < streams.len() ==> #[trigger] streams[i].ssrc != #[trigger] streams[j].ssrc
        },
{
    let ps = flow_packets(c2s, s2c);
    lemma_parse_all_len(c2s, RtpDirection::ClientToServer);
    lemma_parse_all_len(s2c, RtpDirection::ServerToClient);
    lemma_first_seen_ssrcs(ps);
    lemma_flow_streams(ps, first_seen_ssrcs(ps));
}

proof fn lemma_parse_all_len(bufs: Seq<Seq<u8>>, direction: RtpDirection)
    ensures
        parse_all(bufs, direction).len() <= bufs.len(),
    decreases bufs.len(),
{
    if bufs.len() > 0 {
        lemma_parse_all_len(bufs.drop_last(), direction);
    }
}

proof fn lemma_parse_all_concat(a: Seq<Seq<u8>>, b: Seq<Seq<u8>>, direction: RtpDirection)
    ensures
        parse_all(a + b, direction) == parse_all(a, direction) + parse_all(b, direction),
    decreases b.len(),
{
    if b.len() == 0 {
        assert(a + b =~= a);
        assert(parse_all(a, direction) + parse_all(b, direction) =~= parse_all(a, direction));
    } else {
        lemma_parse_all_concat(a, b.drop_last(), direction);
        assert((a + b).drop_last() =~= a + b.drop_last());
        assert((a + b).last() == b.last());
        match spec_parse_rtp_packet(b.last(), direction) {
            Some(p) => {
                assert(parse_all(a, direction) + parse_all(b.drop_last(), direction).push(p)
                    =~= (parse_all(a, direction) + parse_all(b.drop_last(), direction)).push(p));
            },
            None => {},
        }
    }
}

/// Datagrams that are not RTP never change what `tag` finds: dropping one
/// into either direction, at any position, gives the same result.
pub proof fn lemma_tag_ignores_non_rtp(c2s_before: Seq<Seq<u8>>, c2s_after: Seq<Seq<u8>>, s2c_before: Seq<Seq<u8>>, s2c_after: Seq<Seq<u8>>, d: Seq<u8>)
    requires
        spec_parse_rtp_packet(d, RtpDirection::ClientToServer) is None,
    ensures
        spec_tag(c2s_before + seq![d] + c2s_after, s2c_before + s2c_after)
            == spec_tag(c2s_before + c2s_after, s2c_before + s2c_after),
        spec_tag(c2s_before + c2s_after, s2c_before + seq![d] + s2c_after)
            == spec_tag(c2s_before + c2s_after, s2c_before + s2c_after),
{
    assert(spec_parse_rtp_packet(d, RtpDirection::ServerToClient) is None);
    let one = seq![d];
    assert(one.drop_last() =~= Seq::<Seq<u8>>::empty());
    assert(one.last() == d);
    assert(parse_all(Seq::<Seq<u8>>::empty(), RtpDirection::ClientToServer) =~= Seq::<RtpPacket>::empty());
    assert(parse_all(Seq::<Seq<u8>>::empty(), RtpDirection::ServerToClient) =~= Seq::<RtpPacket>::empty());
    assert(parse_all(one, RtpDirection::ClientToServer) =~= Seq::<RtpPacket>::empty());
    assert(parse_all(one, RtpDirection::ServerToClient) =~= Seq::<RtpPacket>::empty());
    lemma_parse_all_concat(c2s_before, one, RtpDirection::ClientToServer);
    lemma_parse_all_concat(c2s_before + one, c2s_after, RtpDirection::ClientToServer);
    lemma_parse_all_concat(c2s_before, c2s_after, RtpDirection::ClientToServer);
    lemma_parse_all_concat(s2c_before, one, RtpDirection::ServerToClient);
    lemma_parse_all_concat(s2c_before + one, s2c_after, RtpDirection::ServerToClient);
    lemma_parse_all_concat(s2c_before, s2c_after, RtpDirection::ServerToClient);
    assert(parse_all(c2s_before, RtpDirection::ClientToServer) + Seq::<RtpPacket>::empty()
        =~= parse_all(c2s_before, RtpDirection::ClientToServer));
    assert(parse_all(s2c_before, RtpDirection::ServerToClient) + Seq::<RtpPacket>::empty()
        =~= parse_all(s2c_before, RtpDirection::ServerToClient));
    assert(flow_packets(c2s_before + one + c2s_after, s2c_before + s2c_after)
        == flow_packets(c2s_before + c2s_after, s2c_before + s2c_after));
    assert(flow_packets(c2s_before + c2s_after, s2c_before + one + s2c_after)
        == flow_packets(c2s_before + c2s_after, s2c_before + s2c_after));
}


/// A datagram is read as RTP exactly when it holds a full 12-byte header,
/// does not carry the STUN magic cookie in bytes 4..8, does not start like
/// a DTLS record (first byte 20..=63), has version bits 2 (first byte
/// 128..=191, whatever its padding, extension and CSRC-count bits), and its
/// payload type is not an RTCP one (72..=76). The packet then holds the
/// direction it was seen in, the marker bit and payload type of byte 1,
/// the big-endian sequence number, timestamp and SSRC of bytes 2..12, and
/// the length past the 12-byte header.
pub proof fn lemma_parse_rtp_packet_reads_the_header(buf: Seq<u8>, direction: RtpDirection)
    ensures
        spec_parse_rtp_packet(buf, direction) is Some <==> {
            &&& buf.len() >= 12
            &&& !(buf[4] == 0x21 && buf[5] == 0x12 && buf[6] == 0xA4 && buf[7] == 0x42)
            &&& 128 <= buf[0] < 192
            &&& !(72 <= buf[1] % 128 <= 76)
        },
        spec_parse_rtp_packet(buf, direction) matches Some(p) ==> {
            &&& p.direction == direction
            &&& p.marker == (buf[1] >= 128)
            &&& p.payload_type == buf[1] % 128
            &&& p.sequence == buf[2] as int * 256 + buf[3] as int
            &&& p.timestamp == buf[4] as int * 16777216 + buf[5] as int * 65536 + buf[6] as int * 256 + buf[7] as int
            &&& p.ssrc == buf[8] as int * 16777216 + buf[9] as int * 65536 + buf[10] as int * 256 + buf[11] as int
        },
        buf.len() <= usize::MAX ==> (spec_parse_rtp_packet(buf, direction) matches Some(p) ==> p.payload_len == buf.len() - 12),
{
    if buf.len() >= 12 {
        let b0 = buf[0];
        let b1 = buf[1];
        assert(b0 / 64 == 2 <==> 128 <= b0 < 192);
        assert(b0 as int * 256 + buf[1] as int >= 0);
        assert(0 <= buf[2] as int * 256 + buf[3] as int <= 65535);
        assert(0 <= buf[4] as int * 16777216 + buf[5] as int * 65536 + buf[6] as int * 256 + buf[7] as int <= 4294967295);
        assert(0 <= buf[8] as int * 16777216 + buf[9] as int * 65536 + buf[10] as int * 256 + buf[11] as int <= 4294967295);
        assert((b1 % 128) as u8 == b1 % 128);
    }
}


/// A stream is video when at least 5% of its packets carry the marker bit,
/// or when some do and its mean payload is at least 600 bytes; otherwise it
/// is audio (in particular whenever no packet carries the marker bit). The
/// classification never gives `Unknown`.
pub proof fn lemma_classify_media_video_or_audio(mean_payload: u64, marker_count: usize, packet_count: usize)
    ensures
        spec_classify_media(mean_payload, marker_count, packet_count) == RtpMediaKind::Video <==> (
            (packet_count > 0 && marker_count * 100 >= packet_count * 5)
            || (marker_count > 0 && mean_payload >= 600)),
        spec_classify_media(mean_payload, marker_count, packet_count) != RtpMediaKind::Unknown,
        packet_count > 0 && marker_count == 0 ==> spec_classify_media(mean_payload, marker_count, packet_count) == RtpMediaKind::Audio,
{
}

/// The dominant direction is that of a stream carrying the most bytes (the
/// last such stream when several tie); there is one exactly when there
/// are streams.
pub proof fn lemma_dominant_direction_is_heaviest(streams: Seq<RtpStreamModel>)
    ensures
        spec_dominant_direction(streams) is Some <==> streams.len() > 0,
        spec_dominant_direction(streams) matches Some(d) ==> exists|k: int|
            #[trigger] is_last_heaviest(streams, k) && streams[k].direction == d,
{
    if streams.len() > 0 {
        lemma_heaviest_index(streams);
        assert(is_last_heaviest(streams, heaviest_index(streams)));
    }
}

/// Packets whose sequence numbers each follow the previous one by one
/// (wrapping at 2^16) always advance, once there are two of them; fewer
/// than two packets never do.
pub proof fn lemma_consecutive_sequences_advance(ps: Seq<RtpPacket>)
    ensures
        ps.len() < 2 ==> !spec_sequences_advance(ps),
        (ps.len() >= 2 && forall|i: int| 0 <= i < ps.len() - 1
            ==> #[trigger] ps[i + 1].sequence == (ps[i].sequence + 1) % 65536) ==> spec_sequences_advance(ps),
{
    if ps.len() >= 2 && forall|i: int| 0 <= i < ps.len() - 1 ==> #[trigger] ps[i + 1].sequence == (ps[i].sequence + 1) % 65536 {
        lemma_consecutive_steps(ps);
    }
}

proof fn lemma_consecutive_steps(ps: Seq<RtpPacket>)
    requires
        ps.len() >= 1,
        forall|i: int| 0 <= i < ps.len() - 1 ==> #[trigger] ps[i + 1].sequence == (ps[i].sequence + 1) % 65536,
    ensures
        advancing_steps(ps) == ps.len() - 1,
    decreases ps.len(),
{
    if ps.len() >= 2 {
        let prev = ps.drop_last();
        assert forall|i: int| 0 <= i < prev.len() - 1 implies #[trigger] prev[i + 1].sequence == (prev[i].sequence + 1) % 65536 by {
            assert(prev[i + 1] == ps[i + 1] && prev[i] == ps[i]);
        }
        lemma_consecutive_steps(prev);
        let a = ps[ps.len() - 2].sequence;
        let b = ps.last().sequence;
        assert(ps[(ps.len() - 2) + 1].sequence == (ps[ps.len() - 2].sequence + 1) % 65536);
        assert(b == (a + 1) % 65536);
        assert(sequence_delta(a, b) == 1);
    }
}
} // verus!
