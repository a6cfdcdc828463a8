use vstd::prelude::*;
use std::collections::VecDeque;
use crate::datagrams::{payloads, total_bytes};
use crate::dtls_tagger;
use crate::net::IpAddress;
use crate::rtp_tagger::{self, streams_view, RtpDirection, RtpStream};
use crate::udp_table::UdpConversation;
use crate::webrtc_conversation::{spec_build, WebRtcConversation};

verus! {

/// Application layer protocols (and properties) a flow can be tagged with.
#[derive(Debug, Clone, Copy, PartialEq, Eq, Hash, Structural)]
pub enum L7Tag {
    Unencrypted,
    HTTP,
    SMTP,
    IMAP,
    POP3,
    FTP,
    Telnet,
    TLS,
    DNS,
    SSH,
    RTSP,
    SOCKS,
    DHCP4,
    NTP,
    STUN,
    TURN,
    RTP,
    DTLS,
    WebRTC,
}

impl L7Tag {
    /// The tag's name, as displayed.
    pub fn name(&self) -> (res: &'static str)
        ensures
            res@ == tag_name(*self),
    {
        match self {
            L7Tag::Unencrypted => "Unencrypted",
            L7Tag::HTTP => "HTTP",
            L7Tag::SMTP => "SMTP",
            L7Tag::IMAP => "IMAP",
            L7Tag::POP3 => "POP3",
            L7Tag::FTP => "FTP",
            L7Tag::Telnet => "Telnet",
            L7Tag::TLS => "TLS",
            L7Tag::DNS => "DNS",
            L7Tag::SSH => "SSH",
            L7Tag::RTSP => "RTSP",
            L7Tag::SOCKS => "SOCKS",
            L7Tag::DHCP4 => "DHCP4",
            L7Tag::NTP => "NTP",
            L7Tag::STUN => "STUN",
            L7Tag::TURN => "TURN",
            L7Tag::RTP => "RTP",
            L7Tag::DTLS => "DTLS",
            L7Tag::WebRTC => "WebRTC",
        }
    }
}

/// A tag's displayed name: the name of its variant.
pub open spec fn tag_name(t: L7Tag) -> Seq<char> {
    match t {
        L7Tag::Unencrypted => "Unencrypted"@,
        L7Tag::HTTP => "HTTP"@,
        L7Tag::SMTP => "SMTP"@,
        L7Tag::IMAP => "IMAP"@,
        L7Tag::POP3 => "POP3"@,
        L7Tag::FTP => "FTP"@,
        L7Tag::Telnet => "Telnet"@,
        L7Tag::TLS => "TLS"@,
        L7Tag::DNS => "DNS"@,
        L7Tag::SSH => "SSH"@,
        L7Tag::RTSP => "RTSP"@,
        L7Tag::SOCKS => "SOCKS"@,
        L7Tag::DHCP4 => "DHCP4"@,
        L7Tag::NTP => "NTP"@,
        L7Tag::STUN => "STUN"@,
        L7Tag::TURN => "TURN"@,
        L7Tag::RTP => "RTP"@,
        L7Tag::DTLS => "DTLS"@,
        L7Tag::WebRTC => "WebRTC"@,
    }
}

/// A command a tagger issues to the conversation it tagged.
#[derive(Debug, Clone, Copy, PartialEq, Eq, Structural)]
pub enum TaggerCommand {
    /// Make the endpoint `(address, port)` the client side of the
    /// conversation.
    OrientClientTo { address: IpAddress, port: u16 },
}

/// A set of tags.
#[derive(Debug)]
pub struct TagSet {
    tags: Vec<L7Tag>,
}

impl View for TagSet {
    type V = Set<L7Tag>;

    closed spec fn view(&self) -> Set<L7Tag> {
        self.tags@.to_set()
    }
}

impl TagSet {
    /// No tag is held twice.
    #[verifier::type_invariant]
    spec fn no_repeats(self) -> bool {
        self.tags@.no_duplicates()
    }

    /// The empty set.
    pub fn new() -> (res: TagSet)
        ensures
            res@ == Set::<L7Tag>::empty(),
    {
        let res = TagSet { tags: Vec::new() };
        assert(res@ =~= Set::<L7Tag>::empty());
        res
    }

    pub fn contains(&self, tag: L7Tag) -> (res: bool)
        ensures
            res == self@.contains(tag),
    {
        let mut i: usize = 0;
        while i < self.tags.len()
            invariant
                i <= self.tags.len(),
                forall|k: int| 0 <= k < i ==> self.tags@[k] != tag,
            decreases self.tags.len() - i,
        {
            if self.tags[i] == tag {
                assert(self.tags@.contains(tag));
                return true;
            }
            i += 1;
        }
        assert(!self.tags@.contains(tag));
        false
    }

    pub fn insert(&mut self, tag: L7Tag)
        ensures
            final(self)@ == old(self)@.insert(tag),
    {
        proof {
            use_type_invariant(&*self);
        }
        if !self.contains(tag) {
            let ghost before = self.tags@;
            let mut tags: Vec<L7Tag> = Vec::new();
            std::mem::swap(&mut tags, &mut self.tags);
            tags.push(tag);
            assert(tags@.no_duplicates()) by {
                assert forall|a: int, b: int| 0 <= a < b < tags@.len() implies tags@[a] != tags@[b] by {
                    if b == tags@.len() - 1 {
                        assert(before[a] == tags@[a]);
                        assert(!before.contains(tag));
                    } else {
                        assert(before[a] == tags@[a] && before[b] == tags@[b]);
                    }
                }
            }
            self.tags = tags;
            assert(self.tags@.to_set() =~= old(self)@.insert(tag)) by {
                assert forall|t: L7Tag| self.tags@.contains(t) <==> (old(self).tags@.contains(t) || t == tag) by {
                    if old(self).tags@.contains(t) {
                        let k = choose|k: int| 0 <= k < old(self).tags@.len() && old(self).tags@[k] == t;
                        assert(self.tags@[k] == t);
                    }
                    if t == tag {
                        assert(self.tags@[self.tags@.len() - 1] == t);
                    }
                }
            }
        } else {
            assert(old(self)@.insert(tag) =~= old(self)@);
        }
    }

    /// Adds every tag of `other`.
    pub fn extend(&mut self, other: &TagSet)
        ensures
            final(self)@ == old(self)@.union(other@),
    {
        let mut i: usize = 0;
        while i < other.tags.len()
            invariant
                i <= other.tags.len(),
                self@ == old(self)@.union(other.tags@.take(i as int).to_set()),
            decreases other.tags.len() - i,
        {
            let ghost before = self@;
            self.insert(other.tags[i]);
            proof {
                let prefix = other.tags@.take(i + 1);
                assert(prefix =~= other.tags@.take(i as int).push(other.tags@[i as int]));
                assert(prefix.to_set() =~= other.tags@.take(i as int).to_set().insert(other.tags@[i as int])) by {
                    assert forall|t: L7Tag| prefix.contains(t) <==> (other.tags@.take(i as int).contains(t) || t == other.tags@[i as int]) by {
                        if other.tags@.take(i as int).contains(t) {
                            let k = choose|k: int| 0 <= k < i && other.tags@.take(i as int)[k] == t;
                            assert(prefix[k] == t);
                        }
                        if t == other.tags@[i as int] {
                            assert(prefix[i as int] == t);
                        }
                    }
                }
                assert(self@ =~= old(self)@.union(prefix.to_set()));
            }
            i += 1;
        }
        assert(other.tags@.take(other.tags.len() as int) =~= other.tags@);
    }

    /// A copy of the set.
    pub fn clone_set(&self) -> (res: TagSet)
        ensures
            res@ == self@,
    {
        proof {
            use_type_invariant(self);
        }
        let tags = self.tags.clone();
        assert(tags@ =~= self.tags@);
        TagSet { tags }
    }

    /// The tags, each once, in insertion order.
    pub fn to_vec(&self) -> (res: Vec<L7Tag>)
        ensures
            res@.to_set() == self@,
            res@.no_duplicates(),
    {
        proof {
            use_type_invariant(self);
        }
        let res = self.tags.clone();
        assert(res@ =~= self.tags@);
        res
    }
}

/// The tags of a TCP session, from which taggers recognized it: HTTP and
/// RTSP are also unencrypted, and a STUN session that relays through TURN
/// is also TURN.
pub open spec fn spec_tcp_tags(http: bool, socks: bool, ssh: bool, rtsp: bool, stun_is_turn: Option<bool>) -> Set<L7Tag> {
    let s0 = Set::<L7Tag>::empty();
    let s1 = if http { s0.insert(L7Tag::HTTP).insert(L7Tag::Unencrypted) } else { s0 };
    let s2 = if socks { s1.insert(L7Tag::SOCKS) } else { s1 };
    let s3 = if ssh { s2.insert(L7Tag::SSH) } else { s2 };
    let s4 = if rtsp { s3.insert(L7Tag::RTSP).insert(L7Tag::Unencrypted) } else { s3 };
    match stun_is_turn {
        Some(true) => s4.insert(L7Tag::STUN).insert(L7Tag::TURN),
        Some(false) => s4.insert(L7Tag::STUN),
        None => s4,
    }
}

/// Tags a TCP session from the verdicts of the HTTP, SOCKS, SSH, RTSP and
/// STUN taggers (`stun_is_turn` is `None` when STUN was not recognized,
/// else whether the STUN session is TURN).
pub fn tcp_tags(http: bool, socks: bool, ssh: bool, rtsp: bool, stun_is_turn: Option<bool>) -> (res: TagSet)
    ensures
        res@ == spec_tcp_tags(http, socks, ssh, rtsp, stun_is_turn),
{
    let mut tags = TagSet::new();
    if http {
        tags.insert(L7Tag::HTTP);
        tags.insert(L7Tag::Unencrypted);
    }
    if socks {
        tags.insert(L7Tag::SOCKS);
    }
    if ssh {
        tags.insert(L7Tag::SSH);
    }
    if rtsp {
        tags.insert(L7Tag::RTSP);
        tags.insert(L7Tag::Unencrypted);
    }
    match stun_is_turn {
        Some(is_turn) => {
            tags.insert(L7Tag::STUN);
            if is_turn {
                tags.insert(L7Tag::TURN);
            }
        },
        None => {},
    }
    tags
}

/// The verdicts of the TCP taggers on one session: whether the HTTP,
/// SOCKS, SSH and RTSP taggers recognized it, and, when the STUN tagger
/// did, whether it relays through TURN.
#[derive(Debug, Clone, Copy, PartialEq, Eq, Structural)]
pub struct TcpVerdicts {
    pub http: bool,
    pub socks: bool,
    pub ssh: bool,
    pub rtsp: bool,
    pub stun_is_turn: Option<bool>,
}

/// The tags of the TCP sessions after a tagging pass: a session whose
/// taggers ran gets the tags of their verdicts in place of its earlier
/// ones (they may have changed with more segments); a session whose
/// tagging failed keeps its tags.
pub open spec fn spec_retagged(old_tags: Set<L7Tag>, verdicts: Option<TcpVerdicts>) -> Set<L7Tag> {
    match verdicts {
        Some(v) => spec_tcp_tags(v.http, v.socks, v.ssh, v.rtsp, v.stun_is_turn),
        None => old_tags,
    }
}

/// Tags every TCP session from its taggers' verdicts (`None` where tagging
/// the session failed); see `spec_retagged`.
pub fn tag_tcp_sessions(session_tags: &mut Vec<TagSet>, verdicts: &Vec<Option<TcpVerdicts>>)
    requires
        old(session_tags)@.len() == verdicts@.len(),
    ensures
        final(session_tags)@.len() == old(session_tags)@.len(),
        forall|i: int| 0 <= i < verdicts@.len()
            ==> (#[trigger] final(session_tags)@[i])@ == spec_retagged(old(session_tags)@[i]@, verdicts@[i]),
{
    let ghost before = session_tags@;
    let mut i: usize = 0;
    while i < verdicts.len()
        invariant
            i <= verdicts@.len(),
            session_tags@.len() == verdicts@.len(),
            before.len() == verdicts@.len(),
            forall|k: int| 0 <= k < i ==> (#[trigger] session_tags@[k])@ == spec_retagged(before[k]@, verdicts@[k]),
            forall|k: int| i <= k < verdicts@.len() ==> #[trigger] session_tags@[k] == before[k],
        decreases verdicts.len() - i,
    {
        match verdicts[i] {
            Some(v) => {
                let tags = tcp_tags(v.http, v.socks, v.ssh, v.rtsp, v.stun_is_turn);
                session_tags.set(i, tags);
            },
            None => {},
        }
        i += 1;
    }
}

/// A UDP flow is WebRTC when it is STUN together with RTP or DTLS.
pub open spec fn implies_webrtc(tags: Set<L7Tag>) -> bool {
    tags.contains(L7Tag::STUN) && (tags.contains(L7Tag::RTP) || tags.contains(L7Tag::DTLS))
}

/// A UDP conversation's tags after the tags of a tagging pass are added:
/// it is tagged WebRTC when it is then STUN together with RTP or DTLS.
pub open spec fn merged_tags(old_tags: Set<L7Tag>, found: Set<L7Tag>) -> Set<L7Tag> {
    if implies_webrtc(old_tags.union(found)) {
        old_tags.union(found).insert(L7Tag::WebRTC)
    } else {
        old_tags.union(found)
    }
}

/// Adds the tags found in a tagging pass to a UDP conversation's tags; see
/// `merged_tags`.
pub fn merge_udp_tags(conversation_tags: &mut TagSet, found: &TagSet)
    ensures
        final(conversation_tags)@ == merged_tags(old(conversation_tags)@, found@),
{
    conversation_tags.extend(found);
    if conversation_tags.contains(L7Tag::STUN) && (conversation_tags.contains(L7Tag::RTP)
        || conversation_tags.contains(L7Tag::DTLS)) {
        conversation_tags.insert(L7Tag::WebRTC);
    }
}

/// Once a UDP conversation is tagged STUN together with RTP or DTLS, it is
/// tagged WebRTC; tags are never lost by merging.
pub proof fn lemma_merge_udp_tags(old_tags: Set<L7Tag>, found: Set<L7Tag>)
    ensures
        old_tags.subset_of(merged_tags(old_tags, found)),
        found.subset_of(merged_tags(old_tags, found)),
        implies_webrtc(merged_tags(old_tags, found)) ==> merged_tags(old_tags, found).contains(L7Tag::WebRTC),
{
}

/// What the STUN tagger found in a UDP conversation.
#[derive(Debug)]
pub struct StunFinding {
    /// The STUN session relays through TURN.
    pub is_turn: bool,
    /// The ICE negotiation key, which identifies the WebRTC session.
    pub negotiation_key: Option<String>,
}

/// The outcome of tagging a UDP conversation beyond STUN.
#[derive(Debug)]
pub struct UdpTagging {
    pub tags: TagSet,
    /// The orientation the RTP tagger asks for, if any.
    pub orient: Option<TaggerCommand>,
    /// The WebRTC conversation to hand on, if any.
    pub webrtc: Option<WebRtcConversation>,
}

/// Tags from the STUN tagger's verdict.
pub open spec fn stun_tags(stun_is_turn: Option<bool>) -> Set<L7Tag> {
    match stun_is_turn {
        Some(true) => set![L7Tag::STUN, L7Tag::TURN],
        Some(false) => set![L7Tag::STUN],
        None => Set::empty(),
    }
}

/// The RTP streams of a conversation's recent datagrams.
pub open spec fn recent_rtp(c: &UdpConversation) -> Option<Seq<rtp_tagger::RtpStreamModel>> {
    rtp_tagger::spec_tag(payloads(c.recent_client_to_server@), payloads(c.recent_server_to_client@))
}

/// The DTLS tag of a conversation's recent datagrams.
pub open spec fn recent_dtls(c: &UdpConversation) -> Option<dtls_tagger::DtlsTag> {
    dtls_tagger::spec_tag(payloads(c.recent_client_to_server@), payloads(c.recent_server_to_client@))
}

/// The command that makes the endpoint sending in direction `d` the client.
pub open spec fn orient_to_sender(c: &UdpConversation, d: RtpDirection) -> TaggerCommand {
    match d {
        RtpDirection::ClientToServer => TaggerCommand::OrientClientTo { address: c.source_address, port: c.source_port },
        RtpDirection::ServerToClient => TaggerCommand::OrientClientTo { address: c.destination_address, port: c.destination_port },
    }
}

/// The tags a UDP conversation gets: STUN (and TURN) from the STUN
/// tagger's verdict, and, when the conversation keeps recent datagrams,
/// RTP and DTLS from those.
pub open spec fn spec_udp_tags(c: &UdpConversation, stun_is_turn: Option<bool>) -> Set<L7Tag> {
    let base = stun_tags(stun_is_turn);
    if !c.capture_recent {
        base
    } else {
        let with_rtp = if recent_rtp(c) is Some { base.insert(L7Tag::RTP) } else { base };
        if recent_dtls(c) is Some { with_rtp.insert(L7Tag::DTLS) } else { with_rtp }
    }
}

/// The orientation asked for by RTP: the sender of the dominant stream is
/// the client.
pub open spec fn spec_udp_orient(c: &UdpConversation) -> Option<TaggerCommand> {
    if !c.capture_recent {
        None
    } else {
        match recent_rtp(c) {
            Some(streams) => match rtp_tagger::spec_dominant_direction(streams) {
                Some(d) => Some(orient_to_sender(c, d)),
                None => None,
            },
            None => None,
        }
    }
}

/// A WebRTC conversation is handed on when the conversation keeps recent
/// datagrams, is STUN with a negotiation key, and carries RTP or DTLS.
pub open spec fn spec_udp_webrtc(c: &UdpConversation, stun: Option<(bool, Option<Seq<char>>)>) -> Option<crate::webrtc_conversation::WebRtcConversationModel> {
    if !c.capture_recent {
        None
    } else {
        match stun {
            Some((_, Some(key))) => {
                if recent_rtp(c) is Some || recent_dtls(c) is Some {
                    let streams = match recent_rtp(c) { Some(s) => s, None => Seq::empty() };
                    let records = match recent_dtls(c) { Some(t) => t.app_data_records, None => 0 };
                    Some(spec_build(c, key, streams, records))
                } else {
                    None
                }
            },
            _ => None,
        }
    }
}

/// The STUN verdict as plain values: whether it is TURN, and the
/// negotiation key.
pub open spec fn stun_view(stun: &Option<StunFinding>) -> Option<(bool, Option<Seq<char>>)> {
    match stun {
        Some(f) => Some((f.is_turn, match f.negotiation_key { Some(k) => Some(k@), None => None })),
        None => None,
    }
}

fn deque_to_vec(q: &VecDeque<Vec<u8>>) -> (res: Vec<Vec<u8>>)
    ensures
        payloads(res@) == payloads(q@),
{
    let mut res: Vec<Vec<u8>> = Vec::new();
    let mut i: usize = 0;
    while i < q.len()
        invariant
            i <= q.len(),
            payloads(res@) == payloads(q@).take(i as int),
        decreases q.len() - i,
    {
        let d = q[i].clone();
        assert(d@ =~= q@[i as int]@);
        let ghost before = res@;
        res.push(d);
        assert(payloads(res@) =~= payloads(before).push(q@[i as int]@));
        assert(payloads(res@) =~= payloads(q@).take(i + 1));
        i += 1;
    }
    assert(payloads(q@).take(q.len() as int) =~= payloads(q@));
    res
}

/// Tags a UDP conversation beyond what the STUN tagger found: on
/// conversations that keep recent datagrams, runs the RTP and DTLS
/// taggers on them, orients the conversation by its dominant RTP stream,
/// and builds the WebRTC conversation when STUN comes together with RTP or
/// DTLS.
pub fn tag_all_udp(conversation: &UdpConversation, stun: &Option<StunFinding>) -> (res: UdpTagging)
    requires
        conversation.wf(),
        total_bytes(payloads(conversation.recent_client_to_server@)) + total_bytes(payloads(conversation.recent_server_to_client@)) <= u64::MAX,
    ensures
        res.tags@ == spec_udp_tags(conversation, match stun { Some(f) => Some(f.is_turn), None => None }),
        res.orient == spec_udp_orient(conversation),
        match spec_udp_webrtc(conversation, stun_view(stun)) {
            Some(w) => res.webrtc matches Some(r) && r@ == w,
            None => res.webrtc is None,
        },
{
    let mut tags = TagSet::new();
    let mut orient: Option<TaggerCommand> = None;
    let mut webrtc: Option<WebRtcConversation> = None;

    match stun {
        Some(f) => {
            tags.insert(L7Tag::STUN);
            if f.is_turn {
                tags.insert(L7Tag::TURN);
            }
        },
        None => {},
    }
    assert(tags@ =~= stun_tags(match stun { Some(f) => Some(f.is_turn), None => None }));

    // Taggers on conversations with the recent buffer enabled.
    if conversation.capture_recent {
        let recent_c2s = deque_to_vec(&conversation.recent_client_to_server);
        let recent_s2c = deque_to_vec(&conversation.recent_server_to_client);

        // RTP.
        let rtp_streams: Vec<RtpStream> = match rtp_tagger::tag(&recent_c2s, &recent_s2c) {
            Some(streams) => {
                tags.insert(L7Tag::RTP);
                match rtp_tagger::dominant_direction(&streams) {
                    Some(RtpDirection::ClientToServer) => {
                        orient = Some(TaggerCommand::OrientClientTo {
                            address: conversation.source_address,
                            port: conversation.source_port,
                        });
                    },
                    Some(RtpDirection::ServerToClient) => {
                        orient = Some(TaggerCommand::OrientClientTo {
                            address: conversation.destination_address,
                            port: conversation.destination_port,
                        });
                    },
                    None => {},
                }
                streams
            },
            None => Vec::new(),
        };

        // DTLS.
        let dtls_result = dtls_tagger::tag(&recent_c2s, &recent_s2c);
        if dtls_result.is_some() {
            tags.insert(L7Tag::DTLS);
        }

        // WebRTC.
        let has_rtp = rtp_streams.len() > 0;
        let has_dtls = dtls_result.is_some();
        if tags.contains(L7Tag::STUN) && (has_rtp || has_dtls) {
            match stun {
                Some(f) => match &f.negotiation_key {
                    Some(key) => {
                        let records = match &dtls_result {
                            Some(d) => d.app_data_records,
                            None => 0,
                        };
                        assert(streams_view(rtp_streams@) =~= match recent_rtp(conversation) {
                            Some(s) => s,
                            None => Seq::empty(),
                        });
                        webrtc = Some(WebRtcConversation::build(conversation, key.clone(), rtp_streams, records));
                    },
                    None => {},
                },
                None => {},
            }
        }
    }
    UdpTagging { tags, orient, webrtc }
}

/// The payloads of `bufs`, one after the other.
pub open spec fn flatten(bufs: Seq<Seq<u8>>) -> Seq<u8>
    decreases bufs.len(),
{
    if bufs.len() == 0 {
        Seq::empty()
    } else {
        flatten(bufs.drop_last()) + bufs.last()
    }
}

/// The payloads of a conversation's sampled datagrams of one direction,
/// one after the other, as the taggers read them.
pub fn concat_payloads(q: &VecDeque<Vec<u8>>) -> (res: Vec<u8>)
    ensures
        res@ == flatten(payloads(q@)),
{
    let ghost view = payloads(q@);
    let mut data: Vec<u8> = Vec::new();
    let mut i: usize = 0;
    while i < q.len()
        invariant
            i <= q.len(),
            view == payloads(q@),
            data@ == flatten(view.take(i as int)),
        decreases q.len() - i,
    {
        let ghost before = data@;
        data.extend_from_slice(q[i].as_slice());
        assert(data@ =~= before + q@[i as int]@);
        assert(view.take(i + 1).drop_last() =~= view.take(i as int));
        i += 1;
    }
    assert(view.take(q.len() as int) =~= view);
    data
}


/// The orientation that tagging a UDP conversation asks for names the
/// endpoint that sent the dominant RTP stream of its recent datagrams (the
/// last of the streams carrying the most bytes): the conversation's source
/// when that stream goes client to server, its destination when it goes
/// server to client. Without recent datagrams or RTP streams no
/// orientation is asked for.
pub proof fn lemma_udp_orient_names_the_dominant_sender(c: &UdpConversation)
    ensures
        spec_udp_orient(c) matches Some(TaggerCommand::OrientClientTo { address, port }) ==> {
            &&& c.capture_recent
            &&& recent_rtp(c) is Some
            &&& exists|k: int| #[trigger] rtp_tagger::is_last_heaviest(recent_rtp(c)->0, k)
                && (recent_rtp(c)->0[k].direction == RtpDirection::ClientToServer
                    ==> address == c.source_address && port == c.source_port)
                && (recent_rtp(c)->0[k].direction == RtpDirection::ServerToClient
                    ==> address == c.destination_address && port == c.destination_port)
        },
        spec_udp_orient(c) is None <==> (!c.capture_recent || recent_rtp(c) is None
            || recent_rtp(c)->0.len() == 0),
{
    if c.capture_recent && recent_rtp(c) is Some && recent_rtp(c)->0.len() > 0 {
        let streams = recent_rtp(c)->0;
        rtp_tagger::lemma_heaviest_index(streams);
        let k = rtp_tagger::heaviest_index(streams);
        assert(rtp_tagger::is_last_heaviest(streams, k));
    }
}


/// The tags a UDP conversation gets from one tagging pass: STUN exactly
/// when the STUN tagger recognized it, TURN exactly when that STUN session
/// relays through TURN, RTP exactly when it keeps recent datagrams and the
/// RTP tagger finds streams in them, DTLS exactly when it keeps recent
/// datagrams and the DTLS tagger tags them, and no other tag. A WebRTC
/// conversation is handed on exactly when it keeps recent datagrams, the
/// STUN tagger found a negotiation key, and RTP or DTLS was found.
pub proof fn lemma_udp_tags_follow_the_taggers(c: &UdpConversation, stun: Option<(bool, Option<Seq<char>>)>)
    ensures
        ({
            let tags = spec_udp_tags(c, match stun { Some((t, _)) => Some(t), None => None });
            &&& tags.contains(L7Tag::STUN) <==> stun is Some
            &&& tags.contains(L7Tag::TURN) <==> (stun matches Some((true, _)))
            &&& tags.contains(L7Tag::RTP) <==> (c.capture_recent && recent_rtp(c) is Some)
            &&& tags.contains(L7Tag::DTLS) <==> (c.capture_recent && recent_dtls(c) is Some)
            &&& forall|t: L7Tag| tags.contains(t) ==> (t == L7Tag::STUN || t == L7Tag::TURN || t == L7Tag::RTP || t == L7Tag::DTLS)
        }),
        spec_udp_webrtc(c, stun) is Some <==> (c.capture_recent && (stun matches Some((_, Some(_))))
            && (recent_rtp(c) is Some || recent_dtls(c) is Some)),
{
}
} // verus!
