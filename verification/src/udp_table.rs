use vstd::prelude::*;
use std::collections::VecDeque;
use crate::l7_tagger::{merge_udp_tags, merged_tags, L7Tag, TagSet, TaggerCommand};
use crate::net::{address_less, endpoint_less, ip_endpoint_less, IpAddress};
use crate::time::elapsed_more_than;
use crate::datagrams::{lemma_total_bytes_prefix, payloads, total_bytes};
use crate::webrtc_conversation::{clone_opt_string, opt_string_view, L4Key};

verus! {

/// Most payload bytes kept per direction of a conversation.
pub const MAX_BYTES_PER_DIRECTION: usize = 256;

/// Most datagrams kept per direction in the recent-datagrams ring.
pub const RECENT_RING_MAX_DATAGRAMS: usize = 64;

/// Below this many bytes in total, a WebRTC flow is not oriented by volume.
pub const ORIENT_BY_BYTES_MIN_TOTAL: u64 = 50_000;

/// A conversation is stale when no datagram arrived for this long, in
/// nanoseconds.
pub const STALE_AFTER_NANOS: i128 = 3_000_000_000;

/// A conversation expires when no datagram arrived for more than this long,
/// in nanoseconds.
pub const EXPIRE_AFTER_NANOS: i128 = 60_000_000_000;

#[derive(Debug, Clone, Copy, PartialEq, Eq, Structural)]
pub enum UdpConversationState {
    Active,
    Closed,
}

impl UdpConversationState {
    /// The state's name, as displayed.
    pub fn name(&self) -> (res: &'static str)
        ensures
            res@ == (match *self {
                UdpConversationState::Active => "Active"@,
                UdpConversationState::Closed => "Closed"@,
            }),
    {
        match self {
            UdpConversationState::Active => "Active",
            UdpConversationState::Closed => "Closed",
        }
    }
}

/// Direction of a datagram within its conversation.
#[derive(Debug, Clone, Copy, PartialEq, Eq, Structural)]
pub enum TrafficDirection {
    ClientToServer,
    ServerToClient,
}

/// A UDP conversation. Times are nanoseconds since the Unix epoch.
#[derive(Debug)]
pub struct UdpConversation {
    pub state: UdpConversationState,
    pub source_mac: Option<String>,
    pub destination_mac: Option<String>,
    pub source_address: IpAddress,
    pub source_port: u16,
    pub destination_address: IpAddress,
    pub destination_port: u16,
    pub start_time: i128,
    pub end_time: Option<i128>,
    pub most_recent_segment_time: i128,
    pub datagrams_count: u64,
    /// New datagrams since the last report.
    pub datagrams_count_incremental: u64,
    pub bytes_count_rx: u64,
    pub bytes_count_tx: u64,
    /// New bytes since the last report.
    pub bytes_count_rx_incremental: u64,
    /// New bytes since the last report.
    pub bytes_count_tx_incremental: u64,
    pub datagrams_client_to_server: VecDeque<Vec<u8>>,
    pub datagrams_server_to_client: VecDeque<Vec<u8>>,
    pub capture_recent: bool,
    pub recent_client_to_server: VecDeque<Vec<u8>>,
    pub recent_server_to_client: VecDeque<Vec<u8>>,
    pub tags: TagSet,
}

/// What `push_bounded` makes of a queue: the payload is appended unless
/// the queue already holds `MAX_BYTES_PER_DIRECTION` bytes or the payload
/// would take it past that.
pub open spec fn spec_push_bounded(q: Seq<Seq<u8>>, payload: Seq<u8>) -> Seq<Seq<u8>> {
    if total_bytes(q) >= MAX_BYTES_PER_DIRECTION || total_bytes(q) + payload.len() > MAX_BYTES_PER_DIRECTION {
        q
    } else {
        q.push(payload)
    }
}

/// Appends a datagram's payload to a per-direction sample buffer, unless
/// that would take the buffer past `MAX_BYTES_PER_DIRECTION` bytes.
pub fn push_bounded(q: &mut VecDeque<Vec<u8>>, payload: Vec<u8>)
    requires
        total_bytes(payloads(old(q)@)) <= usize::MAX,
    ensures
        payloads(final(q)@) == spec_push_bounded(payloads(old(q)@), payload@),
{
    // Current size.
    let ghost view = payloads(q@);
    let mut size: usize = 0;
    let mut i: usize = 0;
    while i < q.len()
        invariant
            i <= q.len(),
            view == payloads(q@),
            size == total_bytes(view.take(i as int)),
            total_bytes(view) <= usize::MAX,
        decreases q.len() - i,
    {
        proof {
            assert(view.take(i + 1).drop_last() =~= view.take(i as int));
            lemma_total_bytes_prefix(view, i + 1);
        }
        size = size + q[i].len();
        i += 1;
    }
    assert(view.take(q.len() as int) =~= view);

    // If already full, exit.
    if size >= MAX_BYTES_PER_DIRECTION {
        return;
    }
    // If this datagram would exceed the maximum size, exit.
    if payload.len() > MAX_BYTES_PER_DIRECTION - size {
        return;
    }
    q.push_back(payload);
    assert(payloads(q@) =~= view.push(payload@));
}

/// Whether the payloads of `q` hold at most `limit` bytes together.
fn bytes_within(q: &VecDeque<Vec<u8>>, limit: usize) -> (res: bool)
    ensures
        res == (total_bytes(payloads(q@)) <= limit),
{
    let ghost view = payloads(q@);
    let mut size: usize = 0;
    let mut i: usize = 0;
    while i < q.len()
        invariant
            i <= q.len(),
            view == payloads(q@),
            size == total_bytes(view.take(i as int)),
            size <= limit,
        decreases q.len() - i,
    {
        proof {
            assert(view.take(i + 1).drop_last() =~= view.take(i as int));
            lemma_total_bytes_prefix(view, i + 1);
        }
        if q[i].len() > limit - size {
            return false;
        }
        size = size + q[i].len();
        i += 1;
    }
    assert(view.take(q.len() as int) =~= view);
    true
}

/// What `push_recent` makes of a ring: the payload is appended, then the
/// oldest datagrams are dropped until at most `RECENT_RING_MAX_DATAGRAMS`
/// remain.
pub open spec fn spec_push_recent(q: Seq<Seq<u8>>, payload: Seq<u8>) -> Seq<Seq<u8>> {
    let pushed = q.push(payload);
    if pushed.len() > RECENT_RING_MAX_DATAGRAMS {
        pushed.skip(pushed.len() - RECENT_RING_MAX_DATAGRAMS)
    } else {
        pushed
    }
}

/// Appends a datagram's payload to a recent-datagrams ring, dropping the
/// oldest ones beyond `RECENT_RING_MAX_DATAGRAMS`.
pub fn push_recent(q: &mut VecDeque<Vec<u8>>, payload: Vec<u8>)
    ensures
        payloads(final(q)@) == spec_push_recent(payloads(old(q)@), payload@),
{
    q.push_back(payload);
    let ghost pushed = q@;
    while q.len() > RECENT_RING_MAX_DATAGRAMS
        invariant
            pushed == old(q)@.push(payload),
            q@.len() <= pushed.len(),
            pushed.len() > RECENT_RING_MAX_DATAGRAMS ==> q@.len() >= RECENT_RING_MAX_DATAGRAMS,
            pushed.len() <= RECENT_RING_MAX_DATAGRAMS ==> q@ == pushed,
            q@ =~= pushed.skip(pushed.len() - q@.len()),
        decreases q.len(),
    {
        let ghost before = q@;
        let front = q.pop_front();
        assert(front is Some);
        assert(q@ =~= before.subrange(1, before.len() as int));
        assert(q@ =~= pushed.skip(pushed.len() - q@.len()));
    }
    proof {
        if pushed.len() <= RECENT_RING_MAX_DATAGRAMS {
            assert(q@ =~= pushed);
        }
        let pv = payloads(old(q)@).push(payload@);
        assert(payloads(pushed) =~= pv);
        if pushed.len() > RECENT_RING_MAX_DATAGRAMS {
            assert(payloads(q@) =~= pv.skip(pv.len() - RECENT_RING_MAX_DATAGRAMS));
        } else {
            assert(payloads(q@) =~= pv);
        }
    }
}

/// A sample buffer filled only through `push_bounded` never holds more than
/// `MAX_BYTES_PER_DIRECTION` bytes.
pub proof fn lemma_push_bounded_keeps_bound(q: Seq<Seq<u8>>, payload: Seq<u8>)
    requires
        total_bytes(q) <= MAX_BYTES_PER_DIRECTION,
    ensures
        total_bytes(spec_push_bounded(q, payload)) <= MAX_BYTES_PER_DIRECTION,
        spec_push_bounded(q, payload) == q || spec_push_bounded(q, payload) == q.push(payload),
{
    assert(q.push(payload).drop_last() =~= q);
}

/// A recent-datagrams ring never holds more than
/// `RECENT_RING_MAX_DATAGRAMS` datagrams, and it always ends with the
/// datagram just pushed, preceded by the most recent earlier ones.
pub proof fn lemma_push_recent_keeps_latest(q: Seq<Seq<u8>>, payload: Seq<u8>)
    ensures
        spec_push_recent(q, payload).len() <= RECENT_RING_MAX_DATAGRAMS,
        spec_push_recent(q, payload).last() == payload,
        spec_push_recent(q, payload) == q.push(payload).skip(q.len() + 1 - spec_push_recent(q, payload).len()),
        q.len() < RECENT_RING_MAX_DATAGRAMS ==> spec_push_recent(q, payload) == q.push(payload),
{
    let pushed = q.push(payload);
    if pushed.len() <= RECENT_RING_MAX_DATAGRAMS {
        assert(pushed.skip(0) =~= pushed);
    }
}

fn clone_bytes(v: &Vec<u8>) -> (res: Vec<u8>)
    ensures
        res@ == v@,
{
    let res = v.clone();
    assert(res@ =~= v@);
    res
}

/// What the table reads of a captured datagram. Times are nanoseconds
/// since the Unix epoch.
#[derive(Debug)]
pub struct Datagram {
    pub session_key: L4Key,
    pub source_mac: Option<String>,
    pub destination_mac: Option<String>,
    pub source_address: IpAddress,
    pub source_port: u16,
    pub destination_address: IpAddress,
    pub destination_port: u16,
    pub timestamp: i128,
    pub size: u64,
    pub payload: Vec<u8>,
    pub tags: TagSet,
}

/// `c` is the conversation started by datagram `d`.
pub open spec fn started_from(c: UdpConversation, d: Datagram) -> bool {
    &&& c.state == UdpConversationState::Active
    &&& opt_string_view(c.source_mac) == opt_string_view(d.source_mac)
    &&& opt_string_view(c.destination_mac) == opt_string_view(d.destination_mac)
    &&& c.source_address == d.source_address
    &&& c.source_port == d.source_port
    &&& c.destination_address == d.destination_address
    &&& c.destination_port == d.destination_port
    &&& c.start_time == d.timestamp
    &&& c.end_time is None
    &&& c.most_recent_segment_time == d.timestamp
    &&& c.datagrams_count == 1
    &&& c.datagrams_count_incremental == 1
    &&& c.bytes_count_rx == 0
    &&& c.bytes_count_tx == d.size
    &&& c.bytes_count_rx_incremental == 0
    &&& c.bytes_count_tx_incremental == d.size
    &&& payloads(c.datagrams_client_to_server@) == spec_push_bounded(Seq::empty(), d.payload@)
    &&& payloads(c.datagrams_server_to_client@) == Seq::<Seq<u8>>::empty()
    &&& !c.capture_recent
    &&& payloads(c.recent_client_to_server@) == Seq::<Seq<u8>>::empty()
    &&& payloads(c.recent_server_to_client@) == Seq::<Seq<u8>>::empty()
    &&& c.tags@ == d.tags@
}

/// The counters of `c` can take a datagram of these byte counts without
/// overflowing.
pub open spec fn can_register(c: UdpConversation, bytes_tx: u64, bytes_rx: u64) -> bool {
    &&& c.bytes_count_rx + bytes_rx <= u64::MAX
    &&& c.bytes_count_tx + bytes_tx <= u64::MAX
    &&& c.datagrams_count < u64::MAX
}

/// `new` is `old` after accounting for one more datagram: its bytes in
/// each direction, its time, and its payload in the sample buffer (and,
/// when enabled, the recent ring) of its direction; the datagram's tags are
/// added.
pub open spec fn registered(
    old: UdpConversation,
    new: UdpConversation,
    direction: TrafficDirection,
    bytes_tx: u64,
    bytes_rx: u64,
    timestamp: i128,
    payload: Seq<u8>,
    tags: Set<L7Tag>,
) -> bool {
    &&& new.same_identity(&old)
    &&& new.bytes_count_rx == old.bytes_count_rx + bytes_rx
    &&& new.bytes_count_tx == old.bytes_count_tx + bytes_tx
    &&& new.bytes_count_rx_incremental == old.bytes_count_rx_incremental + bytes_rx
    &&& new.bytes_count_tx_incremental == old.bytes_count_tx_incremental + bytes_tx
    &&& new.most_recent_segment_time == timestamp
    &&& new.datagrams_count == old.datagrams_count + 1
    &&& new.datagrams_count_incremental == old.datagrams_count_incremental + 1
    &&& payloads(new.datagrams_client_to_server@) == (match direction {
        TrafficDirection::ClientToServer => spec_push_bounded(payloads(old.datagrams_client_to_server@), payload),
        TrafficDirection::ServerToClient => payloads(old.datagrams_client_to_server@),
    })
    &&& payloads(new.datagrams_server_to_client@) == (match direction {
        TrafficDirection::ClientToServer => payloads(old.datagrams_server_to_client@),
        TrafficDirection::ServerToClient => spec_push_bounded(payloads(old.datagrams_server_to_client@), payload),
    })
    &&& payloads(new.recent_client_to_server@) == (if old.capture_recent && direction == TrafficDirection::ClientToServer {
        spec_push_recent(payloads(old.recent_client_to_server@), payload)
    } else {
        payloads(old.recent_client_to_server@)
    })
    &&& payloads(new.recent_server_to_client@) == (if old.capture_recent && direction == TrafficDirection::ServerToClient {
        spec_push_recent(payloads(old.recent_server_to_client@), payload)
    } else {
        payloads(old.recent_server_to_client@)
    })
    &&& new.tags@ == old.tags@.union(tags)
}

impl UdpConversation {
    /// The conversation's bookkeeping is consistent: the sample buffers hold
    /// at most `MAX_BYTES_PER_DIRECTION` bytes each, the recent rings at
    /// most `RECENT_RING_MAX_DATAGRAMS` datagrams each, and no counter of
    /// new datagrams or bytes since the last report exceeds its total.
    pub open spec fn wf(&self) -> bool {
        &&& total_bytes(payloads(self.datagrams_client_to_server@)) <= MAX_BYTES_PER_DIRECTION
        &&& total_bytes(payloads(self.datagrams_server_to_client@)) <= MAX_BYTES_PER_DIRECTION
        &&& self.recent_client_to_server@.len() <= RECENT_RING_MAX_DATAGRAMS
        &&& self.recent_server_to_client@.len() <= RECENT_RING_MAX_DATAGRAMS
        &&& self.datagrams_count_incremental <= self.datagrams_count
        &&& self.bytes_count_rx_incremental <= self.bytes_count_rx
        &&& self.bytes_count_tx_incremental <= self.bytes_count_tx
    }

    /// Whether the conversation's bookkeeping is consistent; see `wf`.
    pub fn is_consistent(&self) -> (res: bool)
        ensures
            res == self.wf(),
    {
        bytes_within(&self.datagrams_client_to_server, MAX_BYTES_PER_DIRECTION)
            && bytes_within(&self.datagrams_server_to_client, MAX_BYTES_PER_DIRECTION)
            && self.recent_client_to_server.len() <= RECENT_RING_MAX_DATAGRAMS
            && self.recent_server_to_client.len() <= RECENT_RING_MAX_DATAGRAMS
            && self.datagrams_count_incremental <= self.datagrams_count
            && self.bytes_count_rx_incremental <= self.bytes_count_rx
            && self.bytes_count_tx_incremental <= self.bytes_count_tx
    }

    /// The fields that identify a conversation and its lifecycle are equal.
    pub open spec fn same_identity(&self, other: &UdpConversation) -> bool {
        &&& self.state == other.state
        &&& opt_string_view(self.source_mac) == opt_string_view(other.source_mac)
        &&& opt_string_view(self.destination_mac) == opt_string_view(other.destination_mac)
        &&& self.source_address == other.source_address
        &&& self.source_port == other.source_port
        &&& self.destination_address == other.destination_address
        &&& self.destination_port == other.destination_port
        &&& self.start_time == other.start_time
        &&& self.end_time == other.end_time
        &&& self.capture_recent == other.capture_recent
    }

    /// Starts a conversation from its first datagram. That datagram defines
    /// the client (its source), so its bytes count as sent by the client.
    pub fn from_first_datagram(datagram: &Datagram) -> (res: UdpConversation)
        ensures
            res.wf(),
            started_from(res, *datagram),
    {
        let mut datagrams_client_to_server: VecDeque<Vec<u8>> = VecDeque::new();
        let datagrams_server_to_client: VecDeque<Vec<u8>> = VecDeque::new();
        assert(payloads(datagrams_client_to_server@) =~= Seq::empty());
        push_bounded(&mut datagrams_client_to_server, clone_bytes(&datagram.payload));
        proof {
            lemma_push_bounded_keeps_bound(Seq::empty(), datagram.payload@);
        }
        let res = UdpConversation {
            state: UdpConversationState::Active,
            source_mac: clone_opt_string(&datagram.source_mac),
            destination_mac: clone_opt_string(&datagram.destination_mac),
            source_address: datagram.source_address,
            source_port: datagram.source_port,
            destination_address: datagram.destination_address,
            destination_port: datagram.destination_port,
            start_time: datagram.timestamp,
            end_time: None,
            most_recent_segment_time: datagram.timestamp,
            datagrams_count: 1,
            datagrams_count_incremental: 1,
            bytes_count_rx: 0,
            bytes_count_tx: datagram.size,
            bytes_count_rx_incremental: 0,
            bytes_count_tx_incremental: datagram.size,
            datagrams_client_to_server,
            datagrams_server_to_client,
            capture_recent: false,
            recent_client_to_server: VecDeque::new(),
            recent_server_to_client: VecDeque::new(),
            tags: datagram.tags.clone_set(),
        };
        assert(payloads(res.datagrams_server_to_client@) =~= Seq::empty());
        assert(payloads(res.recent_client_to_server@) =~= Seq::empty());
        assert(payloads(res.recent_server_to_client@) =~= Seq::empty());
        res
    }

    /// Whether the conversation saw no datagram in the
    /// `STALE_AFTER_NANOS` before `now`; a new datagram of a stale
    /// conversation starts a new one.
    pub fn is_stale(&self, now: i128) -> (res: bool)
        ensures
            res == (self.most_recent_segment_time < now - STALE_AFTER_NANOS),
    {
        elapsed_more_than(self.most_recent_segment_time, now, STALE_AFTER_NANOS)
    }

    /// Whether the conversation is closed.
    pub fn is_closed(&self) -> (res: bool)
        ensures
            res == (self.state == UdpConversationState::Closed),
    {
        self.state == UdpConversationState::Closed
    }

    /// Whether the counters can take a datagram of these byte counts
    /// without overflowing.
    pub fn can_take(&self, bytes_tx: u64, bytes_rx: u64) -> (res: bool)
        ensures
            res == can_register(*self, bytes_tx, bytes_rx),
    {
        self.bytes_count_rx as u128 + bytes_rx as u128 <= u64::MAX as u128
            && self.bytes_count_tx as u128 + bytes_tx as u128 <= u64::MAX as u128
            && self.datagrams_count < u64::MAX
    }

    /// Accounts for one more datagram of an existing conversation; see
    /// `registered`.
    pub fn register_existing(
        &mut self,
        direction: TrafficDirection,
        bytes_tx: u64,
        bytes_rx: u64,
        timestamp: i128,
        payload: &Vec<u8>,
        tags: &TagSet,
    )
        requires
            old(self).wf(),
            can_register(*old(self), bytes_tx, bytes_rx),
        ensures
            final(self).wf(),
            registered(*old(self), *final(self), direction, bytes_tx, bytes_rx, timestamp, payload@, tags@),
    {
        self.bytes_count_rx = self.bytes_count_rx + bytes_rx;
        self.bytes_count_tx = self.bytes_count_tx + bytes_tx;
        self.bytes_count_rx_incremental = self.bytes_count_rx_incremental + bytes_rx;
        self.bytes_count_tx_incremental = self.bytes_count_tx_incremental + bytes_tx;

        self.most_recent_segment_time = timestamp;
        self.datagrams_count = self.datagrams_count + 1;
        self.datagrams_count_incremental = self.datagrams_count_incremental + 1;

        match direction {
            TrafficDirection::ClientToServer => {
                proof {
                    lemma_push_bounded_keeps_bound(payloads(self.datagrams_client_to_server@), payload@);
                }
                push_bounded(&mut self.datagrams_client_to_server, clone_bytes(payload));
            },
            TrafficDirection::ServerToClient => {
                proof {
                    lemma_push_bounded_keeps_bound(payloads(self.datagrams_server_to_client@), payload@);
                }
                push_bounded(&mut self.datagrams_server_to_client, clone_bytes(payload));
            },
        }

        if self.capture_recent {
            match direction {
                TrafficDirection::ClientToServer => {
                    proof {
                        lemma_push_recent_keeps_latest(payloads(self.recent_client_to_server@), payload@);
                    }
                    push_recent(&mut self.recent_client_to_server, clone_bytes(payload));
                },
                TrafficDirection::ServerToClient => {
                    proof {
                        lemma_push_recent_keeps_latest(payloads(self.recent_server_to_client@), payload@);
                    }
                    push_recent(&mut self.recent_server_to_client, clone_bytes(payload));
                },
            }
        }

        self.tags.extend(tags);
    }

    /// Closes the conversation, with its last datagram's time as end time,
    /// when no datagram arrived for more than `EXPIRE_AFTER_NANOS` before
    /// `now`.
    pub fn expire(&mut self, now: i128)
        ensures
            *final(self) == spec_expired(*old(self), now),
            if now - old(self).most_recent_segment_time > EXPIRE_AFTER_NANOS {
                &&& final(self).end_time == Some(old(self).most_recent_segment_time)
                &&& final(self).state == UdpConversationState::Closed
            } else {
                &&& final(self).end_time == old(self).end_time
                &&& final(self).state == old(self).state
            },
            final(self).most_recent_segment_time == old(self).most_recent_segment_time,
            final(self).datagrams_count == old(self).datagrams_count,
            final(self).datagrams_count_incremental == old(self).datagrams_count_incremental,
            final(self).bytes_count_rx == old(self).bytes_count_rx,
            final(self).bytes_count_tx == old(self).bytes_count_tx,
            final(self).bytes_count_rx_incremental == old(self).bytes_count_rx_incremental,
            final(self).bytes_count_tx_incremental == old(self).bytes_count_tx_incremental,
            final(self).datagrams_client_to_server@ == old(self).datagrams_client_to_server@,
            final(self).datagrams_server_to_client@ == old(self).datagrams_server_to_client@,
            final(self).recent_client_to_server@ == old(self).recent_client_to_server@,
            final(self).recent_server_to_client@ == old(self).recent_server_to_client@,
            final(self).tags@ == old(self).tags@,
            final(self).source_address == old(self).source_address,
            final(self).destination_address == old(self).destination_address,
            final(self).source_port == old(self).source_port,
            final(self).destination_port == old(self).destination_port,
            final(self).capture_recent == old(self).capture_recent,
            old(self).wf() ==> final(self).wf(),
    {
        if elapsed_more_than(self.most_recent_segment_time, now, EXPIRE_AFTER_NANOS) {
            self.end_time = Some(self.most_recent_segment_time);
            self.state = UdpConversationState::Closed;
        }
    }

    /// Zeroes the counters of new datagrams and bytes since the last report.
    pub fn reset_incremental_counters(&mut self)
        ensures
            *final(self) == spec_counters_reset(*old(self)),
            final(self).datagrams_count_incremental == 0,
            final(self).bytes_count_rx_incremental == 0,
            final(self).bytes_count_tx_incremental == 0,
            final(self).datagrams_count == old(self).datagrams_count,
            final(self).bytes_count_rx == old(self).bytes_count_rx,
            final(self).bytes_count_tx == old(self).bytes_count_tx,
            final(self).same_identity(old(self)),
            final(self).most_recent_segment_time == old(self).most_recent_segment_time,
            final(self).datagrams_client_to_server@ == old(self).datagrams_client_to_server@,
            final(self).datagrams_server_to_client@ == old(self).datagrams_server_to_client@,
            final(self).recent_client_to_server@ == old(self).recent_client_to_server@,
            final(self).recent_server_to_client@ == old(self).recent_server_to_client@,
            final(self).tags@ == old(self).tags@,
            old(self).wf() ==> final(self).wf(),
    {
        self.datagrams_count_incremental = 0;
        self.bytes_count_rx_incremental = 0;
        self.bytes_count_tx_incremental = 0;
    }
}

/// `c` after expiry at `now`: closed, with its last datagram's time as end
/// time, when no datagram arrived for more than `EXPIRE_AFTER_NANOS`;
/// otherwise unchanged.
pub open spec fn spec_expired(c: UdpConversation, now: i128) -> UdpConversation {
    if now - c.most_recent_segment_time > EXPIRE_AFTER_NANOS {
        UdpConversation { state: UdpConversationState::Closed, end_time: Some(c.most_recent_segment_time), ..c }
    } else {
        c
    }
}

/// `c` with its counters of new datagrams and bytes since the last report
/// zeroed, and nothing else changed.
pub open spec fn spec_counters_reset(c: UdpConversation) -> UdpConversation {
    UdpConversation {
        datagrams_count_incremental: 0,
        bytes_count_rx_incremental: 0,
        bytes_count_tx_incremental: 0,
        ..c
    }
}

/// Whether `c` sent at least 70% of `total` bytes.
pub open spec fn heavy_sender(sent: u64, total: u64) -> bool {
    10 * sent >= 7 * total
}

/// How a STUN-tagged (WebRTC or media) conversation is oriented so that
/// its meaningful endpoint is the source: `Some` names the endpoint to make
/// the client, which is always the current destination.
///
/// 1. With at least `ORIENT_BY_BYTES_MIN_TOTAL` bytes in total, the side
///    that sent at least 70% of them becomes the source.
/// 2. Otherwise, when exactly one side is site-local, that side becomes
///    the source.
/// 3. Otherwise the lower endpoint becomes the source.
pub open spec fn spec_orient_webrtc(c: &UdpConversation, src_site_local: bool, dst_site_local: bool) -> Option<TaggerCommand> {
    let to_destination = Some(TaggerCommand::OrientClientTo { address: c.destination_address, port: c.destination_port });
    let total = c.bytes_count_tx + c.bytes_count_rx;
    if !c.tags@.contains(L7Tag::STUN) {
        None
    } else if total >= ORIENT_BY_BYTES_MIN_TOTAL && heavy_sender(c.bytes_count_rx, total as u64) {
        to_destination
    } else if total >= ORIENT_BY_BYTES_MIN_TOTAL && heavy_sender(c.bytes_count_tx, total as u64) {
        None
    } else if src_site_local && !dst_site_local {
        None
    } else if !src_site_local && dst_site_local {
        to_destination
    } else if endpoint_less(c.destination_address, c.destination_port, c.source_address, c.source_port) {
        to_destination
    } else {
        None
    }
}

/// Orients a WebRTC/media conversation; see `spec_orient_webrtc`. The
/// site-locality of each endpoint is passed in. The 70% share is compared
/// exactly, in integers.
pub fn orient_webrtc(c: &UdpConversation, src_site_local: bool, dst_site_local: bool) -> (res: Option<TaggerCommand>)
    requires
        c.bytes_count_tx + c.bytes_count_rx <= u64::MAX,
    ensures
        res == spec_orient_webrtc(c, src_site_local, dst_site_local),
{
    // Only apply to WebRTC/media flows.
    if !c.tags.contains(L7Tag::STUN) {
        return None;
    }
    let to_destination = Some(TaggerCommand::OrientClientTo { address: c.destination_address, port: c.destination_port });
    let total = c.bytes_count_tx + c.bytes_count_rx;

    // Level 1: decisive byte imbalance. The heavy sender is the source.
    if total >= ORIENT_BY_BYTES_MIN_TOTAL {
        if (c.bytes_count_rx as u128) * 10 >= (total as u128) * 7 {
            return to_destination;
        }
        if (c.bytes_count_tx as u128) * 10 >= (total as u128) * 7 {
            return None;
        }
    }

    // Level 2: the site-local side is the source when there is a clear split.
    if src_site_local && !dst_site_local {
        return None;
    }
    if !src_site_local && dst_site_local {
        return to_destination;
    }

    // Level 3: canonical, the lower endpoint is the source.
    if ip_endpoint_less(c.destination_address, c.destination_port, c.source_address, c.source_port) {
        to_destination
    } else {
        None
    }
}

/// Orientation only ever moves the current destination into the source
/// role, and only on STUN-tagged conversations.
pub proof fn lemma_orient_targets_destination(c: &UdpConversation, src_site_local: bool, dst_site_local: bool)
    ensures
        spec_orient_webrtc(c, src_site_local, dst_site_local) matches Some(TaggerCommand::OrientClientTo { address, port })
            ==> address == c.destination_address && port == c.destination_port && c.tags@.contains(L7Tag::STUN),
{
}

/// A conversation of the table with its session key.
#[derive(Debug)]
pub struct UdpEntry {
    pub key: L4Key,
    pub conversation: UdpConversation,
}

/// Index of the entry with the given key, or -1.
pub open spec fn index_of_key(entries: Seq<UdpEntry>, key: L4Key) -> int
    decreases entries.len(),
{
    if entries.len() == 0 {
        -1
    } else {
        let r = index_of_key(entries.drop_last(), key);
        if r >= 0 {
            r
        } else if entries.last().key == key {
            entries.len() - 1
        } else {
            -1
        }
    }
}

/// No two entries share a key, and every conversation is consistent.
pub open spec fn entries_wf(entries: Seq<UdpEntry>) -> bool {
    &&& forall|i: int, j: int| 0 <= i < j < entries.len() ==> #[trigger] entries[i].key != #[trigger] entries[j].key
    &&& forall|i: int| 0 <= i < entries.len() ==> (#[trigger] entries[i]).conversation.wf()
}

/// The entries of `entries` whose conversation is not closed, in order.
pub open spec fn open_only(entries: Seq<UdpEntry>) -> Seq<UdpEntry>
    decreases entries.len(),
{
    if entries.len() == 0 {
        Seq::empty()
    } else if entries[0].conversation.state == UdpConversationState::Closed {
        open_only(entries.skip(1))
    } else {
        seq![entries[0]] + open_only(entries.skip(1))
    }
}

proof fn lemma_open_only_not_closed(entries: Seq<UdpEntry>)
    ensures
        open_only(entries).len() <= entries.len(),
        forall|i: int| 0 <= i < open_only(entries).len()
            ==> (#[trigger] open_only(entries)[i]).conversation.state != UdpConversationState::Closed,
    decreases entries.len(),
{
    if entries.len() > 0 {
        lemma_open_only_not_closed(entries.skip(1));
        let rest = open_only(entries.skip(1));
        if entries[0].conversation.state != UdpConversationState::Closed {
            assert forall|i: int| 0 <= i < open_only(entries).len()
                implies (#[trigger] open_only(entries)[i]).conversation.state != UdpConversationState::Closed by {
                if i > 0 {
                    assert(open_only(entries)[i] == rest[i - 1]);
                }
            }
        }
    }
}

proof fn lemma_index_of_key(v: Seq<UdpEntry>, key: L4Key)
    ensures
        -1 <= index_of_key(v, key) < v.len(),
        index_of_key(v, key) >= 0 ==> v[index_of_key(v, key)].key == key,
        index_of_key(v, key) == -1 ==> forall|k: int| 0 <= k < v.len() ==> #[trigger] v[k].key != key,
    decreases v.len(),
{
    if v.len() > 0 {
        lemma_index_of_key(v.drop_last(), key);
        assert forall|k: int| 0 <= k < v.len() - 1 implies #[trigger] v[k] == v.drop_last()[k] by {}
    }
}

/// The UDP conversations seen, one per session key.
#[derive(Debug)]
pub struct UdpTable {
    conversations: Vec<UdpEntry>,
}

impl UdpTable {
    /// The table's entries, in order.
    pub closed spec fn entries(&self) -> Seq<UdpEntry> {
        self.conversations@
    }

    pub open spec fn wf(&self) -> bool {
        entries_wf(self.entries())
    }

    pub fn new() -> (res: UdpTable)
        ensures
            res.entries().len() == 0,
            res.wf(),
    {
        UdpTable { conversations: Vec::new() }
    }

    pub fn len(&self) -> (res: usize)
        ensures
            res == self.entries().len(),
    {
        self.conversations.len()
    }

    /// The table's entries, to read.
    pub fn conversations(&self) -> (res: &Vec<UdpEntry>)
        ensures
            res@ == self.entries(),
    {
        &self.conversations
    }

    fn find(&self, key: &L4Key) -> (res: Option<usize>)
        ensures
            match res {
                Some(i) => i as int == index_of_key(self.entries(), *key),
                None => index_of_key(self.entries(), *key) == -1,
            },
    {
        let ghost v = self.entries();
        let mut i: usize = 0;
        while i < self.conversations.len()
            invariant
                i <= self.conversations.len(),
                v == self.entries(),
                index_of_key(v.take(i as int), *key) == -1,
            decreases self.conversations.len() - i,
        {
            assert(v.take(i + 1).drop_last() =~= v.take(i as int));
            if self.conversations[i].key == *key {
                assert(index_of_key(v.take(i + 1), *key) == i);
                proof {
                    lemma_index_of_key_prefix(v, *key, i + 1);
                }
                return Some(i);
            }
            i += 1;
        }
        assert(v.take(i as int) =~= v);
        None
    }

    /// The conversation with the given session key.
    pub fn get(&self, key: &L4Key) -> (res: Option<&UdpConversation>)
        ensures
            match res {
                Some(c) => index_of_key(self.entries(), *key) >= 0
                    && *c == self.entries()[index_of_key(self.entries(), *key)].conversation,
                None => index_of_key(self.entries(), *key) == -1,
            },
    {
        proof {
            lemma_index_of_key(self.entries(), *key);
        }
        match self.find(key) {
            Some(i) => Some(&self.conversations[i].conversation),
            None => None,
        }
    }

    /// Registers a datagram: it starts a new conversation when its session
    /// key has none or only a stale one, and is accounted to the existing
    /// conversation otherwise. `direction`, `bytes_tx` and `bytes_rx` are
    /// the datagram's direction and byte counts relative to the existing
    /// conversation; they are used only for one.
    pub fn register_datagram(&mut self, datagram: &Datagram, now: i128, direction: TrafficDirection, bytes_tx: u64, bytes_rx: u64)
        requires
            old(self).wf(),
            ({
                let i = index_of_key(old(self).entries(), datagram.session_key);
                i >= 0 && old(self).entries()[i].conversation.most_recent_segment_time >= now - STALE_AFTER_NANOS
                    ==> can_register(old(self).entries()[i].conversation, bytes_tx, bytes_rx)
            }),
        ensures
            final(self).wf(),
            ({
                let i = index_of_key(old(self).entries(), datagram.session_key);
                let old_entries = old(self).entries();
                let new_entries = final(self).entries();
                if i < 0 {
                    &&& new_entries.len() == old_entries.len() + 1
                    &&& forall|j: int| 0 <= j < old_entries.len() ==> #[trigger] new_entries[j] == old_entries[j]
                    &&& new_entries.last().key == datagram.session_key
                    &&& started_from(new_entries.last().conversation, *datagram)
                } else {
                    &&& new_entries.len() == old_entries.len()
                    &&& forall|j: int| 0 <= j < old_entries.len() && j != i ==> #[trigger] new_entries[j] == old_entries[j]
                    &&& new_entries[i].key == datagram.session_key
                    &&& if old_entries[i].conversation.most_recent_segment_time < now - STALE_AFTER_NANOS {
                        started_from(new_entries[i].conversation, *datagram)
                    } else {
                        registered(
                            old_entries[i].conversation,
                            new_entries[i].conversation,
                            direction,
                            bytes_tx,
                            bytes_rx,
                            datagram.timestamp,
                            datagram.payload@,
                            datagram.tags@,
                        )
                    }
                }
            }),
    {
        proof {
            lemma_index_of_key(self.entries(), datagram.session_key);
        }
        let ghost old_entries = self.entries();
        match self.find(&datagram.session_key) {
            Some(i) => {
                let mut entry = self.conversations.remove(i);
                if entry.conversation.is_stale(now) {
                    // Stale: treat as a brand-new conversation.
                    entry.conversation = UdpConversation::from_first_datagram(datagram);
                } else {
                    entry.conversation.register_existing(
                        direction,
                        bytes_tx,
                        bytes_rx,
                        datagram.timestamp,
                        &datagram.payload,
                        &datagram.tags,
                    );
                }
                self.conversations.insert(i, entry);
                assert forall|a: int, b: int| 0 <= a < b < self.entries().len() implies
                    #[trigger] self.entries()[a].key != #[trigger] self.entries()[b].key by {
                    assert(old_entries[a].key != old_entries[b].key);
                }
                assert forall|j: int| 0 <= j < self.entries().len() implies (#[trigger] self.entries()[j]).conversation.wf() by {
                    if j != i {
                        assert(self.entries()[j] == old_entries[j]);
                    }
                }
            },
            None => {
                let conversation = UdpConversation::from_first_datagram(datagram);
                self.conversations.push(UdpEntry { key: datagram.session_key, conversation });
                assert forall|a: int, b: int| 0 <= a < b < self.entries().len() implies
                    #[trigger] self.entries()[a].key != #[trigger] self.entries()[b].key by {
                    if b < old_entries.len() {
                        assert(old_entries[a].key != old_entries[b].key);
                    } else {
                        assert(old_entries[a].key != datagram.session_key);
                    }
                }
                assert forall|j: int| 0 <= j < self.entries().len() implies (#[trigger] self.entries()[j]).conversation.wf() by {
                    if j < old_entries.len() {
                        assert(self.entries()[j] == old_entries[j]);
                    }
                }
            },
        }
    }

    /// Closes every conversation that saw no datagram for more than
    /// `EXPIRE_AFTER_NANOS` before `now`; see `UdpConversation::expire`.
    pub fn expire_conversations(&mut self, now: i128)
        requires
            old(self).wf(),
        ensures
            final(self).wf(),
            final(self).entries().len() == old(self).entries().len(),
            forall|j: int| 0 <= j < final(self).entries().len() ==> {
                let c = #[trigger] final(self).entries()[j].conversation;
                let o = old(self).entries()[j].conversation;
                &&& final(self).entries()[j].key == old(self).entries()[j].key
                &&& if now - o.most_recent_segment_time > EXPIRE_AFTER_NANOS {
                    c.state == UdpConversationState::Closed && c.end_time == Some(o.most_recent_segment_time)
                } else {
                    c.state == o.state && c.end_time == o.end_time
                }
                &&& c.most_recent_segment_time == o.most_recent_segment_time
                &&& c.datagrams_count == o.datagrams_count
                &&& c.bytes_count_rx == o.bytes_count_rx
                &&& c.bytes_count_tx == o.bytes_count_tx
                &&& c.tags@ == o.tags@
                &&& c == spec_expired(o, now)
            },
    {
        let ghost old_entries = self.entries();
        let mut i: usize = 0;
        while i < self.conversations.len()
            invariant
                i <= self.entries().len(),
                self.entries().len() == old_entries.len(),
                entries_wf(self.entries()),
                forall|j: int| 0 <= j < i ==> {
                    let c = #[trigger] self.entries()[j].conversation;
                    let o = old_entries[j].conversation;
                    &&& self.entries()[j].key == old_entries[j].key
                    &&& if now - o.most_recent_segment_time > EXPIRE_AFTER_NANOS {
                        c.state == UdpConversationState::Closed && c.end_time == Some(o.most_recent_segment_time)
                    } else {
                        c.state == o.state && c.end_time == o.end_time
                    }
                    &&& c.most_recent_segment_time == o.most_recent_segment_time
                    &&& c.datagrams_count == o.datagrams_count
                    &&& c.bytes_count_rx == o.bytes_count_rx
                    &&& c.bytes_count_tx == o.bytes_count_tx
                    &&& c.tags@ == o.tags@
                    &&& c == spec_expired(o, now)
                },
                forall|j: int| i <= j < self.entries().len() ==> #[trigger] self.entries()[j] == old_entries[j],
            decreases self.conversations.len() - i,
        {
            let ghost before = self.entries();
            let mut entry = self.conversations.remove(i);
            entry.conversation.expire(now);
            self.conversations.insert(i, entry);
            assert forall|a: int, b: int| 0 <= a < b < self.entries().len() implies
                #[trigger] self.entries()[a].key != #[trigger] self.entries()[b].key by {
                assert(before[a].key != before[b].key);
            }
            assert forall|j: int| 0 <= j < self.entries().len() implies (#[trigger] self.entries()[j]).conversation.wf() by {
                if j != i {
                    assert(self.entries()[j] == before[j]);
                }
                assert(before[j].conversation.wf());
            }
            i += 1;
        }
    }

    /// Deletes the closed conversations; the others keep their order.
    pub fn remove_closed(&mut self)
        requires
            old(self).wf(),
        ensures
            final(self).wf(),
            final(self).entries() == open_only(old(self).entries()),
    {
        let ghost all = self.entries();
        let mut kept: Vec<UdpEntry> = Vec::new();
        assert(all.skip(0) =~= all);
        while self.conversations.len() > 0
            invariant
                self.entries().len() <= all.len(),
                self.entries() == all.skip(all.len() - self.entries().len()),
                kept@ + open_only(self.entries()) == open_only(all),
                entries_wf(kept@ + self.entries()),
            decreases self.conversations.len(),
        {
            let ghost rest = self.entries();
            let ghost k = kept@;
            let e = self.conversations.remove(0);
            assert(self.entries() =~= rest.skip(1));
            assert(all.skip(all.len() - self.entries().len()) =~= rest.skip(1));
            if !e.conversation.is_closed() {
                kept.push(e);
                assert(kept@ + self.entries() =~= k + rest);
                assert(kept@ + open_only(self.entries()) =~= k + open_only(rest));
            } else {
                assert(open_only(rest) == open_only(rest.skip(1)));
                let ghost whole = k + rest;
                let ghost now_seq = kept@ + self.entries();
                assert(now_seq =~= whole.remove(k.len() as int));
                assert forall|a: int, b: int| 0 <= a < b < now_seq.len() implies
                    #[trigger] now_seq[a].key != #[trigger] now_seq[b].key by {
                    let a2 = if a < k.len() { a } else { a + 1 };
                    let b2 = if b < k.len() { b } else { b + 1 };
                    assert(now_seq[a] == whole[a2]);
                    assert(now_seq[b] == whole[b2]);
                    assert(whole[a2].key != whole[b2].key);
                }
                assert forall|j: int| 0 <= j < now_seq.len() implies (#[trigger] now_seq[j]).conversation.wf() by {
                    let j2 = if j < k.len() { j } else { j + 1 };
                    assert(now_seq[j] == whole[j2]);
                }
            }
        }
        assert(kept@ + open_only(self.entries()) =~= kept@);
        assert(kept@ + self.entries() =~= kept@);
        self.conversations = kept;
    }

    /// Zeroes the counters of new datagrams and bytes since the last
    /// report, of every conversation; totals and identities stay.
    pub fn incremental_counter_sweep(&mut self)
        requires
            old(self).wf(),
        ensures
            final(self).wf(),
            final(self).entries().len() == old(self).entries().len(),
            forall|i: int| 0 <= i < final(self).entries().len() ==> {
                let c = #[trigger] final(self).entries()[i].conversation;
                let o = old(self).entries()[i].conversation;
                &&& final(self).entries()[i].key == old(self).entries()[i].key
                &&& c.datagrams_count_incremental == 0
                &&& c.bytes_count_rx_incremental == 0
                &&& c.bytes_count_tx_incremental == 0
                &&& c.datagrams_count == o.datagrams_count
                &&& c.bytes_count_rx == o.bytes_count_rx
                &&& c.bytes_count_tx == o.bytes_count_tx
                &&& c.same_identity(&o)
                &&& c == spec_counters_reset(o)
            },
    {
        let ghost old_entries = self.entries();
        let mut i: usize = 0;
        while i < self.conversations.len()
            invariant
                i <= self.entries().len(),
                self.entries().len() == old_entries.len(),
                entries_wf(self.entries()),
                forall|k: int| 0 <= k < i ==> {
                    let c = #[trigger] self.entries()[k].conversation;
                    let o = old_entries[k].conversation;
                    &&& self.entries()[k].key == old_entries[k].key
                    &&& c.datagrams_count_incremental == 0
                    &&& c.bytes_count_rx_incremental == 0
                    &&& c.bytes_count_tx_incremental == 0
                    &&& c.datagrams_count == o.datagrams_count
                    &&& c.bytes_count_rx == o.bytes_count_rx
                    &&& c.bytes_count_tx == o.bytes_count_tx
                    &&& c.same_identity(&o)
                    &&& c == spec_counters_reset(o)
                },
                forall|k: int| i <= k < self.entries().len() ==> #[trigger] self.entries()[k] == old_entries[k],
            decreases self.conversations.len() - i,
        {
            let ghost before = self.entries();
            let mut entry = self.conversations.remove(i);
            entry.conversation.reset_incremental_counters();
            self.conversations.insert(i, entry);
            assert forall|a: int, b: int| 0 <= a < b < self.entries().len() implies
                #[trigger] self.entries()[a].key != #[trigger] self.entries()[b].key by {
                assert(before[a].key != before[b].key);
            }
            assert forall|j: int| 0 <= j < self.entries().len() implies (#[trigger] self.entries()[j]).conversation.wf() by {
                if j != i {
                    assert(self.entries()[j] == before[j]);
                }
                assert(before[j].conversation.wf());
            }
            i += 1;
        }
    }

    /// Adds the tags a tagging pass found to the conversation of entry `i`,
    /// with the WebRTC rule of `merge_udp_tags`; nothing else changes.
    pub fn merge_tags_at(&mut self, i: usize, found: &TagSet)
        requires
            old(self).wf(),
            i < old(self).entries().len(),
        ensures
            final(self).wf(),
            final(self).entries().len() == old(self).entries().len(),
            forall|j: int| 0 <= j < old(self).entries().len() && j != i ==> #[trigger] final(self).entries()[j] == old(self).entries()[j],
            final(self).entries()[i as int].key == old(self).entries()[i as int].key,
            final(self).entries()[i as int].conversation == (UdpConversation {
                tags: final(self).entries()[i as int].conversation.tags,
                ..old(self).entries()[i as int].conversation
            }),
            final(self).entries()[i as int].conversation.tags@ == merged_tags(old(self).entries()[i as int].conversation.tags@, found@),
    {
        let ghost before = self.conversations@;
        let mut entry = self.conversations.remove(i);
        merge_udp_tags(&mut entry.conversation.tags, found);
        self.conversations.insert(i, entry);
        assert forall|a: int, b: int| 0 <= a < b < self.conversations@.len() implies
            #[trigger] self.conversations@[a].key != #[trigger] self.conversations@[b].key by {
            assert(before[a].key != before[b].key);
        }
        assert forall|j: int| 0 <= j < self.conversations@.len() implies (#[trigger] self.conversations@[j]).conversation.wf() by {
            if j != i {
                assert(self.conversations@[j] == before[j]);
            }
            assert(before[j].conversation.wf());
        }
    }

    /// Takes entry `i` out of the table, to be put back with `put_entry`.
    pub fn take_entry(&mut self, i: usize) -> (res: UdpEntry)
        requires
            old(self).wf(),
            i < old(self).entries().len(),
        ensures
            final(self).wf(),
            res == old(self).entries()[i as int],
            final(self).entries() == old(self).entries().remove(i as int),
    {
        let ghost before = self.conversations@;
        let res = self.conversations.remove(i);
        assert forall|a: int, b: int| 0 <= a < b < self.conversations@.len() implies
            #[trigger] self.conversations@[a].key != #[trigger] self.conversations@[b].key by {
            let a2 = if a < i { a } else { a + 1 };
            let b2 = if b < i { b } else { b + 1 };
            assert(before[a2].key != before[b2].key);
        }
        assert forall|j: int| 0 <= j < self.conversations@.len() implies (#[trigger] self.conversations@[j]).conversation.wf() by {
            let j2 = if j < i { j } else { j + 1 };
            assert(self.conversations@[j] == before[j2]);
        }
        res
    }

    /// Puts `entry` into the table at position `i`. It is refused, and
    /// handed back, when its key already has an entry or its
    /// conversation's bookkeeping is inconsistent.
    pub fn put_entry(&mut self, i: usize, entry: UdpEntry) -> (res: Result<(), UdpEntry>)
        requires
            old(self).wf(),
            i <= old(self).entries().len(),
        ensures
            final(self).wf(),
            (index_of_key(old(self).entries(), entry.key) == -1 && entry.conversation.wf()) <==> res is Ok,
            res is Ok ==> final(self).entries() == old(self).entries().insert(i as int, entry),
            res matches Err(e) ==> e == entry && final(self).entries() == old(self).entries(),
    {
        proof {
            lemma_index_of_key(self.conversations@, entry.key);
        }
        if self.find(&entry.key).is_some() || !entry.conversation.is_consistent() {
            return Err(entry);
        }
        let ghost before = self.conversations@;
        self.conversations.insert(i, entry);
        assert forall|a: int, b: int| 0 <= a < b < self.conversations@.len() implies
            #[trigger] self.conversations@[a].key != #[trigger] self.conversations@[b].key by {
            if a == i {
                assert(before[b - 1].key != entry.key);
            } else if b == i {
                assert(before[a].key != entry.key);
            } else {
                let a2 = if a < i { a } else { a - 1 };
                let b2 = if b < i { b } else { b - 1 };
                assert(before[a2].key != before[b2].key);
            }
        }
        assert forall|j: int| 0 <= j < self.conversations@.len() implies (#[trigger] self.conversations@[j]).conversation.wf() by {
            if j != i {
                let j2 = if j < i { j } else { j - 1 };
                assert(self.conversations@[j] == before[j2]);
            }
        }
        Ok(())
    }

    /// Ends a report cycle. When the report was produced, the closed
    /// conversations (among them those that expired in this cycle, which
    /// that report carried) are deleted and the counters of new datagrams
    /// and bytes of the others are zeroed; when it could not be produced,
    /// the table stays as it is, so no conversation goes unreported.
    pub fn conclude_report(&mut self, report_produced: bool)
        requires
            old(self).wf(),
        ensures
            final(self).wf(),
            !report_produced ==> final(self).entries() == old(self).entries(),
            report_produced ==> {
                let kept = open_only(old(self).entries());
                &&& final(self).entries().len() == kept.len()
                &&& forall|i: int| 0 <= i < kept.len() ==> {
                    let c = #[trigger] final(self).entries()[i].conversation;
                    let o = kept[i].conversation;
                    &&& final(self).entries()[i].key == kept[i].key
                    &&& c.state != UdpConversationState::Closed
                    &&& c.datagrams_count_incremental == 0
                    &&& c.bytes_count_rx_incremental == 0
                    &&& c.bytes_count_tx_incremental == 0
                    &&& c.datagrams_count == o.datagrams_count
                    &&& c.bytes_count_rx == o.bytes_count_rx
                    &&& c.bytes_count_tx == o.bytes_count_tx
                    &&& c.same_identity(&o)
                    &&& c == spec_counters_reset(o)
                }
            },
    {
        if report_produced {
            self.remove_closed();
            proof {
                lemma_open_only_not_closed(old(self).entries());
            }
            self.incremental_counter_sweep();
        }
    }
}

proof fn lemma_index_of_key_prefix(v: Seq<UdpEntry>, key: L4Key, n: int)
    requires
        0 <= n <= v.len(),
        index_of_key(v.take(n), key) >= 0,
    ensures
        index_of_key(v, key) == index_of_key(v.take(n), key),
    decreases v.len(),
{
    if n < v.len() {
        assert(v.drop_last().take(n) =~= v.take(n));
        lemma_index_of_key_prefix(v.drop_last(), key, n);
    } else {
        assert(v.take(n) =~= v);
    }
}


/// How a STUN conversation is oriented. With a large enough volume
/// (`ORIENT_BY_BYTES_MIN_TOTAL` bytes), an endpoint that sent at least 70%
/// of the bytes becomes (or stays) the source. Otherwise a site-local
/// source facing a non-site-local destination stays, and the reverse is
/// flipped. Otherwise the lower endpoint, ordering by address first and by
/// port only between equal addresses, becomes the source: the destination
/// is made the source exactly when it orders strictly before the source,
/// so a source whose address orders before the destination's stays,
/// whatever the ports. Conversations not tagged STUN are never oriented.
pub proof fn lemma_orient_levels(c: &UdpConversation, src_site_local: bool, dst_site_local: bool)
    requires
        c.bytes_count_tx + c.bytes_count_rx <= u64::MAX,
    ensures
        ({
            let total = c.bytes_count_tx + c.bytes_count_rx;
            let flip = Some(TaggerCommand::OrientClientTo { address: c.destination_address, port: c.destination_port });
            let large = total >= 50_000;
            let res = spec_orient_webrtc(c, src_site_local, dst_site_local);
            &&& !c.tags@.contains(L7Tag::STUN) ==> res is None
            &&& c.tags@.contains(L7Tag::STUN) && large && 10 * c.bytes_count_rx >= 7 * total ==> res == flip
            &&& c.tags@.contains(L7Tag::STUN) && large && 10 * c.bytes_count_rx < 7 * total
                && 10 * c.bytes_count_tx >= 7 * total ==> res is None
            &&& (c.tags@.contains(L7Tag::STUN) && !(large && (10 * c.bytes_count_rx >= 7 * total || 10 * c.bytes_count_tx >= 7 * total)))
                ==> res == (if src_site_local && !dst_site_local {
                    None
                } else if !src_site_local && dst_site_local {
                    flip
                } else if address_less(c.destination_address, c.source_address)
                    || (c.destination_address == c.source_address && c.destination_port < c.source_port) {
                    flip
                } else {
                    None
                })
            &&& (c.tags@.contains(L7Tag::STUN) && !(large && (10 * c.bytes_count_rx >= 7 * total || 10 * c.bytes_count_tx >= 7 * total))
                && src_site_local == dst_site_local && address_less(c.source_address, c.destination_address)) ==> res is None
        }),
{
    let a = c.source_address;
    let b = c.destination_address;
    if address_less(a, b) {
        assert(!address_less(b, a));
        assert(a != b);
    }
}

} // verus!
