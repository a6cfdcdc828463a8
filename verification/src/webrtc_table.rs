use vstd::prelude::*;
use crate::time::elapsed_more_than;
use crate::rtp_tagger::{streams_view, RtpStream, RtpStreamModel};
use crate::webrtc_conversation::{clone_opt_string, L4Key, WebRtcConversation, WebRtcConversationModel};
use crate::webrtc_report::{generate, reports_conversation, WebRTCReport};

verus! {

/// Conversations whose last activity is more than this long ago are
/// dropped from the table, in nanoseconds.
pub const STALE_AFTER_NANOS: i128 = 60_000_000_000;

/// Index of the first stream of `streams` with the given SSRC, or -1.
pub open spec fn first_with_ssrc(streams: Seq<RtpStreamModel>, ssrc: u32) -> int
    decreases streams.len(),
{
    if streams.len() == 0 {
        -1
    } else {
        let r = first_with_ssrc(streams.drop_last(), ssrc);
        if r >= 0 {
            r
        } else if streams.last().ssrc == ssrc {
            streams.len() - 1
        } else {
            -1
        }
    }
}

/// `streams` with `incoming` in place of the first stream of the same
/// SSRC, or appended when there is none.
pub open spec fn merge_stream(streams: Seq<RtpStreamModel>, incoming: RtpStreamModel) -> Seq<RtpStreamModel> {
    let i = first_with_ssrc(streams, incoming.ssrc);
    if i >= 0 {
        streams.update(i, incoming)
    } else {
        streams.push(incoming)
    }
}

/// `existing` with each of `incoming` merged in, in order.
pub open spec fn merge_streams(existing: Seq<RtpStreamModel>, incoming: Seq<RtpStreamModel>) -> Seq<RtpStreamModel>
    decreases incoming.len(),
{
    if incoming.len() == 0 {
        existing
    } else {
        merge_stream(merge_streams(existing, incoming.drop_last()), incoming.last())
    }
}

/// The conversation after a newer observation of it is merged in: media
/// flags accumulate, streams are replaced or added by SSRC, endpoints,
/// counters and the source MAC come from the newer observation, and the
/// activity window widens to cover both.
pub open spec fn spec_merge(existing: WebRtcConversationModel, incoming: WebRtcConversationModel) -> WebRtcConversationModel {
    let streams = merge_streams(existing.rtp_streams, incoming.rtp_streams);
    WebRtcConversationModel {
        has_rtp: existing.has_rtp || incoming.has_rtp,
        has_dtls: existing.has_dtls || incoming.has_dtls,
        has_audio: existing.has_audio || incoming.has_audio,
        has_video: existing.has_video || incoming.has_video,
        rtp_streams: streams,
        stream_count: streams.len() as u16,
        dtls_app_data_records: incoming.dtls_app_data_records,
        source_address: incoming.source_address,
        source_mac: incoming.source_mac,
        source_port: incoming.source_port,
        destination_address: incoming.destination_address,
        destination_port: incoming.destination_port,
        bytes_rx: incoming.bytes_rx,
        bytes_tx: incoming.bytes_tx,
        first_seen: if incoming.first_seen < existing.first_seen { incoming.first_seen } else { existing.first_seen },
        last_activity: if incoming.last_activity > existing.last_activity { incoming.last_activity } else { existing.last_activity },
        ..existing
    }
}

fn find_ssrc(streams: &Vec<RtpStream>, ssrc: u32) -> (res: Option<usize>)
    ensures
        match res {
            Some(i) => i as int == first_with_ssrc(streams_view(streams@), ssrc),
            None => first_with_ssrc(streams_view(streams@), ssrc) == -1,
        },
{
    let ghost v = streams_view(streams@);
    let mut i: usize = 0;
    while i < streams.len()
        invariant
            i <= streams.len(),
            v == streams_view(streams@),
            first_with_ssrc(v.take(i as int), ssrc) == -1,
        decreases streams.len() - i,
    {
        assert(v.take(i + 1).drop_last() =~= v.take(i as int));
        if streams[i].ssrc == ssrc {
            assert(first_with_ssrc(v.take(i + 1), ssrc) == i);
            proof {
                lemma_first_with_ssrc_prefix(v, ssrc, i + 1);
            }
            return Some(i);
        }
        i += 1;
    }
    assert(v.take(i as int) =~= v);
    None
}

proof fn lemma_first_with_ssrc_prefix(v: Seq<RtpStreamModel>, ssrc: u32, n: int)
    requires
        0 <= n <= v.len(),
        first_with_ssrc(v.take(n), ssrc) >= 0,
    ensures
        first_with_ssrc(v, ssrc) == first_with_ssrc(v.take(n), ssrc),
    decreases v.len(),
{
    if n < v.len() {
        assert(v.drop_last().take(n) =~= v.take(n));
        lemma_first_with_ssrc_prefix(v.drop_last(), ssrc, n);
    } else {
        assert(v.take(n) =~= v);
    }
}

proof fn lemma_first_with_ssrc_bounds(v: Seq<RtpStreamModel>, ssrc: u32)
    ensures
        -1 <= first_with_ssrc(v, ssrc) < v.len(),
        first_with_ssrc(v, ssrc) >= 0 ==> v[first_with_ssrc(v, ssrc)].ssrc == ssrc,
        first_with_ssrc(v, ssrc) == -1 ==> forall|k: int| 0 <= k < v.len() ==> #[trigger] v[k].ssrc != ssrc,
    decreases v.len(),
{
    if v.len() > 0 {
        lemma_first_with_ssrc_bounds(v.drop_last(), ssrc);
        assert forall|k: int| 0 <= k < v.len() - 1 implies #[trigger] v[k] == v.drop_last()[k] by {}
    }
}

fn merge_stream_list(streams: &mut Vec<RtpStream>, incoming: &Vec<RtpStream>)
    ensures
        streams_view(final(streams)@) == merge_streams(streams_view(old(streams)@), streams_view(incoming@)),
{
    let ghost start = streams_view(streams@);
    let ghost inc = streams_view(incoming@);
    let mut k: usize = 0;
    while k < incoming.len()
        invariant
            k <= incoming.len(),
            inc == streams_view(incoming@),
            start == streams_view(old(streams)@),
            streams_view(streams@) == merge_streams(start, inc.take(k as int)),
        decreases incoming.len() - k,
    {
        let incoming_stream = incoming[k].duplicate();
        let ghost before = streams_view(streams@);
        proof {
            assert(inc.take(k + 1).drop_last() =~= inc.take(k as int));
            assert(inc.take(k + 1).last() == incoming_stream@);
            lemma_first_with_ssrc_bounds(before, incoming_stream.ssrc);
        }
        match find_ssrc(streams, incoming_stream.ssrc) {
            Some(j) => {
                streams.set(j, incoming_stream);
                assert(streams_view(streams@) =~= before.update(j as int, incoming_stream@));
            },
            None => {
                streams.push(incoming_stream);
                assert(streams_view(streams@) =~= before.push(incoming_stream@));
            },
        }
        k += 1;
    }
    assert(inc.take(incoming.len() as int) =~= inc);
}

/// Merges a newer observation of a WebRTC conversation into the one the
/// table holds; see `spec_merge`.
pub fn merge_into(existing: &mut WebRtcConversation, incoming: &WebRtcConversation)
    ensures
        final(existing)@ == spec_merge(old(existing)@, incoming@),
{
    existing.has_rtp = existing.has_rtp || incoming.has_rtp;
    existing.has_dtls = existing.has_dtls || incoming.has_dtls;
    existing.has_audio = existing.has_audio || incoming.has_audio;
    existing.has_video = existing.has_video || incoming.has_video;

    merge_stream_list(&mut existing.rtp_streams, &incoming.rtp_streams);

    existing.stream_count = existing.rtp_streams.len() as u16;
    existing.dtls_app_data_records = incoming.dtls_app_data_records;
    existing.source_address = incoming.source_address;
    existing.source_mac = clone_opt_string(&incoming.source_mac);
    existing.source_port = incoming.source_port;
    existing.destination_address = incoming.destination_address;
    existing.destination_port = incoming.destination_port;
    existing.bytes_rx = incoming.bytes_rx;
    existing.bytes_tx = incoming.bytes_tx;

    if incoming.first_seen < existing.first_seen {
        existing.first_seen = incoming.first_seen;
    }
    if incoming.last_activity > existing.last_activity {
        existing.last_activity = incoming.last_activity;
    }
    assert(existing@ =~= spec_merge(old(existing)@, incoming@));
}

/// Index of the first conversation with the given session key, or -1.
pub open spec fn first_with_key(table: Seq<WebRtcConversationModel>, key: L4Key) -> int
    decreases table.len(),
{
    if table.len() == 0 {
        -1
    } else {
        let r = first_with_key(table.drop_last(), key);
        if r >= 0 {
            r
        } else if table.last().session_key == key {
            table.len() - 1
        } else {
            -1
        }
    }
}

/// The models of a table of conversations.
pub open spec fn table_view(table: Seq<WebRtcConversation>) -> Seq<WebRtcConversationModel> {
    table.map_values(|c: WebRtcConversation| c@)
}

/// The table after a conversation is registered: merged into the
/// conversation with its session key, or added when there is none.
pub open spec fn spec_register(table: Seq<WebRtcConversationModel>, incoming: WebRtcConversationModel) -> Seq<WebRtcConversationModel> {
    let i = first_with_key(table, incoming.session_key);
    if i >= 0 {
        table.update(i, spec_merge(table[i], incoming))
    } else {
        table.push(incoming)
    }
}

proof fn lemma_first_with_key_bounds(v: Seq<WebRtcConversationModel>, key: L4Key)
    ensures
        -1 <= first_with_key(v, key) < v.len(),
    decreases v.len(),
{
    if v.len() > 0 {
        lemma_first_with_key_bounds(v.drop_last(), key);
    }
}

proof fn lemma_first_with_key_prefix(v: Seq<WebRtcConversationModel>, key: L4Key, n: int)
    requires
        0 <= n <= v.len(),
        first_with_key(v.take(n), key) >= 0,
    ensures
        first_with_key(v, key) == first_with_key(v.take(n), key),
    decreases v.len(),
{
    if n < v.len() {
        assert(v.drop_last().take(n) =~= v.take(n));
        lemma_first_with_key_prefix(v.drop_last(), key, n);
    } else {
        assert(v.take(n) =~= v);
    }
}

/// Registers a WebRTC conversation in the table of conversations; see
/// `spec_register`.
fn register_in(table: &mut Vec<WebRtcConversation>, incoming: WebRtcConversation)
    ensures
        table_view(final(table)@) == spec_register(table_view(old(table)@), incoming@),
{
    let ghost v = table_view(table@);
    let mut i: usize = 0;
    while i < table.len()
        invariant
            i <= table.len(),
            v == table_view(table@),
            table@ == old(table)@,
            first_with_key(v.take(i as int), incoming.session_key) == -1,
        decreases table.len() - i,
    {
        assert(v.take(i + 1).drop_last() =~= v.take(i as int));
        if table[i].session_key == incoming.session_key {
            proof {
                assert(first_with_key(v.take(i + 1), incoming.session_key) == i);
                lemma_first_with_key_prefix(v, incoming.session_key, i + 1);
            }
            let mut existing = table.remove(i);
            merge_into(&mut existing, &incoming);
            table.insert(i, existing);
            assert(table_view(table@) =~= v.update(i as int, spec_merge(v[i as int], incoming@)));
            return;
        }
        i += 1;
    }
    assert(v.take(i as int) =~= v);
    table.push(incoming);
    assert(table_view(table@) =~= v.push(incoming@));
}

/// The conversations of `table` whose last activity is at or after `cutoff`.
pub open spec fn recent_only(table: Seq<WebRtcConversationModel>, cutoff: int) -> Seq<WebRtcConversationModel>
    decreases table.len(),
{
    if table.len() == 0 {
        Seq::empty()
    } else if table.last().last_activity >= cutoff {
        recent_only(table.drop_last(), cutoff).push(table.last())
    } else {
        recent_only(table.drop_last(), cutoff)
    }
}

/// Drops the conversations whose last activity is more than
/// `STALE_AFTER_NANOS` before `now`.
fn retain_recent(table: &mut Vec<WebRtcConversation>, now: i128)
    ensures
        table_view(final(table)@) == recent_only(table_view(old(table)@), now - STALE_AFTER_NANOS),
{
    let ghost v = table_view(table@);
    let ghost cutoff = now - STALE_AFTER_NANOS;
    let mut kept: Vec<WebRtcConversation> = Vec::new();
    assert(v.take(table.len() as int) =~= v);
    assert(table_view(kept@).reverse() =~= Seq::<WebRtcConversationModel>::empty());
    assert(recent_only(v, cutoff) + table_view(kept@).reverse() =~= recent_only(v, cutoff));
    while table.len() > 0
        invariant
            cutoff == now - STALE_AFTER_NANOS,
            table.len() <= v.len(),
            table_view(table@) == v.take(table.len() as int),
            recent_only(v, cutoff) == recent_only(v.take(table.len() as int), cutoff) + table_view(kept@).reverse(),
        decreases table.len(),
    {
        let ghost n = table.len();
        let c = table.pop().unwrap();
        assert(v.take(n as int).drop_last() =~= v.take(n - 1));
        assert(v.take(n as int).last() == c@);
        let ghost t = v.take(n as int);
        let ghost prefix = recent_only(v.take(n - 1), cutoff);
        assert(t.len() > 0);
        assert(t.drop_last() =~= v.take(n - 1));
        assert(t.last() == c@);
        assert(recent_only(t, cutoff) == if c.last_activity >= cutoff { prefix.push(c@) } else { prefix });
        if !elapsed_more_than(c.last_activity, now, STALE_AFTER_NANOS) {
            let ghost before = table_view(kept@);
            kept.push(c);
            assert(table_view(kept@).reverse() =~= seq![c@] + before.reverse());
            assert(recent_only(v.take(n as int), cutoff) == prefix.push(c@));
            assert(prefix.push(c@) + before.reverse() =~= prefix + table_view(kept@).reverse());
        } else {
            assert(recent_only(v.take(n as int), cutoff) == prefix);
        }
        assert(table_view(table@) =~= v.take(table.len() as int));
    }
    assert(v.take(0) =~= Seq::<WebRtcConversationModel>::empty());
    assert(recent_only(Seq::<WebRtcConversationModel>::empty(), cutoff) =~= Seq::<WebRtcConversationModel>::empty());
    while kept.len() > 0
        invariant
            recent_only(v, cutoff) == table_view(table@) + table_view(kept@).reverse(),
        decreases kept.len(),
    {
        let ghost before_t = table_view(table@);
        let ghost before_k = table_view(kept@);
        let c = kept.pop().unwrap();
        table.push(c);
        assert(before_k.reverse() =~= seq![c@] + table_view(kept@).reverse());
        assert(table_view(table@) =~= before_t.push(c@));
    }
    assert(table_view(kept@).reverse() =~= Seq::<WebRtcConversationModel>::empty());
    assert(table_view(table@) =~= recent_only(v, cutoff));
}

/// No two conversations of the table share a session key.
pub open spec fn keys_unique(table: Seq<WebRtcConversationModel>) -> bool {
    forall|i: int, j: int| 0 <= i < j < table.len() ==> #[trigger] table[i].session_key != #[trigger] table[j].session_key
}

proof fn lemma_first_with_key_found(v: Seq<WebRtcConversationModel>, key: L4Key)
    ensures
        -1 <= first_with_key(v, key) < v.len(),
        first_with_key(v, key) >= 0 ==> v[first_with_key(v, key)].session_key == key,
        first_with_key(v, key) == -1 ==> forall|k: int| 0 <= k < v.len() ==> #[trigger] v[k].session_key != key,
    decreases v.len(),
{
    if v.len() > 0 {
        lemma_first_with_key_found(v.drop_last(), key);
        assert forall|k: int| 0 <= k < v.len() - 1 implies #[trigger] v[k] == v.drop_last()[k] by {}
    }
}

/// Registering a conversation keeps one entry per session key, and leaves
/// an entry for the registered key: the merge of the earlier entry with
/// the new observation when there was one, else the new observation
/// itself. Entries of other keys are untouched.
pub proof fn lemma_register(table: Seq<WebRtcConversationModel>, incoming: WebRtcConversationModel)
    requires
        keys_unique(table),
    ensures
        keys_unique(spec_register(table, incoming)),
        exists|i: int| 0 <= i < spec_register(table, incoming).len()
            && #[trigger] spec_register(table, incoming)[i].session_key == incoming.session_key
            && spec_register(table, incoming)[i] == (if first_with_key(table, incoming.session_key) >= 0 {
                spec_merge(table[i], incoming)
            } else {
                incoming
            }),
        forall|k: int| 0 <= k < table.len() && #[trigger] table[k].session_key != incoming.session_key
            ==> spec_register(table, incoming)[k] == table[k],
{
    lemma_first_with_key_bounds(table, incoming.session_key);
    lemma_first_with_key_found(table, incoming.session_key);
    let i = first_with_key(table, incoming.session_key);
    let r = spec_register(table, incoming);
    if i >= 0 {
        assert(r[i].session_key == incoming.session_key);
        assert forall|a: int, b: int| 0 <= a < b < r.len() implies #[trigger] r[a].session_key != #[trigger] r[b].session_key by {
            assert(table[a].session_key != table[b].session_key);
        }
    } else {
        assert(r[table.len() as int] == incoming);
        assert forall|a: int, b: int| 0 <= a < b < r.len() implies #[trigger] r[a].session_key != #[trigger] r[b].session_key by {
            if b < table.len() {
                assert(table[a].session_key != table[b].session_key);
            }
        }
    }
}

/// No two streams share an SSRC.
pub open spec fn ssrcs_distinct(streams: Seq<RtpStreamModel>) -> bool {
    forall|i: int, j: int| 0 <= i < j < streams.len() ==> #[trigger] streams[i].ssrc != #[trigger] streams[j].ssrc
}

/// After merging, every stream of the newer observation is in the
/// conversation as observed (the newer observation of a stream wins), and
/// every earlier stream whose SSRC the newer observation does not carry is
/// still there.
pub proof fn lemma_merge_streams(existing: Seq<RtpStreamModel>, incoming: Seq<RtpStreamModel>)
    requires
        ssrcs_distinct(incoming),
    ensures
        forall|k: int| #![trigger incoming[k]] 0 <= k < incoming.len() ==> exists|i: int|
            0 <= i < merge_streams(existing, incoming).len() && #[trigger] merge_streams(existing, incoming)[i] == incoming[k],
        forall|k: int| 0 <= k < existing.len()
            && (forall|m: int| 0 <= m < incoming.len() ==> #[trigger] incoming[m].ssrc != existing[k].ssrc)
            ==> merge_streams(existing, incoming)[k] == #[trigger] existing[k],
        merge_streams(existing, incoming).len() >= existing.len(),
    decreases incoming.len(),
{
    if incoming.len() > 0 {
        let prev_in = incoming.drop_last();
        assert(ssrcs_distinct(prev_in)) by {
            assert forall|i: int, j: int| 0 <= i < j < prev_in.len() implies #[trigger] prev_in[i].ssrc != #[trigger] prev_in[j].ssrc by {
                assert(incoming[i].ssrc != incoming[j].ssrc);
            }
        }
        lemma_merge_streams(existing, prev_in);
        let r = merge_streams(existing, prev_in);
        let x = incoming.last();
        lemma_first_with_ssrc_bounds(r, x.ssrc);
        let j = first_with_ssrc(r, x.ssrc);
        let res = merge_streams(existing, incoming);
        assert(res == merge_stream(r, x));
        assert forall|k: int| #![trigger incoming[k]] 0 <= k < incoming.len() implies exists|i: int| 0 <= i < res.len() && #[trigger] res[i] == incoming[k] by {
            if k == incoming.len() - 1 {
                if j >= 0 {
                    assert(res[j] == x);
                } else {
                    assert(res[r.len() as int] == x);
                }
            } else {
                assert(prev_in[k] == incoming[k]);
                let i = choose|i: int| 0 <= i < r.len() && r[i] == prev_in[k];
                assert(incoming[k].ssrc != x.ssrc);
                if j >= 0 {
                    assert(i != j);
                }
                assert(res[i] == incoming[k]);
            }
        }
        assert forall|k: int| 0 <= k < existing.len()
            && (forall|m: int| 0 <= m < incoming.len() ==> #[trigger] incoming[m].ssrc != existing[k].ssrc)
            implies res[k] == #[trigger] existing[k] by {
            assert forall|m: int| 0 <= m < prev_in.len() implies #[trigger] prev_in[m].ssrc != existing[k].ssrc by {
                assert(prev_in[m] == incoming[m]);
            }
            assert(r[k] == existing[k]);
            assert(incoming[incoming.len() - 1].ssrc != existing[k].ssrc);
        }
    }
}

/// The last stream of `streams` with the given SSRC, if any.
pub open spec fn last_with_ssrc(streams: Seq<RtpStreamModel>, ssrc: u32) -> Option<RtpStreamModel>
    decreases streams.len(),
{
    if streams.len() == 0 {
        None
    } else if streams.last().ssrc == ssrc {
        Some(streams.last())
    } else {
        last_with_ssrc(streams.drop_last(), ssrc)
    }
}

proof fn lemma_last_with_ssrc(streams: Seq<RtpStreamModel>, ssrc: u32)
    ensures
        (exists|j: int| 0 <= j < streams.len() && #[trigger] streams[j].ssrc == ssrc) ==> last_with_ssrc(streams, ssrc) is Some,
        last_with_ssrc(streams, ssrc) matches Some(v) ==> v.ssrc == ssrc
            && exists|j: int| 0 <= j < streams.len() && #[trigger] streams[j] == v,
    decreases streams.len(),
{
    if streams.len() > 0 {
        let prev = streams.drop_last();
        lemma_last_with_ssrc(prev, ssrc);
        if exists|j: int| 0 <= j < streams.len() && #[trigger] streams[j].ssrc == ssrc {
            let j = choose|j: int| 0 <= j < streams.len() && #[trigger] streams[j].ssrc == ssrc;
            if j < prev.len() {
                assert(prev[j].ssrc == ssrc);
            }
        }
        if last_with_ssrc(streams, ssrc) is Some && streams.last().ssrc != ssrc {
            let v = last_with_ssrc(prev, ssrc)->0;
            let j = choose|j: int| 0 <= j < prev.len() && #[trigger] prev[j] == v;
            assert(streams[j] == v);
        }
        if streams.last().ssrc == ssrc {
            assert(streams[streams.len() - 1] == streams.last());
        }
    }
}

/// `first_with_ssrc` reads only the SSRCs, position by position.
proof fn lemma_first_with_ssrc_same_ssrcs(a: Seq<RtpStreamModel>, b: Seq<RtpStreamModel>, ssrc: u32)
    requires
        a.len() == b.len(),
        forall|k: int| 0 <= k < a.len() ==> #[trigger] a[k].ssrc == b[k].ssrc,
    ensures
        first_with_ssrc(a, ssrc) == first_with_ssrc(b, ssrc),
    decreases a.len(),
{
    if a.len() > 0 {
        assert forall|k: int| 0 <= k < a.len() - 1 implies #[trigger] a.drop_last()[k].ssrc == b.drop_last()[k].ssrc by {
            assert(a[k].ssrc == b[k].ssrc);
        }
        lemma_first_with_ssrc_same_ssrcs(a.drop_last(), b.drop_last(), ssrc);
        assert(a.last().ssrc == b.last().ssrc) by {
            assert(a[a.len() - 1].ssrc == b[b.len() - 1].ssrc);
        }
    }
}

/// Merging streams whose SSRCs all already have a stream adds none: each
/// stream that is the first of its SSRC becomes the last merged stream of
/// that SSRC, and every other stream stays.
proof fn lemma_merge_streams_in_place(s: Seq<RtpStreamModel>, inc: Seq<RtpStreamModel>)
    requires
        forall|j: int| 0 <= j < inc.len() ==> first_with_ssrc(s, #[trigger] inc[j].ssrc) >= 0,
    ensures
        merge_streams(s, inc).len() == s.len(),
        forall|k: int| 0 <= k < s.len() ==> (#[trigger] merge_streams(s, inc)[k]).ssrc == s[k].ssrc,
        forall|k: int| 0 <= k < s.len() ==> #[trigger] merge_streams(s, inc)[k] == (
            if k == first_with_ssrc(s, s[k].ssrc) && last_with_ssrc(inc, s[k].ssrc) is Some {
                last_with_ssrc(inc, s[k].ssrc)->0
            } else {
                s[k]
            }),
    decreases inc.len(),
{
    if inc.len() > 0 {
        let prev = inc.drop_last();
        let x = inc.last();
        assert forall|j: int| 0 <= j < prev.len() implies first_with_ssrc(s, #[trigger] prev[j].ssrc) >= 0 by {
            assert(prev[j] == inc[j]);
        }
        lemma_merge_streams_in_place(s, prev);
        let r = merge_streams(s, prev);
        lemma_first_with_ssrc_same_ssrcs(r, s, x.ssrc);
        assert(first_with_ssrc(s, inc[inc.len() - 1].ssrc) >= 0);
        let i0 = first_with_ssrc(s, x.ssrc);
        lemma_first_with_ssrc_bounds(s, x.ssrc);
        let res = merge_streams(s, inc);
        assert(res == r.update(i0, x));
        assert forall|k: int| 0 <= k < s.len() implies #[trigger] res[k] == (
            if k == first_with_ssrc(s, s[k].ssrc) && last_with_ssrc(inc, s[k].ssrc) is Some {
                last_with_ssrc(inc, s[k].ssrc)->0
            } else {
                s[k]
            }) by {
            if k == i0 {
                assert(s[k].ssrc == x.ssrc);
            } else {
                assert(res[k] == r[k]);
                if k == first_with_ssrc(s, s[k].ssrc) {
                    assert(s[k].ssrc != x.ssrc);
                    assert(last_with_ssrc(inc, s[k].ssrc) == last_with_ssrc(prev, s[k].ssrc));
                }
            }
        }
        assert forall|k: int| 0 <= k < s.len() implies (#[trigger] res[k]).ssrc == s[k].ssrc by {
            if k == i0 {
                assert(s[k].ssrc == x.ssrc);
            } else {
                assert(res[k] == r[k]);
            }
        }
    }
}

/// After merging, every merged SSRC has a first stream, and it is the last
/// merged stream of that SSRC.
proof fn lemma_merge_streams_first_slots(e: Seq<RtpStreamModel>, inc: Seq<RtpStreamModel>)
    ensures
        forall|j: int| 0 <= j < inc.len() ==> {
            let r = merge_streams(e, inc);
            let i = first_with_ssrc(r, #[trigger] inc[j].ssrc);
            &&& 0 <= i < r.len()
            &&& last_with_ssrc(inc, inc[j].ssrc) == Some(r[i])
        },
    decreases inc.len(),
{
    if inc.len() > 0 {
        let prev = inc.drop_last();
        let x = inc.last();
        lemma_merge_streams_first_slots(e, prev);
        let r0 = merge_streams(e, prev);
        let r = merge_streams(e, inc);
        lemma_first_with_ssrc_bounds(r0, x.ssrc);
        let i0 = first_with_ssrc(r0, x.ssrc);
        assert(r == merge_stream(r0, x));
        assert forall|j: int| 0 <= j < inc.len() implies {
            let i = first_with_ssrc(r, #[trigger] inc[j].ssrc);
            &&& 0 <= i < r.len()
            &&& last_with_ssrc(inc, inc[j].ssrc) == Some(r[i])
        } by {
            let y = inc[j].ssrc;
            if i0 >= 0 {
                assert forall|k: int| 0 <= k < r.len() implies #[trigger] r[k].ssrc == r0[k].ssrc by {
                    if k == i0 {
                        assert(r0[k].ssrc == x.ssrc);
                    }
                }
                lemma_first_with_ssrc_same_ssrcs(r, r0, y);
            } else {
                assert(r == r0.push(x));
                assert(r.drop_last() =~= r0);
                assert(r.last() == x);
            }
            if y == x.ssrc {
                assert(last_with_ssrc(inc, y) == Some(x));
                if i0 >= 0 {
                    assert(first_with_ssrc(r, y) == i0);
                } else {
                    assert(first_with_ssrc(r, y) == r0.len());
                }
            } else {
                assert(j < prev.len());
                assert(prev[j] == inc[j]);
                assert(last_with_ssrc(inc, y) == last_with_ssrc(prev, y));
                let i1 = first_with_ssrc(r0, y);
                lemma_first_with_ssrc_bounds(r0, y);
                assert(0 <= i1 < r0.len());
                assert(first_with_ssrc(r, y) == i1);
                if i0 >= 0 {
                    assert(i1 != i0);
                }
                assert(r[i1] == r0[i1]);
            }
        }
    }
}

/// Merging the same streams a second time changes nothing more.
pub proof fn lemma_merge_streams_idempotent(existing: Seq<RtpStreamModel>, incoming: Seq<RtpStreamModel>)
    ensures
        merge_streams(merge_streams(existing, incoming), incoming) == merge_streams(existing, incoming),
{
    let r = merge_streams(existing, incoming);
    lemma_merge_streams_first_slots(existing, incoming);
    assert forall|j: int| 0 <= j < incoming.len() implies first_with_ssrc(r, #[trigger] incoming[j].ssrc) >= 0 by {
        assert(first_with_ssrc(r, incoming[j].ssrc) >= 0);
    }
    lemma_merge_streams_in_place(r, incoming);
    let rr = merge_streams(r, incoming);
    assert forall|k: int| 0 <= k < r.len() implies #[trigger] rr[k] == r[k] by {
        let y = r[k].ssrc;
        lemma_last_with_ssrc(incoming, y);
        if k == first_with_ssrc(r, y) && last_with_ssrc(incoming, y) is Some {
            let v = last_with_ssrc(incoming, y)->0;
            let j = choose|j: int| 0 <= j < incoming.len() && #[trigger] incoming[j] == v;
            assert(incoming[j].ssrc == y);
            assert(first_with_ssrc(r, incoming[j].ssrc) == k);
        }
    }
    assert(rr =~= r);
}

/// Merging the same newer observation a second time changes nothing more.
pub proof fn lemma_merge_idempotent(existing: WebRtcConversationModel, incoming: WebRtcConversationModel)
    ensures
        spec_merge(spec_merge(existing, incoming), incoming) == spec_merge(existing, incoming),
{
    lemma_merge_streams_idempotent(existing.rtp_streams, incoming.rtp_streams);
}

/// The WebRTC conversations seen, one per session key.
#[derive(Debug)]
pub struct WebRtcTable {
    conversations: Vec<WebRtcConversation>,
}

impl WebRtcTable {
    /// The table's conversations, in order.
    pub closed spec fn entries(&self) -> Seq<WebRtcConversation> {
        self.conversations@
    }

    /// The table's conversations, to read.
    pub fn conversations(&self) -> (res: &Vec<WebRtcConversation>)
        ensures
            res@ == self.entries(),
    {
        &self.conversations
    }

    /// No two conversations share a session key.
    pub open spec fn wf(&self) -> bool {
        keys_unique(table_view(self.entries()))
    }

    pub fn new() -> (res: WebRtcTable)
        ensures
            res.entries().len() == 0,
            res.wf(),
    {
        WebRtcTable { conversations: Vec::new() }
    }

    pub fn len(&self) -> (res: usize)
        ensures
            res == self.entries().len(),
    {
        self.conversations.len()
    }

    /// Registers a newer observation of a WebRTC conversation: it is merged
    /// into the conversation with the same session key, or added when
    /// there is none; see `spec_register`.
    pub fn register_conversation(&mut self, incoming: WebRtcConversation)
        requires
            old(self).wf(),
        ensures
            final(self).wf(),
            table_view(final(self).entries()) == spec_register(table_view(old(self).entries()), incoming@),
    {
        let ghost before = table_view(self.entries());
        let ghost model = incoming@;
        register_in(&mut self.conversations, incoming);
        proof {
            lemma_register(before, model);
        }
    }

    /// Drops the conversations whose last activity is more than
    /// `STALE_AFTER_NANOS` before `now`, then reports the remaining ones;
    /// no report when none remain.
    pub fn process_report(&mut self, now: i128) -> (res: Option<WebRTCReport>)
        requires
            old(self).wf(),
        ensures
            final(self).wf(),
            table_view(final(self).entries()) == recent_only(table_view(old(self).entries()), now - STALE_AFTER_NANOS),
            match res {
                None => final(self).entries().len() == 0,
                Some(report) => {
                    &&& final(self).entries().len() > 0
                    &&& report.conversations@.len() == final(self).entries().len()
                    &&& forall|i: int| 0 <= i < report.conversations@.len()
                        ==> reports_conversation(#[trigger] report.conversations@[i], final(self).entries()[i])
                },
            },
    {
        let ghost before = table_view(self.entries());
        retain_recent(&mut self.conversations, now);
        proof {
            lemma_recent_only_keys(before, now - STALE_AFTER_NANOS);
        }
        if self.conversations.len() == 0 {
            return None;
        }
        Some(generate(&self.conversations))
    }
}

proof fn lemma_recent_only_sub(table: Seq<WebRtcConversationModel>, cutoff: int)
    ensures
        recent_only(table, cutoff).len() <= table.len(),
        forall|i: int| 0 <= i < recent_only(table, cutoff).len() ==> exists|j: int|
            0 <= j < table.len() && #[trigger] recent_only(table, cutoff)[i] == table[j],
    decreases table.len(),
{
    if table.len() > 0 {
        let prev = table.drop_last();
        lemma_recent_only_sub(prev, cutoff);
        let r = recent_only(table, cutoff);
        assert forall|i: int| 0 <= i < r.len() implies exists|j: int| 0 <= j < table.len() && #[trigger] r[i] == table[j] by {
            if i < recent_only(prev, cutoff).len() {
                let j = choose|j: int| 0 <= j < prev.len() && recent_only(prev, cutoff)[i] == prev[j];
                assert(r[i] == table[j]);
            } else {
                assert(r[i] == table[table.len() - 1]);
            }
        }
    }
}

/// Dropping stale conversations keeps one conversation per session key.
proof fn lemma_recent_only_keys(table: Seq<WebRtcConversationModel>, cutoff: int)
    requires
        keys_unique(table),
    ensures
        keys_unique(recent_only(table, cutoff)),
    decreases table.len(),
{
    if table.len() > 0 {
        let prev = table.drop_last();
        assert(keys_unique(prev)) by {
            assert forall|i: int, j: int| 0 <= i < j < prev.len() implies #[trigger] prev[i].session_key != #[trigger] prev[j].session_key by {
                assert(table[i].session_key != table[j].session_key);
            }
        }
        lemma_recent_only_keys(prev, cutoff);
        lemma_recent_only_sub(prev, cutoff);
        let rp = recent_only(prev, cutoff);
        if table.last().last_activity >= cutoff {
            let r = rp.push(table.last());
            assert forall|i: int, j: int| 0 <= i < j < r.len() implies #[trigger] r[i].session_key != #[trigger] r[j].session_key by {
                if j == rp.len() {
                    let k = choose|k: int| 0 <= k < prev.len() && rp[i] == prev[k];
                    assert(table[k] == prev[k]);
                    assert(table[k].session_key != table[table.len() - 1].session_key);
                } else {
                    assert(rp[i].session_key != rp[j].session_key);
                }
            }
        }
    }
}


/// Merging a newer observation into a conversation: the session and its
/// negotiation key stay; the byte counters, endpoints, source MAC and DTLS
/// record count come from the newer observation; each media flag is set
/// when either observation set it; the first sighting is the earlier and
/// the last activity the later of the two; every stream of the newer
/// observation is in the result.
pub proof fn lemma_merge_takes_the_newer_observation(existing: WebRtcConversationModel, incoming: WebRtcConversationModel)
    ensures
        ({
            let m = spec_merge(existing, incoming);
            &&& m.session_key == existing.session_key
            &&& m.negotiation_key == existing.negotiation_key
            &&& m.bytes_tx == incoming.bytes_tx
            &&& m.bytes_rx == incoming.bytes_rx
            &&& m.source_address == incoming.source_address
            &&& m.source_port == incoming.source_port
            &&& m.source_mac == incoming.source_mac
            &&& m.destination_address == incoming.destination_address
            &&& m.destination_port == incoming.destination_port
            &&& m.desteination_mac == existing.desteination_mac
            &&& m.dtls_app_data_records == incoming.dtls_app_data_records
            &&& m.has_rtp == (existing.has_rtp || incoming.has_rtp)
            &&& m.has_dtls == (existing.has_dtls || incoming.has_dtls)
            &&& m.has_audio == (existing.has_audio || incoming.has_audio)
            &&& m.has_video == (existing.has_video || incoming.has_video)
            &&& m.first_seen <= existing.first_seen && m.first_seen <= incoming.first_seen
            &&& (m.first_seen == existing.first_seen || m.first_seen == incoming.first_seen)
            &&& m.last_activity >= existing.last_activity && m.last_activity >= incoming.last_activity
            &&& (m.last_activity == existing.last_activity || m.last_activity == incoming.last_activity)
            &&& m.stream_count == m.rtp_streams.len() as u16
        }),
{
}

} // verus!
