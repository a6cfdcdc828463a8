use vstd::prelude::*;
use crate::datagrams::{lemma_payloads_prefix, payloads};

verus! {

pub const DTLS_CT_CHANGE_CIPHER_SPEC: u8 = 20;
pub const DTLS_CT_ALERT: u8 = 21;
pub const DTLS_CT_HANDSHAKE: u8 = 22;
pub const DTLS_CT_APPLICATION_DATA: u8 = 23;

/// Number of application data records needed before a flow is tagged DTLS.
pub const DTLS_CONFIRM_THRESHOLD: usize = 2;

#[derive(Debug, Clone, PartialEq, Eq, Structural)]
pub struct DtlsTag {
    /// Number of DTLS application data records observed (the data channel
    /// in flight).
    pub app_data_records: usize,
    /// Whether a DTLS handshake was also seen (not required to be tagged).
    pub saw_handshake: bool,
}

/// The record content type of a datagram that starts with a DTLS 1.0 or
/// 1.2 record header of a known content type, and is at least a full
/// 13-byte header long.
pub open spec fn spec_dtls_content_type(buf: Seq<u8>) -> Option<u8> {
    if buf.len() < 13 {
        None
    } else if !(DTLS_CT_CHANGE_CIPHER_SPEC <= buf[0] <= DTLS_CT_APPLICATION_DATA) {
        None
    } else if !(buf[1] == 0xFE && (buf[2] == 0xFD || buf[2] == 0xFF)) {
        None
    } else {
        Some(buf[0])
    }
}

/// Number of datagrams among `bufs` that are DTLS application data records.
pub open spec fn app_data_count(bufs: Seq<Seq<u8>>) -> nat
    decreases bufs.len(),
{
    if bufs.len() == 0 {
        0
    } else {
        app_data_count(bufs.drop_last()) + if spec_dtls_content_type(bufs.last())
            == Some(DTLS_CT_APPLICATION_DATA) {
            1nat
        } else {
            0nat
        }
    }
}

/// Whether some datagram among `bufs` is a DTLS handshake record.
pub open spec fn handshake_seen(bufs: Seq<Seq<u8>>) -> bool
    decreases bufs.len(),
{
    if bufs.len() == 0 {
        false
    } else {
        handshake_seen(bufs.drop_last()) || spec_dtls_content_type(bufs.last()) == Some(
            DTLS_CT_HANDSHAKE,
        )
    }
}

/// What `tag` finds in a flow: a tag when the datagrams of both directions
/// hold at least two application data records.
pub open spec fn spec_tag(c2s: Seq<Seq<u8>>, s2c: Seq<Seq<u8>>) -> Option<DtlsTag> {
    let all = c2s + s2c;
    if app_data_count(all) >= DTLS_CONFIRM_THRESHOLD {
        Some(
            DtlsTag {
                app_data_records: app_data_count(all) as usize,
                saw_handshake: handshake_seen(all),
            },
        )
    } else {
        None
    }
}

/// Reads the content type of a DTLS record header; see
/// `spec_dtls_content_type`.
pub fn dtls_content_type(buf: &[u8]) -> (res: Option<u8>)
    ensures
        res == spec_dtls_content_type(buf@),
{
    if buf.len() < 13 {
        return None;
    }
    let content_type = buf[0];
    if !(content_type == DTLS_CT_CHANGE_CIPHER_SPEC || content_type == DTLS_CT_ALERT
        || content_type == DTLS_CT_HANDSHAKE || content_type == DTLS_CT_APPLICATION_DATA) {
        return None;
    }
    if !(buf[1] == 0xFE && (buf[2] == 0xFD || buf[2] == 0xFF)) {
        return None;
    }
    Some(content_type)
}

proof fn lemma_app_data_count_bounded(bufs: Seq<Seq<u8>>)
    ensures
        app_data_count(bufs) <= bufs.len(),
    decreases bufs.len(),
{
    if bufs.len() > 0 {
        lemma_app_data_count_bounded(bufs.drop_last());
    }
}

/// Tags a UDP flow as DTLS from its recent datagrams in both directions.
pub fn tag(c2s: &[Vec<u8>], s2c: &[Vec<u8>]) -> (res: Option<DtlsTag>)
    requires
        c2s@.len() + s2c@.len() <= usize::MAX,
    ensures
        res == spec_tag(payloads(c2s@), payloads(s2c@)),
{
    let ghost all = payloads(c2s@) + payloads(s2c@);
    let mut app_data_records: usize = 0;
    let mut saw_handshake = false;
    let mut i: usize = 0;
    let n = c2s.len() + s2c.len();
    while i < n
        invariant
            n == all.len(),
            all == payloads(c2s@) + payloads(s2c@),
            i <= n,
            app_data_records == app_data_count(all.take(i as int)),
            saw_handshake == handshake_seen(all.take(i as int)),
        decreases n - i,
    {
        proof {
            assert(all.take(i + 1).drop_last() =~= all.take(i as int));
            lemma_app_data_count_bounded(all.take(i as int));
        }
        let datagram = if i < c2s.len() {
            c2s[i].as_slice()
        } else {
            s2c[i - c2s.len()].as_slice()
        };
        assert(datagram@ == all[i as int]);
        match dtls_content_type(datagram) {
            Some(ct) => {
                if ct == DTLS_CT_APPLICATION_DATA {
                    app_data_records += 1;
                } else if ct == DTLS_CT_HANDSHAKE {
                    saw_handshake = true;
                }
            },
            None => {},
        }
        i += 1;
    }
    assert(all.take(n as int) =~= all);
    if app_data_records >= DTLS_CONFIRM_THRESHOLD {
        Some(DtlsTag { app_data_records, saw_handshake })
    } else {
        None
    }
}

proof fn lemma_counts_concat(a: Seq<Seq<u8>>, b: Seq<Seq<u8>>)
    ensures
        app_data_count(a + b) == app_data_count(a) + app_data_count(b),
        handshake_seen(a + b) == (handshake_seen(a) || handshake_seen(b)),
    decreases b.len(),
{
    if b.len() == 0 {
        assert(a + b =~= a);
    } else {
        lemma_counts_concat(a, b.drop_last());
        assert((a + b).drop_last() =~= a + b.drop_last());
    }
}

/// The DTLS tag of a flow does not depend on which side is taken as the
/// client: swapping the two directions gives the same tag.
pub proof fn lemma_tag_symmetric(c2s: Seq<Seq<u8>>, s2c: Seq<Seq<u8>>)
    ensures
        spec_tag(c2s, s2c) == spec_tag(s2c, c2s),
{
    lemma_counts_concat(c2s, s2c);
    lemma_counts_concat(s2c, c2s);
}

/// A DTLS tag always reports at least two application data records.
pub proof fn lemma_tag_confirmed(c2s: Seq<Seq<u8>>, s2c: Seq<Seq<u8>>)
    requires
        c2s.len() + s2c.len() <= usize::MAX,
    ensures
        spec_tag(c2s, s2c) matches Some(t) ==> t.app_data_records >= DTLS_CONFIRM_THRESHOLD,
{
    lemma_app_data_count_bounded(c2s + s2c);
}

/// The DTLS tag of a flow depends only on its datagrams taken together,
/// not on how they are split between the two directions: all of them
/// taken as client-to-server give the same tag, and so does any other
/// split of the same datagrams in the same order.
pub proof fn lemma_tag_ignores_split(c2s: Seq<Seq<u8>>, s2c: Seq<Seq<u8>>, other_c2s: Seq<Seq<u8>>, other_s2c: Seq<Seq<u8>>)
    requires
        other_c2s + other_s2c == c2s + s2c,
    ensures
        spec_tag(c2s, s2c) == spec_tag(c2s + s2c, Seq::<Seq<u8>>::empty()),
        spec_tag(c2s, s2c) == spec_tag(other_c2s, other_s2c),
{
    assert((c2s + s2c) + Seq::<Seq<u8>>::empty() =~= c2s + s2c);
}

/// More datagrams, in either direction, never take a DTLS tag away: the
/// tag of the larger flow counts at least as many application data
/// records, and still reports a handshake that was seen.
pub proof fn lemma_tag_grows(c2s: Seq<Seq<u8>>, s2c: Seq<Seq<u8>>, more_c2s: Seq<Seq<u8>>, more_s2c: Seq<Seq<u8>>)
    requires
        c2s.len() + more_c2s.len() + s2c.len() + more_s2c.len() <= usize::MAX,
    ensures
        spec_tag(c2s, s2c) matches Some(t) ==> spec_tag(c2s + more_c2s, s2c + more_s2c) matches Some(t2)
            && t2.app_data_records >= t.app_data_records
            && (t.saw_handshake ==> t2.saw_handshake),
{
    lemma_counts_concat(c2s, s2c);
    lemma_counts_concat(c2s, more_c2s);
    lemma_counts_concat(s2c, more_s2c);
    lemma_counts_concat(c2s + more_c2s, s2c + more_s2c);
    lemma_app_data_count_bounded(c2s + s2c);
    lemma_app_data_count_bounded((c2s + more_c2s) + (s2c + more_s2c));
}


/// Whether a datagram is a DTLS 1.0 or 1.2 record of the given content
/// type: at least a 13-byte header, that content type in byte 0, and
/// version FE FD or FE FF in bytes 1..3.
pub open spec fn is_dtls_record_of_type(buf: Seq<u8>, content_type: u8) -> bool {
    &&& buf.len() >= 13
    &&& buf[0] == content_type
    &&& buf[1] == 0xFE
    &&& (buf[2] == 0xFD || buf[2] == 0xFF)
}

/// Application data records are counted one per datagram that is a DTLS
/// application data record (content type 23), and nothing else counts:
/// adding an alert, change-cipher-spec, handshake or non-DTLS datagram
/// leaves the count as it is. A handshake is seen once a datagram is a
/// DTLS handshake record (content type 22). A flow is tagged exactly when
/// its datagrams of both directions together hold at least two
/// application data records, and the tag reports that number.
pub proof fn lemma_dtls_counts_application_data_only(bufs: Seq<Seq<u8>>, b: Seq<u8>, c2s: Seq<Seq<u8>>, s2c: Seq<Seq<u8>>)
    ensures
        app_data_count(Seq::<Seq<u8>>::empty()) == 0,
        !handshake_seen(Seq::<Seq<u8>>::empty()),
        app_data_count(bufs.push(b)) == app_data_count(bufs) + if is_dtls_record_of_type(b, 23) { 1int } else { 0int },
        handshake_seen(bufs.push(b)) == (handshake_seen(bufs) || is_dtls_record_of_type(b, 22)),
        (is_dtls_record_of_type(b, 20) || is_dtls_record_of_type(b, 21) || is_dtls_record_of_type(b, 22))
            ==> app_data_count(bufs.push(b)) == app_data_count(bufs),
        spec_tag(c2s, s2c) is Some <==> app_data_count(c2s + s2c) >= 2,
        spec_tag(c2s, s2c) matches Some(t) ==> t.saw_handshake == handshake_seen(c2s + s2c),
        c2s.len() + s2c.len() <= usize::MAX ==> (spec_tag(c2s, s2c) matches Some(t)
            ==> t.app_data_records == app_data_count(c2s + s2c)),
{
    lemma_app_data_count_bounded(c2s + s2c);
    assert(bufs.push(b).drop_last() =~= bufs);
    assert(bufs.push(b).last() == b);
}

} // verus!
