use vstd::prelude::*;

verus! {

/// The payloads of a sequence of datagrams.
pub open spec fn payloads(bufs: Seq<Vec<u8>>) -> Seq<Seq<u8>> {
    bufs.map_values(|v: Vec<u8>| v@)
}

/// Total number of bytes of a sequence of payloads.
pub open spec fn total_bytes(bufs: Seq<Seq<u8>>) -> nat
    decreases bufs.len(),
{
    if bufs.len() == 0 {
        0
    } else {
        total_bytes(bufs.drop_last()) + bufs.last().len()
    }
}

pub proof fn lemma_total_bytes_prefix(q: Seq<Seq<u8>>, i: int)
    requires
        0 <= i <= q.len(),
    ensures
        total_bytes(q.take(i)) <= total_bytes(q),
    decreases q.len(),
{
    if i < q.len() {
        lemma_total_bytes_prefix(q.drop_last(), i);
        assert(q.drop_last().take(i) =~= q.take(i));
    } else {
        assert(q.take(i) =~= q);
    }
}

pub proof fn lemma_payloads_prefix(bufs: Seq<Vec<u8>>, i: int)
    requires
        0 <= i < bufs.len(),
    ensures
        payloads(bufs).take(i + 1).drop_last() == payloads(bufs).take(i),
        payloads(bufs).take(i + 1).last() == bufs[i]@,
        payloads(bufs).take(i + 1).len() == i + 1,
{
    assert(payloads(bufs).take(i + 1).drop_last() =~= payloads(bufs).take(i));
}

} // verus!
