//! The compound-packet layer of the RTP Control Protocol (RTCP): splitting a
//! received byte buffer into typed control packets with resilience to
//! malformed input, greedily merging report-bearing packets under a word
//! budget before transmission, and byte-exact serialization with the
//! trailing-padding rule (padding is patched onto the last written packet).

pub mod bb;
pub mod header;
pub mod list;
pub mod rr;
pub mod sdes;
pub mod sr;
pub mod wire;

pub use bb::Goodbye;
pub use sdes::{Descriptions, Sdes, SdesType};
pub use header::{FeedbackMessageType, PayloadType, RtcpHeader, RtcpType, TransportType};
pub use list::{ReportList, WordSized};
pub use rr::{ReceiverReport, ReceptionReport};
pub use sr::{SenderInfo, SenderReport};

use std::collections::VecDeque;
use vstd::multiset::Multiset;
use vstd::prelude::*;

verus! {

/// A synchronization source identifier: a 32-bit value identifying an RTP
/// stream. On the wire it occupies exactly one word.
#[derive(Clone, Copy, PartialEq, Eq, Structural, Debug)]
pub struct Ssrc(pub u32);

impl From<u32> for Ssrc {
    fn from(v: u32) -> (r: Self) {
        Ssrc(v)
    }
}

impl vstd::std_specs::convert::FromSpecImpl<u32> for Ssrc {
    open spec fn obeys_from_spec() -> bool {
        true
    }

    open spec fn from_spec(v: u32) -> Self {
        Ssrc(v)
    }
}

impl list::WordSized for Ssrc {
    open spec fn wf(&self) -> bool {
        true
    }

    open spec fn spec_word_size(&self) -> int {
        1
    }

    proof fn lemma_word_size_in_range(&self) {
    }

    fn word_size(&self) -> (r: usize) {
        1
    }

    open spec fn spec_bytes(&self) -> Seq<u8> {
        wire::be32(self.0)
    }

    proof fn lemma_bytes_len(&self) {
    }

    fn write_at(&self, buf: &mut Vec<u8>, at: usize) {
        wire::write_u32_at(buf, at, self.0);
    }
}

/// The smaller of two mathematical integers.
pub open spec fn min_int(a: int, b: int) -> int {
    if a < b {
        a
    } else {
        b
    }
}

/// Round a byte count up to the next word (4-byte) boundary.
pub open spec fn spec_pad_bytes_to_word(n: int) -> int {
    if n % 4 == 0 {
        n
    } else {
        n + (4 - n % 4)
    }
}

/// Pad up to the next word (4 byte) boundary.
pub fn pad_bytes_to_word(n: usize) -> (r: usize)
    requires
        n + 3 <= usize::MAX,
    ensures
        r == spec_pad_bytes_to_word(n as int),
        r % 4 == 0,
        n <= r < n + 4,
{
    let pad = 4 - n % 4;
    if pad == 4 {
        n
    } else {
        n + pad
    }
}

/// The uniform contract of an RTCP packet: it knows its header, its length
/// in words, and how to serialize itself byte-exactly.
pub trait RtcpPacket {
    /// The packet's internal validity condition.
    spec fn wf(&self) -> bool;

    /// Length of the entire packet, header included, in 4-byte words.
    spec fn spec_length_words(&self) -> int;

    /// The header the packet serializes with.
    spec fn spec_header(&self) -> RtcpHeader;

    /// The packet's exact serialization.
    spec fn spec_bytes(&self) -> Seq<u8>;

    fn header(&self) -> (h: RtcpHeader)
        requires
            self.wf(),
        ensures
            h == self.spec_header(),
            h.wf(),
    ;

    /// Length of entire RTCP packet (including header) in words (4 bytes).
    fn length_words(&self) -> (r: usize)
        requires
            self.wf(),
        ensures
            r == self.spec_length_words(),
            1 <= r <= 0x10000,
    ;

    /// Write this packet into `buf` at offset `at`, touching exactly its own
    /// bytes; the caller guarantees the buffer holds `length_words() * 4`
    /// bytes there.
    fn write_to(&self, buf: &mut Vec<u8>, at: usize) -> (n: usize)
        requires
            self.wf(),
            at + 4 * self.spec_length_words() <= old(buf).len(),
        ensures
            n == 4 * self.spec_length_words(),
            final(buf).len() == old(buf).len(),
            final(buf)@.subrange(at as int, at as int + n) == self.spec_bytes(),
            final(buf)@.subrange(at as int, at as int + 4) == self.spec_header().spec_bytes(),
            forall|k: int|
                0 <= k < old(buf).len() && !(at <= k < at + 4 * self.spec_length_words())
                    ==> final(buf)@[k] == old(buf)@[k],
    ;
}

/// One parsed or pending RTCP packet of a recognized, decodable kind.
#[derive(Clone, Debug, PartialEq, Eq)]
pub enum RtcpFb {
    SenderReport(SenderReport),
    ReceiverReport(ReceiverReport),
    SourceDescription(Descriptions),
    Goodbye(Goodbye),
}

/// Whether a merge may move reports from `b` into `a`: a sender report
/// absorbs receiver reports, and like kinds absorb each other.
pub open spec fn spec_mergeable(a: RtcpFb, b: RtcpFb) -> bool {
    match (a, b) {
        (RtcpFb::SenderReport(_), RtcpFb::ReceiverReport(_)) => true,
        (RtcpFb::ReceiverReport(_), RtcpFb::ReceiverReport(_)) => true,
        (RtcpFb::SourceDescription(_), RtcpFb::SourceDescription(_)) => true,
        (RtcpFb::Goodbye(_), RtcpFb::Goodbye(_)) => true,
        _ => false,
    }
}

/// What `merge` returns: for a mergeable pair, the receiver's list gains the
/// greedy movable prefix of the donor's list and the donor keeps the rest;
/// any other pair is returned unchanged. `changed` says whether anything
/// moved.
pub open spec fn merge_post(a: RtcpFb, b: RtcpFb, budget: int, ra: RtcpFb, rb: RtcpFb, changed: bool) -> bool {
    match (a, b) {
        (RtcpFb::SenderReport(x), RtcpFb::ReceiverReport(y)) => {
            let n = list::n_movable(y.reports@, 31 - x.reports@.len(), budget);
            &&& ra is SenderReport
            &&& rb is ReceiverReport
            &&& ra->SenderReport_0.sender_info == x.sender_info
            &&& ra->SenderReport_0.reports@ == x.reports@ + y.reports@.take(n)
            &&& rb->ReceiverReport_0.reports@ == y.reports@.skip(n)
            &&& changed == (n > 0)
        },
        (RtcpFb::ReceiverReport(x), RtcpFb::ReceiverReport(y)) => {
            let n = list::n_movable(y.reports@, 31 - x.reports@.len(), budget);
            &&& ra is ReceiverReport
            &&& rb is ReceiverReport
            &&& ra->ReceiverReport_0.reports@ == x.reports@ + y.reports@.take(n)
            &&& rb->ReceiverReport_0.reports@ == y.reports@.skip(n)
            &&& changed == (n > 0)
        },
        (RtcpFb::SourceDescription(x), RtcpFb::SourceDescription(y)) => {
            let n = list::n_movable(y.reports@, 31 - x.reports@.len(), budget);
            &&& ra is SourceDescription
            &&& rb is SourceDescription
            &&& ra->SourceDescription_0.reports@ == x.reports@ + y.reports@.take(n)
            &&& rb->SourceDescription_0.reports@ == y.reports@.skip(n)
            &&& changed == (n > 0)
        },
        (RtcpFb::Goodbye(x), RtcpFb::Goodbye(y)) => {
            let n = list::n_movable(y.reports@, 31 - x.reports@.len(), budget);
            &&& ra is Goodbye
            &&& rb is Goodbye
            &&& ra->Goodbye_0.reports@ == x.reports@ + y.reports@.take(n)
            &&& rb->Goodbye_0.reports@ == y.reports@.skip(n)
            &&& changed == (n > 0)
        },
        _ => ra == a && rb == b && !changed,
    }
}

/// The total length in words of a queue of packets.
pub open spec fn queue_words(q: Seq<RtcpFb>) -> int
    decreases q.len(),
{
    if q.len() == 0 {
        0
    } else {
        q[0].spec_length_words() + queue_words(q.drop_first())
    }
}

pub proof fn lemma_queue_words_push(q: Seq<RtcpFb>, x: RtcpFb)
    ensures
        queue_words(q.push(x)) == queue_words(q) + x.spec_length_words(),
    decreases q.len(),
{
    if q.len() == 0 {
        assert(q.push(x).drop_first() =~= Seq::<RtcpFb>::empty());
        assert(q.push(x)[0] == x);
        assert(queue_words(Seq::<RtcpFb>::empty()) == 0);
    } else {
        assert(q.push(x).drop_first() =~= q.drop_first().push(x));
        assert(q.push(x)[0] == q[0]);
        lemma_queue_words_push(q.drop_first(), x);
    }
}

/// The concatenated serializations of a queue of packets, in order.
pub open spec fn compound_bytes(q: Seq<RtcpFb>) -> Seq<u8>
    decreases q.len(),
{
    if q.len() == 0 {
        Seq::<u8>::empty()
    } else {
        compound_bytes(q.drop_last()) + q.last().spec_bytes()
    }
}

/// A well-formed packet serializes to exactly its word length in bytes.
pub proof fn lemma_packet_bytes_len(p: RtcpFb)
    requires
        p.wf(),
    ensures
        p.spec_bytes().len() == 4 * p.spec_length_words(),
{
    match p {
        RtcpFb::SenderReport(v) => {
            list::lemma_total_words_bound(v.reports@);
            list::lemma_bytes_of_items_len(v.reports@);
        },
        RtcpFb::ReceiverReport(v) => {
            list::lemma_total_words_bound(v.reports@);
            list::lemma_bytes_of_items_len(v.reports@);
        },
        RtcpFb::SourceDescription(v) => {
            list::lemma_total_words_bound(v.reports@);
            list::lemma_bytes_of_items_len(v.reports@);
        },
        RtcpFb::Goodbye(v) => {
            list::lemma_total_words_bound(v.reports@);
            list::lemma_bytes_of_items_len(v.reports@);
        },
    }
}

/// A queue of well-formed packets serializes to exactly its word total.
pub proof fn lemma_compound_bytes_len(q: Seq<RtcpFb>)
    requires
        forall|k: int| 0 <= k < q.len() ==> (#[trigger] q[k]).wf(),
    ensures
        compound_bytes(q).len() == 4 * queue_words(q),
    decreases q.len(),
{
    if q.len() == 0 {
    } else {
        assert(forall|k: int|
            0 <= k < q.drop_last().len() ==> #[trigger] q.drop_last()[k] == q[k]);
        lemma_compound_bytes_len(q.drop_last());
        assert(q =~= q.drop_last().push(q.last()));
        lemma_queue_words_push(q.drop_last(), q.last());
        lemma_packet_bytes_len(q.last());
    }
}

/// What `pack` guarantees of the queue it returns, relative to the queue it
/// was given: every entry well formed and non-empty, no growth, the total
/// report count conserved, and the queue unchanged both when the budget
/// cannot fit even the first packet and when there was at most one packet
/// (no merging happens then).
pub open spec fn pack_post(q0: Seq<RtcpFb>, word_capacity: int, q1: Seq<RtcpFb>) -> bool {
    &&& forall|k: int| 0 <= k < q1.len() ==> (#[trigger] q1[k]).wf()
    &&& forall|k: int| 0 <= k < q1.len() ==> !(#[trigger] q1[k]).spec_is_empty()
    &&& q1.len() <= q0.len()
    &&& items_from(q1, 0) == items_from(q0, 0)
    &&& (q0.len() > 0 && word_capacity < q0[0].spec_length_words() && (forall|k: int|
        0 <= k < q0.len() ==> !(#[trigger] q0[k]).spec_is_empty())) ==> q1 == q0
    &&& (q0.len() <= 1 && (forall|k: int|
        0 <= k < q0.len() ==> !(#[trigger] q0[k]).spec_is_empty())) ==> q1 == q0
}

/// One report item of any kind, tagged by kind, for stating what the merge
/// pass conserves: reception reports (carried by sender and receiver
/// reports alike), description chunks, and departing sources.
pub enum ReportItem {
    Report(ReceptionReport),
    Chunk(Sdes),
    Source(Ssrc),
}

/// The report items a packet carries, tagged.
pub open spec fn packet_items(p: RtcpFb) -> Seq<ReportItem> {
    match p {
        RtcpFb::SenderReport(v) => v.reports@.map_values(
            |r: ReceptionReport| ReportItem::Report(r),
        ),
        RtcpFb::ReceiverReport(v) => v.reports@.map_values(
            |r: ReceptionReport| ReportItem::Report(r),
        ),
        RtcpFb::SourceDescription(v) => v.reports@.map_values(|c: Sdes| ReportItem::Chunk(c)),
        RtcpFb::Goodbye(v) => v.reports@.map_values(|x: Ssrc| ReportItem::Source(x)),
    }
}

/// Every report item in the queue, in queue order.
pub open spec fn queue_items(q: Seq<RtcpFb>) -> Seq<ReportItem>
    decreases q.len(),
{
    if q.len() == 0 {
        Seq::<ReportItem>::empty()
    } else {
        packet_items(q[0]) + queue_items(q.drop_first())
    }
}

/// Concatenation adds item multisets.
pub proof fn lemma_to_multiset_append<T>(a: Seq<T>, b: Seq<T>)
    ensures
        (a + b).to_multiset() == a.to_multiset().add(b.to_multiset()),
    decreases b.len(),
{
    broadcast use vstd::seq_lib::group_to_multiset_ensures;

    if b.len() == 0 {
        assert(a + b =~= a);
        assert forall|e: T| b.to_multiset().count(e) == 0 by {
            assert(!b.contains(e));
        }
        assert(b.to_multiset() =~= Multiset::<T>::empty());
        assert(a.to_multiset().add(b.to_multiset()) =~= a.to_multiset());
    } else {
        lemma_to_multiset_append(a, b.drop_last());
        assert(a + b =~= (a + b.drop_last()).push(b.last()));
        assert(b =~= b.drop_last().push(b.last()));
        assert((a + b).to_multiset() =~= a.to_multiset().add(b.to_multiset()));
    }
}

pub proof fn lemma_queue_items_split(q: Seq<RtcpFb>, k: int)
    requires
        0 <= k <= q.len(),
    ensures
        queue_items(q) == queue_items(q.take(k)) + queue_items(q.skip(k)),
    decreases k,
{
    if k == 0 {
        assert(q.take(0) =~= Seq::<RtcpFb>::empty());
        assert(q.skip(0) =~= q);
        assert(queue_items(Seq::<RtcpFb>::empty()) == Seq::<ReportItem>::empty());
        assert(queue_items(q.take(0)) + queue_items(q.skip(0)) =~= queue_items(q));
    } else {
        let df = q.drop_first();
        lemma_queue_items_split(df, k - 1);
        assert(q.take(k).drop_first() =~= df.take(k - 1));
        assert(q.skip(k) =~= df.skip(k - 1));
        assert(q.take(k)[0] == q[0]);
        assert(queue_items(q.take(k)) == packet_items(q[0]) + queue_items(df.take(k - 1)));
        assert(queue_items(q) =~= queue_items(q.take(k)) + queue_items(q.skip(k)));
    }
}

/// Replacing one entry exchanges exactly its items in the queue's multiset.
pub proof fn lemma_queue_items_update(q: Seq<RtcpFb>, k: int, x: RtcpFb)
    requires
        0 <= k < q.len(),
    ensures
        queue_items(q.update(k, x)).to_multiset().add(packet_items(q[k]).to_multiset())
            == queue_items(q).to_multiset().add(packet_items(x).to_multiset()),
{
    let u = q.update(k, x);
    lemma_queue_items_split(q, k);
    lemma_queue_items_split(u, k);
    assert(u.take(k) =~= q.take(k));
    assert(u.skip(k).drop_first() =~= q.skip(k + 1));
    assert(q.skip(k).drop_first() =~= q.skip(k + 1));
    assert(u.skip(k)[0] == x);
    assert(q.skip(k)[0] == q[k]);
    assert(queue_items(u.skip(k)) == packet_items(x) + queue_items(q.skip(k + 1)));
    assert(queue_items(q.skip(k)) == packet_items(q[k]) + queue_items(q.skip(k + 1)));
    lemma_to_multiset_append(queue_items(q.take(k)), queue_items(u.skip(k)));
    lemma_to_multiset_append(queue_items(q.take(k)), queue_items(q.skip(k)));
    lemma_to_multiset_append(packet_items(x), queue_items(q.skip(k + 1)));
    lemma_to_multiset_append(packet_items(q[k]), queue_items(q.skip(k + 1)));
    assert(queue_items(u).to_multiset().add(packet_items(q[k]).to_multiset())
        =~= queue_items(q).to_multiset().add(packet_items(x).to_multiset()));
}

/// A merge exchanges no items: both packets' items together form the same
/// multiset before and after.
pub proof fn lemma_merge_items(
    a: RtcpFb,
    b: RtcpFb,
    budget: int,
    ra: RtcpFb,
    rb: RtcpFb,
    changed: bool,
)
    requires
        merge_post(a, b, budget, ra, rb, changed),
    ensures
        packet_items(ra).to_multiset().add(packet_items(rb).to_multiset()) == packet_items(
            a,
        ).to_multiset().add(packet_items(b).to_multiset()),
{
    if spec_mergeable(a, b) {
        let ys = if b is ReceiverReport {
            b->ReceiverReport_0.reports@.map_values(|r: ReceptionReport| ReportItem::Report(r))
        } else if b is SourceDescription {
            b->SourceDescription_0.reports@.map_values(|c: Sdes| ReportItem::Chunk(c))
        } else {
            b->Goodbye_0.reports@.map_values(|x: Ssrc| ReportItem::Source(x))
        };
        let n = if a is SenderReport {
            list::n_movable(
                b->ReceiverReport_0.reports@,
                31 - a->SenderReport_0.reports@.len(),
                budget,
            )
        } else if a is ReceiverReport {
            list::n_movable(
                b->ReceiverReport_0.reports@,
                31 - a->ReceiverReport_0.reports@.len(),
                budget,
            )
        } else if a is SourceDescription {
            list::n_movable(
                b->SourceDescription_0.reports@,
                31 - a->SourceDescription_0.reports@.len(),
                budget,
            )
        } else {
            list::n_movable(b->Goodbye_0.reports@, 31 - a->Goodbye_0.reports@.len(), budget)
        };
        if a is SenderReport {
            list::lemma_n_movable_props(
                b->ReceiverReport_0.reports@,
                31 - a->SenderReport_0.reports@.len() as int,
                budget,
            );
        } else if a is ReceiverReport {
            list::lemma_n_movable_props(
                b->ReceiverReport_0.reports@,
                31 - a->ReceiverReport_0.reports@.len() as int,
                budget,
            );
        } else if a is SourceDescription {
            list::lemma_n_movable_props(
                b->SourceDescription_0.reports@,
                31 - a->SourceDescription_0.reports@.len() as int,
                budget,
            );
        } else {
            list::lemma_n_movable_props(
                b->Goodbye_0.reports@,
                31 - a->Goodbye_0.reports@.len() as int,
                budget,
            );
        }
        assert(packet_items(ra) =~= packet_items(a) + ys.take(n));
        assert(packet_items(rb) =~= ys.skip(n));
        assert(ys =~= ys.take(n) + ys.skip(n));
        lemma_to_multiset_append(packet_items(a), ys.take(n));
        lemma_to_multiset_append(ys.take(n), ys.skip(n));
        assert(packet_items(b) == ys);
        assert(packet_items(ra).to_multiset().add(packet_items(rb).to_multiset())
            =~= packet_items(a).to_multiset().add(packet_items(b).to_multiset()));
    }
}

/// Dropping empty packets drops no items.
pub proof fn lemma_non_empty_of_items(q: Seq<RtcpFb>)
    ensures
        queue_items(non_empty_of(q)) == queue_items(q),
    decreases q.len(),
{
    if q.len() > 0 {
        lemma_non_empty_of_items(q.drop_last());
        lemma_queue_items_push(q.drop_last(), q.last());
        assert(q =~= q.drop_last().push(q.last()));
        if q.last().spec_is_empty() {
            assert(packet_items(q.last()) =~= Seq::<ReportItem>::empty());
            assert(queue_items(q.drop_last()) + packet_items(q.last()) =~= queue_items(
                q.drop_last(),
            ));
        } else {
            lemma_queue_items_push(non_empty_of(q.drop_last()), q.last());
        }
    }
}

pub proof fn lemma_queue_items_push(q: Seq<RtcpFb>, x: RtcpFb)
    ensures
        queue_items(q.push(x)) == queue_items(q) + packet_items(x),
    decreases q.len(),
{
    if q.len() == 0 {
        assert(q.push(x).drop_first() =~= Seq::<RtcpFb>::empty());
        assert(q.push(x)[0] == x);
        assert(queue_items(Seq::<RtcpFb>::empty()) == Seq::<ReportItem>::empty());
        assert(queue_items(q.push(x)) =~= queue_items(q) + packet_items(x));
    } else {
        assert(q.push(x).drop_first() =~= q.drop_first().push(x));
        assert(q.push(x)[0] == q[0]);
        lemma_queue_items_push(q.drop_first(), x);
        assert(queue_items(q.push(x)) =~= queue_items(q) + packet_items(x));
    }
}

/// Two packets of the same kind; a sender report also keeps its sender
/// statistics. The merge pass never changes a packet's shape in this sense,
/// only its report list.
pub open spec fn shape_eq(a: RtcpFb, b: RtcpFb) -> bool {
    match (a, b) {
        (RtcpFb::SenderReport(x), RtcpFb::SenderReport(y)) => x.sender_info == y.sender_info,
        (RtcpFb::ReceiverReport(_), RtcpFb::ReceiverReport(_)) => true,
        (RtcpFb::SourceDescription(_), RtcpFb::SourceDescription(_)) => true,
        (RtcpFb::Goodbye(_), RtcpFb::Goodbye(_)) => true,
        _ => false,
    }
}

pub proof fn lemma_shape_trans(a: RtcpFb, b: RtcpFb, c: RtcpFb)
    requires
        shape_eq(a, b),
        shape_eq(b, c),
    ensures
        shape_eq(a, c),
{
}

/// A merge returns both packets with their shapes intact.
pub proof fn lemma_merge_shape(
    a: RtcpFb,
    b: RtcpFb,
    budget: int,
    ra: RtcpFb,
    rb: RtcpFb,
    changed: bool,
)
    requires
        merge_post(a, b, budget, ra, rb, changed),
    ensures
        shape_eq(a, ra),
        shape_eq(b, rb),
{
}

/// The queue with its empty packets dropped, order kept.
pub open spec fn non_empty_of(q: Seq<RtcpFb>) -> Seq<RtcpFb>
    decreases q.len(),
{
    if q.len() == 0 {
        Seq::<RtcpFb>::empty()
    } else if q.last().spec_is_empty() {
        non_empty_of(q.drop_last())
    } else {
        non_empty_of(q.drop_last()).push(q.last())
    }
}

/// A well-formed packet's length in words fits the 16-bit wire field, and
/// its header carries exactly that length, minus one, with a 5-bit count.
pub proof fn lemma_packet_header_facts(p: RtcpFb)
    requires
        p.wf(),
    ensures
        1 <= p.spec_length_words() <= 0x10000,
        p.spec_header().length_field == p.spec_length_words() - 1,
        p.spec_header().wf(),
{
    match p {
        RtcpFb::SenderReport(v) => {
            list::lemma_total_words_bound(v.reports@);
        },
        RtcpFb::ReceiverReport(v) => {
            list::lemma_total_words_bound(v.reports@);
        },
        RtcpFb::SourceDescription(v) => {
            list::lemma_total_words_bound(v.reports@);
        },
        RtcpFb::Goodbye(v) => {
            list::lemma_total_words_bound(v.reports@);
        },
    }
}

/// Exactly when and what `RtcpFb::decode` returns on the bytes `[at, end)`
/// of `b`: `None` unless a 4-byte version-2 header of a recognized type
/// stands at `at`; then, per kind, success and the decoded packet as a
/// function of the bytes — except the source-description payload, of which
/// only well-formedness is promised.
pub open spec fn decode_rel(b: Seq<u8>, at: int, end: int, r: Option<RtcpFb>) -> bool {
    &&& (r is Some ==> r->0.wf())
    &&& (!(end - at >= 4 && RtcpHeader::spec_parse(b, at) is Some) ==> r is None)
    &&& (end - at >= 4 && RtcpHeader::spec_parse(b, at) is Some ==> {
        let hd = RtcpHeader::spec_parse(b, at)->0;
        match hd.rtcp_type {
            RtcpType::SenderReport => {
                &&& (r is Some <==> end - at >= 28)
                &&& (r is Some ==> r->0 is SenderReport && {
                    let sr = r->0->SenderReport_0;
                    &&& sr.sender_info == sr::SenderInfo::spec_parse(b, at + 4)
                    &&& sr.reports@.len() == min_int((end - at - 28) as int / 24, 31)
                    &&& forall|i: int|
                        0 <= i < sr.reports@.len() ==> sr.reports@[i]
                            == rr::ReceptionReport::spec_parse(b, at + 28 + 24 * i)
                })
            },
            RtcpType::ReceiverReport => r is Some && r->0 is ReceiverReport && {
                let rcv = r->0->ReceiverReport_0;
                &&& rcv.reports@.len() == min_int((end - at - 4) as int / 24, 31)
                &&& forall|i: int|
                    0 <= i < rcv.reports@.len() ==> rcv.reports@[i]
                        == rr::ReceptionReport::spec_parse(b, at + 4 + 24 * i)
            },
            RtcpType::SourceDescription => {
                &&& (r is Some ==> r->0 is SourceDescription && 8
                    * r->0->SourceDescription_0.reports@.len() <= end - at - 4)
                &&& (end - at == 4 ==> r is Some
                    && r->0->SourceDescription_0.reports@.len() == 0)
            },
            RtcpType::Goodbye => {
                &&& (r is Some <==> end - at - 4 >= 4 * hd.count_or_subtype)
                &&& (r is Some ==> r->0 is Goodbye && {
                    let g = r->0->Goodbye_0;
                    &&& g.reports@.len() == hd.count_or_subtype
                    &&& forall|i: int|
                        0 <= i < g.reports@.len() ==> g.reports@[i] == Ssrc(
                            wire::spec_u32_at(b, at + 4 + 4 * i),
                        )
                })
            },
            _ => r is None,
        }
    })
}

/// Marks one way of splitting a scan's result into the sub-packet decoded
/// first (if any) and the rest; it carries no condition of its own and only
/// names the witnesses of `scan_rel`.
pub open spec fn scan_split(fb: Option<RtcpFb>, rest: Seq<RtcpFb>) -> bool {
    true
}

/// Exactly what the compound scan returns from position `pos` of `b`: empty
/// at the end of the buffer or at the first framing error (bad header,
/// length field past the buffer, pad count past the sub-packet); otherwise
/// the decoded sub-packet — skipped when undecodable — followed by the scan
/// of the rest, which resumes at the padded length.
pub open spec fn scan_rel(b: Seq<u8>, pos: int, out: Seq<RtcpFb>) -> bool
    decreases b.len() - pos,
    when 0 <= pos <= b.len()
{
    if pos == b.len() {
        out == Seq::<RtcpFb>::empty()
    } else {
        match RtcpHeader::spec_parse(b, pos) {
            None => out == Seq::<RtcpFb>::empty(),
            Some(h) => {
                let full = 4 * (h.length_field + 1);
                if pos + full > b.len() {
                    out == Seq::<RtcpFb>::empty()
                } else if h.has_padding && full < b[pos + full - 1] as int {
                    out == Seq::<RtcpFb>::empty()
                } else {
                    let end = if h.has_padding {
                        pos + full - b[pos + full - 1] as int
                    } else {
                        pos + full
                    };
                    exists|fb: Option<RtcpFb>, rest: Seq<RtcpFb>|
                        {
                            &&& #[trigger] scan_split(fb, rest)
                            &&& decode_rel(b, pos, end, fb)
                            &&& scan_rel(b, pos + full, rest)
                            &&& out == (match fb {
                                Some(p) => seq![p] + rest,
                                None => rest,
                            })
                        }
                }
            },
        }
    }
}

impl RtcpFb {
    pub open spec fn spec_is_full(&self) -> bool {
        match self {
            RtcpFb::SenderReport(v) => v.reports@.len() >= 31,
            RtcpFb::ReceiverReport(v) => v.reports@.len() >= 31,
            RtcpFb::SourceDescription(v) => v.reports@.len() >= 31,
            RtcpFb::Goodbye(v) => v.reports@.len() >= 31,
        }
    }

    pub open spec fn spec_is_empty(&self) -> bool {
        match self {
            RtcpFb::SenderReport(_) => false,
            RtcpFb::ReceiverReport(v) => v.reports@.len() == 0,
            RtcpFb::SourceDescription(v) => v.reports@.len() == 0,
            RtcpFb::Goodbye(v) => v.reports@.len() == 0,
        }
    }

    /// How many reports the packet's list holds.
    pub open spec fn spec_report_count(&self) -> int {
        match self {
            RtcpFb::SenderReport(v) => v.reports@.len() as int,
            RtcpFb::ReceiverReport(v) => v.reports@.len() as int,
            RtcpFb::SourceDescription(v) => v.reports@.len() as int,
            RtcpFb::Goodbye(v) => v.reports@.len() as int,
        }
    }

    pub fn is_full(&self) -> (r: bool)
        requires
            self.wf(),
        ensures
            r == self.spec_is_full(),
    {
        match self {
            RtcpFb::SenderReport(v) => v.reports.is_full(),
            RtcpFb::ReceiverReport(v) => v.reports.is_full(),
            RtcpFb::SourceDescription(v) => v.reports.is_full(),
            RtcpFb::Goodbye(v) => v.reports.is_full(),
        }
    }

    /// If this packet contains no reports (anymore). This can happen after
    /// merging reports together; a sender report always keeps its sender
    /// statistics and never counts as empty.
    pub fn is_empty(&self) -> (r: bool)
        requires
            self.wf(),
        ensures
            r == self.spec_is_empty(),
    {
        match self {
            RtcpFb::SenderReport(_) => false,
            RtcpFb::ReceiverReport(v) => v.reports.is_empty(),
            RtcpFb::SourceDescription(v) => v.reports.is_empty(),
            RtcpFb::Goodbye(v) => v.reports.is_empty(),
        }
    }

    /// Decode one packet from `buf[at..end]` (padding already stripped):
    /// parse the header, then dispatch by packet type. Recognized kinds that
    /// are not yet implemented, and malformed payloads, yield `None`, which
    /// a compound scan treats as "drop this packet and continue".
    pub fn decode(buf: &[u8], at: usize, end: usize) -> (r: Option<RtcpFb>)
        requires
            at <= end <= buf.len(),
        ensures
            decode_rel(buf@, at as int, end as int, r),
            r is Some ==> r->0.wf(),
    {
        if end - at < 4 {
            return None;
        }
        let header = match RtcpHeader::parse(buf, at) {
            Some(h) => h,
            None => {
                return None;
            },
        };
        proof {
            assert(RtcpHeader::spec_parse(buf@, at as int) is Some);
        }
        match header.rtcp_type {
            RtcpType::SenderReport => {
                match SenderReport::decode(buf, at + 4, end) {
                    Some(v) => Some(RtcpFb::SenderReport(v)),
                    None => None,
                }
            },
            RtcpType::ReceiverReport => {
                Some(RtcpFb::ReceiverReport(ReceiverReport::decode(buf, at + 4, end)))
            },
            RtcpType::SourceDescription => {
                match Descriptions::decode(buf, at + 4, end) {
                    Some(v) => Some(RtcpFb::SourceDescription(v)),
                    None => None,
                }
            },
            RtcpType::Goodbye => {
                match Goodbye::decode(buf, at + 4, end, header.count()) {
                    Some(v) => Some(RtcpFb::Goodbye(v)),
                    None => None,
                }
            },
            RtcpType::ApplicationDefined => None,
            RtcpType::TransportLayerFeedback => None,
            RtcpType::PayloadSpecificFeedback => None,
            RtcpType::ExtendedReport => None,
        }
    }
}

/// The total report count of the queue entries at position `from` and later.
pub open spec fn items_from(q: Seq<RtcpFb>, from: int) -> int
    decreases q.len() - from,
{
    if from < 0 || from >= q.len() {
        0
    } else {
        q[from].spec_report_count() + items_from(q, from + 1)
    }
}

pub proof fn lemma_items_from_nonneg(q: Seq<RtcpFb>, from: int)
    ensures
        items_from(q, from) >= 0,
    decreases q.len() - from,
{
    if 0 <= from < q.len() {
        lemma_items_from_nonneg(q, from + 1);
    }
}

/// Replacing the entry at `k` shifts the tail sum by the difference in
/// report counts when `k` lies in the tail, and not at all when it lies
/// before it.
pub proof fn lemma_items_from_update(q: Seq<RtcpFb>, k: int, x: RtcpFb, from: int)
    requires
        0 <= k < q.len(),
        0 <= from <= q.len(),
    ensures
        k >= from ==> items_from(q.update(k, x), from) == items_from(q, from)
            - q[k].spec_report_count() + x.spec_report_count(),
        k < from ==> items_from(q.update(k, x), from) == items_from(q, from),
    decreases q.len() - from,
{
    if from < q.len() {
        lemma_items_from_update(q, k, x, from + 1);
    }
}

/// Appending an entry adds its report count to the sum.
pub proof fn lemma_items_from_push(q: Seq<RtcpFb>, x: RtcpFb, from: int)
    requires
        0 <= from <= q.len(),
    ensures
        items_from(q.push(x), from) == items_from(q, from) + x.spec_report_count(),
    decreases q.len() - from,
{
    if from < q.len() {
        assert(q.push(x)[from] == q[from]);
        lemma_items_from_push(q, x, from + 1);
    } else {
        assert(q.push(x)[from] == x);
        assert(items_from(q.push(x), from + 1) == 0);
        assert(items_from(q, from) == 0);
    }
}

/// What one merge does to sizes: the receiver grows by at most the budget,
/// reports are conserved, and the donor shrinks exactly when something
/// moved.
pub proof fn lemma_merge_effects(
    a: RtcpFb,
    b: RtcpFb,
    budget: int,
    ra: RtcpFb,
    rb: RtcpFb,
    changed: bool,
)
    requires
        a.wf(),
        b.wf(),
        budget >= 0,
        merge_post(a, b, budget, ra, rb, changed),
    ensures
        ra.spec_length_words() <= a.spec_length_words() + budget,
        rb.spec_report_count() <= b.spec_report_count(),
        changed <==> rb.spec_report_count() < b.spec_report_count(),
        ra.spec_report_count() + rb.spec_report_count() == a.spec_report_count()
            + b.spec_report_count(),
{
    if a is SenderReport && b is ReceiverReport {
        let x = a->SenderReport_0;
        let y = b->ReceiverReport_0;
        let n = list::n_movable(y.reports@, 31 - x.reports@.len(), budget);
        list::lemma_n_movable_props(y.reports@, 31 - x.reports@.len() as int, budget);
        list::lemma_total_words_concat(x.reports@, y.reports@.take(n));
    } else if a is ReceiverReport && b is ReceiverReport {
        let x = a->ReceiverReport_0;
        let y = b->ReceiverReport_0;
        let n = list::n_movable(y.reports@, 31 - x.reports@.len(), budget);
        list::lemma_n_movable_props(y.reports@, 31 - x.reports@.len() as int, budget);
        list::lemma_total_words_concat(x.reports@, y.reports@.take(n));
    } else if a is SourceDescription && b is SourceDescription {
        let x = a->SourceDescription_0;
        let y = b->SourceDescription_0;
        let n = list::n_movable(y.reports@, 31 - x.reports@.len(), budget);
        list::lemma_n_movable_props(y.reports@, 31 - x.reports@.len() as int, budget);
        list::lemma_total_words_concat(x.reports@, y.reports@.take(n));
    } else if a is Goodbye && b is Goodbye {
        let x = a->Goodbye_0;
        let y = b->Goodbye_0;
        let n = list::n_movable(y.reports@, 31 - x.reports@.len(), budget);
        list::lemma_n_movable_props(y.reports@, 31 - x.reports@.len() as int, budget);
        list::lemma_total_words_concat(x.reports@, y.reports@.take(n));
    }
}

impl RtcpFb {
    /// Split a received buffer into RTCP packets. Each sub-packet's boundary
    /// comes from its header's length field; padding is stripped before the
    /// variant decode. A framing error (bad header, untrustworthy length,
    /// impossible pad count) stops the scan and returns what was gathered; a
    /// content error drops that one sub-packet and the scan continues. Every
    /// sub-packet consumes at least one word, so at most a quarter of the
    /// buffer's length in packets comes back.
    pub fn read_packet(buf: &[u8]) -> (feedback: VecDeque<RtcpFb>)
        ensures
            scan_rel(buf@, 0, feedback@),
            forall|k: int| 0 <= k < feedback@.len() ==> (#[trigger] feedback@[k]).wf(),
            4 * feedback@.len() <= buf@.len(),
    {
        let mut feedback: VecDeque<RtcpFb> = VecDeque::new();
        let mut pos: usize = 0;
        proof {
            assert forall|rest: Seq<RtcpFb>| #[trigger] scan_rel(buf@, 0, rest) implies scan_rel(
                buf@,
                0,
                feedback@ + rest,
            ) by {
                assert(feedback@ + rest =~= rest);
            }
        }
        loop
            invariant
                pos <= buf.len(),
                forall|k: int| 0 <= k < feedback@.len() ==> (#[trigger] feedback@[k]).wf(),
                4 * feedback@.len() <= pos,
                forall|rest: Seq<RtcpFb>|
                    #[trigger] scan_rel(buf@, pos as int, rest) ==> scan_rel(
                        buf@,
                        0,
                        feedback@ + rest,
                    ),
            ensures
                scan_rel(buf@, 0, feedback@),
            decreases buf.len() - pos,
        {
            if pos >= buf.len() {
                proof {
                    assert(scan_rel(buf@, pos as int, Seq::<RtcpFb>::empty()));
                    assert(feedback@ + Seq::<RtcpFb>::empty() =~= feedback@);
                }
                break ;
            }
            let header = match RtcpHeader::parse(buf, pos) {
                Some(h) => h,
                None => {
                    proof {
                        assert(scan_rel(buf@, pos as int, Seq::<RtcpFb>::empty()));
                        assert(feedback@ + Seq::<RtcpFb>::empty() =~= feedback@);
                    }
                    break ;
                },
            };
            let full_length = header.length_words() * 4;
            if full_length > buf.len() - pos {
                // this length is incorrect
                proof {
                    assert(scan_rel(buf@, pos as int, Seq::<RtcpFb>::empty()));
                    assert(feedback@ + Seq::<RtcpFb>::empty() =~= feedback@);
                }
                break ;
            }
            let unpadded_length = if header.has_padding {
                let pad = buf[pos + full_length - 1] as usize;
                if full_length < pad {
                    proof {
                        assert(scan_rel(buf@, pos as int, Seq::<RtcpFb>::empty()));
                        assert(feedback@ + Seq::<RtcpFb>::empty() =~= feedback@);
                    }
                    break ;
                }
                full_length - pad
            } else {
                full_length
            };
            let ghost fb0 = feedback@;
            let ghost p0 = pos as int;
            let decoded = RtcpFb::decode(buf, pos, pos + unpadded_length);
            let ghost dec_g = decoded;
            match decoded {
                Some(fb) => feedback.push_back(fb),
                None => {},
            }
            pos = pos + full_length;
            proof {
                let b = buf@;
                assert forall|rest: Seq<RtcpFb>| #[trigger] scan_rel(b, pos as int, rest) implies
                    scan_rel(b, 0, feedback@ + rest) by {
                    let cmb: Seq<RtcpFb> = match dec_g {
                        Some(p) => seq![p] + rest,
                        None => rest,
                    };
                    let h = RtcpHeader::spec_parse(b, p0)->0;
                    assert(h == header);
                    let full = 4 * (h.length_field + 1);
                    assert(full == full_length as int);
                    assert(p0 + full <= b.len());
                    assert(!(h.has_padding && full < b[p0 + full - 1] as int));
                    let endd = if h.has_padding {
                        p0 + full - b[p0 + full - 1] as int
                    } else {
                        p0 + full
                    };
                    assert(endd == p0 + unpadded_length as int);
                    assert(scan_split(dec_g, rest));
                    assert(decode_rel(b, p0, endd, dec_g));
                    assert(scan_rel(b, p0 + full, rest));
                    assert(scan_rel(b, p0, cmb));
                    assert(scan_rel(b, 0, fb0 + cmb));
                    assert(fb0 + cmb =~= feedback@ + rest);
                    assert(scan_rel(b, 0, feedback@ + rest));
                }
            }
        }
        feedback
    }

    /// Serialize the queue into `buf`: shrink the budget to a multiple of
    /// `pad_to`, pack the queue into that budget, write the packets that fit
    /// front to back (what does not fit stays queued for a later call), and
    /// pad the compound packet up to `pad_to`. Padding zero-fills, puts the
    /// pad count in the final byte, and retroactively sets the padding bit
    /// and grows the length field of the last packet written. Returns the
    /// bytes written.
    ///
    /// The buffer is capped at a quarter-megabyte as the chosen wire limit:
    /// any packet can end up last and must then absorb the whole pad inside
    /// its 16-bit length-in-words field, and a packet plus its pad never
    /// exceeds the buffer, so a buffer of at most 0x40000 bytes keeps every
    /// patched length representable whatever the queue holds.
    #[verifier::rlimit(60)]
    pub fn write_packet(feedback: &mut VecDeque<RtcpFb>, buf: &mut Vec<u8>, pad_to: usize) -> (n:
        usize)
        requires
            pad_to > 0,
            pad_to % 4 == 0,
            old(buf).len() <= 0x40000,
            forall|k: int|
                0 <= k < old(feedback)@.len() ==> (#[trigger] old(feedback)@[k]).wf(),
        ensures
            final(buf).len() == old(buf).len(),
            n <= old(buf).len() - old(buf).len() % pad_to,
            n % pad_to == 0,
            n % 4 == 0,
            forall|k: int| n <= k < old(buf).len() ==> final(buf)@[k] == old(buf)@[k],
            n == 0 ==> final(buf)@ == old(buf)@,
            old(feedback)@.len() == 0 ==> n == 0 && final(feedback)@.len() == 0,
            final(feedback)@.len() > 0 ==> 4 * final(feedback)@[0].spec_length_words() > old(
                buf,
            ).len() - old(buf).len() % pad_to - n,
            exists|q1: Seq<RtcpFb>, drained: int|
                {
                    &&& pack_post(
                        old(feedback)@,
                        (old(buf).len() - old(buf).len() % pad_to) as int / 4,
                        q1,
                    )
                    &&& 0 <= drained <= q1.len()
                    &&& final(feedback)@ == #[trigger] q1.skip(drained)
                    &&& 4 * queue_words(q1.take(drained)) <= n
                    &&& n - 4 * queue_words(q1.take(drained)) < pad_to
                    &&& (n == 4 * queue_words(q1.take(drained)) ==> final(buf)@.subrange(
                        0,
                        n as int,
                    ) == compound_bytes(q1.take(drained)))
                    &&& (n > 4 * queue_words(q1.take(drained)) ==> drained > 0 && {
                        let padlen = n - 4 * queue_words(q1.take(drained));
                        let op = 4 * queue_words(q1.take(drained - 1));
                        let l = q1[drained - 1];
                        &&& final(buf)@[n - 1] == padlen as u8
                        &&& (forall|j: int| n - padlen <= j < n - 1 ==> final(buf)@[j] == 0)
                        &&& (forall|j: int|
                            0 <= j < n - padlen && j != op && j != op + 2 && j != op + 3
                                ==> final(buf)@[j] == compound_bytes(q1.take(drained))[j])
                        &&& final(buf)@[op] == l.spec_header().spec_bytes()[0] | 0x20
                        &&& final(buf)@[op + 2] == (((l.spec_length_words() - 1 + padlen
                            / 4) as u16) >> 8) as u8
                        &&& final(buf)@[op + 3] == (((l.spec_length_words() - 1 + padlen
                            / 4) as u16) & 0xff) as u8
                    })
                },
            forall|k: int|
                0 <= k < final(feedback)@.len() ==> (#[trigger] final(feedback)@[k]).wf(),
            forall|k: int|
                0 <= k < final(feedback)@.len()
                    ==> !(#[trigger] final(feedback)@[k]).spec_is_empty(),
    {
        // Total length, in bytes, shrunk to be on the pad_to boundary.
        let mut total_len = buf.len();
        proof {
            assert(total_len as int % pad_to as int <= total_len as int) by (nonlinear_arith)
                requires
                    total_len as int >= 0,
                    pad_to as int > 0,
            ;
        }
        total_len = total_len - total_len % pad_to;
        proof {
            vstd::arithmetic::div_mod::lemma_fundamental_div_mod(
                old(buf).len() as int,
                pad_to as int,
            );
            vstd::arithmetic::div_mod::lemma_mod_multiples_basic(
                old(buf).len() as int / pad_to as int,
                pad_to as int,
            );
        }
        // Capacity in words.
        let word_capacity = total_len / 4;
        // Pack the queue: merge together packets of compatible kinds.
        RtcpFb::pack(feedback, word_capacity);
        let ghost q1 = feedback@;
        proof {
            assert(pack_post(old(feedback)@, word_capacity as int, q1));
            assert(word_capacity as int == (old(buf).len() - old(buf).len() % pad_to) as int / 4);
            assert(q1.skip(0) =~= q1);
            assert(q1.take(0) =~= Seq::<RtcpFb>::empty());
            assert(queue_words(Seq::<RtcpFb>::empty()) == 0);
            assert(compound_bytes(Seq::<RtcpFb>::empty()) == Seq::<u8>::empty());
            assert(buf@.subrange(0, 0) =~= Seq::<u8>::empty());
        }
        let mut offset: usize = 0;
        let mut offset_prev: usize = 0;
        let ghost mut drained: int = 0;
        let ghost mut last: Option<RtcpFb> = None;
        loop
            invariant
                buf.len() == old(buf).len(),
                total_len <= buf.len() <= 0x40000,
                total_len % pad_to == 0,
                offset <= total_len,
                offset % 4 == 0,
                forall|k: int| 0 <= k < feedback@.len() ==> (#[trigger] feedback@[k]).wf(),
                forall|k: int|
                    0 <= k < feedback@.len() ==> !(#[trigger] feedback@[k]).spec_is_empty(),
                feedback@.len() <= q1.len(),
                0 <= drained <= q1.len(),
                feedback@ == q1.skip(drained),
                offset == 4 * queue_words(q1.take(drained)),
                buf@.subrange(0, offset as int) == compound_bytes(q1.take(drained)),
                q1.len() == 0 ==> offset == 0,
                offset == 0 ==> buf@ == old(buf)@,
                forall|k: int| offset <= k < buf@.len() ==> buf@[k] == old(buf)@[k],
                offset > 0 ==> last is Some,
                last is Some ==> {
                    let l = last->0;
                    &&& drained > 0
                    &&& l == q1[drained - 1]
                    &&& offset_prev == 4 * queue_words(q1.take(drained - 1))
                    &&& l.wf()
                    &&& offset_prev + 4 * l.spec_length_words() == offset
                    &&& buf@.subrange(offset_prev as int, offset_prev as int + 4)
                        == l.spec_header().spec_bytes()
                },
            ensures
                feedback@.len() > 0 ==> 4 * feedback@[0].spec_length_words() > total_len - offset,
            decreases feedback@.len(),
        {
            if feedback.len() == 0 {
                break ;
            }
            // Length of the next item.
            let item_len = feedback[0].length_words() * 4;
            // Capacity left in the buffer.
            let capacity = total_len - offset;
            if capacity < item_len {
                break ;
            }
            // The next packet definitely fits.
            let fb = match feedback.pop_front() {
                Some(v) => v,
                None => {
                    break ;
                },
            };
            let ghost pre_buf = buf@;
            let written = fb.write_to(buf, offset);
            proof {
                last = Some(fb);
                assert(fb == q1[drained]);
                assert(feedback@ =~= q1.skip(drained + 1));
                assert(q1.take(drained + 1) =~= q1.take(drained).push(fb));
                lemma_queue_words_push(q1.take(drained), fb);
                assert(buf@.subrange(0, offset as int) =~= pre_buf.subrange(0, offset as int));
                assert(buf@.subrange(0, offset as int + item_len as int) =~= buf@.subrange(
                    0,
                    offset as int,
                ) + buf@.subrange(offset as int, offset as int + item_len as int));
                assert(q1.take(drained + 1).drop_last() =~= q1.take(drained));
                assert(q1.take(drained + 1).last() == fb);
                assert(compound_bytes(q1.take(drained + 1)) == compound_bytes(q1.take(drained))
                    + fb.spec_bytes());
                drained = drained + 1;
            }
            offset_prev = offset;
            offset = offset + item_len;
        }
        // Padding needed to fill up to pad_to.
        let pad = pad_to - offset % pad_to;
        if offset > 0 && pad_to > 1 && pad < pad_to {
            let ghost off0 = offset as int;
            let ghost p = pad_to as int;
            let ghost q = offset as int / p;
            let ghost r = offset as int % p;
            proof {
                vstd::arithmetic::div_mod::lemma_fundamental_div_mod(off0, p);
                vstd::arithmetic::div_mod::lemma_fundamental_div_mod(p, 4);
                vstd::arithmetic::div_mod::lemma_fundamental_div_mod(off0, 4);
                let p4 = p / 4;
                let o4 = off0 / 4;
                assert(p * q == 4 * (p4 * q)) by (nonlinear_arith)
                    requires
                        p == 4 * p4,
                ;
                assert(r == 4 * (o4 - p4 * q));
                vstd::arithmetic::div_mod::lemma_mod_multiples_basic(o4 - p4 * q, 4);
                assert(r % 4 == 0);
                assert(pad == 4 * (p4 - (o4 - p4 * q)));
                vstd::arithmetic::div_mod::lemma_mod_multiples_basic(p4 - (o4 - p4 * q), 4);
                assert(pad % 4 == 0);
                // the next pad_to boundary still lies within the budget
                assert(r != 0);
                assert(off0 < total_len);
                let t = total_len as int / p;
                vstd::arithmetic::div_mod::lemma_fundamental_div_mod(total_len as int, p);
                assert(total_len == p * t);
                assert(q < t) by (nonlinear_arith)
                    requires
                        p * q + r == off0,
                        off0 < p * t,
                        0 <= r,
                        p > 0,
                ;
                assert(p * (q + 1) <= p * t) by (nonlinear_arith)
                    requires
                        q + 1 <= t,
                        p > 0,
                ;
                assert(off0 + pad == p * (q + 1)) by (nonlinear_arith)
                    requires
                        off0 == p * q + r,
                        pad == p - r,
                ;
                vstd::arithmetic::div_mod::lemma_mod_multiples_basic(q + 1, p);
                assert((off0 + pad) % p == 0);
                assert(offset + pad <= total_len);
            }
            let ghost l = last->0;
            let ghost pre_pad = buf@;
            proof {
                lemma_packet_header_facts(l);
            }
            let mut k: usize = 0;
            while k < pad
                invariant
                    k <= pad,
                    offset + pad <= total_len <= buf.len() == old(buf).len(),
                    offset_prev + 4 <= offset,
                    buf@.subrange(offset_prev as int, offset_prev as int + 4)
                        == l.spec_header().spec_bytes(),
                    forall|kk: int|
                        offset + pad <= kk < buf@.len() ==> buf@[kk] == old(buf)@[kk],
                    forall|kk: int| offset <= kk < offset + k ==> buf@[kk] == 0,
                    forall|kk: int| 0 <= kk < offset ==> buf@[kk] == pre_pad[kk],
                decreases pad - k,
            {
                let ghost before = buf@;
                buf[offset + k] = 0;
                proof {
                    assert(buf@.subrange(offset_prev as int, offset_prev as int + 4)
                        =~= before.subrange(offset_prev as int, offset_prev as int + 4));
                }
                k = k + 1;
            }
            let ghost off_pre = offset as int;
            offset = offset + pad;
            // In a compound packet, padding is only set on the last
            // individual packet, and the whole compound packet is padded as
            // a unit.
            let ghost before = buf@;
            buf[offset - 1] = #[verifier::truncate] (pad as u8);
            proof {
                assert(buf@.subrange(offset_prev as int, offset_prev as int + 4) =~= before
                    .subrange(offset_prev as int, offset_prev as int + 4));
            }
            // Add the padding on to the length of the last written packet.
            let b2 = buf[offset_prev + 2];
            let b3 = buf[offset_prev + 3];
            let w0 = ((b2 as u16) << 8) | (b3 as u16);
            proof {
                let w = l.spec_header().length_field;
                assert(b2 == (w >> 8) as u8 && b3 == (w & 0xff) as u8);
                assert((((w >> 8) as u8 as u16) << 8) | ((w & 0xff) as u8 as u16) == w)
                    by (bit_vector);
                assert(w0 == l.spec_length_words() - 1);
                assert(4 * l.spec_length_words() == off_pre - offset_prev);
            }
            let w1 = w0 + (pad / 4) as u16;
            buf[offset_prev + 2] = (w1 >> 8) as u8;
            buf[offset_prev + 3] = (w1 & 0xff) as u8;
            // Toggle the padding bit.
            let b0 = buf[offset_prev];
            buf[offset_prev] = b0 | 0x20;
            proof {
                assert(offset_prev + 4 <= offset);
                assert(forall|kk: int|
                    offset <= kk < buf@.len() ==> buf@[kk] == old(buf)@[kk]);
                let cb = compound_bytes(q1.take(drained));
                assert(cb == pre_pad.subrange(0, off0));
                assert forall|j: int|
                    0 <= j < off0 && j != offset_prev && j != offset_prev + 2 && j != offset_prev
                        + 3 implies buf@[j] == cb[j] by {
                    assert(pre_pad.subrange(0, off0)[j] == pre_pad[j]);
                }
            }
        }
        offset
    }

    /// Greedily merge report lists forward into the earliest compatible
    /// packet, under a total word budget, then drop packets whose lists
    /// became empty. If even the anchor packet exceeds the remaining budget
    /// the pass aborts and the queue is left as it stands; in particular a
    /// queue of non-empty packets whose first packet alone exceeds the
    /// budget comes back unchanged.
    pub fn pack(feedback: &mut VecDeque<RtcpFb>, word_capacity: usize)
        requires
            forall|k: int|
                0 <= k < old(feedback)@.len() ==> (#[trigger] old(feedback)@[k]).wf(),
        ensures
            forall|k: int|
                0 <= k < final(feedback)@.len() ==> (#[trigger] final(feedback)@[k]).wf(),
            forall|k: int|
                0 <= k < final(feedback)@.len()
                    ==> !(#[trigger] final(feedback)@[k]).spec_is_empty(),
            final(feedback)@.len() <= old(feedback)@.len(),
            items_from(final(feedback)@, 0) == items_from(old(feedback)@, 0),
            (old(feedback)@.len() > 0 && word_capacity < old(feedback)@[0].spec_length_words()
                && (forall|k: int|
                0 <= k < old(feedback)@.len()
                    ==> !(#[trigger] old(feedback)@[k]).spec_is_empty()))
                ==> final(feedback)@ == old(feedback)@,
            (old(feedback)@.len() <= 1 && (forall|k: int|
                0 <= k < old(feedback)@.len()
                    ==> !(#[trigger] old(feedback)@[k]).spec_is_empty()))
                ==> final(feedback)@ == old(feedback)@,
            pack_post(old(feedback)@, word_capacity as int, final(feedback)@),
            queue_items(final(feedback)@).to_multiset() == queue_items(
                old(feedback)@,
            ).to_multiset(),
            exists|q_mid: Seq<RtcpFb>|
                {
                    &&& final(feedback)@ == #[trigger] non_empty_of(q_mid)
                    &&& q_mid.len() == old(feedback)@.len()
                    &&& forall|k: int|
                        0 <= k < q_mid.len() ==> shape_eq(
                            old(feedback)@[k],
                            #[trigger] q_mid[k],
                        )
                },
    {
        let ghost original = feedback@;
        let len = feedback.len();
        if len > 1 {
            let mut cap = word_capacity;
            let mut i: usize = 0;
            loop
                invariant
                    1 < len == feedback@.len(),
                    original.len() == len,
                    i < len,
                    cap <= word_capacity,
                    forall|k: int| 0 <= k < feedback@.len() ==> (#[trigger] feedback@[k]).wf(),
                    items_from(feedback@, 0) == items_from(original, 0),
                    queue_items(feedback@).to_multiset() == queue_items(original).to_multiset(),
                    forall|k: int|
                        0 <= k < feedback@.len() ==> shape_eq(
                            original[k],
                            #[trigger] feedback@[k],
                        ),
                    word_capacity < original[0].spec_length_words() ==> i == 0 && feedback@
                        == original && cap == word_capacity,
                ensures
                    feedback@.len() == len,
                    forall|k: int| 0 <= k < feedback@.len() ==> (#[trigger] feedback@[k]).wf(),
                    items_from(feedback@, 0) == items_from(original, 0),
                    queue_items(feedback@).to_multiset() == queue_items(original).to_multiset(),
                    forall|k: int|
                        0 <= k < feedback@.len() ==> shape_eq(
                            original[k],
                            #[trigger] feedback@[k],
                        ),
                    word_capacity < original[0].spec_length_words() ==> feedback@ == original,
                decreases len - i, items_from(feedback@, i as int + 1),
            {
                proof {
                    lemma_items_from_nonneg(feedback@, i as int + 1);
                }
                if i == len - 1 {
                    break ;
                }
                let lw_a = feedback[i].length_words();
                if cap < lw_a {
                    // cannot even fit the anchor: abort the whole pass
                    break ;
                }
                let ghost q_head = feedback@;
                let mut j = i + 1;
                let mut any_change = false;
                while j < len
                    invariant
                        1 < len == feedback@.len(),
                        i < j <= len,
                        i < len - 1,
                        cap <= word_capacity,
                        forall|k: int| 0 <= k < feedback@.len() ==> (#[trigger] feedback@[k]).wf(),
                        feedback@[i as int].spec_length_words() <= cap,
                        original.len() == len,
                        items_from(feedback@, 0) == items_from(original, 0),
                        queue_items(feedback@).to_multiset() == queue_items(
                            original,
                        ).to_multiset(),
                        forall|k: int|
                            0 <= k < feedback@.len() ==> shape_eq(
                                original[k],
                                #[trigger] feedback@[k],
                            ),
                        items_from(feedback@, i as int + 1) <= items_from(q_head, i as int + 1),
                        any_change == (items_from(feedback@, i as int + 1) < items_from(
                            q_head,
                            i as int + 1,
                        )),
                        !(word_capacity < original[0].spec_length_words()),
                    decreases len - j,
                {
                    let full_or_empty = {
                        let a_ref = &feedback[i];
                        a_ref.is_full() || a_ref.is_empty()
                    };
                    if full_or_empty {
                        break ;
                    }
                    let lw_now = feedback[i].length_words();
                    let budget = cap - lw_now;
                    let ghost q0 = feedback@;
                    let a_val = match feedback.remove(i) {
                        Some(v) => v,
                        None => {
                            break ;
                        },
                    };
                    let b_val = match feedback.remove(j - 1) {
                        Some(v) => v,
                        None => {
                            break ;
                        },
                    };
                    proof {
                        assert(a_val == q0[i as int]);
                        assert(b_val == q0[j as int]);
                    }
                    let (a2, b2, did) = RtcpFb::merge(a_val, b_val, budget);
                    feedback.insert(i, a2);
                    feedback.insert(j, b2);
                    proof {
                        assert(feedback@ =~= q0.update(i as int, a2).update(j as int, b2));
                        lemma_merge_effects(a_val, b_val, budget as int, a2, b2, did);
                        lemma_items_from_update(q0, i as int, a2, i as int + 1);
                        lemma_items_from_update(
                            q0.update(i as int, a2),
                            j as int,
                            b2,
                            i as int + 1,
                        );
                        lemma_items_from_update(q0, i as int, a2, 0);
                        lemma_items_from_update(q0.update(i as int, a2), j as int, b2, 0);
                        assert(q0.update(i as int, a2)[j as int] == b_val);
                        lemma_merge_shape(a_val, b_val, budget as int, a2, b2, did);
                        lemma_merge_items(a_val, b_val, budget as int, a2, b2, did);
                        lemma_queue_items_update(q0, i as int, a2);
                        lemma_queue_items_update(q0.update(i as int, a2), j as int, b2);
                        broadcast use vstd::multiset::group_multiset_axioms;

                        let u1 = q0.update(i as int, a2);
                        let u2 = u1.update(j as int, b2);
                        assert(feedback@ == u2);
                        assert forall|e: ReportItem|
                            #[trigger] queue_items(u2).to_multiset().count(e) == queue_items(
                            q0,
                        ).to_multiset().count(e) by {
                            assert(queue_items(u1).to_multiset().add(
                                packet_items(q0[i as int]).to_multiset(),
                            ).count(e) == queue_items(q0).to_multiset().add(
                                packet_items(a2).to_multiset(),
                            ).count(e));
                            assert(queue_items(u2).to_multiset().add(
                                packet_items(u1[j as int]).to_multiset(),
                            ).count(e) == queue_items(u1).to_multiset().add(
                                packet_items(b2).to_multiset(),
                            ).count(e));
                            assert(packet_items(a2).to_multiset().add(
                                packet_items(b2).to_multiset(),
                            ).count(e) == packet_items(a_val).to_multiset().add(
                                packet_items(b_val).to_multiset(),
                            ).count(e));
                        }
                        assert(queue_items(feedback@).to_multiset() =~= queue_items(
                            q0,
                        ).to_multiset());
                        assert forall|k: int|
                            0 <= k < feedback@.len() implies shape_eq(
                            original[k],
                            #[trigger] feedback@[k],
                        ) by {
                            if k == i {
                                lemma_shape_trans(original[k], a_val, a2);
                            } else if k == j {
                                lemma_shape_trans(original[k], b_val, b2);
                            } else {
                                assert(feedback@[k] == q0[k]);
                            }
                        }
                        assert(items_from(feedback@, i as int + 1) == items_from(q0, i as int + 1)
                            - b_val.spec_report_count() + b2.spec_report_count());
                    }
                    if did {
                        any_change = true;
                    }
                    j = j + 1;
                }
                if !any_change {
                    // the anchor gained nothing: reserve its space for good
                    // and move on
                    let lw = feedback[i].length_words();
                    cap = cap - lw;
                    i = i + 1;
                }
                proof {
                    lemma_items_from_nonneg(feedback@, i as int + 1);
                    lemma_items_from_nonneg(q_head, i as int + 1);
                }
            }
        }
        // prune the packets whose report lists were drained empty
        let ghost pre_retain = feedback@;
        let mut kept: VecDeque<RtcpFb> = VecDeque::new();
        proof {
            assert(pre_retain.skip(0) =~= pre_retain);
            assert(pre_retain.take(0) =~= Seq::<RtcpFb>::empty());
            assert(non_empty_of(Seq::<RtcpFb>::empty()) == Seq::<RtcpFb>::empty());
        }
        loop
            invariant
                feedback@ == pre_retain.skip(pre_retain.len() - feedback@.len()),
                feedback@.len() <= pre_retain.len(),
                forall|k: int| 0 <= k < pre_retain.len() ==> (#[trigger] pre_retain[k]).wf(),
                forall|k: int| 0 <= k < kept@.len() ==> (#[trigger] kept@[k]).wf(),
                forall|k: int| 0 <= k < kept@.len() ==> !(#[trigger] kept@[k]).spec_is_empty(),
                kept@.len() + feedback@.len() <= pre_retain.len(),
                items_from(kept@, 0) + items_from(pre_retain, pre_retain.len() - feedback@.len())
                    == items_from(pre_retain, 0),
                kept@ == non_empty_of(pre_retain.take(pre_retain.len() - feedback@.len())),
                (forall|k: int|
                    k < pre_retain.len() - feedback@.len() && 0 <= k ==> !(#[trigger] pre_retain[k]).spec_is_empty())
                    ==> kept@ == pre_retain.take(pre_retain.len() - feedback@.len()),
            ensures
                feedback@.len() == 0,
                forall|k: int| 0 <= k < kept@.len() ==> (#[trigger] kept@[k]).wf(),
                forall|k: int| 0 <= k < kept@.len() ==> !(#[trigger] kept@[k]).spec_is_empty(),
                kept@.len() <= pre_retain.len(),
                items_from(kept@, 0) == items_from(pre_retain, 0),
                kept@ == non_empty_of(pre_retain),
                (forall|k: int| 0 <= k < pre_retain.len() ==> !(#[trigger] pre_retain[k]).spec_is_empty())
                    ==> kept@ == pre_retain,
            decreases feedback@.len(),
        {
            let ghost done = pre_retain.len() - feedback@.len();
            let fb = match feedback.pop_front() {
                Some(v) => v,
                None => {
                    proof {
                        assert(pre_retain.take(pre_retain.len() as int) =~= pre_retain);
                        assert(kept@ == non_empty_of(pre_retain));
                    }
                    break ;
                },
            };
            proof {
                assert(fb == pre_retain[done]);
                assert(feedback@ =~= pre_retain.skip(done + 1));
                assert(pre_retain.take(done + 1) =~= pre_retain.take(done).push(fb));
                assert(pre_retain.take(done + 1).drop_last() =~= pre_retain.take(done));
                assert(pre_retain.take(done + 1).last() == fb);
            }
            if !fb.is_empty() {
                proof {
                    lemma_items_from_push(kept@, fb, 0);
                }
                kept.push_back(fb);
            } else {
                proof {
                    assert(fb.spec_report_count() == 0);
                }
            }
        }
        proof {
            lemma_non_empty_of_items(pre_retain);
        }
        *feedback = kept;
    }

    /// Move as many reports as fit `words_left` from `b`'s list into `a`'s,
    /// for the compatible kind pairs; report whether anything moved.
    pub fn merge(a: RtcpFb, b: RtcpFb, words_left: usize) -> (r: (RtcpFb, RtcpFb, bool))
        requires
            a.wf(),
            b.wf(),
        ensures
            r.0.wf(),
            r.1.wf(),
            merge_post(a, b, words_left as int, r.0, r.1, r.2),
            !spec_mergeable(a, b) ==> r.0 == a && r.1 == b && !r.2,
    {
        match (a, b) {
            (RtcpFb::SenderReport(mut sr), RtcpFb::ReceiverReport(mut rr)) => {
                let n = sr.reports.append_all_possible(&mut rr.reports, words_left);
                (RtcpFb::SenderReport(sr), RtcpFb::ReceiverReport(rr), n > 0)
            },
            (RtcpFb::ReceiverReport(mut r1), RtcpFb::ReceiverReport(mut r2)) => {
                let n = r1.reports.append_all_possible(&mut r2.reports, words_left);
                (RtcpFb::ReceiverReport(r1), RtcpFb::ReceiverReport(r2), n > 0)
            },
            (RtcpFb::SourceDescription(mut s1), RtcpFb::SourceDescription(mut s2)) => {
                let n = s1.reports.append_all_possible(&mut s2.reports, words_left);
                (RtcpFb::SourceDescription(s1), RtcpFb::SourceDescription(s2), n > 0)
            },
            (RtcpFb::Goodbye(mut g1), RtcpFb::Goodbye(mut g2)) => {
                let n = g1.reports.append_all_possible(&mut g2.reports, words_left);
                (RtcpFb::Goodbye(g1), RtcpFb::Goodbye(g2), n > 0)
            },
            (x, y) => (x, y, false),
        }
    }
}

impl RtcpPacket for RtcpFb {
    open spec fn wf(&self) -> bool {
        match self {
            RtcpFb::SenderReport(v) => v.wf(),
            RtcpFb::ReceiverReport(v) => v.wf(),
            RtcpFb::SourceDescription(v) => v.wf(),
            RtcpFb::Goodbye(v) => v.wf(),
        }
    }

    open spec fn spec_length_words(&self) -> int {
        match self {
            RtcpFb::SenderReport(v) => v.spec_length_words(),
            RtcpFb::ReceiverReport(v) => v.spec_length_words(),
            RtcpFb::SourceDescription(v) => v.spec_length_words(),
            RtcpFb::Goodbye(v) => v.spec_length_words(),
        }
    }

    open spec fn spec_header(&self) -> RtcpHeader {
        match self {
            RtcpFb::SenderReport(v) => v.spec_header(),
            RtcpFb::ReceiverReport(v) => v.spec_header(),
            RtcpFb::SourceDescription(v) => v.spec_header(),
            RtcpFb::Goodbye(v) => v.spec_header(),
        }
    }

    open spec fn spec_bytes(&self) -> Seq<u8> {
        match self {
            RtcpFb::SenderReport(v) => v.spec_bytes(),
            RtcpFb::ReceiverReport(v) => v.spec_bytes(),
            RtcpFb::SourceDescription(v) => v.spec_bytes(),
            RtcpFb::Goodbye(v) => v.spec_bytes(),
        }
    }

    fn header(&self) -> (h: RtcpHeader) {
        match self {
            RtcpFb::SenderReport(v) => v.header(),
            RtcpFb::ReceiverReport(v) => v.header(),
            RtcpFb::SourceDescription(v) => v.header(),
            RtcpFb::Goodbye(v) => v.header(),
        }
    }

    fn length_words(&self) -> (r: usize) {
        match self {
            RtcpFb::SenderReport(v) => v.length_words(),
            RtcpFb::ReceiverReport(v) => v.length_words(),
            RtcpFb::SourceDescription(v) => v.length_words(),
            RtcpFb::Goodbye(v) => v.length_words(),
        }
    }

    fn write_to(&self, buf: &mut Vec<u8>, at: usize) -> (n: usize) {
        let n = match self {
            RtcpFb::SenderReport(v) => v.write_to(buf, at),
            RtcpFb::ReceiverReport(v) => v.write_to(buf, at),
            RtcpFb::SourceDescription(v) => v.write_to(buf, at),
            RtcpFb::Goodbye(v) => v.write_to(buf, at),
        };
        proof {
            lemma_packet_header_facts(*self);
            assert(buf@.subrange(at as int, at as int + 4) =~= self.spec_bytes().subrange(0, 4));
            assert(self.spec_bytes().subrange(0, 4) =~= self.spec_header().spec_bytes());
        }
        n
    }
}

} // verus!
