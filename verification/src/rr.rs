//! Reception reports (the fixed 24-byte per-source statistics block) and the
//! receiver-report packet that carries a bounded list of them.

use vstd::prelude::*;

use crate::header::{RtcpHeader, RtcpType};
use crate::list::{
    bytes_of_items, lemma_bytes_of_items_len, lemma_total_words_bound, total_words, ReportList,
    WordSized,
};
use crate::wire;
use crate::Ssrc;

verus! {

/// One reception report block: the statistics a receiver reports about one
/// source. Occupies exactly six words on the wire; `packets_lost` is a
/// 24-bit field.
#[derive(Clone, Copy, PartialEq, Eq, Structural, Debug)]
pub struct ReceptionReport {
    pub ssrc: Ssrc,
    pub fraction_lost: u8,
    pub packets_lost: u32,
    pub max_seq: u32,
    pub jitter: u32,
    pub last_sr_time: u32,
    pub last_sr_delay: u32,
}

impl ReceptionReport {
    /// The report whose 24 bytes start at `at` in `b`.
    pub open spec fn spec_parse(b: Seq<u8>, at: int) -> ReceptionReport {
        ReceptionReport {
            ssrc: Ssrc(wire::spec_u32_at(b, at)),
            fraction_lost: b[at + 4],
            packets_lost: wire::spec_u24_at(b, at + 5),
            max_seq: wire::spec_u32_at(b, at + 8),
            jitter: wire::spec_u32_at(b, at + 12),
            last_sr_time: wire::spec_u32_at(b, at + 16),
            last_sr_delay: wire::spec_u32_at(b, at + 20),
        }
    }

    /// Parse the 24-byte block at `at`.
    pub fn parse_at(buf: &[u8], at: usize) -> (r: ReceptionReport)
        requires
            at + 24 <= buf.len(),
        ensures
            r == Self::spec_parse(buf@, at as int),
            r.wf(),
    {
        ReceptionReport {
            ssrc: Ssrc(wire::read_u32_at(buf, at)),
            fraction_lost: buf[at + 4],
            packets_lost: wire::read_u24_at(buf, at + 5),
            max_seq: wire::read_u32_at(buf, at + 8),
            jitter: wire::read_u32_at(buf, at + 12),
            last_sr_time: wire::read_u32_at(buf, at + 16),
            last_sr_delay: wire::read_u32_at(buf, at + 20),
        }
    }
}

/// Round trip: parsing the 24 bytes a well-formed reception report
/// serializes to yields that report back.
pub proof fn lemma_report_roundtrip(r: ReceptionReport, b: Seq<u8>, at: int)
    requires
        r.wf(),
        0 <= at,
        at + 24 <= b.len(),
        b.subrange(at, at + 24) == r.spec_bytes(),
    ensures
        ReceptionReport::spec_parse(b, at) == r,
{
    let sb = r.spec_bytes();
    assert forall|k: int| 0 <= k < 24 implies b[at + k] == sb[k] by {
        assert(b.subrange(at, at + 24)[k] == sb[k]);
    }
    let pre = wire::be32(r.ssrc.0) + seq![r.fraction_lost] + wire::be24(r.packets_lost)
        + wire::be32(r.max_seq) + wire::be32(r.jitter) + wire::be32(r.last_sr_time);
    assert(sb =~= pre + wire::be32(r.last_sr_delay));
    assert(sb[0] == wire::be32(r.ssrc.0)[0]);
    assert(sb[1] == wire::be32(r.ssrc.0)[1]);
    assert(sb[2] == wire::be32(r.ssrc.0)[2]);
    assert(sb[3] == wire::be32(r.ssrc.0)[3]);
    assert(sb[4] == r.fraction_lost);
    assert(sb[5] == wire::be24(r.packets_lost)[0]);
    assert(sb[6] == wire::be24(r.packets_lost)[1]);
    assert(sb[7] == wire::be24(r.packets_lost)[2]);
    assert(sb[8] == wire::be32(r.max_seq)[0]);
    assert(sb[9] == wire::be32(r.max_seq)[1]);
    assert(sb[10] == wire::be32(r.max_seq)[2]);
    assert(sb[11] == wire::be32(r.max_seq)[3]);
    assert(sb[12] == wire::be32(r.jitter)[0]);
    assert(sb[13] == wire::be32(r.jitter)[1]);
    assert(sb[14] == wire::be32(r.jitter)[2]);
    assert(sb[15] == wire::be32(r.jitter)[3]);
    assert(sb[16] == wire::be32(r.last_sr_time)[0]);
    assert(sb[17] == wire::be32(r.last_sr_time)[1]);
    assert(sb[18] == wire::be32(r.last_sr_time)[2]);
    assert(sb[19] == wire::be32(r.last_sr_time)[3]);
    assert(sb[20] == wire::be32(r.last_sr_delay)[0]);
    assert(sb[21] == wire::be32(r.last_sr_delay)[1]);
    assert(sb[22] == wire::be32(r.last_sr_delay)[2]);
    assert(sb[23] == wire::be32(r.last_sr_delay)[3]);
    assert(b[at] == sb[0]);
    wire::lemma_be32_roundtrip(r.ssrc.0, b, at);
    assert(b[at + 4] == r.fraction_lost);
    wire::lemma_be24_roundtrip(r.packets_lost, b, at + 5);
    wire::lemma_be32_roundtrip(r.max_seq, b, at + 8);
    wire::lemma_be32_roundtrip(r.jitter, b, at + 12);
    wire::lemma_be32_roundtrip(r.last_sr_time, b, at + 16);
    wire::lemma_be32_roundtrip(r.last_sr_delay, b, at + 20);
}

/// Round trip for a whole receiver-report packet: wherever the bytes a
/// well-formed receiver report serializes to stand in a buffer, parsing the
/// header there yields the packet's header back, and parsing each 24-byte
/// block of the body yields the packet's reports back, in order.
pub proof fn lemma_receiver_report_roundtrip(r: ReceiverReport, b: Seq<u8>, at: int)
    requires
        r.wf(),
        0 <= at,
        at + 4 * r.spec_length_words() <= b.len(),
        b.subrange(at, at + 4 * r.spec_length_words()) == r.spec_bytes(),
    ensures
        RtcpHeader::spec_parse(b, at) == Some(r.spec_header()),
        forall|i: int|
            0 <= i < r.reports@.len() ==> ReceptionReport::spec_parse(b, at + 4 + 24 * i)
                == r.reports@[i],
{
    let n = 4 * r.spec_length_words();
    lemma_total_words_bound(r.reports@);
    lemma_bytes_of_items_len(r.reports@);
    assert forall|k: int| 0 <= k < n implies b[at + k] == r.spec_bytes()[k] by {
        assert(b.subrange(at, at + n)[k] == r.spec_bytes()[k]);
    }
    assert(b.subrange(at, at + 4) =~= r.spec_header().spec_bytes());
    r.spec_header().lemma_roundtrip(b, at);
    assert forall|i: int|
        0 <= i < r.reports@.len() implies ReceptionReport::spec_parse(b, at + 4 + 24 * i)
        == r.reports@[i] by {
        lemma_reports_take_words(r.reports@, i);
        lemma_reports_take_words(r.reports@, i + 1);
        lemma_reports_take_words(r.reports@, r.reports@.len() as int);
        assert(r.reports@.take(r.reports@.len() as int) =~= r.reports@);
        crate::list::lemma_bytes_of_items_index(r.reports@, i);
        let ab = bytes_of_items(r.reports@);
        let lo = at + 4 + 24 * i;
        assert forall|j: int| 0 <= j < 24 implies #[trigger] b.subrange(lo, lo + 24)[j]
            == ab.subrange(24 * i, 24 * i + 24)[j] by {
            assert(b.subrange(lo, lo + 24)[j] == b[at + (4 + 24 * i + j)]);
            assert(b[at + (4 + 24 * i + j)] == r.spec_bytes()[4 + 24 * i + j]);
            assert(r.spec_bytes()[4 + 24 * i + j] == ab[24 * i + j]);
            assert(ab.subrange(24 * i, 24 * i + 24)[j] == ab[24 * i + j]);
        }
        assert(b.subrange(lo, lo + 24) =~= ab.subrange(24 * i, 24 * i + 24));
        lemma_report_roundtrip(r.reports@[i], b, lo);
    }
}

/// A prefix of reception reports occupies six words apiece.
pub proof fn lemma_reports_take_words(s: Seq<ReceptionReport>, i: int)
    requires
        0 <= i <= s.len(),
    ensures
        total_words(s.take(i)) == 6 * i,
    decreases i,
{
    if i == 0 {
        assert(s.take(0) =~= Seq::<ReceptionReport>::empty());
        assert(total_words(Seq::<ReceptionReport>::empty()) == 0);
    } else {
        lemma_reports_take_words(s, i - 1);
        assert(s.take(i) =~= s.take(i - 1).push(s[i - 1]));
        crate::list::lemma_total_words_push(s.take(i - 1), s[i - 1]);
    }
}

impl WordSized for ReceptionReport {
    /// The loss count must fit its 24-bit field.
    open spec fn wf(&self) -> bool {
        self.packets_lost < 0x1000000
    }

    open spec fn spec_word_size(&self) -> int {
        6
    }

    proof fn lemma_word_size_in_range(&self) {
    }

    fn word_size(&self) -> (r: usize) {
        6
    }

    open spec fn spec_bytes(&self) -> Seq<u8> {
        wire::be32(self.ssrc.0) + seq![self.fraction_lost] + wire::be24(self.packets_lost)
            + wire::be32(self.max_seq) + wire::be32(self.jitter) + wire::be32(self.last_sr_time)
            + wire::be32(self.last_sr_delay)
    }

    proof fn lemma_bytes_len(&self) {
    }

    fn write_at(&self, buf: &mut Vec<u8>, at: usize) {
        let ghost sb = self.spec_bytes();
        wire::write_u32_at(buf, at, self.ssrc.0);
        proof {
            assert(buf@.subrange(at as int, at as int + 4) =~= sb.subrange(0, 4));
        }
        buf[at + 4] = self.fraction_lost;
        proof {
            assert(buf@.subrange(at as int, at as int + 5) =~= sb.subrange(0, 5));
        }
        wire::write_u24_at(buf, at + 5, self.packets_lost);
        proof {
            assert(buf@.subrange(at as int, at as int + 8) =~= sb.subrange(0, 8));
        }
        wire::write_u32_at(buf, at + 8, self.max_seq);
        proof {
            assert(buf@.subrange(at as int, at as int + 12) =~= sb.subrange(0, 12));
        }
        wire::write_u32_at(buf, at + 12, self.jitter);
        proof {
            assert(buf@.subrange(at as int, at as int + 16) =~= sb.subrange(0, 16));
        }
        wire::write_u32_at(buf, at + 16, self.last_sr_time);
        proof {
            assert(buf@.subrange(at as int, at as int + 20) =~= sb.subrange(0, 20));
        }
        wire::write_u32_at(buf, at + 20, self.last_sr_delay);
        proof {
            assert(buf@.subrange(at as int, at as int + 24) =~= sb);
        }
    }
}

/// A receiver-report packet: a bounded list of reception reports and nothing
/// else. Its count field is the number of reports.
#[derive(Clone, Debug, PartialEq, Eq)]
pub struct ReceiverReport {
    pub reports: ReportList<ReceptionReport>,
}

impl ReceiverReport {
    pub open spec fn wf(&self) -> bool {
        self.reports.wf()
    }

    /// Packet length in words: one header word plus six per report.
    pub open spec fn spec_length_words(&self) -> int {
        1 + total_words(self.reports@)
    }

    pub open spec fn spec_header(&self) -> RtcpHeader {
        RtcpHeader {
            version: 2,
            has_padding: false,
            count_or_subtype: self.reports@.len() as u8,
            rtcp_type: RtcpType::ReceiverReport,
            length_field: (self.spec_length_words() - 1) as u16,
        }
    }

    /// The exact serialization: header, then the reports in order.
    pub open spec fn spec_bytes(&self) -> Seq<u8> {
        self.spec_header().spec_bytes() + bytes_of_items(self.reports@)
    }

    pub fn header(&self) -> (h: RtcpHeader)
        requires
            self.wf(),
        ensures
            h == self.spec_header(),
            h.wf(),
    {
        proof {
            lemma_total_words_bound(self.reports@);
        }
        let words = self.reports.words();
        RtcpHeader {
            version: 2,
            has_padding: false,
            count_or_subtype: self.reports.len() as u8,
            rtcp_type: RtcpType::ReceiverReport,
            length_field: words as u16,
        }
    }

    pub fn length_words(&self) -> (r: usize)
        requires
            self.wf(),
        ensures
            r == self.spec_length_words(),
            1 <= r <= 0x10000,
    {
        proof {
            lemma_total_words_bound(self.reports@);
        }
        1 + self.reports.words()
    }

    /// Serialize at `at`, touching exactly the packet's own bytes.
    pub fn write_to(&self, buf: &mut Vec<u8>, at: usize) -> (n: usize)
        requires
            self.wf(),
            at + 4 * self.spec_length_words() <= old(buf).len(),
        ensures
            n == 4 * self.spec_length_words(),
            final(buf).len() == old(buf).len(),
            final(buf)@.subrange(at as int, at as int + n) == self.spec_bytes(),
            forall|k: int|
                0 <= k < old(buf).len() && !(at <= k < at + 4 * self.spec_length_words())
                    ==> final(buf)@[k] == old(buf)@[k],
    {
        proof {
            lemma_total_words_bound(self.reports@);
            lemma_bytes_of_items_len(self.reports@);
        }
        let h = self.header();
        h.write(buf, at);
        proof {
            assert(buf@.subrange(at as int, at as int + 4) =~= self.spec_header().spec_bytes());
        }
        let ghost after_header = buf@;
        let n = self.reports.write_all(buf, at + 4);
        proof {
            assert(buf@.subrange(at as int, at as int + 4) =~= after_header.subrange(
                at as int,
                at as int + 4,
            ));
            assert(buf@.subrange(at as int, at as int + 4 + n) =~= buf@.subrange(
                at as int,
                at as int + 4,
            ) + buf@.subrange(at as int + 4, at as int + 4 + n));
        }
        4 + n
    }

    /// Decode a receiver report from the body bytes `[at, end)`: one report
    /// for each whole 24-byte block, at most 31.
    pub fn decode(buf: &[u8], at: usize, end: usize) -> (r: ReceiverReport)
        requires
            at <= end <= buf.len(),
        ensures
            r.wf(),
            r.reports@.len() == crate::min_int((end - at) as int / 24, 31),
            forall|i: int|
                0 <= i < r.reports@.len() ==> r.reports@[i] == ReceptionReport::spec_parse(
                    buf@,
                    at + 24 * i,
                ),
    {
        let total = (end - at) / 24;
        let n: usize = if total > 31 {
            31
        } else {
            total
        };
        let mut reports: ReportList<ReceptionReport> = ReportList::new();
        let mut i: usize = 0;
        while i < n
            invariant
                n <= 31,
                24 * n <= end - at,
                at <= end <= buf.len(),
                i <= n,
                reports.wf(),
                reports@.len() == i,
                forall|j: int|
                    0 <= j < i ==> reports@[j] == ReceptionReport::spec_parse(buf@, at + 24 * j),
            decreases n - i,
        {
            let rep = ReceptionReport::parse_at(buf, at + 24 * i);
            let ok = reports.append(rep);
            assert(ok);
            i = i + 1;
        }
        ReceiverReport { reports }
    }
}

} // verus!
