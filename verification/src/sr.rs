//! Sender reports: the mandatory 24-byte sender statistics block followed by
//! a bounded list of reception reports.

use vstd::prelude::*;

use crate::header::{RtcpHeader, RtcpType};
use crate::list::{
    bytes_of_items, lemma_bytes_of_items_len, lemma_total_words_bound, total_words, ReportList,
    WordSized,
};
use crate::rr::ReceptionReport;
use crate::wire;
use crate::Ssrc;

verus! {

/// The fixed sender statistics of a sender report: six words on the wire.
/// The NTP timestamp is carried as its raw 64-bit wire value.
#[derive(Clone, Copy, PartialEq, Eq, Structural, Debug)]
pub struct SenderInfo {
    pub ssrc: Ssrc,
    pub ntp_time: u64,
    pub rtp_time: u32,
    pub sender_packet_count: u32,
    pub sender_octet_count: u32,
}

impl SenderInfo {
    /// The exact 24 bytes the block serializes to.
    pub open spec fn spec_bytes(&self) -> Seq<u8> {
        wire::be32(self.ssrc.0) + wire::be64(self.ntp_time) + wire::be32(self.rtp_time)
            + wire::be32(self.sender_packet_count) + wire::be32(self.sender_octet_count)
    }

    /// The block whose 24 bytes start at `at` in `b`.
    pub open spec fn spec_parse(b: Seq<u8>, at: int) -> SenderInfo {
        SenderInfo {
            ssrc: Ssrc(wire::spec_u32_at(b, at)),
            ntp_time: wire::spec_u64_at(b, at + 4),
            rtp_time: wire::spec_u32_at(b, at + 12),
            sender_packet_count: wire::spec_u32_at(b, at + 16),
            sender_octet_count: wire::spec_u32_at(b, at + 20),
        }
    }

    pub fn parse_at(buf: &[u8], at: usize) -> (r: SenderInfo)
        requires
            at + 24 <= buf.len(),
        ensures
            r == Self::spec_parse(buf@, at as int),
    {
        SenderInfo {
            ssrc: Ssrc(wire::read_u32_at(buf, at)),
            ntp_time: wire::read_u64_at(buf, at + 4),
            rtp_time: wire::read_u32_at(buf, at + 12),
            sender_packet_count: wire::read_u32_at(buf, at + 16),
            sender_octet_count: wire::read_u32_at(buf, at + 20),
        }
    }

    /// Serialize the block at `at`, touching exactly its 24 bytes.
    pub fn write_at(&self, buf: &mut Vec<u8>, at: usize)
        requires
            at + 24 <= old(buf).len(),
        ensures
            final(buf).len() == old(buf).len(),
            final(buf)@.subrange(at as int, at as int + 24) == self.spec_bytes(),
            forall|i: int|
                0 <= i < old(buf).len() && !(at <= i < at + 24) ==> final(buf)@[i] == old(buf)@[i],
    {
        let ghost sb = self.spec_bytes();
        wire::write_u32_at(buf, at, self.ssrc.0);
        proof {
            assert(buf@.subrange(at as int, at as int + 4) =~= sb.subrange(0, 4));
        }
        wire::write_u64_at(buf, at + 4, self.ntp_time);
        proof {
            assert(buf@.subrange(at as int, at as int + 12) =~= sb.subrange(0, 12));
        }
        wire::write_u32_at(buf, at + 12, self.rtp_time);
        proof {
            assert(buf@.subrange(at as int, at as int + 16) =~= sb.subrange(0, 16));
        }
        wire::write_u32_at(buf, at + 16, self.sender_packet_count);
        proof {
            assert(buf@.subrange(at as int, at as int + 20) =~= sb.subrange(0, 20));
        }
        wire::write_u32_at(buf, at + 20, self.sender_octet_count);
        proof {
            assert(buf@.subrange(at as int, at as int + 24) =~= sb);
        }
    }
}

/// Round trip: parsing the 24 bytes a sender statistics block serializes to
/// yields that block back.
pub proof fn lemma_sender_info_roundtrip(s: SenderInfo, b: Seq<u8>, at: int)
    requires
        0 <= at,
        at + 24 <= b.len(),
        b.subrange(at, at + 24) == s.spec_bytes(),
    ensures
        SenderInfo::spec_parse(b, at) == s,
{
    let sb = s.spec_bytes();
    assert forall|k: int| 0 <= k < 24 implies b[at + k] == sb[k] by {
        assert(b.subrange(at, at + 24)[k] == sb[k]);
    }
    assert(sb[0] == wire::be32(s.ssrc.0)[0]);
    assert(sb[1] == wire::be32(s.ssrc.0)[1]);
    assert(sb[2] == wire::be32(s.ssrc.0)[2]);
    assert(sb[3] == wire::be32(s.ssrc.0)[3]);
    assert(sb[4] == wire::be64(s.ntp_time)[0]);
    assert(sb[5] == wire::be64(s.ntp_time)[1]);
    assert(sb[6] == wire::be64(s.ntp_time)[2]);
    assert(sb[7] == wire::be64(s.ntp_time)[3]);
    assert(sb[8] == wire::be64(s.ntp_time)[4]);
    assert(sb[9] == wire::be64(s.ntp_time)[5]);
    assert(sb[10] == wire::be64(s.ntp_time)[6]);
    assert(sb[11] == wire::be64(s.ntp_time)[7]);
    assert(sb[12] == wire::be32(s.rtp_time)[0]);
    assert(sb[13] == wire::be32(s.rtp_time)[1]);
    assert(sb[14] == wire::be32(s.rtp_time)[2]);
    assert(sb[15] == wire::be32(s.rtp_time)[3]);
    assert(sb[16] == wire::be32(s.sender_packet_count)[0]);
    assert(sb[17] == wire::be32(s.sender_packet_count)[1]);
    assert(sb[18] == wire::be32(s.sender_packet_count)[2]);
    assert(sb[19] == wire::be32(s.sender_packet_count)[3]);
    assert(sb[20] == wire::be32(s.sender_octet_count)[0]);
    assert(sb[21] == wire::be32(s.sender_octet_count)[1]);
    assert(sb[22] == wire::be32(s.sender_octet_count)[2]);
    assert(sb[23] == wire::be32(s.sender_octet_count)[3]);
    assert(b[at] == sb[0]);
    wire::lemma_be32_roundtrip(s.ssrc.0, b, at);
    wire::lemma_be64_roundtrip(s.ntp_time, b, at + 4);
    wire::lemma_be32_roundtrip(s.rtp_time, b, at + 12);
    wire::lemma_be32_roundtrip(s.sender_packet_count, b, at + 16);
    wire::lemma_be32_roundtrip(s.sender_octet_count, b, at + 20);
}

/// A sender-report packet: sender statistics plus a bounded list of
/// reception reports. It always carries the statistics, so it never becomes
/// empty during merging.
#[derive(Clone, Debug, PartialEq, Eq)]
pub struct SenderReport {
    pub sender_info: SenderInfo,
    pub reports: ReportList<ReceptionReport>,
}

impl SenderReport {
    pub open spec fn wf(&self) -> bool {
        self.reports.wf()
    }

    /// Packet length in words: header, six words of sender statistics, and
    /// six per report.
    pub open spec fn spec_length_words(&self) -> int {
        7 + total_words(self.reports@)
    }

    pub open spec fn spec_header(&self) -> RtcpHeader {
        RtcpHeader {
            version: 2,
            has_padding: false,
            count_or_subtype: self.reports@.len() as u8,
            rtcp_type: RtcpType::SenderReport,
            length_field: (self.spec_length_words() - 1) as u16,
        }
    }

    /// The exact serialization: header, sender statistics, then the reports.
    pub open spec fn spec_bytes(&self) -> Seq<u8> {
        self.spec_header().spec_bytes() + self.sender_info.spec_bytes() + bytes_of_items(
            self.reports@,
        )
    }

    pub fn header(&self) -> (h: RtcpHeader)
        requires
            self.wf(),
        ensures
            h == self.spec_header(),
            h.wf(),
    {
        proof {
            lemma_total_words_bound(self.reports@);
        }
        let words = self.reports.words();
        RtcpHeader {
            version: 2,
            has_padding: false,
            count_or_subtype: self.reports.len() as u8,
            rtcp_type: RtcpType::SenderReport,
            length_field: (6 + words) as u16,
        }
    }

    pub fn length_words(&self) -> (r: usize)
        requires
            self.wf(),
        ensures
            r == self.spec_length_words(),
            1 <= r <= 0x10000,
    {
        proof {
            lemma_total_words_bound(self.reports@);
        }
        7 + self.reports.words()
    }

    /// Serialize at `at`, touching exactly the packet's own bytes.
    pub fn write_to(&self, buf: &mut Vec<u8>, at: usize) -> (n: usize)
        requires
            self.wf(),
            at + 4 * self.spec_length_words() <= old(buf).len(),
        ensures
            n == 4 * self.spec_length_words(),
            final(buf).len() == old(buf).len(),
            final(buf)@.subrange(at as int, at as int + n) == self.spec_bytes(),
            forall|k: int|
                0 <= k < old(buf).len() && !(at <= k < at + 4 * self.spec_length_words())
                    ==> final(buf)@[k] == old(buf)@[k],
    {
        proof {
            lemma_total_words_bound(self.reports@);
            lemma_bytes_of_items_len(self.reports@);
        }
        let h = self.header();
        h.write(buf, at);
        proof {
            assert(buf@.subrange(at as int, at as int + 4) =~= self.spec_header().spec_bytes());
        }
        let ghost after_header = buf@;
        self.sender_info.write_at(buf, at + 4);
        proof {
            assert(buf@.subrange(at as int, at as int + 4) =~= after_header.subrange(
                at as int,
                at as int + 4,
            ));
            assert(buf@.subrange(at as int, at as int + 28) =~= buf@.subrange(
                at as int,
                at as int + 4,
            ) + buf@.subrange(at as int + 4, at as int + 28));
        }
        let ghost after_info = buf@;
        let n = self.reports.write_all(buf, at + 28);
        proof {
            assert(buf@.subrange(at as int, at as int + 28) =~= after_info.subrange(
                at as int,
                at as int + 28,
            ));
            assert(buf@.subrange(at as int, at as int + 28 + n) =~= buf@.subrange(
                at as int,
                at as int + 28,
            ) + buf@.subrange(at as int + 28, at as int + 28 + n));
            assert(buf@.subrange(at as int, at as int + 28 + n) =~= self.spec_bytes());
        }
        28 + n
    }

    /// Decode a sender report from the body bytes `[at, end)`: the sender
    /// statistics, then one reception report per whole 24-byte block, at
    /// most 31. Fails exactly when the body cannot hold the statistics.
    pub fn decode(buf: &[u8], at: usize, end: usize) -> (r: Option<SenderReport>)
        requires
            at <= end <= buf.len(),
        ensures
            r is Some <==> end - at >= 24,
            r is Some ==> {
                let sr = r->0;
                &&& sr.wf()
                &&& sr.sender_info == SenderInfo::spec_parse(buf@, at as int)
                &&& sr.reports@.len() == crate::min_int((end - at - 24) as int / 24, 31)
                &&& forall|i: int|
                    0 <= i < sr.reports@.len() ==> sr.reports@[i] == ReceptionReport::spec_parse(
                        buf@,
                        at + 24 + 24 * i,
                    )
            },
    {
        if end - at < 24 {
            return None;
        }
        let sender_info = SenderInfo::parse_at(buf, at);
        let total = (end - at - 24) / 24;
        let n: usize = if total > 31 {
            31
        } else {
            total
        };
        let mut reports: ReportList<ReceptionReport> = ReportList::new();
        let mut i: usize = 0;
        while i < n
            invariant
                n <= 31,
                24 + 24 * n <= end - at,
                at <= end <= buf.len(),
                i <= n,
                reports.wf(),
                reports@.len() == i,
                forall|j: int|
                    0 <= j < i ==> reports@[j] == ReceptionReport::spec_parse(
                        buf@,
                        at + 24 + 24 * j,
                    ),
            decreases n - i,
        {
            let rep = ReceptionReport::parse_at(buf, at + 24 + 24 * i);
            let ok = reports.append(rep);
            assert(ok);
            i = i + 1;
        }
        Some(SenderReport { sender_info, reports })
    }
}

} // verus!
