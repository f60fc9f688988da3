//! Goodbye packets: a bounded list of departing source identifiers.

use vstd::prelude::*;

use crate::header::{RtcpHeader, RtcpType};
use crate::list::{
    bytes_of_items, lemma_bytes_of_items_len, lemma_total_words_bound, total_words, ReportList,
    WordSized,
};
use crate::wire;
use crate::Ssrc;

verus! {

/// A goodbye packet: the sources leaving the session, one word each. An
/// optional trailing reason string is tolerated on decode and ignored.
#[derive(Clone, Debug, PartialEq, Eq)]
pub struct Goodbye {
    pub reports: ReportList<Ssrc>,
}

/// A prefix of source identifiers occupies one word apiece.
pub proof fn lemma_ssrcs_take_words(s: Seq<Ssrc>, i: int)
    requires
        0 <= i <= s.len(),
    ensures
        total_words(s.take(i)) == i,
    decreases i,
{
    if i == 0 {
        assert(s.take(0) =~= Seq::<Ssrc>::empty());
        assert(total_words(Seq::<Ssrc>::empty()) == 0);
    } else {
        lemma_ssrcs_take_words(s, i - 1);
        assert(s.take(i) =~= s.take(i - 1).push(s[i - 1]));
        crate::list::lemma_total_words_push(s.take(i - 1), s[i - 1]);
    }
}

/// Round trip for a whole goodbye packet: wherever the bytes a well-formed
/// goodbye serializes to stand in a buffer, parsing the header there yields
/// the packet's header back, and reading each word of the body yields the
/// packet's source identifiers back, in order.
pub proof fn lemma_goodbye_roundtrip(g: Goodbye, b: Seq<u8>, at: int)
    requires
        g.wf(),
        0 <= at,
        at + 4 * g.spec_length_words() <= b.len(),
        b.subrange(at, at + 4 * g.spec_length_words()) == g.spec_bytes(),
    ensures
        RtcpHeader::spec_parse(b, at) == Some(g.spec_header()),
        forall|i: int|
            0 <= i < g.reports@.len() ==> Ssrc(wire::spec_u32_at(b, at + 4 + 4 * i))
                == g.reports@[i],
{
    let n = 4 * g.spec_length_words();
    lemma_total_words_bound(g.reports@);
    lemma_bytes_of_items_len(g.reports@);
    assert forall|k: int| 0 <= k < n implies b[at + k] == g.spec_bytes()[k] by {
        assert(b.subrange(at, at + n)[k] == g.spec_bytes()[k]);
    }
    assert(b.subrange(at, at + 4) =~= g.spec_header().spec_bytes());
    g.spec_header().lemma_roundtrip(b, at);
    assert forall|i: int|
        0 <= i < g.reports@.len() implies Ssrc(wire::spec_u32_at(b, at + 4 + 4 * i))
        == g.reports@[i] by {
        lemma_ssrcs_take_words(g.reports@, i);
        lemma_ssrcs_take_words(g.reports@, i + 1);
        lemma_ssrcs_take_words(g.reports@, g.reports@.len() as int);
        assert(g.reports@.take(g.reports@.len() as int) =~= g.reports@);
        crate::list::lemma_bytes_of_items_index(g.reports@, i);
        let ab = bytes_of_items(g.reports@);
        let v = g.reports@[i].0;
        assert(ab.subrange(4 * i, 4 * i + 4) == wire::be32(v));
        assert forall|j: int| 0 <= j < 4 implies #[trigger] b[at + 4 + 4 * i + j] == wire::be32(
            v,
        )[j] by {
            assert(b[at + (4 + 4 * i + j)] == g.spec_bytes()[4 + 4 * i + j]);
            assert(g.spec_bytes()[4 + 4 * i + j] == ab[4 * i + j]);
            assert(ab.subrange(4 * i, 4 * i + 4)[j] == ab[4 * i + j]);
        }
        assert(b[at + 4 + 4 * i] == b[at + 4 + 4 * i + 0]);
        wire::lemma_be32_roundtrip(v, b, at + 4 + 4 * i);
    }
}

impl Goodbye {
    pub open spec fn wf(&self) -> bool {
        self.reports.wf()
    }

    /// Packet length in words: one header word plus one per source.
    pub open spec fn spec_length_words(&self) -> int {
        1 + total_words(self.reports@)
    }

    pub open spec fn spec_header(&self) -> RtcpHeader {
        RtcpHeader {
            version: 2,
            has_padding: false,
            count_or_subtype: self.reports@.len() as u8,
            rtcp_type: RtcpType::Goodbye,
            length_field: (self.spec_length_words() - 1) as u16,
        }
    }

    /// The exact serialization: header, then the source identifiers in
    /// order.
    pub open spec fn spec_bytes(&self) -> Seq<u8> {
        self.spec_header().spec_bytes() + bytes_of_items(self.reports@)
    }

    pub fn header(&self) -> (h: RtcpHeader)
        requires
            self.wf(),
        ensures
            h == self.spec_header(),
            h.wf(),
    {
        proof {
            lemma_total_words_bound(self.reports@);
        }
        let words = self.reports.words();
        RtcpHeader {
            version: 2,
            has_padding: false,
            count_or_subtype: self.reports.len() as u8,
            rtcp_type: RtcpType::Goodbye,
            length_field: words as u16,
        }
    }

    pub fn length_words(&self) -> (r: usize)
        requires
            self.wf(),
        ensures
            r == self.spec_length_words(),
            1 <= r <= 0x10000,
    {
        proof {
            lemma_total_words_bound(self.reports@);
        }
        1 + self.reports.words()
    }

    /// Serialize at `at`, touching exactly the packet's own bytes.
    pub fn write_to(&self, buf: &mut Vec<u8>, at: usize) -> (n: usize)
        requires
            self.wf(),
            at + 4 * self.spec_length_words() <= old(buf).len(),
        ensures
            n == 4 * self.spec_length_words(),
            final(buf).len() == old(buf).len(),
            final(buf)@.subrange(at as int, at as int + n) == self.spec_bytes(),
            forall|k: int|
                0 <= k < old(buf).len() && !(at <= k < at + 4 * self.spec_length_words())
                    ==> final(buf)@[k] == old(buf)@[k],
    {
        proof {
            lemma_total_words_bound(self.reports@);
            lemma_bytes_of_items_len(self.reports@);
        }
        let h = self.header();
        h.write(buf, at);
        proof {
            assert(buf@.subrange(at as int, at as int + 4) =~= self.spec_header().spec_bytes());
        }
        let ghost after_header = buf@;
        let n = self.reports.write_all(buf, at + 4);
        proof {
            assert(buf@.subrange(at as int, at as int + 4) =~= after_header.subrange(
                at as int,
                at as int + 4,
            ));
            assert(buf@.subrange(at as int, at as int + 4 + n) =~= buf@.subrange(
                at as int,
                at as int + 4,
            ) + buf@.subrange(at as int + 4, at as int + 4 + n));
        }
        4 + n
    }

    /// Decode a goodbye with `count` sources from the body bytes `[at, end)`.
    /// Fails exactly when the body is too short for `count` words; trailing
    /// bytes (a reason string) are ignored.
    pub fn decode(buf: &[u8], at: usize, end: usize, count: u8) -> (r: Option<Goodbye>)
        requires
            at <= end <= buf.len(),
            count < 32,
        ensures
            r is Some <==> end - at >= 4 * count,
            r is Some ==> {
                let g = r->0;
                &&& g.wf()
                &&& g.reports@.len() == count
                &&& forall|i: int|
                    0 <= i < count ==> g.reports@[i] == Ssrc(wire::spec_u32_at(buf@, at + 4 * i))
            },
    {
        let n = count as usize;
        if end - at < 4 * n {
            return None;
        }
        let mut reports: ReportList<Ssrc> = ReportList::new();
        let mut i: usize = 0;
        while i < n
            invariant
                n < 32,
                4 * n <= end - at,
                at <= end <= buf.len(),
                i <= n,
                reports.wf(),
                reports@.len() == i,
                forall|j: int|
                    0 <= j < i ==> reports@[j] == Ssrc(wire::spec_u32_at(buf@, at + 4 * j)),
            decreases n - i,
        {
            let ssrc = Ssrc(wire::read_u32_at(buf, at + 4 * i));
            let ok = reports.append(ssrc);
            assert(ok);
            i = i + 1;
        }
        Some(Goodbye { reports })
    }
}

} // verus!
