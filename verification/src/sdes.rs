//! Source descriptions: chunks of text items describing a source. Each chunk
//! is a source identifier, a run of (type, length, text) items, a zero
//! terminator, and zero padding up to the next word boundary.

use vstd::prelude::*;

use crate::header::{RtcpHeader, RtcpType};
use crate::list::{
    bytes_of_items, lemma_bytes_of_items_len, lemma_total_words_bound, total_words, ReportList,
    WordSized,
};
use crate::wire;
use crate::{spec_pad_bytes_to_word, Ssrc};

verus! {

/// The source-description item types, wire values 1 through 8.
#[derive(Clone, Copy, PartialEq, Eq, Structural, Debug)]
pub enum SdesType {
    Cname,
    Name,
    Email,
    Phone,
    Loc,
    Tool,
    Note,
    Priv,
}

impl SdesType {
    pub open spec fn spec_to_u8(self) -> u8 {
        match self {
            SdesType::Cname => 1,
            SdesType::Name => 2,
            SdesType::Email => 3,
            SdesType::Phone => 4,
            SdesType::Loc => 5,
            SdesType::Tool => 6,
            SdesType::Note => 7,
            SdesType::Priv => 8,
        }
    }

    pub fn to_u8(self) -> (r: u8)
        ensures
            r == self.spec_to_u8(),
    {
        match self {
            SdesType::Cname => 1,
            SdesType::Name => 2,
            SdesType::Email => 3,
            SdesType::Phone => 4,
            SdesType::Loc => 5,
            SdesType::Tool => 6,
            SdesType::Note => 7,
            SdesType::Priv => 8,
        }
    }

    pub open spec fn spec_from_u8(v: u8) -> Option<SdesType> {
        if v == 1 {
            Some(SdesType::Cname)
        } else if v == 2 {
            Some(SdesType::Name)
        } else if v == 3 {
            Some(SdesType::Email)
        } else if v == 4 {
            Some(SdesType::Phone)
        } else if v == 5 {
            Some(SdesType::Loc)
        } else if v == 6 {
            Some(SdesType::Tool)
        } else if v == 7 {
            Some(SdesType::Note)
        } else if v == 8 {
            Some(SdesType::Priv)
        } else {
            None
        }
    }

    pub fn from_u8(v: u8) -> (r: Option<SdesType>)
        ensures
            r == Self::spec_from_u8(v),
    {
        if v == 1 {
            Some(SdesType::Cname)
        } else if v == 2 {
            Some(SdesType::Name)
        } else if v == 3 {
            Some(SdesType::Email)
        } else if v == 4 {
            Some(SdesType::Phone)
        } else if v == 5 {
            Some(SdesType::Loc)
        } else if v == 6 {
            Some(SdesType::Tool)
        } else if v == 7 {
            Some(SdesType::Note)
        } else if v == 8 {
            Some(SdesType::Priv)
        } else {
            None
        }
    }
}

/// The wire form of one description item: type byte, length byte, text.
pub open spec fn item_bytes(v: (SdesType, Vec<u8>)) -> Seq<u8> {
    seq![v.0.spec_to_u8(), v.1@.len() as u8] + v.1@
}

/// The concatenated wire form of a chunk's items, in order.
pub open spec fn items_wire(vs: Seq<(SdesType, Vec<u8>)>) -> Seq<u8>
    decreases vs.len(),
{
    if vs.len() == 0 {
        Seq::<u8>::empty()
    } else {
        items_wire(vs.drop_last()) + item_bytes(vs.last())
    }
}

/// Each item contributes between 2 and 257 bytes.
pub proof fn lemma_items_wire_len(vs: Seq<(SdesType, Vec<u8>)>)
    requires
        forall|i: int| 0 <= i < vs.len() ==> (#[trigger] vs[i]).1@.len() <= 255,
    ensures
        2 * vs.len() <= items_wire(vs).len() <= 257 * vs.len(),
    decreases vs.len(),
{
    if vs.len() > 0 {
        assert(forall|i: int|
            0 <= i < vs.drop_last().len() ==> #[trigger] vs.drop_last()[i] == vs[i]);
        lemma_items_wire_len(vs.drop_last());
    }
}

/// A prefix of the items occupies no more wire bytes than all of them.
pub proof fn lemma_items_wire_take_le(vs: Seq<(SdesType, Vec<u8>)>, i: int)
    requires
        0 <= i <= vs.len(),
    ensures
        items_wire(vs.take(i)).len() <= items_wire(vs).len(),
    decreases vs.len() - i,
{
    if i == vs.len() {
        assert(vs.take(i) =~= vs);
    } else {
        lemma_items_wire_take_le(vs, i + 1);
        assert(vs.take(i + 1).drop_last() =~= vs.take(i));
        assert(vs.take(i + 1).last() == vs[i]);
        assert(items_wire(vs.take(i + 1)) == items_wire(vs.take(i)) + item_bytes(vs[i]));
    }
}

/// One source-description chunk: a source identifier and its text items.
#[derive(Clone, Debug, PartialEq, Eq)]
pub struct Sdes {
    pub ssrc: Ssrc,
    pub values: Vec<(SdesType, Vec<u8>)>,
}

impl Sdes {
    /// The padding needed after the items and terminator to reach the next
    /// word boundary.
    pub open spec fn spec_pad_len(&self) -> int {
        spec_pad_bytes_to_word(items_wire(self.values@).len() as int + 1) - (items_wire(
            self.values@,
        ).len() as int + 1)
    }
}

impl WordSized for Sdes {
    /// The chunk's items must fit the shared 2048-word item bound: at most
    /// 8186 bytes of items on the wire, each item's text within its one-byte
    /// length field.
    open spec fn wf(&self) -> bool {
        &&& items_wire(self.values@).len() <= 8186
        &&& forall|i: int| 0 <= i < self.values@.len() ==> (#[trigger] self.values@[i]).1@.len()
            <= 255
    }

    open spec fn spec_word_size(&self) -> int {
        1 + spec_pad_bytes_to_word(items_wire(self.values@).len() as int + 1) / 4
    }

    proof fn lemma_word_size_in_range(&self) {
        lemma_items_wire_len(self.values@);
    }

    fn word_size(&self) -> (r: usize) {
        proof {
            lemma_items_wire_len(self.values@);
        }
        let l = self.items_len();
        1 + crate::pad_bytes_to_word(l + 1) / 4
    }

    /// The chunk's bytes: source identifier, items, terminator, padding.
    open spec fn spec_bytes(&self) -> Seq<u8> {
        wire::be32(self.ssrc.0) + items_wire(self.values@) + seq![0u8] + Seq::<u8>::new(
            self.spec_pad_len() as nat,
            |i: int| 0u8,
        )
    }

    proof fn lemma_bytes_len(&self) {
        lemma_items_wire_len(self.values@);
    }

    fn write_at(&self, buf: &mut Vec<u8>, at: usize) {
        proof {
            self.lemma_bytes_len();
        }
        let chunk = self.encode();
        wire::write_bytes_at(buf, at, &chunk);
    }
}

impl Sdes {
    /// The total byte length of the items on the wire.
    fn items_len(&self) -> (r: usize)
        requires
            self.wf(),
        ensures
            r == items_wire(self.values@).len(),
            r <= 8186,
    {
        proof {
            assert(items_wire(self.values@.take(0)) =~= Seq::<u8>::empty());
        }
        let mut sum: usize = 0;
        let mut i: usize = 0;
        while i < self.values.len()
            invariant
                self.wf(),
                i <= self.values@.len(),
                sum == items_wire(self.values@.take(i as int)).len(),
                sum <= 8186,
            decreases self.values@.len() - i,
        {
            proof {
                let pre = self.values@.take(i as int);
                assert(self.values@.take(i as int + 1).drop_last() =~= pre);
                assert(self.values@.take(i as int + 1).last() == self.values@[i as int]);
                assert(self.values@[i as int].1@.len() <= 255);
                lemma_items_wire_take_le(self.values@, i as int + 1);
            }
            sum = sum + 2 + self.values[i].1.len();
            i = i + 1;
        }
        proof {
            assert(self.values@.take(self.values@.len() as int) =~= self.values@);
        }
        sum
    }

    /// Build the chunk's exact wire bytes.
    fn encode(&self) -> (out: Vec<u8>)
        requires
            self.wf(),
        ensures
            out@ == self.spec_bytes(),
    {
        proof {
            self.lemma_bytes_len();
        }
        let ghost target = self.spec_bytes();
        let mut out: Vec<u8> = Vec::new();
        out.push((self.ssrc.0 >> 24) as u8);
        out.push(((self.ssrc.0 >> 16) & 0xff) as u8);
        out.push(((self.ssrc.0 >> 8) & 0xff) as u8);
        out.push((self.ssrc.0 & 0xff) as u8);
        proof {
            assert(out@ =~= wire::be32(self.ssrc.0));
            assert(items_wire(self.values@.take(0)) =~= Seq::<u8>::empty());
            assert(out@ =~= wire::be32(self.ssrc.0) + items_wire(self.values@.take(0)));
        }
        let mut i: usize = 0;
        while i < self.values.len()
            invariant
                self.wf(),
                i <= self.values@.len(),
                out@ == wire::be32(self.ssrc.0) + items_wire(self.values@.take(i as int)),
            decreases self.values@.len() - i,
        {
            let ghost pre = self.values@.take(i as int);
            let ghost base = out@;
            proof {
                assert(self.values@.take(i as int + 1).drop_last() =~= pre);
                assert(self.values@.take(i as int + 1).last() == self.values@[i as int]);
                assert(self.values@[i as int].1@.len() <= 255);
            }
            let (t, text) = &self.values[i];
            out.push(t.to_u8());
            out.push(text.len() as u8);
            let mut j: usize = 0;
            while j < text.len()
                invariant
                    j <= text@.len(),
                    out@ == base + seq![t.spec_to_u8(), text@.len() as u8] + text@.take(j as int),
                decreases text@.len() - j,
            {
                out.push(text[j]);
                proof {
                    assert(text@.take(j as int + 1) =~= text@.take(j as int).push(text@[j as int]));
                    assert(out@ =~= base + seq![t.spec_to_u8(), text@.len() as u8] + text@.take(
                        j as int + 1,
                    ));
                }
                j = j + 1;
            }
            proof {
                assert(text@.take(text@.len() as int) =~= text@);
                assert(item_bytes(self.values@[i as int]) =~= seq![
                    t.spec_to_u8(),
                    text@.len() as u8,
                ] + text@);
                assert(out@ =~= wire::be32(self.ssrc.0) + items_wire(
                    self.values@.take(i as int + 1),
                ));
            }
            i = i + 1;
        }
        proof {
            assert(self.values@.take(self.values@.len() as int) =~= self.values@);
        }
        out.push(0u8);
        let ghost base_len: int = 4 + items_wire(self.values@).len() as int + 1;
        proof {
            assert(out@ =~= target.subrange(0, out@.len() as int));
            assert(target.len() == base_len + self.spec_pad_len());
            assert(0 <= self.spec_pad_len() < 4);
            assert(target.len() % 4 == 0);
        }
        while out.len() % 4 != 0
            invariant
                out@ == target.subrange(0, out@.len() as int),
                base_len <= out@.len() <= target.len(),
                base_len == 4 + items_wire(self.values@).len() + 1,
                target == self.spec_bytes(),
                target.len() == base_len + self.spec_pad_len(),
                0 <= self.spec_pad_len() < 4,
                target.len() % 4 == 0,
            decreases target.len() - out@.len(),
        {
            proof {
                assert(out@.len() < target.len());
                assert(target[out@.len() as int] == 0);
            }
            out.push(0u8);
            proof {
                assert(out@ =~= target.subrange(0, out@.len() as int));
            }
        }
        proof {
            assert(out@.len() == target.len()) by {
                assert(out@.len() % 4 == 0 && target.len() % 4 == 0);
                assert(target.len() - out@.len() < 4);
                assert((target.len() - out@.len()) % 4 == 0);
            }
            assert(out@ =~= target);
        }
        out
    }
}

/// A source-description packet: a bounded list of chunks. Its count field is
/// the number of chunks.
#[derive(Clone, Debug, PartialEq, Eq)]
pub struct Descriptions {
    pub reports: ReportList<Sdes>,
}

impl Descriptions {
    pub open spec fn wf(&self) -> bool {
        self.reports.wf()
    }

    /// Packet length in words: one header word plus each chunk's word size.
    pub open spec fn spec_length_words(&self) -> int {
        1 + total_words(self.reports@)
    }

    pub open spec fn spec_header(&self) -> RtcpHeader {
        RtcpHeader {
            version: 2,
            has_padding: false,
            count_or_subtype: self.reports@.len() as u8,
            rtcp_type: RtcpType::SourceDescription,
            length_field: (self.spec_length_words() - 1) as u16,
        }
    }

    /// The exact serialization: header, then the chunks in order.
    pub open spec fn spec_bytes(&self) -> Seq<u8> {
        self.spec_header().spec_bytes() + bytes_of_items(self.reports@)
    }

    pub fn header(&self) -> (h: RtcpHeader)
        requires
            self.wf(),
        ensures
            h == self.spec_header(),
            h.wf(),
    {
        proof {
            lemma_total_words_bound(self.reports@);
        }
        let words = self.reports.words();
        RtcpHeader {
            version: 2,
            has_padding: false,
            count_or_subtype: self.reports.len() as u8,
            rtcp_type: RtcpType::SourceDescription,
            length_field: words as u16,
        }
    }

    pub fn length_words(&self) -> (r: usize)
        requires
            self.wf(),
        ensures
            r == self.spec_length_words(),
            1 <= r <= 0x10000,
    {
        proof {
            lemma_total_words_bound(self.reports@);
        }
        1 + self.reports.words()
    }

    /// Serialize at `at`, touching exactly the packet's own bytes.
    pub fn write_to(&self, buf: &mut Vec<u8>, at: usize) -> (n: usize)
        requires
            self.wf(),
            at + 4 * self.spec_length_words() <= old(buf).len(),
        ensures
            n == 4 * self.spec_length_words(),
            final(buf).len() == old(buf).len(),
            final(buf)@.subrange(at as int, at as int + n) == self.spec_bytes(),
            forall|k: int|
                0 <= k < old(buf).len() && !(at <= k < at + 4 * self.spec_length_words())
                    ==> final(buf)@[k] == old(buf)@[k],
    {
        proof {
            lemma_total_words_bound(self.reports@);
            lemma_bytes_of_items_len(self.reports@);
        }
        let h = self.header();
        h.write(buf, at);
        proof {
            assert(buf@.subrange(at as int, at as int + 4) =~= self.spec_header().spec_bytes());
        }
        let ghost after_header = buf@;
        let n = self.reports.write_all(buf, at + 4);
        proof {
            assert(buf@.subrange(at as int, at as int + 4) =~= after_header.subrange(
                at as int,
                at as int + 4,
            ));
            assert(buf@.subrange(at as int, at as int + 4 + n) =~= buf@.subrange(
                at as int,
                at as int + 4,
            ) + buf@.subrange(at as int + 4, at as int + 4 + n));
        }
        4 + n
    }

    /// Decode source-description chunks from the body bytes `[at, end)`.
    /// An empty body holds zero chunks and succeeds; each chunk consumes at
    /// least two words. Fails on a truncated chunk, an unknown item type, a
    /// missing terminator, a chunk whose items exceed the 2048-word chunk
    /// bound, or more chunks than a bounded list holds.
    pub fn decode(buf: &[u8], at: usize, end: usize) -> (r: Option<Descriptions>)
        requires
            at <= end <= buf.len(),
        ensures
            r is Some ==> r->0.wf(),
            at == end ==> r is Some && r->0.reports@.len() == 0,
            r is Some ==> 8 * r->0.reports@.len() <= end - at,
    {
        let mut reports: ReportList<Sdes> = ReportList::new();
        let mut pos = at;
        while pos < end
            invariant
                at <= pos <= end <= buf.len(),
                reports.wf(),
                (pos - at) % 4 == 0,
                8 * reports@.len() <= pos - at,
            decreases end - pos,
        {
            if reports.is_full() {
                return None;
            }
            if end - pos < 4 {
                return None;
            }
            let ssrc = Ssrc(wire::read_u32_at(buf, pos));
            let mut p = pos + 4;
            let mut values: Vec<(SdesType, Vec<u8>)> = Vec::new();
            let mut ibytes: usize = 0;
            let mut terminated = false;
            while !terminated
                invariant
                    at <= pos,
                    pos + 4 <= p <= end <= buf.len(),
                    terminated ==> p >= pos + 5,
                    ibytes == items_wire(values@).len(),
                    ibytes <= 8186,
                    forall|i: int| 0 <= i < values@.len() ==> (#[trigger] values@[i]).1@.len()
                        <= 255,
                decreases end - p, 1int - (if terminated { 1int } else { 0int }),
            {
                if p >= end {
                    return None;
                }
                let t = buf[p];
                if t == 0 {
                    p = p + 1;
                    terminated = true;
                } else {
                    let st = match SdesType::from_u8(t) {
                        Some(v) => v,
                        None => {
                            return None;
                        },
                    };
                    if end - p < 2 {
                        return None;
                    }
                    let l = buf[p + 1] as usize;
                    if end - p - 2 < l {
                        return None;
                    }
                    if 8186 - ibytes < 2 + l {
                        return None;
                    }
                    let text = wire::read_bytes(buf, p + 2, l);
                    let ghost pre = values@;
                    values.push((st, text));
                    proof {
                        assert(values@.drop_last() =~= pre);
                        assert(items_wire(values@) == items_wire(pre) + item_bytes(
                            values@.last(),
                        ));
                    }
                    ibytes = ibytes + 2 + l;
                    p = p + 2 + l;
                }
            }
            let rel = (p - at) % 4;
            if rel != 0 {
                let pad = 4 - rel;
                if end - p < pad {
                    return None;
                }
                p = p + pad;
            }
            proof {
                assert(p >= pos + 5);
                assert((p - at) % 4 == 0);
                assert((p as int - pos as int) % 4 == 0);
                assert(p - pos >= 8);
            }
            let chunk = Sdes { ssrc, values };
            let ok = reports.append(chunk);
            assert(ok);
            pos = p;
        }
        Some(Descriptions { reports })
    }
}

} // verus!
