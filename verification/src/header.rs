//! The fixed 4-byte RTCP header: version, padding flag, 5-bit count (or
//! feedback subtype), packet type, and length in words minus one.

use vstd::prelude::*;

verus! {

/// The RTCP packet kinds this library recognizes in the 8-bit packet-type
/// field. Only the first four are decoded into full packets; the rest are
/// recognized and skipped.
#[derive(Clone, Copy, PartialEq, Eq, Structural, Debug)]
pub enum RtcpType {
    SenderReport,
    ReceiverReport,
    SourceDescription,
    Goodbye,
    ApplicationDefined,
    TransportLayerFeedback,
    PayloadSpecificFeedback,
    ExtendedReport,
}

impl RtcpType {
    /// The wire value of this packet type.
    pub open spec fn spec_to_u8(self) -> u8 {
        match self {
            RtcpType::SenderReport => 200,
            RtcpType::ReceiverReport => 201,
            RtcpType::SourceDescription => 202,
            RtcpType::Goodbye => 203,
            RtcpType::ApplicationDefined => 204,
            RtcpType::TransportLayerFeedback => 205,
            RtcpType::PayloadSpecificFeedback => 206,
            RtcpType::ExtendedReport => 207,
        }
    }

    pub fn to_u8(self) -> (r: u8)
        ensures
            r == self.spec_to_u8(),
    {
        match self {
            RtcpType::SenderReport => 200,
            RtcpType::ReceiverReport => 201,
            RtcpType::SourceDescription => 202,
            RtcpType::Goodbye => 203,
            RtcpType::ApplicationDefined => 204,
            RtcpType::TransportLayerFeedback => 205,
            RtcpType::PayloadSpecificFeedback => 206,
            RtcpType::ExtendedReport => 207,
        }
    }

    /// Which packet kind an 8-bit wire value denotes, if any.
    pub open spec fn spec_from_u8(v: u8) -> Option<RtcpType> {
        if v == 200 {
            Some(RtcpType::SenderReport)
        } else if v == 201 {
            Some(RtcpType::ReceiverReport)
        } else if v == 202 {
            Some(RtcpType::SourceDescription)
        } else if v == 203 {
            Some(RtcpType::Goodbye)
        } else if v == 204 {
            Some(RtcpType::ApplicationDefined)
        } else if v == 205 {
            Some(RtcpType::TransportLayerFeedback)
        } else if v == 206 {
            Some(RtcpType::PayloadSpecificFeedback)
        } else if v == 207 {
            Some(RtcpType::ExtendedReport)
        } else {
            None
        }
    }

    pub fn from_u8(v: u8) -> (r: Option<RtcpType>)
        ensures
            r == Self::spec_from_u8(v),
    {
        if v == 200 {
            Some(RtcpType::SenderReport)
        } else if v == 201 {
            Some(RtcpType::ReceiverReport)
        } else if v == 202 {
            Some(RtcpType::SourceDescription)
        } else if v == 203 {
            Some(RtcpType::Goodbye)
        } else if v == 204 {
            Some(RtcpType::ApplicationDefined)
        } else if v == 205 {
            Some(RtcpType::TransportLayerFeedback)
        } else if v == 206 {
            Some(RtcpType::PayloadSpecificFeedback)
        } else if v == 207 {
            Some(RtcpType::ExtendedReport)
        } else {
            None
        }
    }
}

/// The transport-layer feedback subtypes carried in the count field of a
/// transport-layer feedback header. Neither is decoded yet.
#[derive(Clone, Copy, PartialEq, Eq, Structural, Debug)]
pub enum TransportType {
    Nack,
    TransportWide,
}

/// The payload-specific feedback subtypes carried in the count field of a
/// payload-specific feedback header. None is decoded yet.
#[derive(Clone, Copy, PartialEq, Eq, Structural, Debug)]
pub enum PayloadType {
    PictureLossIndication,
    SliceLossIndication,
    ReferencePictureSelectionIndication,
    FullIntraRequest,
    ApplicationLayer,
}

/// What the 5-bit count field of a header means, given the packet type:
/// a report count for the report-bearing kinds, a feedback subtype for the
/// two feedback kinds, or an uninterpreted value.
#[derive(Clone, Copy, PartialEq, Eq, Structural, Debug)]
pub enum FeedbackMessageType {
    Count(u8),
    Subtype(u8),
    TransportFeedback(TransportType),
    PayloadFeedback(PayloadType),
    Unknown(u8),
}

/// A decoded RTCP header. `length_field` holds the wire value: the packet
/// length in 4-byte words, minus one.
#[derive(Clone, Copy, PartialEq, Eq, Structural, Debug)]
pub struct RtcpHeader {
    pub version: u8,
    pub has_padding: bool,
    pub count_or_subtype: u8,
    pub rtcp_type: RtcpType,
    pub length_field: u16,
}

impl RtcpHeader {
    /// A header is well formed when the version is the fixed protocol
    /// version 2 and the count fits its 5-bit field.
    pub open spec fn wf(self) -> bool {
        &&& self.version == 2
        &&& self.count_or_subtype < 32
    }

    /// The full packet length in words, header included.
    pub open spec fn spec_length_words(self) -> int {
        self.length_field + 1
    }

    pub fn length_words(&self) -> (r: usize)
        ensures
            r == self.spec_length_words(),
    {
        self.length_field as usize + 1
    }

    /// The raw 5-bit count field.
    pub fn count(&self) -> (r: u8)
        ensures
            r == self.count_or_subtype,
    {
        self.count_or_subtype
    }

    /// What the count field means, given the packet type.
    pub open spec fn spec_feedback_message_type(&self) -> FeedbackMessageType {
        match self.rtcp_type {
            RtcpType::SenderReport
            | RtcpType::ReceiverReport
            | RtcpType::SourceDescription
            | RtcpType::Goodbye => FeedbackMessageType::Count(self.count_or_subtype),
            RtcpType::ApplicationDefined => FeedbackMessageType::Subtype(self.count_or_subtype),
            RtcpType::TransportLayerFeedback => {
                if self.count_or_subtype == 1 {
                    FeedbackMessageType::TransportFeedback(TransportType::Nack)
                } else if self.count_or_subtype == 15 {
                    FeedbackMessageType::TransportFeedback(TransportType::TransportWide)
                } else {
                    FeedbackMessageType::Unknown(self.count_or_subtype)
                }
            },
            RtcpType::PayloadSpecificFeedback => {
                if self.count_or_subtype == 1 {
                    FeedbackMessageType::PayloadFeedback(PayloadType::PictureLossIndication)
                } else if self.count_or_subtype == 2 {
                    FeedbackMessageType::PayloadFeedback(PayloadType::SliceLossIndication)
                } else if self.count_or_subtype == 3 {
                    FeedbackMessageType::PayloadFeedback(
                        PayloadType::ReferencePictureSelectionIndication,
                    )
                } else if self.count_or_subtype == 4 {
                    FeedbackMessageType::PayloadFeedback(PayloadType::FullIntraRequest)
                } else if self.count_or_subtype == 15 {
                    FeedbackMessageType::PayloadFeedback(PayloadType::ApplicationLayer)
                } else {
                    FeedbackMessageType::Unknown(self.count_or_subtype)
                }
            },
            RtcpType::ExtendedReport => FeedbackMessageType::Unknown(self.count_or_subtype),
        }
    }

    /// The count field interpreted according to the packet type.
    pub fn feedback_message_type(&self) -> (r: FeedbackMessageType)
        ensures
            r == self.spec_feedback_message_type(),
    {
        match self.rtcp_type {
            RtcpType::SenderReport
            | RtcpType::ReceiverReport
            | RtcpType::SourceDescription
            | RtcpType::Goodbye => FeedbackMessageType::Count(self.count_or_subtype),
            RtcpType::ApplicationDefined => FeedbackMessageType::Subtype(self.count_or_subtype),
            RtcpType::TransportLayerFeedback => {
                if self.count_or_subtype == 1 {
                    FeedbackMessageType::TransportFeedback(TransportType::Nack)
                } else if self.count_or_subtype == 15 {
                    FeedbackMessageType::TransportFeedback(TransportType::TransportWide)
                } else {
                    FeedbackMessageType::Unknown(self.count_or_subtype)
                }
            },
            RtcpType::PayloadSpecificFeedback => {
                if self.count_or_subtype == 1 {
                    FeedbackMessageType::PayloadFeedback(PayloadType::PictureLossIndication)
                } else if self.count_or_subtype == 2 {
                    FeedbackMessageType::PayloadFeedback(PayloadType::SliceLossIndication)
                } else if self.count_or_subtype == 3 {
                    FeedbackMessageType::PayloadFeedback(
                        PayloadType::ReferencePictureSelectionIndication,
                    )
                } else if self.count_or_subtype == 4 {
                    FeedbackMessageType::PayloadFeedback(PayloadType::FullIntraRequest)
                } else if self.count_or_subtype == 15 {
                    FeedbackMessageType::PayloadFeedback(PayloadType::ApplicationLayer)
                } else {
                    FeedbackMessageType::Unknown(self.count_or_subtype)
                }
            },
            RtcpType::ExtendedReport => FeedbackMessageType::Unknown(self.count_or_subtype),
        }
    }

    /// The exact 4 bytes this header serializes to.
    pub open spec fn spec_bytes(self) -> Seq<u8> {
        seq![
            (((self.version & 3) << 6) | (if self.has_padding {
                0x20u8
            } else {
                0u8
            }) | (self.count_or_subtype & 0x1f)) as u8,
            self.rtcp_type.spec_to_u8(),
            (self.length_field >> 8) as u8,
            (self.length_field & 0xff) as u8,
        ]
    }

    /// What parsing 4 bytes at `at` yields: `None` on a short buffer, a
    /// version other than 2, or an unrecognized packet type.
    pub open spec fn spec_parse(b: Seq<u8>, at: int) -> Option<RtcpHeader> {
        if at < 0 || at + 4 > b.len() {
            None
        } else if b[at] >> 6 != 2 {
            None
        } else {
            match RtcpType::spec_from_u8(b[at + 1]) {
                Some(t) => Some(
                    RtcpHeader {
                        version: 2,
                        has_padding: b[at] & 0x20 != 0,
                        count_or_subtype: b[at] & 0x1f,
                        rtcp_type: t,
                        length_field: ((b[at + 2] as u16) << 8) | (b[at + 3] as u16),
                    },
                ),
                None => None,
            }
        }
    }

    /// Parse a header from `buf` starting at `at`. Succeeds exactly when
    /// `spec_parse` does, and returns exactly the header it describes.
    pub fn parse(buf: &[u8], at: usize) -> (r: Option<RtcpHeader>)
        ensures
            r == Self::spec_parse(buf@, at as int),
            r is Some ==> r->0.wf(),
    {
        if at >= buf.len() || buf.len() - at < 4 {
            return None;
        }
        let b0 = buf[at];
        if b0 >> 6 != 2 {
            return None;
        }
        let t = match RtcpType::from_u8(buf[at + 1]) {
            Some(t) => t,
            None => {
                return None;
            },
        };
        let h = RtcpHeader {
            version: 2,
            has_padding: b0 & 0x20 != 0,
            count_or_subtype: b0 & 0x1f,
            rtcp_type: t,
            length_field: ((buf[at + 2] as u16) << 8) | (buf[at + 3] as u16),
        };
        proof {
            assert(b0 & 0x1f < 32) by (bit_vector);
        }
        Some(h)
    }

    /// Serialize this header into `buf` at offset `at`, touching exactly
    /// those 4 bytes.
    pub fn write(&self, buf: &mut Vec<u8>, at: usize)
        requires
            self.wf(),
            at + 4 <= old(buf).len(),
        ensures
            final(buf).len() == old(buf).len(),
            final(buf)@.subrange(at as int, at as int + 4) == self.spec_bytes(),
            forall|i: int|
                0 <= i < old(buf).len() && !(at <= i < at + 4) ==> final(buf)@[i] == old(buf)@[i],
    {
        let b0: u8 = ((self.version & 3) << 6) | (if self.has_padding {
            0x20u8
        } else {
            0u8
        }) | (self.count_or_subtype & 0x1f);
        buf[at] = b0;
        buf[at + 1] = self.rtcp_type.to_u8();
        buf[at + 2] = (self.length_field >> 8) as u8;
        buf[at + 3] = (self.length_field & 0xff) as u8;
        proof {
            assert(buf@.subrange(at as int, at as int + 4) =~= self.spec_bytes());
        }
    }

    /// Round trip: parsing the bytes a well-formed header serializes to
    /// yields that header back.
    pub proof fn lemma_roundtrip(self, b: Seq<u8>, at: int)
        requires
            self.wf(),
            0 <= at,
            at + 4 <= b.len(),
            b.subrange(at, at + 4) == self.spec_bytes(),
        ensures
            Self::spec_parse(b, at) == Some(self),
    {
        assert(b[at] == self.spec_bytes()[0]);
        assert(b[at + 1] == self.spec_bytes()[1]);
        assert(b[at + 2] == self.spec_bytes()[2]);
        assert(b[at + 3] == self.spec_bytes()[3]);
        let v = self.version;
        let c = self.count_or_subtype;
        let p: u8 = if self.has_padding {
            0x20u8
        } else {
            0u8
        };
        let b0: u8 = ((v & 3) << 6) | p | (c & 0x1f);
        assert(b0 == ((v & 3) << 6) | p | (c & 0x1f) && v == 2 && c < 32 && (p == 0x20 || p == 0)
            ==> b0 >> 6 == 2 && (b0 & 0x20 == p) && b0 & 0x1f == c) by (bit_vector);
        let w = self.length_field;
        let hi: u8 = (w >> 8) as u8;
        let lo: u8 = (w & 0xff) as u8;
        assert((((w >> 8) as u8) as u16) << 8 | (((w & 0xff) as u8) as u16) == w) by (bit_vector);
        match self.rtcp_type {
            RtcpType::SenderReport => {},
            RtcpType::ReceiverReport => {},
            RtcpType::SourceDescription => {},
            RtcpType::Goodbye => {},
            RtcpType::ApplicationDefined => {},
            RtcpType::TransportLayerFeedback => {},
            RtcpType::PayloadSpecificFeedback => {},
            RtcpType::ExtendedReport => {},
        }
    }
}

} // verus!
