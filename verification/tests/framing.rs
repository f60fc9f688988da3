use std::collections::VecDeque;

use rtcp::{
    Descriptions, Goodbye, ReceiverReport, ReceptionReport, ReportList, RtcpFb, Sdes, SdesType,
    Ssrc,
};

fn one_report_rr() -> RtcpFb {
    RtcpFb::ReceiverReport(ReceiverReport {
        reports: ReportList::from_item(ReceptionReport {
            ssrc: Ssrc(9),
            fraction_lost: 1,
            packets_lost: 2,
            max_seq: 3,
            jitter: 4,
            last_sr_time: 5,
            last_sr_delay: 6,
        }),
    })
}

#[test]
fn padding_roundtrip_pad_16() {
    // one receiver report with one report is 28 bytes: not a multiple of 16
    let mut feedback = VecDeque::new();
    feedback.push_back(one_report_rr());

    let mut buf = vec![0_u8; 64];
    let n = RtcpFb::write_packet(&mut feedback, &mut buf, 16);

    assert_eq!(n, 32);
    // last byte holds the pad count
    assert_eq!(buf[31], 4);
    // the pad bytes before it are zero
    assert_eq!(buf[28], 0);
    assert_eq!(buf[29], 0);
    assert_eq!(buf[30], 0);
    // the padding bit is set on the (only) written packet
    assert_eq!(buf[0] & 0b00_1_00000, 0b00_1_00000);
    // the length field includes the padding: 8 words minus one
    assert_eq!(u16::from_be_bytes([buf[2], buf[3]]), 7);

    // re-parsing recovers the unpadded content exactly
    buf.truncate(n);
    let parsed = RtcpFb::read_packet(&buf);
    assert_eq!(parsed.len(), 1);
    assert_eq!(parsed[0], one_report_rr());
}

#[test]
fn receiver_report_exact_bytes() {
    let mut feedback = VecDeque::new();
    feedback.push_back(one_report_rr());

    let mut buf = vec![0_u8; 28];
    let n = RtcpFb::write_packet(&mut feedback, &mut buf, 4);

    assert_eq!(n, 28);
    let expected: Vec<u8> = vec![
        0x81, 201, 0, 6, // V=2, count 1, type RR, 7 words minus one
        0, 0, 0, 9, // report ssrc
        1, 0, 0, 2, // fraction lost, 24-bit packets lost
        0, 0, 0, 3, // highest sequence seen
        0, 0, 0, 4, // jitter
        0, 0, 0, 5, // last sender-report time
        0, 0, 0, 6, // last sender-report delay
    ];
    assert_eq!(buf, expected);
}

#[test]
fn goodbye_roundtrip() {
    let mut list = ReportList::from_item(Ssrc(0x01020304));
    assert!(list.append(Ssrc(0x0a0b0c0d)));
    let bye = RtcpFb::Goodbye(Goodbye { reports: list });

    let mut feedback = VecDeque::new();
    feedback.push_back(bye.clone());
    let mut buf = vec![0_u8; 64];
    let n = RtcpFb::write_packet(&mut feedback, &mut buf, 4);
    assert_eq!(n, 12);

    buf.truncate(n);
    let parsed = RtcpFb::read_packet(&buf);
    assert_eq!(parsed.len(), 1);
    assert_eq!(parsed[0], bye);
}

#[test]
fn source_description_roundtrip() {
    let chunk = Sdes {
        ssrc: Ssrc(77),
        values: vec![
            (SdesType::Cname, b"martin".to_vec()),
            (SdesType::Tool, b"tool".to_vec()),
        ],
    };
    let sdes = RtcpFb::SourceDescription(Descriptions {
        reports: ReportList::from_item(chunk),
    });

    let mut feedback = VecDeque::new();
    feedback.push_back(sdes.clone());
    let mut buf = vec![0_u8; 64];
    let n = RtcpFb::write_packet(&mut feedback, &mut buf, 4);
    assert!(n > 0);

    buf.truncate(n);
    let parsed = RtcpFb::read_packet(&buf);
    assert_eq!(parsed.len(), 1);
    assert_eq!(parsed[0], sdes);
}

#[test]
fn unsupported_kind_is_dropped_and_scan_continues() {
    // an application-defined packet (type 204, one word) followed by a
    // goodbye with one source
    let bytes: Vec<u8> = vec![
        0x80, 204, 0, 0, // unsupported kind, header only
        0x81, 203, 0, 1, 0, 0, 0, 5, // goodbye, one ssrc
    ];
    let parsed = RtcpFb::read_packet(&bytes);
    assert_eq!(parsed.len(), 1);
    match &parsed[0] {
        RtcpFb::Goodbye(g) => {
            assert_eq!(g.reports.len(), 1);
            assert_eq!(g.reports.get(0), &Ssrc(5));
        }
        _ => unreachable!(),
    }
}

#[test]
fn framing_errors_stop_the_scan() {
    // empty input
    assert_eq!(RtcpFb::read_packet(&[]).len(), 0);
    // truncated header
    assert_eq!(RtcpFb::read_packet(&[0x81, 203]).len(), 0);
    // wrong version
    assert_eq!(RtcpFb::read_packet(&[0x41, 203, 0, 0]).len(), 0);
    // unrecognized packet type
    assert_eq!(RtcpFb::read_packet(&[0x80, 99, 0, 0]).len(), 0);
    // length field larger than the buffer
    assert_eq!(RtcpFb::read_packet(&[0x81, 203, 0, 9, 0, 0, 0, 5]).len(), 0);
    // a goodbye whose count exceeds its body is dropped, not fatal
    assert_eq!(RtcpFb::read_packet(&[0x9f, 203, 0, 0]).len(), 0);
}

#[test]
fn write_packet_with_no_room_writes_nothing() {
    let mut feedback = VecDeque::new();
    feedback.push_back(one_report_rr());
    let before = feedback.clone();

    let mut buf = vec![0_u8; 16];
    let n = RtcpFb::write_packet(&mut feedback, &mut buf, 16);

    assert_eq!(n, 0);
    assert_eq!(feedback, before);
    assert_eq!(buf, vec![0_u8; 16]);
}

#[test]
fn write_packet_drains_what_fits_and_keeps_the_rest() {
    // two goodbyes of different sources do merge; use a goodbye and a
    // receiver report so both stay, then give room for only the first
    let bye = RtcpFb::Goodbye(Goodbye {
        reports: ReportList::from_item(Ssrc(1)),
    });
    let mut feedback = VecDeque::new();
    feedback.push_back(bye.clone());
    feedback.push_back(one_report_rr());

    let mut buf = vec![0_u8; 12];
    let n = RtcpFb::write_packet(&mut feedback, &mut buf, 4);

    assert_eq!(n, 8);
    assert_eq!(feedback.len(), 1);
    assert_eq!(feedback[0], one_report_rr());
}

#[test]
fn source_description_chunk_with_many_items_roundtrips() {
    // a wire-legal chunk may carry far more than 31 small items
    let mut values = Vec::new();
    for k in 0..40u8 {
        values.push((SdesType::Note, vec![b'a' + (k % 26)]));
    }
    let chunk = Sdes {
        ssrc: Ssrc(5),
        values,
    };
    let sdes = RtcpFb::SourceDescription(Descriptions {
        reports: ReportList::from_item(chunk),
    });

    let mut feedback = VecDeque::new();
    feedback.push_back(sdes.clone());
    let mut buf = vec![0_u8; 256];
    let n = RtcpFb::write_packet(&mut feedback, &mut buf, 4);
    assert_eq!(n, 132);

    buf.truncate(n);
    let parsed = RtcpFb::read_packet(&buf);
    assert_eq!(parsed.len(), 1);
    assert_eq!(parsed[0], sdes);
}
