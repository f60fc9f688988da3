use std::collections::VecDeque;

use rtcp::{
    ReceiverReport, ReceptionReport, ReportList, RtcpFb, SenderInfo, SenderReport, Ssrc,
};

fn sr(ssrc: u32, ntp_time: u64) -> RtcpFb {
    RtcpFb::SenderReport(SenderReport {
        sender_info: SenderInfo {
            ssrc: ssrc.into(),
            ntp_time,
            rtp_time: 4,
            sender_packet_count: 5,
            sender_octet_count: 6,
        },
        reports: ReportList::from_item(report(2)),
    })
}

fn rr(ssrc: u32) -> RtcpFb {
    RtcpFb::ReceiverReport(ReceiverReport {
        reports: ReportList::from_item(report(ssrc)),
    })
}

fn report(ssrc: u32) -> ReceptionReport {
    ReceptionReport {
        ssrc: ssrc.into(),
        fraction_lost: 3,
        packets_lost: 1234,
        max_seq: 4000,
        jitter: 5,
        last_sr_time: 12,
        last_sr_delay: 1,
    }
}

#[test]
fn pack_sr_4_rr() {
    let now: u64 = 0x0102_0304_0506_0708;
    let mut queue = VecDeque::new();
    queue.push_back(sr(1, now));
    queue.push_back(rr(3));
    queue.push_back(rr(4));
    queue.push_back(rr(5));

    RtcpFb::pack(&mut queue, 350);

    assert_eq!(queue.len(), 1);

    let sr = match queue.pop_front().unwrap() {
        RtcpFb::SenderReport(v) => v,
        _ => unreachable!(),
    };

    assert_eq!(sr.reports.len(), 4);
    assert_eq!(sr.reports.get(0), &report(2));
    assert_eq!(sr.reports.get(1), &report(3));
    assert_eq!(sr.reports.get(2), &report(4));
    assert_eq!(sr.reports.get(3), &report(5));
}

#[test]
fn pack_4_rr() {
    let mut queue = VecDeque::new();
    queue.push_back(rr(1));
    queue.push_back(rr(2));
    queue.push_back(rr(3));
    queue.push_back(rr(4));

    RtcpFb::pack(&mut queue, 350);

    assert_eq!(queue.len(), 1);

    let sr = match queue.pop_front().unwrap() {
        RtcpFb::ReceiverReport(v) => v,
        _ => unreachable!(),
    };

    assert_eq!(sr.reports.len(), 4);
    assert_eq!(sr.reports.get(0), &report(1));
    assert_eq!(sr.reports.get(1), &report(2));
    assert_eq!(sr.reports.get(2), &report(3));
    assert_eq!(sr.reports.get(3), &report(4));
}

#[test]
fn roundtrip_sr_rr() {
    let now: u64 = 0x0102_0304_0506_0708;
    let mut feedback = VecDeque::new();
    feedback.push_back(sr(1, now));
    feedback.push_back(rr(3));
    feedback.push_back(rr(4));
    feedback.push_back(rr(5));

    let mut buf = vec![0_u8; 1360];
    let n = RtcpFb::write_packet(&mut feedback, &mut buf, 16);
    buf.truncate(n);

    let parsed = RtcpFb::read_packet(&buf);

    let mut compare = VecDeque::new();
    compare.push_back(sr(1, now));
    compare.push_back(rr(3));
    compare.push_back(rr(4));
    compare.push_back(rr(5));
    RtcpFb::pack(&mut compare, 1400);

    assert_eq!(parsed, compare);
}

#[test]
fn pack_incompatible_kinds_stay_separate() {
    let mut queue = VecDeque::new();
    queue.push_back(rr(1));
    queue.push_back(RtcpFb::Goodbye(rtcp::Goodbye {
        reports: ReportList::from_item(Ssrc(7)),
    }));
    queue.push_back(rr(2));

    RtcpFb::pack(&mut queue, 350);

    // the two receiver reports merge across the goodbye; the goodbye remains
    assert_eq!(queue.len(), 2);
    match &queue[0] {
        RtcpFb::ReceiverReport(v) => {
            assert_eq!(v.reports.len(), 2);
            assert_eq!(v.reports.get(0), &report(1));
            assert_eq!(v.reports.get(1), &report(2));
        }
        _ => unreachable!(),
    }
    match &queue[1] {
        RtcpFb::Goodbye(g) => assert_eq!(g.reports.len(), 1),
        _ => unreachable!(),
    }
}

#[test]
fn pack_insufficient_capacity_leaves_queue_unmodified() {
    // a receiver report with one report is 7 words; give the pass less
    let mut queue = VecDeque::new();
    queue.push_back(rr(1));
    queue.push_back(rr(2));
    let before = queue.clone();

    RtcpFb::pack(&mut queue, 5);

    assert_eq!(queue, before);
}

#[test]
fn append_all_possible_respects_cap_and_budget() {
    // word budget of 3 moves only 3 one-word items
    let mut dst: ReportList<Ssrc> = ReportList::new();
    let mut src: ReportList<Ssrc> = ReportList::from_item(Ssrc(1));
    for k in 2..=5 {
        assert!(src.append(Ssrc(k)));
    }
    let moved = dst.append_all_possible(&mut src, 3);
    assert_eq!(moved, 3);
    assert_eq!(dst.len(), 3);
    assert_eq!(src.len(), 2);
    assert_eq!(dst.get(0), &Ssrc(1));
    assert_eq!(dst.get(1), &Ssrc(2));
    assert_eq!(dst.get(2), &Ssrc(3));
    assert_eq!(src.get(0), &Ssrc(4));

    // a full destination takes nothing, and a list never exceeds 31 items
    let mut full: ReportList<Ssrc> = ReportList::new();
    for k in 0..31 {
        assert!(full.append(Ssrc(k)));
    }
    assert!(!full.append(Ssrc(99)));
    assert!(full.is_full());
    let moved = full.append_all_possible(&mut src, 1000);
    assert_eq!(moved, 0);
    assert_eq!(full.len(), 31);
    assert_eq!(src.len(), 2);
}
