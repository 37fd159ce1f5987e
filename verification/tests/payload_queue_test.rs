use bytes::Bytes;
use rtc_sctp::chunk::{ChunkPayloadData, GapAckBlock, MessageReliability};
use rtc_sctp::queue::message_tsns::MessageTsns;
use rtc_sctp::queue::payload_queue::PayloadQueue;
use rtc_sctp::serial::{sna16lt, sna32lt, sna32lte};

fn whole(tsn: u32, text: &'static [u8]) -> ChunkPayloadData {
    ChunkPayloadData {
        beginning_fragment: true,
        ending_fragment: true,
        tsn,
        user_data: Bytes::from_static(text),
        ..Default::default()
    }
}

fn part(tsn: u32, id: u64) -> ChunkPayloadData {
    ChunkPayloadData {
        beginning_fragment: false,
        ending_fragment: false,
        message_id: Some(id),
        reliability: MessageReliability::Timed(100),
        ..whole(tsn, b"part")
    }
}

#[test]
fn serial_order_wraps_around() {
    assert!(sna32lt(1, 2));
    assert!(!sna32lt(2, 1));
    assert!(sna32lt(u32::MAX, 0));
    assert!(!sna32lt(0, u32::MAX));
    assert!(!sna32lt(5, 5));
    assert!(sna32lte(5, 5));
    // Half a circle apart: neither comes first.
    assert!(!sna32lt(0, 0x8000_0000));
    assert!(!sna32lt(0x8000_0000, 0));
    assert!(sna32lt(0, 0x7fff_ffff));
    assert!(sna16lt(65535, 0));
    assert!(!sna16lt(0, 0x8000));
}

#[test]
fn pushed_chunk_is_read_back_and_pushed_once() {
    let mut q = PayloadQueue::new();
    assert!(q.is_empty());
    assert!(q.can_push(&whole(3, b"abc"), 1));
    assert!(q.push(whole(3, b"abc"), 1));
    assert!(!q.can_push(&whole(3, b"abc"), 1));
    assert!(!q.can_push(&whole(1, b"abc"), 1));
    assert_eq!(q.get(3).unwrap().user_data, Bytes::from_static(b"abc"));
    assert!(q.get(2).is_none());
    assert_eq!(q.len(), 1);
    assert_eq!(q.get_num_bytes(), 3);
    // In the queue already, and covered by the cumulative TSN.
    assert!(!q.push(whole(3, b"x"), 1));
    assert!(!q.push(whole(1, b"x"), 1));
    assert!(!q.push(whole(0, b"x"), 1));
    assert_eq!(q.get_num_bytes(), 3);
    assert_eq!(q.pop_duplicates(), vec![3, 1, 0]);
    assert_eq!(q.pop_duplicates(), Vec::<u32>::new());
}

#[test]
fn chunks_leave_in_serial_order() {
    let mut q = PayloadQueue::default();
    for tsn in [0, u32::MAX, 1, u32::MAX - 1] {
        assert!(q.push(whole(tsn, b"ab"), u32::MAX - 5));
    }
    assert_eq!(q.get_last_tsn_received(), Some(&1));
    assert_eq!(q.get_num_bytes(), 8);
    assert!(q.pop(u32::MAX).is_none());
    for tsn in [u32::MAX - 1, u32::MAX, 0, 1] {
        assert_eq!(q.pop(tsn).unwrap().tsn, tsn);
        assert!(q.get(tsn).is_none());
    }
    assert!(q.pop(1).is_none());
    assert_eq!(q.get_num_bytes(), 0);
    assert!(q.is_empty());
    assert!(q.get_last_tsn_received().is_none());
}

#[test]
fn message_index_lists_the_retained_fragments() {
    let mut q = PayloadQueue::new();
    for tsn in [u32::MAX, 1, 0, u32::MAX - 1] {
        q.push_no_check(part(tsn, 7));
    }
    q.push_no_check(part(2, 8));
    // A whole message and a reliable one have no group.
    q.push_no_check(ChunkPayloadData {
        ending_fragment: true,
        beginning_fragment: true,
        ..part(3, 7)
    });
    q.push_no_check(ChunkPayloadData {
        reliability: MessageReliability::Reliable,
        ..part(4, 7)
    });
    assert_eq!(q.message_tsns(7), vec![u32::MAX - 1, u32::MAX, 0, 1]);
    assert_eq!(q.message_tsns(8), vec![2]);
    assert_eq!(q.message_tsns(9), Vec::<u32>::new());
    assert!(q.pop(u32::MAX - 1).is_some());
    assert_eq!(q.message_tsns(7), vec![u32::MAX, 0, 1]);
    for tsn in [u32::MAX, 0, 1, 2] {
        assert!(q.pop(tsn).is_some());
    }
    assert_eq!(q.message_tsns(7), Vec::<u32>::new());
    assert_eq!(q.message_tsns(8), Vec::<u32>::new());
    assert_eq!(q.len(), 2);
}

#[test]
fn message_tsns_keep_their_order() {
    let mut one = MessageTsns::One(5);
    assert_eq!(one.to_vec(), vec![5]);
    assert!(one.pop(5));
    let mut tsns = MessageTsns::One(5);
    tsns.insert(4);
    assert_eq!(tsns.to_vec(), vec![4, 5]);
    tsns.insert(9);
    tsns.insert(7);
    tsns.insert(u32::MAX);
    assert_eq!(tsns.to_vec(), vec![u32::MAX, 4, 5, 7, 9]);
    for tsn in [u32::MAX, 4, 5, 7] {
        assert!(!tsns.pop(tsn));
    }
    assert!(tsns.pop(9));
    // Half a circle apart: the new one comes last.
    let mut tie = MessageTsns::One(0);
    tie.insert(0x8000_0000);
    assert_eq!(tie.to_vec(), vec![0, 0x8000_0000]);
}

#[test]
fn payload_is_released_once() {
    let mut q = PayloadQueue::new();
    q.push_no_check(whole(1, b"abcd"));
    q.push_no_check(whole(2, b"xy"));
    assert_eq!(q.release_payload(1), 4);
    assert_eq!(q.release_payload(1), 0);
    assert_eq!(q.release_payload(3), 0);
    assert_eq!(q.get_num_bytes(), 2);
    assert!(!q.get(1).unwrap().acknowledged);
    assert!(q.get(1).unwrap().user_data.is_empty());
    assert!(q.pop(1).is_some());
    assert_eq!(q.get_num_bytes(), 2);
}

#[test]
fn receipt_is_recorded_once() {
    let mut q = PayloadQueue::new();
    q.push_no_check(whole(1, b"abcd"));
    q.get_mut(1).unwrap().retransmit = true;
    assert!(q.acknowledge(1));
    assert!(!q.acknowledge(1));
    assert!(!q.acknowledge(2));
    let c = q.get(1).unwrap();
    assert!(c.acknowledged && !c.retransmit && !c.is_outstanding());
    assert_eq!(q.get_num_bytes(), 4);
}

#[test]
fn only_outstanding_chunks_are_marked() {
    let mut q = PayloadQueue::new();
    for tsn in 1..=4 {
        q.push_no_check(whole(tsn, b"a"));
    }
    assert!(q.acknowledge(2));
    q.get_mut(3).unwrap().abandoned = true;
    assert!(q.get_mut(9).is_none());
    q.mark_all_to_retrasmit();
    q.mark_all_to_retrasmit();
    let marked: Vec<bool> = (1..=4).map(|t| q.get(t).unwrap().retransmit).collect();
    assert_eq!(marked, vec![true, false, false, true]);
    assert!(q.get(3).unwrap().abandoned());
}

#[test]
fn gap_ack_blocks_are_the_runs() {
    let mut q = PayloadQueue::new();
    assert!(q.get_gap_ack_blocks(0).is_empty());
    assert_eq!(q.get_gap_ack_blocks_string(0), "cumTSN=0");
    for tsn in [12, 13, 15, 18, 19, 20] {
        assert!(q.push(whole(tsn, b"a"), 10));
    }
    let blocks = [(2, 3), (5, 5), (8, 10)];
    assert_eq!(
        q.get_gap_ack_blocks(10),
        blocks
            .iter()
            .map(|&(start, end)| GapAckBlock { start, end })
            .collect::<Vec<_>>()
    );
    assert_eq!(q.get_gap_ack_blocks_string(10), "cumTSN=10,2-3,5-5,8-10");
}

#[test]
fn gap_ack_blocks_report_truncated_distances() {
    let mut q = PayloadQueue::new();
    q.push_no_check(whole(4_000_000_000, b"a"));
    assert_eq!(
        q.get_gap_ack_blocks_string(4_000_000_000 - 65537),
        "cumTSN=3999934463,1-1"
    );
    // A TSN that is numerically smaller is reported as 0.
    assert_eq!(
        q.get_gap_ack_blocks(4_000_000_001),
        vec![GapAckBlock { start: 0, end: 0 }]
    );
    // The largest offset can be reported if it is the last.
    assert_eq!(
        q.get_gap_ack_blocks(4_000_000_000 - 65535),
        vec![GapAckBlock {
            start: 65535,
            end: 65535
        }]
    );
}

#[test]
fn next_tsn_is_the_oldest_and_later_ones_stay_newer() {
    let mut q = PayloadQueue::new();
    for tsn in [2, 0, 1] {
        assert!(q.push(whole(tsn, b"a"), u32::MAX));
    }
    for last in [u32::MAX, 0, 1] {
        let next = last.wrapping_add(1);
        assert_eq!(q.pop(next).unwrap().tsn, next);
        assert!(!q.push(whole(next, b"a"), next));
    }
    assert_eq!(q.pop_duplicates(), vec![0, 1, 2]);
}

#[test]
fn serial_order_is_kept_by_shifts_and_chains() {
    for n in [0, 1, 0x7fff_ffff, 0x8000_0000, u32::MAX] {
        let (a, b, c) = (7u32.wrapping_add(n), 9u32.wrapping_add(n), 1000u32.wrapping_add(n));
        assert!(sna32lt(a, b) && sna32lt(b, c) && sna32lt(a, c));
        assert!(!sna32lt(b, a) && !sna32lt(c, b) && !sna32lt(c, a));
    }
}

#[test]
fn order_of_pushes_is_immaterial() {
    let chunks = |order: [usize; 5]| {
        let all = [
            part(u32::MAX, 7),
            whole(0, b"abc"),
            part(1, 7),
            part(3, 8),
            part(4, 7),
        ];
        order.map(|i| all[i].clone())
    };
    let cum = u32::MAX - 1;
    let mut first = PayloadQueue::new();
    for c in chunks([0, 1, 2, 3, 4]) {
        assert!(first.push(c, cum));
    }
    for order in [[4, 3, 2, 1, 0], [2, 0, 4, 1, 3], [1, 4, 0, 3, 2]] {
        let mut q = PayloadQueue::new();
        for c in chunks(order) {
            assert!(q.push(c, cum));
        }
        assert_eq!(q.len(), first.len());
        assert_eq!(q.get_num_bytes(), first.get_num_bytes());
        assert_eq!(q.get_num_bytes(), 19);
        assert_eq!(q.get_last_tsn_received(), Some(&4));
        assert_eq!(q.get_gap_ack_blocks(cum), first.get_gap_ack_blocks(cum));
        assert_eq!(q.message_tsns(7), vec![u32::MAX, 1, 4]);
        assert_eq!(q.message_tsns(8), vec![3]);
        assert!(q.pop_duplicates().is_empty());
        for tsn in [u32::MAX, 0, 1, 3, 4] {
            assert_eq!(q.get(tsn).unwrap().user_data, first.get(tsn).unwrap().user_data);
        }
        for tsn in [u32::MAX, 0, 1, 3, 4] {
            assert_eq!(q.pop(tsn).unwrap().tsn, tsn);
        }
    }
}
