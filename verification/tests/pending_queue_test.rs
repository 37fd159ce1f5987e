use bytes::Bytes;
use rtc_sctp::chunk::ChunkPayloadData;
use rtc_sctp::error::{Error, Result};
use rtc_sctp::queue::pending_queue::PendingQueue;

fn fragment(beginning: bool, ending: bool, unordered: bool) -> ChunkPayloadData {
    ChunkPayloadData {
        beginning_fragment: beginning,
        ending_fragment: ending,
        unordered,
        user_data: Bytes::from_static(b"data"),
        ..Default::default()
    }
}

#[test]
fn invalid_message_drain_preserves_fragments_and_accounting() {
    for unordered in [false, true] {
        for next_message in [false, true] {
            let mut queue = PendingQueue::new();
            queue.push(fragment(true, false, unordered));
            queue.push(fragment(false, false, unordered));
            if next_message {
                // Same SID/SSN: only the B bit distinguishes this message.
                queue.push(fragment(true, true, unordered));
            }
            let position = queue.front_position().unwrap();
            let (len, bytes) = (queue.len(), queue.get_num_bytes());
            assert!(queue.drain_message(position).is_err());
            assert_eq!(Some(position), queue.front_position());
            assert_eq!(len, queue.len());
            assert_eq!(bytes, queue.get_num_bytes());
            assert!(!queue.selected());
        }
    }
}

#[test]
fn missing_beginning_is_an_error_without_mutation() {
    let mut queue = PendingQueue::new();
    queue.push(fragment(false, true, false));
    let position = queue.front_position().unwrap();
    assert!(queue.drain_message(position).is_err());
    assert_eq!(Some(position), queue.front_position());
    assert_eq!(1, queue.len());
    assert_eq!(4, queue.get_num_bytes());
}

#[test]
fn draining_selected_tail_preserves_other_queue_and_is_idempotent() -> Result<()> {
    for unordered in [false, true] {
        let mut queue = PendingQueue::new();
        queue.push(fragment(true, false, unordered));
        queue.push(fragment(false, true, unordered));
        assert!(queue.pop(true, unordered).is_some());
        queue.push(fragment(true, true, !unordered));
        let position = queue.front_position().unwrap();
        assert_eq!(1, queue.drain_message(position)?.len());
        assert!(queue.drain_message(position)?.is_empty());
        assert!(!queue.selected());
        assert_eq!(1, queue.len());
        assert_eq!(4, queue.get_num_bytes());
        assert_eq!(!unordered, queue.peek().unwrap().unordered);
    }
    Ok(())
}

fn numbered(n: u16, beginning: bool, ending: bool, unordered: bool) -> ChunkPayloadData {
    ChunkPayloadData {
        stream_sequence_number: n,
        ..fragment(beginning, ending, unordered)
    }
}

fn other(text: &str) -> Error {
    Error::OtherSctpErr(text.to_string())
}

#[test]
fn each_invalid_message_has_its_error() {
    let mut queue = PendingQueue::new();
    queue.push(fragment(false, true, false));
    let position = queue.front_position().unwrap();
    assert_eq!(
        queue.drain_message(position).unwrap_err(),
        other("missing pending message beginning")
    );

    let mut queue = PendingQueue::new();
    queue.push(fragment(true, false, false));
    let position = queue.front_position().unwrap();
    assert_eq!(
        queue.drain_message(position).unwrap_err(),
        other("pending message has no ending fragment")
    );
    queue.push(numbered(1, false, true, false));
    assert_eq!(
        queue.drain_message(position).unwrap_err(),
        other("invalid pending message fragments")
    );

    for wrong in [
        ChunkPayloadData {
            stream_identifier: 1,
            ..fragment(false, true, true)
        },
        ChunkPayloadData {
            stream_generation: 1,
            ..fragment(false, true, true)
        },
        fragment(true, true, true),
    ] {
        let mut queue = PendingQueue::new();
        queue.push(fragment(true, false, true));
        queue.push(wrong);
        let position = queue.front_position().unwrap();
        assert_eq!(
            queue.drain_message(position).unwrap_err(),
            other("invalid pending message fragments")
        );
        assert_eq!(queue.len(), 2);
    }
}

#[test]
fn unordered_goes_first_but_not_into_a_begun_message() {
    let mut queue = PendingQueue::new();
    queue.push(numbered(1, true, false, false));
    queue.push(numbered(1, false, true, false));
    assert_eq!(queue.peek().unwrap().stream_sequence_number, 1);
    assert!(queue.pop(false, false).is_none());
    assert!(queue.pop(true, true).is_none());
    assert_eq!(queue.pop(true, false).unwrap().stream_sequence_number, 1);
    assert!(queue.selected());
    queue.push(numbered(2, true, true, true));
    assert_eq!(queue.peek().unwrap().stream_sequence_number, 1);
    // The rest of the message comes whatever is asked for.
    assert_eq!(queue.pop(false, true).unwrap().stream_sequence_number, 1);
    assert!(!queue.selected());
    queue.push(numbered(3, true, true, false));
    assert_eq!(queue.peek().unwrap().stream_sequence_number, 2);
    assert_eq!(queue.pop(true, true).unwrap().stream_sequence_number, 2);
    assert_eq!(queue.pop(true, false).unwrap().stream_sequence_number, 3);
    assert!(queue.is_empty());
    assert!(queue.peek().is_none());
    assert!(queue.front_position().is_none());
    assert_eq!(queue.get_num_bytes(), 0);
}

#[test]
fn draining_takes_what_popping_takes() {
    let build = || {
        let mut queue = PendingQueue::new();
        for i in 0..3u32 {
            queue.push(ChunkPayloadData {
                tsn: i,
                ..fragment(i == 0, i == 2, false)
            });
        }
        queue.push(ChunkPayloadData {
            tsn: 3,
            ..fragment(true, true, false)
        });
        queue
    };
    let mut drained = build();
    let position = drained.front_position().unwrap();
    let chunks = drained.drain_message(position).unwrap();
    let mut popped = build();
    let mut tsns = vec![];
    for _ in 0..3 {
        tsns.push(popped.pop(true, false).unwrap().tsn);
    }
    assert_eq!(tsns, chunks.iter().map(|c| c.tsn).collect::<Vec<_>>());
    assert_eq!(tsns, vec![0, 1, 2]);
    assert_eq!(drained.front_position(), popped.front_position());
    assert_ne!(drained.front_position(), Some(position));
    assert_eq!(drained.get_num_bytes(), popped.get_num_bytes());
    assert_eq!(drained.len(), 1);
    assert_eq!(popped.len(), 1);
}

#[test]
fn spent_position_takes_nothing_after_more_was_added() {
    let mut queue = PendingQueue::default();
    queue.push(fragment(true, true, true));
    let position = queue.front_position().unwrap();
    assert_eq!(queue.drain_message(position).unwrap().len(), 1);
    queue.push(fragment(true, true, true));
    assert!(queue.drain_message(position).unwrap().is_empty());
    assert_eq!(queue.len(), 1);
}

#[test]
fn clone_shares_the_payload() {
    let c = numbered(7, true, false, true);
    let d = c.clone();
    assert_eq!(d.stream_sequence_number, 7);
    assert_eq!(d.user_data, Bytes::from_static(b"data"));
    assert!(d.beginning_fragment && !d.ending_fragment && d.unordered);
}

#[test]
fn position_is_a_lane_and_a_number() {
    let build = |unordered: bool| {
        let mut queue = PendingQueue::new();
        queue.push(fragment(true, true, unordered));
        queue.push(fragment(true, true, unordered));
        queue
    };
    let mut a = build(false);
    let mut b = build(false);
    assert_eq!(a.front_position(), b.front_position());
    assert_ne!(a.front_position(), build(true).front_position());
    assert!(a.pop(true, false).is_some());
    assert_ne!(a.front_position(), b.front_position());
    assert!(b.pop(true, false).is_some());
    assert_eq!(a.front_position(), b.front_position());
}
