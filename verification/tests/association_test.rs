use bytes::Bytes;
use rtc_sctp::association::forward_tsn::{AckState, ChunkForwardTsn, ChunkForwardTsnStream};
use rtc_sctp::association::handshake::{AssociationState, ChunkInit};
use rtc_sctp::association::{create_association, create_association_with_mtu, initial_cwnd, Association};
use rtc_sctp::chunk::ChunkPayloadData;
use rtc_sctp::config::{max_payload_size_for_mtu, TransportConfig};
use rtc_sctp::error::{Error, Result};
use rtc_sctp::packet::{wire_size, CommonHeader, Packet, COMMON_HEADER_SIZE, DATA_CHUNK_HEADER_SIZE};

#[test]
fn test_create_forward_tsn_forward_one_abandoned() -> Result<()> {
    let mut a = Association::default();

    a.cumulative_tsn_ack_point = 9;
    a.advanced_peer_tsn_ack_point = 10;
    // tsn=10, ordered, si=1, ssn=2
    a.note_abandoned_for_forward_tsn(false, 1, 2);

    let fwdtsn = a.create_forward_tsn();

    assert_eq!(10, fwdtsn.new_cumulative_tsn, "should be able to serialize");
    assert_eq!(1, fwdtsn.streams.len(), "there should be one stream");
    assert_eq!(1, fwdtsn.streams[0].identifier, "si should be 1");
    assert_eq!(2, fwdtsn.streams[0].sequence, "ssn should be 2");

    Ok(())
}

#[test]
fn test_create_forward_tsn_forward_two_abandoned_with_the_same_si() -> Result<()> {
    let mut a = Association::default();

    a.cumulative_tsn_ack_point = 9;
    a.advanced_peer_tsn_ack_point = 12;
    a.note_abandoned_for_forward_tsn(false, 1, 2); // tsn=10
    a.note_abandoned_for_forward_tsn(false, 1, 3); // tsn=11 -> greatest SSN for si=1
    a.note_abandoned_for_forward_tsn(false, 2, 1); // tsn=12

    let fwdtsn = a.create_forward_tsn();

    assert_eq!(12, fwdtsn.new_cumulative_tsn, "should be able to serialize");
    assert_eq!(2, fwdtsn.streams.len(), "there should be two stream");

    let mut si1ok = false;
    let mut si2ok = false;
    for s in &fwdtsn.streams {
        match s.identifier {
            1 => {
                assert_eq!(3, s.sequence, "ssn should be 3");
                si1ok = true;
            }
            2 => {
                assert_eq!(1, s.sequence, "ssn should be 1");
                si2ok = true;
            }
            _ => assert!(false, "unexpected stream indentifier"),
        }
    }
    assert!(si1ok, "si=1 should be present");
    assert!(si2ok, "si=2 should be present");

    Ok(())
}

#[test]
fn test_create_forward_tsn_omits_unordered_streams() -> Result<()> {
    // Unordered chunks carry no meaningful stream-sequence-number: the receiver
    // advances unordered streams purely by `new_cumulative_tsn` and ignores the
    // per-stream list (see handle_forward_tsn), so create_forward_tsn must not
    // report them: only ordered streams contribute.
    let mut a = Association::default();

    a.cumulative_tsn_ack_point = 9;
    a.advanced_peer_tsn_ack_point = 11;
    a.note_abandoned_for_forward_tsn(true, 1, 5); // unordered -> omitted
    a.note_abandoned_for_forward_tsn(false, 2, 7); // ordered   -> reported

    let fwdtsn = a.create_forward_tsn();

    assert_eq!(11, fwdtsn.new_cumulative_tsn);
    assert_eq!(
        1,
        fwdtsn.streams.len(),
        "only the ordered stream is reported"
    );
    assert_eq!(2, fwdtsn.streams[0].identifier, "si should be 2");
    assert_eq!(7, fwdtsn.streams[0].sequence, "ssn should be 7");

    Ok(())
}

#[test]
fn test_handle_forward_tsn_forward_3unreceived_chunks() -> Result<()> {
    let mut a = Association::default();

    a.use_forward_tsn = true;
    let prev_tsn = a.peer_last_tsn;

    let fwdtsn = ChunkForwardTsn {
        new_cumulative_tsn: a.peer_last_tsn + 3,
        streams: vec![ChunkForwardTsnStream {
            identifier: 0,
            sequence: 0,
        }],
    };

    let p = a.handle_forward_tsn(&fwdtsn)?;

    let delayed_ack_triggered = a.delayed_ack_triggered;
    let immediate_ack_triggered = a.immediate_ack_triggered;
    assert_eq!(
        a.peer_last_tsn,
        prev_tsn + 3,
        "peerLastTSN should advance by 3 "
    );
    assert!(delayed_ack_triggered, "delayed sack should be triggered");
    assert!(
        !immediate_ack_triggered,
        "immediate sack should NOT be triggered"
    );
    assert!(p.is_empty(), "should return empty");

    Ok(())
}

#[test]
fn test_handle_forward_tsn_forward_1for1_missing() -> Result<()> {
    let mut a = Association::default();

    a.use_forward_tsn = true;
    let prev_tsn = a.peer_last_tsn;

    // this chunk is blocked by the missing chunk at tsn=1
    a.payload_queue.push(
        ChunkPayloadData {
            beginning_fragment: true,
            ending_fragment: true,
            tsn: a.peer_last_tsn + 2,
            stream_identifier: 0,
            stream_sequence_number: 1,
            user_data: Bytes::from_static(b"ABC"),
            ..Default::default()
        },
        a.peer_last_tsn,
    );

    let fwdtsn = ChunkForwardTsn {
        new_cumulative_tsn: a.peer_last_tsn + 1,
        streams: vec![ChunkForwardTsnStream {
            identifier: 0,
            sequence: 1,
        }],
    };

    let p = a.handle_forward_tsn(&fwdtsn)?;

    let delayed_ack_triggered = a.delayed_ack_triggered;
    let immediate_ack_triggered = a.immediate_ack_triggered;
    assert_eq!(
        a.peer_last_tsn,
        prev_tsn + 2,
        "peerLastTSN should advance by 2"
    );
    assert!(delayed_ack_triggered, "delayed sack should be triggered");
    assert!(
        !immediate_ack_triggered,
        "immediate sack should NOT be triggered"
    );
    assert!(p.is_empty(), "should return empty");

    Ok(())
}

#[test]
fn test_handle_forward_tsn_forward_1for2_missing() -> Result<()> {
    let mut a = Association::default();

    a.use_forward_tsn = true;
    let prev_tsn = a.peer_last_tsn;

    // this chunk is blocked by the missing chunk at tsn=1
    a.payload_queue.push(
        ChunkPayloadData {
            beginning_fragment: true,
            ending_fragment: true,
            tsn: a.peer_last_tsn + 3,
            stream_identifier: 0,
            stream_sequence_number: 1,
            user_data: Bytes::from_static(b"ABC"),
            ..Default::default()
        },
        a.peer_last_tsn,
    );

    let fwdtsn = ChunkForwardTsn {
        new_cumulative_tsn: a.peer_last_tsn + 1,
        streams: vec![ChunkForwardTsnStream {
            identifier: 0,
            sequence: 1,
        }],
    };

    let p = a.handle_forward_tsn(&fwdtsn)?;

    let immediate_ack_triggered = a.immediate_ack_triggered;
    assert_eq!(
        a.peer_last_tsn,
        prev_tsn + 1,
        "peerLastTSN should advance by 1"
    );
    assert!(
        immediate_ack_triggered,
        "immediate sack should be triggered"
    );
    assert!(p.is_empty(), "should return empty");

    Ok(())
}

#[test]
fn test_handle_forward_tsn_dup_forward_tsn_chunk_should_generate_sack() -> Result<()> {
    let mut a = Association::default();

    a.use_forward_tsn = true;
    let prev_tsn = a.peer_last_tsn;

    let fwdtsn = ChunkForwardTsn {
        new_cumulative_tsn: a.peer_last_tsn,
        streams: vec![ChunkForwardTsnStream {
            identifier: 0,
            sequence: 1,
        }],
    };

    let p = a.handle_forward_tsn(&fwdtsn)?;

    let ack_state = a.ack_state;
    assert_eq!(a.peer_last_tsn, prev_tsn, "peerLastTSN should not advance");
    assert_eq!(AckState::Immediate, ack_state, "sack should be requested");
    assert!(p.is_empty(), "should return empty");

    Ok(())
}

fn handle_init_test(name: &str, initial_state: AssociationState, expect_err: bool) {
    let mut a = create_association(TransportConfig::default());
    a.set_state(initial_state);
    let pkt = Packet {
        common_header: CommonHeader {
            source_port: 5001,
            destination_port: 5002,
            ..Default::default()
        },
        ..Default::default()
    };
    let mut init = ChunkInit {
        initial_tsn: 1234,
        num_outbound_streams: 1001,
        num_inbound_streams: 1002,
        initiate_tag: 5678,
        advertised_receiver_window_credit: 512 * 1024,
        ..Default::default()
    };
    init.set_supported_extensions();

    let result = a.handle_init(&pkt, &init);
    if expect_err {
        assert!(result.is_err(), "{} should fail", name);
        return;
    } else {
        assert!(result.is_ok(), "{} should be ok", name);
    }
    assert_eq!(
        if init.initial_tsn == 0 {
            u32::MAX
        } else {
            init.initial_tsn - 1
        },
        a.peer_last_tsn,
        "{} should match",
        name
    );
    assert_eq!(1001, a.my_max_num_outbound_streams, "{} should match", name);
    assert_eq!(1002, a.my_max_num_inbound_streams, "{} should match", name);
    assert_eq!(5678, a.peer_verification_tag, "{} should match", name);
    assert_eq!(
        pkt.common_header.source_port, a.destination_port,
        "{} should match",
        name
    );
    assert_eq!(
        pkt.common_header.destination_port, a.source_port,
        "{} should match",
        name
    );
    assert!(a.use_forward_tsn, "{} should be set to true", name);
}

// W3C `RTCSctpTransport.maxChannels` is the minimum of the negotiated inbound and outbound
// stream counts, and is null until the association is established. `handle_init` is where the
// negotiation happens: the peer's advertised counts narrow this endpoint's configured ones.
#[test]
fn test_assoc_negotiated_max_streams() -> Result<()> {
    let mut a = create_association(TransportConfig::default());

    // Before the handshake completes the two counts still hold the *configured* limits, which
    // were never agreed with anyone. Reporting them would overstate the association.
    assert!(a.is_handshaking());
    assert_eq!(
        None,
        a.negotiated_max_streams(),
        "a handshaking association has negotiated nothing yet"
    );

    a.set_state(AssociationState::Closed);
    let pkt = Packet {
        common_header: CommonHeader {
            source_port: 5001,
            destination_port: 5002,
            ..Default::default()
        },
        ..Default::default()
    };
    let mut init = ChunkInit {
        initial_tsn: 1234,
        num_outbound_streams: 1001,
        num_inbound_streams: 1002,
        initiate_tag: 5678,
        advertised_receiver_window_credit: 512 * 1024,
        ..Default::default()
    };
    init.set_supported_extensions();
    a.handle_init(&pkt, &init)?;

    // `handle_init` narrowed the counts to 1001 outbound / 1002 inbound (see
    // `handle_init_test`), but the handshake is still in flight.
    assert_eq!(
        None,
        a.negotiated_max_streams(),
        "still handshaking after INIT, so still nothing to report"
    );

    a.handshake_completed = true;
    assert_eq!(
        Some(1001),
        a.negotiated_max_streams(),
        "the smaller of 1001 outbound and 1002 inbound"
    );

    Ok(())
}

#[test]
fn test_assoc_handle_init() -> Result<()> {
    handle_init_test("normal", AssociationState::Closed, false);

    handle_init_test(
        "unexpected state established",
        AssociationState::Established,
        true,
    );

    handle_init_test(
        "unexpected state shutdownAckSent",
        AssociationState::ShutdownAckSent,
        true,
    );

    handle_init_test(
        "unexpected state shutdownPending",
        AssociationState::ShutdownPending,
        true,
    );

    handle_init_test(
        "unexpected state shutdownReceived",
        AssociationState::ShutdownReceived,
        true,
    );

    handle_init_test(
        "unexpected state shutdownSent",
        AssociationState::ShutdownSent,
        true,
    );

    Ok(())
}

fn payload_chunk(tsn: u32, len: usize) -> ChunkPayloadData {
    ChunkPayloadData {
        beginning_fragment: true,
        ending_fragment: true,
        tsn,
        stream_identifier: 0,
        stream_sequence_number: 0,
        user_data: Bytes::from(vec![0u8; len]),
        ..Default::default()
    }
}

#[test]
fn bundle_split_decides_on_padded_wire_sizes() {
    // Payloads of 1147 + 16 bytes pass a payload-only boundary check at
    // exactly an MTU of 1191, but the two chunks take
    // 12 + 1164 + 32 = 1208 bytes, past the MTU the association promised.
    let a = create_association_with_mtu(1191);
    let chunks = vec![payload_chunk(1, 1147), payload_chunk(2, 16)];
    let mut raw_packets = vec![];
    a.bundle_data_chunks_into_packets(chunks, &mut raw_packets);
    assert_eq!(
        raw_packets.len(),
        2,
        "a bundle that only fits unpadded must split"
    );
    for p in &raw_packets {
        assert!(
            p.len() as u32 <= a.mtu,
            "emitted packet is {} bytes, mtu is {}",
            p.len(),
            a.mtu
        );
    }
}

#[test]
fn single_maximum_size_chunk_marshals_within_a_custom_mtu() {
    // `max_payload_size_for_mtu(N)` derives a payload budget for which a
    // single maximum-size DATA chunk takes at most N bytes. Prove it on
    // packet sizes at the 32-byte floor (exactly the smallest
    // representable padded DATA packet), across
    // a 4-byte padding boundary (1201 emits 1200), and at a typical larger
    // path MTU (1500, fully used).
    for (mtu, expected) in [(32u32, 32usize), (1201, 1200), (1500, 1500)] {
        let max_payload = max_payload_size_for_mtu(mtu);
        let a =
            create_association_with_mtu(max_payload + COMMON_HEADER_SIZE + DATA_CHUNK_HEADER_SIZE);
        let chunks = vec![payload_chunk(1, max_payload as usize)];
        let mut raw_packets = vec![];
        a.bundle_data_chunks_into_packets(chunks, &mut raw_packets);
        assert_eq!(raw_packets.len(), 1);
        assert_eq!(
            raw_packets[0].len() as usize,
            expected,
            "a single maximum-size chunk under mtu({mtu})"
        );
    }
}

#[test]
fn initial_cwnd_is_computed_safely_for_non_default_mtus() {
    // RFC 4960 section 7.2.1:
    // cwnd = min(4*MTU, max(2*MTU, 4380)); for a small MTU that is 4*MTU.
    let a = create_association_with_mtu(100);
    assert_eq!(a.cwnd, 4 * a.mtu);

    // The effective-MTU reconstruction (`max_payload_size + 28`) must saturate
    // rather than overflow when the payload budget itself is near
    // `u32::MAX` (the helper above subtracts the headers first, so it
    // never exercises this addition's edge).
    let a = Association::new(&TransportConfig::default(), u32::MAX);
    assert_eq!(a.mtu, u32::MAX);
    assert_eq!(a.cwnd, u32::MAX);
}

#[test]
fn many_small_chunks_bundle_within_mtu() {
    // Per-chunk padding (17-byte payloads: 33 raw, 36 padded) compounds; a
    // payload-only accounting packed bundles well past the
    // MTU once dozens of small chunks rode one flight.
    let a = create_association_with_mtu(1191);
    let chunks: Vec<ChunkPayloadData> = (0..60).map(|i| payload_chunk(i, 17)).collect();
    let mut raw_packets = vec![];
    a.bundle_data_chunks_into_packets(chunks, &mut raw_packets);
    assert!(raw_packets.len() >= 2);
    let total: usize = raw_packets.iter().map(|p| p.len() as usize).sum();
    for p in &raw_packets {
        assert!(
            p.len() as u32 <= a.mtu,
            "emitted packet is {} bytes, mtu is {}",
            p.len(),
            a.mtu
        );
    }
    // Nothing was dropped: at least every chunk's unpadded wire size plus one
    // common header per emitted packet.
    let min_expected = 60 * (DATA_CHUNK_HEADER_SIZE as usize + 17)
        + raw_packets.len() * COMMON_HEADER_SIZE as usize;
    assert!(total >= min_expected);
}

#[test]
fn bundles_keep_the_order_and_take_as_much_as_fits() {
    let mut a = create_association_with_mtu(100);
    a.source_port = 1;
    a.destination_port = 2;
    a.peer_verification_tag = 3;
    // 12 + 44 + 44 = 100 fits exactly; the third goes into a second packet, and
    // the one that exceeds the MTU alone gets a packet of its own.
    let chunks = vec![
        payload_chunk(1, 28),
        payload_chunk(2, 25),
        payload_chunk(3, 0),
        payload_chunk(4, 200),
        payload_chunk(5, 1),
    ];
    let mut packets = vec![Packet::default()];
    a.bundle_data_chunks_into_packets(chunks, &mut packets);
    let tsns: Vec<Vec<u32>> = packets
        .iter()
        .map(|p| p.chunks.iter().map(|c| c.tsn).collect())
        .collect();
    assert_eq!(tsns, vec![vec![], vec![1, 2], vec![3], vec![4], vec![5]]);
    assert_eq!(packets[1].len(), 100);
    assert_eq!(packets[3].len(), 12 + 216);
    assert_eq!(
        packets[1].common_header,
        CommonHeader {
            source_port: 1,
            destination_port: 2,
            verification_tag: 3
        }
    );
    a.bundle_data_chunks_into_packets(vec![], &mut packets);
    assert_eq!(packets.len(), 5);
}

#[test]
fn initial_cwnd_formula() {
    assert_eq!(initial_cwnd(0), 0);
    assert_eq!(initial_cwnd(1000), 4000);
    assert_eq!(initial_cwnd(1095), 4380);
    assert_eq!(initial_cwnd(1500), 4380);
    assert_eq!(initial_cwnd(3000), 6000);
    assert_eq!(initial_cwnd(u32::MAX / 2), u32::MAX - 1);
}

#[test]
fn forward_tsn_needs_to_be_negotiated() {
    let mut a = Association::default();
    let fwdtsn = ChunkForwardTsn {
        new_cumulative_tsn: 3,
        streams: vec![],
    };
    let r = a.handle_forward_tsn(&fwdtsn);
    assert_eq!(
        r.unwrap_err(),
        Error::OtherSctpErr("FORWARD-TSN was not negotiated".to_string())
    );
    assert_eq!(a.peer_last_tsn, 0);
}

#[test]
fn forward_tsn_wraps_around_and_drops_what_it_passes() {
    let mut a = Association::default();
    a.use_forward_tsn = true;
    a.peer_last_tsn = u32::MAX - 2;
    for tsn in [u32::MAX, 1, 2, 4] {
        assert!(a.payload_queue.push(payload_chunk(tsn, 1), a.peer_last_tsn));
    }
    let fwdtsn = ChunkForwardTsn {
        new_cumulative_tsn: 0,
        streams: vec![],
    };
    assert!(a.handle_forward_tsn(&fwdtsn).unwrap().is_empty());
    // 1 and 2 were received, 3 was not.
    assert_eq!(a.peer_last_tsn, 2);
    assert_eq!(a.payload_queue.len(), 1);
    assert!(a.payload_queue.get(4).is_some());
    assert!(a.immediate_ack_triggered);
    assert!(!a.delayed_ack_triggered);
    // The same request again is a duplicate.
    a.immediate_ack_triggered = false;
    assert!(a.handle_forward_tsn(&fwdtsn).unwrap().is_empty());
    assert_eq!(a.peer_last_tsn, 2);
    assert_eq!(a.ack_state, AckState::Immediate);
    assert!(!a.immediate_ack_triggered);
}

#[test]
fn second_delayed_acknowledgment_is_immediate() {
    let mut a = Association::default();
    a.use_forward_tsn = true;
    a.ack_state = AckState::Delay;
    let fwdtsn = ChunkForwardTsn {
        new_cumulative_tsn: 1,
        streams: vec![],
    };
    assert!(a.handle_forward_tsn(&fwdtsn).unwrap().is_empty());
    assert!(a.immediate_ack_triggered);
    assert!(!a.delayed_ack_triggered);
}

#[test]
fn older_abandoned_message_does_not_replace_a_newer_one() {
    let mut a = Association::default();
    a.note_abandoned_for_forward_tsn(false, 1, 65535);
    a.note_abandoned_for_forward_tsn(false, 1, 0);
    assert_eq!(a.create_forward_tsn().streams[0].sequence, 0);
    a.note_abandoned_for_forward_tsn(false, 1, 65534);
    assert_eq!(a.create_forward_tsn().streams[0].sequence, 0);
    assert_eq!(a.create_forward_tsn().streams.len(), 1);
}

#[test]
fn init_takes_the_smaller_numbers_and_the_tsn_before_the_first() {
    let mut a = create_association(TransportConfig {
        max_num_outbound_streams: 10,
        max_num_inbound_streams: 20,
        ..Default::default()
    });
    let init = ChunkInit {
        initial_tsn: 0,
        num_outbound_streams: 30,
        num_inbound_streams: 15,
        ..Default::default()
    };
    a.set_state(AssociationState::CookieWait);
    a.handle_init(&Packet::default(), &init).unwrap();
    assert_eq!(a.my_max_num_outbound_streams, 10);
    assert_eq!(a.my_max_num_inbound_streams, 15);
    assert_eq!(a.peer_last_tsn, u32::MAX);
    assert!(!a.use_forward_tsn);
    a.set_state(AssociationState::Established);
    assert_eq!(
        a.handle_init(&Packet::default(), &init),
        Err(Error::ErrHandleInitState)
    );
    assert_eq!(a.state(), AssociationState::Established);
}

#[test]
fn association_keeps_the_configured_sizes() {
    let a = create_association(TransportConfig::default().with_max_message_size(65536));
    let b = create_association(TransportConfig::default().with_max_message_size(30000));
    assert_eq!(65536, a.max_message_size, "should match");
    assert_eq!(30000, b.max_message_size, "should match");
    assert_eq!(b.my_max_num_inbound_streams, u16::MAX);
    assert_eq!(a.max_payload_size, 1400);
    assert_eq!(a.mtu, 1428);
    for mtu in [28, 29, 100, 1094, 1095, 1191, 0x3fff_ffff] {
        let a = create_association_with_mtu(mtu);
        assert_eq!(a.mtu, mtu);
        assert_eq!(a.max_payload_size, mtu - 28);
        assert_eq!(a.cwnd, (4 * mtu).min((2 * mtu).max(4380)));
    }
    assert_eq!(
        Association::new(&TransportConfig::default(), u32::MAX).max_payload_size,
        u32::MAX
    );
}

#[test]
fn wire_sizes_are_padded_to_four_bytes() {
    for (payload, size) in [(0, 16), (1, 20), (4, 20), (16, 32), (17, 36), (1147, 1164)] {
        assert_eq!(wire_size(&payload_chunk(1, payload)), size);
    }
    let p = Packet {
        chunks: vec![payload_chunk(1, 1147), payload_chunk(2, 16)],
        ..Default::default()
    };
    assert_eq!(p.len(), 1208);
    assert_eq!(Packet::default().len(), 12);
}
