use module_updater::engine::{OtaSession, RoundOutcome, WINDOW};
use module_updater::messages::{GatewayError, GatewayPacket, HostPacket, OtaStatus};

/// A loss-free remote module: acknowledges every block it receives and
/// confirms completion only once every block arrived.
struct FakeModule {
    block_count: u16,
    received: Vec<bool>,
    drop_once: Vec<u16>,
}

impl FakeModule {
    fn new(block_count: u16) -> FakeModule {
        FakeModule {
            block_count,
            received: vec![false; block_count as usize],
            drop_once: Vec::new(),
        }
    }

    fn missing(&self) -> Vec<u16> {
        (0..self.block_count)
            .filter(|i| !self.received[*i as usize])
            .collect()
    }

    fn respond(&mut self, packet: &HostPacket) -> GatewayPacket {
        match packet {
            HostPacket::OtaData(d) => {
                if let Some(pos) = self.drop_once.iter().position(|x| *x == d.index) {
                    self.drop_once.remove(pos);
                } else {
                    self.received[d.index as usize] = true;
                }
                let last_acked = (0..self.block_count)
                    .rev()
                    .find(|i| self.received[*i as usize])
                    .unwrap_or(0);
                GatewayPacket::OtaStatus(OtaStatus {
                    in_progress: true,
                    last_acked,
                    not_acked: self.missing().into_iter().filter(|i| *i < last_acked).collect(),
                })
            }
            HostPacket::OtaDoneRequest => {
                if self.missing().is_empty() {
                    GatewayPacket::OtaDoneAck
                } else {
                    GatewayPacket::OtaStatus(OtaStatus {
                        in_progress: true,
                        last_acked: 0,
                        not_acked: self.missing(),
                    })
                }
            }
            _ => GatewayPacket::OtaAbortAck,
        }
    }
}

fn run_transfer(session: &mut OtaSession, module: &mut FakeModule, max_rounds: u32) -> (bool, Vec<u16>) {
    let mut sent: Vec<u16> = Vec::new();
    for _ in 0..max_rounds {
        let packet = session.next_send();
        if let HostPacket::OtaData(d) = &packet {
            sent.push(d.index);
        }
        let response = module.respond(&packet);
        if session.process_response(Some(&response)) == RoundOutcome::Finished {
            return (true, sent);
        }
    }
    (false, sent)
}

#[test]
fn partition_of_130_bytes_into_64_byte_blocks() {
    let image: Vec<u8> = (0..130u32).map(|b| b as u8).collect();
    let session = OtaSession::new(image.clone(), 64).unwrap();
    assert_eq!(session.block_count, 3);
    assert_eq!(session.block_at(0).len(), 64);
    assert_eq!(session.block_at(1).len(), 64);
    assert_eq!(session.block_at(2).len(), 2);
    assert_eq!(session.block_at(0), image[0..64].to_vec());
    assert_eq!(session.block_at(1), image[64..128].to_vec());
    // The last block carries the image's final bytes, none dropped.
    assert_eq!(session.block_at(2), vec![128u8, 129]);
}

#[test]
fn transfer_completes_only_after_every_block_acknowledged() {
    let image: Vec<u8> = (0..130u32).map(|b| b as u8).collect();
    let mut session = OtaSession::new(image, 64).unwrap();
    let mut module = FakeModule::new(3);
    let (finished, sent) = run_transfer(&mut session, &mut module, 100);
    assert!(finished);
    for i in 0..3u16 {
        assert!(sent.contains(&i), "index {} never sent", i);
        assert!(module.received[i as usize], "index {} never received", i);
    }
}

#[test]
fn lost_block_is_retransmitted_until_acknowledged() {
    let image: Vec<u8> = (0..130u32).map(|b| b as u8).collect();
    let mut session = OtaSession::new(image, 64).unwrap();
    let mut module = FakeModule::new(3);
    module.drop_once.push(1);
    let (finished, sent) = run_transfer(&mut session, &mut module, 100);
    assert!(finished);
    assert!(sent.iter().filter(|i| **i == 1).count() >= 2);
    assert!(module.missing().is_empty());
}

#[test]
fn nacked_block_resent_before_new_data() {
    // Five one-byte blocks; the frontier stands at 4 with blocks 0..=3 sent.
    let image: Vec<u8> = vec![9, 8, 7, 6, 5];
    let mut session = OtaSession::new(image, 1).unwrap();
    for _ in 0..4 {
        session.next_send();
    }
    assert_eq!(session.highest_index, 4);
    // The module reports block 1 missing and block 2 as the last acked.
    session.apply_status(2, &vec![1]);
    assert_eq!(session.last_acked_index, 2);
    let first = session.next_send();
    match first {
        HostPacket::OtaData(d) => assert_eq!(d.index, 1),
        p => panic!("expected a data block, got {:?}", p),
    }
    let second = session.next_send();
    match second {
        HostPacket::OtaData(d) => assert_eq!(d.index, 4),
        p => panic!("expected a data block, got {:?}", p),
    }
}

#[test]
fn timeout_changes_nothing_and_the_send_is_retried() {
    let image: Vec<u8> = vec![0; 20];
    let mut session = OtaSession::new(image, 1).unwrap();
    // Fill the window: with nothing acknowledged the frontier parks at 13.
    for _ in 0..20 {
        session.next_send();
    }
    assert_eq!(session.highest_index, WINDOW + 1);
    let before = session.next_send();
    let outcome = session.process_response(None);
    assert_eq!(outcome, RoundOutcome::Retry);
    assert_eq!(session.highest_index, WINDOW + 1);
    let after = session.next_send();
    assert_eq!(before, after);
}

#[test]
fn frontier_never_outruns_acknowledgment_beyond_the_window() {
    let image: Vec<u8> = vec![0; 40];
    let mut session = OtaSession::new(image, 1).unwrap();
    for _ in 0..30 {
        session.next_send();
        session.process_response(None);
        assert!(
            session.highest_index as u32 <= session.last_acked_index as u32 + WINDOW as u32 + 1
        );
    }
    assert_eq!(session.highest_index, WINDOW + 1);
}

#[test]
fn applying_the_same_status_twice_changes_nothing_more() {
    let image: Vec<u8> = vec![0; 10];
    let mut session = OtaSession::new(image, 1).unwrap();
    for _ in 0..5 {
        session.next_send();
    }
    session.apply_status(3, &vec![1, 2]);
    let backlog = session.indexes_to_transmit.clone();
    let acked = session.last_acked_index;
    session.apply_status(3, &vec![1, 2]);
    assert_eq!(session.indexes_to_transmit, backlog);
    assert_eq!(session.last_acked_index, acked);
}

#[test]
fn status_merge_deduplicates_and_discards_invalid_indices() {
    let image: Vec<u8> = vec![0; 10];
    let mut session = OtaSession::new(image, 1).unwrap();
    session.apply_status(0, &vec![1, 1, 2, 99]);
    assert_eq!(session.indexes_to_transmit, vec![1, 2]);
    // A lower acknowledgment never moves the maximum back.
    session.apply_status(5, &vec![]);
    session.apply_status(4, &vec![]);
    assert_eq!(session.last_acked_index, 5);
}

#[test]
fn done_requested_exactly_when_everything_sent_and_no_backlog() {
    let image: Vec<u8> = vec![0; 2];
    let mut session = OtaSession::new(image, 1).unwrap();
    assert!(matches!(session.next_send(), HostPacket::OtaData(_)));
    assert!(matches!(session.next_send(), HostPacket::OtaData(_)));
    assert!(matches!(session.next_send(), HostPacket::OtaDoneRequest));
    // A reported loss reopens the transfer before another done request.
    session.apply_status(1, &vec![0]);
    match session.next_send() {
        HostPacket::OtaData(d) => assert_eq!(d.index, 0),
        p => panic!("expected a data block, got {:?}", p),
    }
    assert!(matches!(session.next_send(), HostPacket::OtaDoneRequest));
}

#[test]
fn response_classification() {
    let image: Vec<u8> = vec![0; 2];
    let mut session = OtaSession::new(image, 1).unwrap();
    assert_eq!(
        session.process_response(Some(&GatewayPacket::OtaDoneAck)),
        RoundOutcome::Finished
    );
    assert_eq!(
        session.process_response(Some(&GatewayPacket::PingResponse)),
        RoundOutcome::Retry
    );
    assert_eq!(session.process_response(None), RoundOutcome::Retry);
    let status = GatewayPacket::OtaStatus(OtaStatus {
        in_progress: false,
        last_acked: 1,
        not_acked: vec![],
    });
    assert_eq!(
        session.process_response(Some(&status)),
        RoundOutcome::Acknowledged
    );
    assert_eq!(session.last_acked_index, 1);
}

#[test]
fn init_request_carries_length_hash_and_partition() {
    let session = OtaSession::new(vec![97, 98, 99], 64).unwrap();
    let req = session.build_init_request(11);
    assert_eq!(req.destination_address, 11);
    assert_eq!(req.binary_size, 3);
    assert_eq!(req.block_size, 64);
    assert_eq!(req.block_count, 1);
    // SHA-256 of "abc", from FIPS 180-4's example values.
    let expected: [u8; 32] = [
        0xba, 0x78, 0x16, 0xbf, 0x8f, 0x01, 0xcf, 0xea, 0x41, 0x41, 0x40, 0xde, 0x5d, 0xae,
        0x22, 0x23, 0xb0, 0x03, 0x61, 0xa3, 0x96, 0x17, 0x7a, 0x9c, 0xb4, 0x10, 0xff, 0x61,
        0xf2, 0x00, 0x15, 0xad,
    ];
    assert_eq!(req.binary_sha256, expected);
}

#[test]
fn init_request_of_the_empty_image() {
    let session = OtaSession::new(Vec::new(), 64).unwrap();
    let req = session.build_init_request(0);
    assert_eq!(req.binary_size, 0);
    assert_eq!(req.block_count, 0);
    // SHA-256 of the empty input.
    let expected: [u8; 32] = [
        0xe3, 0xb0, 0xc4, 0x42, 0x98, 0xfc, 0x1c, 0x14, 0x9a, 0xfb, 0xf4, 0xc8, 0x99, 0x6f,
        0xb9, 0x24, 0x27, 0xae, 0x41, 0xe4, 0x64, 0x9b, 0x93, 0x4c, 0xa4, 0x95, 0x99, 0x1b,
        0x78, 0x52, 0xb8, 0x55,
    ];
    assert_eq!(req.binary_sha256, expected);
}

#[test]
fn session_rejects_an_image_with_too_many_blocks() {
    let image: Vec<u8> = vec![0; 65536];
    assert_eq!(
        OtaSession::new(image, 1).unwrap_err(),
        GatewayError::Overflow
    );
    // The same image with a larger block size fits the index space.
    let image: Vec<u8> = vec![0; 65536];
    let session = OtaSession::new(image, 64).unwrap();
    assert_eq!(session.block_count, 1024);
}
