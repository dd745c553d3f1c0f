use arq::gobackn;
use arq::loss::{LossModel, LOSS_SCALE};
use arq::packet::{segment, Packet, PacketState, ReadError};
use arq::selective_repeat::{setup, silent_setup_loss, Reader, Sender};

const MAX_TICKS: u64 = 1_000_000;

fn sample_text() -> String {
    (0..200)
        .map(|i| format!("line {i}: the quick brown fox \u{2014} jumps over the lazy dog\n"))
        .collect()
}

fn setup_loss(window_size: u32, message: &str, loss: f64) -> (String, usize, usize) {
    let link = LossModel::new((loss * LOSS_SCALE as f64) as u32);
    let t = silent_setup_loss(window_size, message, &link, MAX_TICKS).unwrap();
    (t.message, t.packets_total, t.packets_send)
}

#[test]
fn test_selective_repeat_file() {
    let message_send = sample_text();
    let message_received = setup(5, &message_send).unwrap().message;
    assert_eq!(message_send, message_received);
    let message_received = setup(3, &message_send).unwrap().message;
    assert_eq!(message_send, message_received);
    let message_received = setup(1, &message_send).unwrap().message;
    assert_eq!(message_send, message_received);
}

#[test]
fn test_selective_repeat_file_loss() {
    let message_send = sample_text();
    let message_received = setup_loss(3, &message_send, 0.0).0;
    assert_eq!(message_send, message_received);
    let message_received = setup_loss(3, &message_send, 0.25).0;
    assert_eq!(message_send, message_received);
    let message_received = setup_loss(3, &message_send, 0.5).0;
    assert_eq!(message_send, message_received);
    let message_received = setup_loss(3, &message_send, 0.75).0;
    assert_eq!(message_send, message_received);
}

#[test]
fn test_selective_repeat_small() {
    let message_send = String::from("test");
    let message_received = setup(5, &message_send).unwrap().message;
    assert_eq!(message_send, message_received);
    let message_send = String::from("");
    let message_received = setup(5, &message_send).unwrap().message;
    assert_eq!(message_send, message_received);
    let message_send = String::from("test");
    let message_received = setup(1, &message_send).unwrap().message;
    assert_eq!(message_send, message_received);
    let message_send = String::from("");
    let message_received = setup(1, &message_send).unwrap().message;
    assert_eq!(message_send, message_received);
}

#[test]
fn selective_repeat_repeated_a_survives_loss() {
    let message = "A".repeat(1000);
    for loss in [0.0, 0.25, 0.5, 0.75] {
        let (received, _, _) = setup_loss(3, &message, loss);
        assert_eq!(received.len(), 1000);
        assert_eq!(received, message);
    }
}

#[test]
fn selective_repeat_sends_less_than_gobackn_under_loss() {
    let message = "A".repeat(1000);
    let link = LossModel::new(LOSS_SCALE / 2);
    let mut sr_sent = 0;
    let mut gbn_sent = 0;
    for _ in 0..30 {
        sr_sent += silent_setup_loss(3, &message, &link, MAX_TICKS).unwrap().packets_send;
        gbn_sent += gobackn::silent_setup_loss(3, &message, &link, 1_000_000).unwrap().packets_send;
    }
    assert!(sr_sent < gbn_sent, "selective repeat {sr_sent}, go-back-n {gbn_sent}");
}

#[test]
fn selective_repeat_lossless_efficiency_is_one() {
    let t = setup(3, &"A".repeat(1000)).unwrap();
    assert_eq!(t.packets_total, 4);
    assert_eq!(t.packets_send, 4);
    assert_eq!(t.packets_resent, 0);
}

#[test]
fn selective_repeat_lossy_efficiency_below_one() {
    let link = LossModel::new(LOSS_SCALE / 2);
    let t = silent_setup_loss(3, &"A".repeat(1000), &link, MAX_TICKS).unwrap();
    assert_eq!(t.packets_send, t.packets_total + t.packets_resent);
    if t.packets_resent > 0 {
        assert!(t.packets_total < t.packets_send);
    }
}

#[test]
fn selective_repeat_gives_up_after_the_tick_budget() {
    let link = LossModel::new(LOSS_SCALE);
    let err = silent_setup_loss(3, "hello", &link, 10).unwrap_err();
    assert_eq!(err, arq::packet::TransferError::Send(arq::packet::SendError::TransferTimeout));
}

#[test]
fn selective_repeat_sender_retransmits_only_overdue_packets() {
    let message = "A".repeat(1000);
    let mut sender = Sender::new(3, 5);
    sender.send(&message);
    assert_eq!(sender.window_end(), 3);
    sender.prepare_packets();
    let first: Vec<u32> = sender.transmit(0).iter().map(|p| p.number).collect();
    assert_eq!(first, vec![0, 1, 2]);
    assert!(sender.transmit(5).is_empty());
    sender.handle_ack(1);
    assert_eq!(sender.base(), 0);
    assert_eq!(sender.packets_ack(), 1);
    sender.handle_ack(1);
    assert_eq!(sender.packets_ack(), 1);
    let resent: Vec<u32> = sender.transmit(6).iter().map(|p| p.number).collect();
    assert_eq!(resent, vec![0, 2]);
    assert_eq!(sender.packets_send(), 5);
    assert_eq!(sender.packets_resent(), 2);
    sender.handle_ack(0);
    assert_eq!(sender.base(), 2);
    sender.prepare_packets();
    assert_eq!(sender.window_end(), 4);
    let next: Vec<u32> = sender.transmit(7).iter().map(|p| p.number).collect();
    assert_eq!(next, vec![3]);
    sender.handle_ack(2);
    sender.handle_ack(3);
    assert_eq!(sender.base(), 4);
    assert!(sender.is_done());
}

#[test]
fn selective_repeat_reader_buffers_and_delivers_in_order() {
    let bytes = vec![b'z'; 600];
    let mut reader = Reader::new(3);
    assert_eq!(reader.receive(segment(&bytes, 2)), Ok(Some(2)));
    assert_eq!(reader.expected_number(), 0);
    assert!(!reader.is_complete());
    assert_eq!(reader.receive(segment(&bytes, 1)), Ok(Some(1)));
    assert_eq!(reader.receive(segment(&bytes, 0)), Ok(Some(0)));
    assert_eq!(reader.expected_number(), 3);
    assert!(reader.is_complete());
    assert_eq!(reader.read().unwrap(), "z".repeat(600));
}

#[test]
fn selective_repeat_reader_reacks_duplicates_without_appending() {
    let bytes = vec![b'q'; 300];
    let mut reader = Reader::new(2);
    assert_eq!(reader.receive(segment(&bytes, 0)), Ok(Some(0)));
    assert_eq!(reader.receive(segment(&bytes, 0)), Ok(Some(0)));
    assert_eq!(reader.expected_number(), 1);
    assert!(!reader.is_complete());
    assert_eq!(reader.receive(segment(&bytes, 1)), Ok(Some(1)));
    assert_eq!(reader.receive(segment(&bytes, 1)), Ok(Some(1)));
    assert_eq!(reader.read().unwrap(), "q".repeat(300));
}

#[test]
fn selective_repeat_reader_drops_beyond_window() {
    let bytes = vec![b'w'; 2000];
    let mut reader = Reader::new(3);
    assert_eq!(reader.window_end(), 3);
    assert_eq!(reader.receive(segment(&bytes, 3)), Ok(None));
    assert_eq!(reader.receive(segment(&bytes, 5)), Ok(None));
    assert_eq!(reader.expected_number(), 0);
    assert_eq!(reader.receive(segment(&bytes, 0)), Ok(Some(0)));
    assert_eq!(reader.receive(segment(&bytes, 3)), Ok(Some(3)));
    assert_eq!(reader.expected_number(), 1);
}

#[test]
fn selective_repeat_reader_rejects_misplaced_begin() {
    let mut reader = Reader::new(4);
    let not_first = Packet { number: 0, data: vec![b'a'], state: PacketState::End };
    assert_eq!(reader.receive(not_first), Err(ReadError::ProtocolViolation));
    let late_begin = Packet { number: 2, data: vec![b'c'], state: PacketState::Begin };
    assert_eq!(reader.receive(late_begin), Err(ReadError::ProtocolViolation));
    assert_eq!(reader.expected_number(), 0);
    assert!(!reader.is_complete());
}
