use provenance::domain::{BootState, ControlReplyPacket, DomainHandle, DomainStats, WaitError};

fn handle(n: usize) -> DomainHandle {
    DomainHandle::new(4, vec![true; n], (0..n).map(|i| format!("worker{}", i)).collect())
}

fn stats(t: u64) -> ControlReplyPacket {
    ControlReplyPacket::Statistics(DomainStats { total_time: t, total_ptime: t, wait_time: 0 }, vec![])
}

#[test]
fn acks_from_every_shard_succeed() {
    let h = handle(2);
    assert_eq!(h.shards(), 2);
    assert_eq!(h.assignment(1), "worker1");
    assert!(h.is_local(0));
    assert!(h.wait_for_ack(vec![ControlReplyPacket::Ack, ControlReplyPacket::Ack]).is_ok());
}

#[test]
fn wrong_reply_is_reported() {
    let h = handle(2);
    let r = h.wait_for_ack(vec![ControlReplyPacket::Ack, ControlReplyPacket::StateSize(3)]);
    assert!(matches!(r, Err(WaitError::WrongReply(ControlReplyPacket::StateSize(3)))));
}

#[test]
fn state_sizes_add_up() {
    let h = handle(3);
    let r = h.wait_for_state_size(vec![
        ControlReplyPacket::StateSize(3),
        ControlReplyPacket::StateSize(4),
        ControlReplyPacket::StateSize(5),
    ]);
    assert_eq!(r.unwrap(), 12);
    let r = h.wait_for_state_size(vec![ControlReplyPacket::StateSize(3), ControlReplyPacket::Ack, ControlReplyPacket::StateSize(5)]);
    assert!(matches!(r, Err(WaitError::WrongReply(ControlReplyPacket::Ack))));
}

#[test]
fn statistics_are_collected_in_order() {
    let h = handle(2);
    let r = h.wait_for_statistics(vec![stats(1), stats(2)]).unwrap();
    assert_eq!(r.len(), 2);
    assert_eq!(r[0].0.total_time, 1);
    assert_eq!(r[1].0.total_time, 2);
    assert!(h.wait_for_statistics(vec![stats(1), ControlReplyPacket::Ack]).is_err());
}

#[test]
fn boot_stops_once_every_shard_booted() {
    let mut b = BootState::new(4, 2);
    assert!(!b.on_booted(1, "10.0.0.1:9000".to_string()));
    assert!(b.on_booted(0, "10.0.0.2:9000".to_string()));
    assert_eq!(b.booted.len(), 2);
}

#[test]
fn boot_fails_on_another_reply() {
    let mut b = BootState::new(4, 2);
    assert!(matches!(b.on_reply(ControlReplyPacket::Booted(0, "a".to_string())), Ok(false)));
    assert!(matches!(b.on_reply(ControlReplyPacket::Ack), Err(WaitError::WrongReply(ControlReplyPacket::Ack))));
    assert_eq!(b.booted.len(), 1);
    assert!(matches!(b.on_reply(ControlReplyPacket::Booted(1, "b".to_string())), Ok(true)));
}
