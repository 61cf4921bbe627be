use provenance::clock::TreeClock;
use provenance::ingress::Ingress;
use provenance::packet::{Packet, PacketId, Record};

fn message(from: usize, label: usize) -> Packet {
    Packet::Message {
        id: PacketId { from, label, provenance: TreeClock::new((from, 0), label) },
        data: vec![Record::Positive(vec![1, 2])],
    }
}

fn replay(from: usize, label: usize) -> Packet {
    Packet::ReplayPiece { id: PacketId { from, label, provenance: TreeClock::new((from, 0), label) }, data: vec![] }
}

#[test]
fn ingress_failover_resumes_after_last_label() {
    let mut i = Ingress::new();
    i.set_src(7);
    i.receive_packet(&message(7, 42));
    assert_eq!(i.new_incoming(7, 9), 43);
    assert_eq!(i.src(), 9);
    // the replacement takes over the old parent's last label
    i.receive_packet(&message(9, 43));
}

#[test]
fn ingress_failover_with_nothing_received_resumes_at_one() {
    let mut i = Ingress::new();
    i.set_src(7);
    assert_eq!(i.new_incoming(7, 9), 1);
    assert_eq!(i.src(), 9);
}

#[test]
fn ingress_accepts_rising_labels_and_a_replayed_repeat() {
    let mut i = Ingress::new();
    i.set_src(3);
    i.receive_packet(&message(3, 1));
    i.receive_packet(&message(3, 2));
    i.receive_packet(&replay(3, 2));
    i.receive_packet(&message(3, 5));
    i.receive_packet(&message(4, 1));
    assert_eq!(i.new_incoming(3, 8), 6);
}

#[test]
fn resumed_stream_matches_the_replaced_parent() {
    let mut a = Ingress::new();
    a.set_src(1);
    a.receive_packet(&message(1, 10));
    let mut b = Ingress::new();
    b.set_src(1);
    b.receive_packet(&message(1, 10));
    let next = b.new_incoming(1, 2);
    assert_eq!(next, 11);
    for l in next..next + 3 {
        a.receive_packet(&message(1, l));
        b.receive_packet(&message(2, l));
    }
    assert_eq!(a.new_incoming(1, 5), b.new_incoming(2, 5));
}

#[test]
fn packet_reports_identity_and_replay() {
    let m = message(3, 4);
    assert_eq!(m.id().from, 3);
    assert_eq!(m.id().label, 4);
    assert!(!m.is_replay());
    assert!(replay(3, 4).is_replay());
}

#[test]
fn accepts_tells_in_order_packets_apart() {
    let mut i = Ingress::new();
    i.set_src(3);
    assert!(i.accepts(&message(3, 5)));
    i.receive_packet(&message(3, 5));
    assert!(!i.accepts(&message(3, 5)));
    assert!(i.accepts(&replay(3, 5)));
    assert!(!i.accepts(&replay(3, 4)));
    assert!(i.accepts(&message(3, 6)));
}
