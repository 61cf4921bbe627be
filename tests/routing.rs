use provenance::input::{BatchSendHandle, RouteError};
use provenance::packet::Record;

fn keys(rs: &[Record]) -> Vec<u64> {
    rs.iter()
        .map(|r| match r {
            Record::Positive(row) | Record::Negative(row) => row[1],
            Record::DeleteRequest(k) => k[0],
        })
        .collect()
}

#[test]
fn single_shard_takes_the_write_whole() {
    let mut h = BatchSendHandle::new(1);
    let out = h.enqueue(vec![Record::Positive(vec![1, 2]), Record::Negative(vec![3, 4])], &[]).unwrap();
    assert_eq!(out.len(), 1);
    assert_eq!(out[0].0, 0);
    assert_eq!(out[0].1.len(), 2);
    assert_eq!(h.wait(vec![Ok(17)]), Ok(17));
}

#[test]
fn records_go_to_the_shard_of_their_key() {
    let mut h = BatchSendHandle::new(3);
    let data = vec![
        Record::Positive(vec![0, 4]),
        Record::Positive(vec![0, 3]),
        Record::DeleteRequest(vec![7]),
        Record::Negative(vec![0, 9]),
    ];
    let out = h.enqueue(data, &[1]).unwrap();
    assert_eq!(out.len(), 2);
    assert_eq!(out[0].0, 0);
    assert_eq!(keys(&out[0].1), vec![3, 9]);
    assert_eq!(out[1].0, 1);
    assert_eq!(keys(&out[1].1), vec![4, 7]);
    assert_eq!(h.wait(vec![Ok(1), Ok(2)]), Ok(2));
}

#[test]
fn sharded_base_without_key_is_refused() {
    let mut h = BatchSendHandle::new(2);
    assert!(matches!(h.enqueue(vec![Record::Positive(vec![1])], &[]), Err(RouteError::MissingKey)));
    assert!(matches!(h.enqueue(vec![Record::Positive(vec![1, 2])], &[0, 1]), Err(RouteError::CompositeKey)));
    assert!(matches!(h.enqueue(vec![Record::Positive(vec![1])], &[3]), Err(RouteError::MissingColumn)));
    assert_eq!(h.wait(vec![]), Ok(0));
}

#[test]
fn any_failed_ack_fails_the_write() {
    let mut h = BatchSendHandle::new(2);
    h.enqueue(vec![Record::Positive(vec![0]), Record::Positive(vec![1])], &[0]).unwrap();
    assert_eq!(h.wait(vec![Err(()), Ok(5)]), Err(()));
    assert_eq!(h.wait(vec![Ok(4), Ok(5)]), Ok(5));
}

#[test]
fn input_handle_starts_a_write_with_nothing_sent() {
    let dih = provenance::input::DomainInputHandle::new(2);
    let mut h = dih.sender();
    assert_eq!(h.wait(vec![]), Ok(0));
    let out = h.enqueue(vec![Record::DeleteRequest(vec![5])], &[0]).unwrap();
    assert_eq!(out.len(), 1);
    assert_eq!(out[0].0, 1);
}
