use plc_relay::records::{group_by_direction, group_by_tag, split_records, synced_bytes};

#[test]
fn group_by_tag_joins_runs() {
    // (tag, byte) pairs: (0,'a') (0,'b') (1,'c') (2,'d') (2,'e') and an odd byte left over
    let log = vec![0, b'a', 0, b'b', 1, b'c', 2, b'd', 2, b'e', 9];
    let groups = group_by_tag(log);
    assert_eq!(
        groups,
        vec![(b"ab".to_vec(), 0), (b"c".to_vec(), 1), (b"de".to_vec(), 2)]
    );
}

#[test]
fn group_by_direction_uses_parity() {
    let log = vec![0, b'a', 2, b'b', 1, b'c', 3, b'd', 4, b'e'];
    let groups = group_by_direction(log);
    assert_eq!(
        groups,
        vec![(b"ab".to_vec(), 0), (b"cd".to_vec(), 1), (b"e".to_vec(), 0)]
    );
}

#[test]
fn empty_log_has_no_messages() {
    assert!(group_by_tag(vec![]).is_empty());
    assert!(group_by_direction(vec![7]).is_empty());
}

#[test]
fn grouping_keeps_every_data_byte() {
    let log: Vec<u8> = (0..200u32).map(|i| if i % 2 == 0 { ((i / 6) % 3) as u8 } else { i as u8 }).collect();
    let groups = group_by_tag(log.clone());
    let joined: Vec<u8> = groups.iter().flat_map(|g| g.0.clone()).collect();
    let data: Vec<u8> = log.iter().skip(1).step_by(2).copied().collect();
    assert_eq!(joined, data);
    for w in groups.windows(2) {
        assert_ne!(w[0].1, w[1].1);
    }
}

#[test]
fn split_records_cuts_at_limit() {
    let records = vec![(vec![7u8; 2500], 1u8), (vec![1, 2], 0)];
    let pieces = split_records(&records, 1024);
    let lens: Vec<(usize, u8)> = pieces.iter().map(|p| (p.0.len(), p.1)).collect();
    assert_eq!(lens, vec![(1024, 1), (1024, 1), (452, 1), (2, 0)]);
}

#[test]
fn synced_bytes_interleaves_prefix() {
    assert_eq!(synced_bytes(3, &vec![10, 11, 12]), vec![3, 10, 3, 11, 3, 12]);
    assert!(synced_bytes(3, &vec![]).is_empty());
}
