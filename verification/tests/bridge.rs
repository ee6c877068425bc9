use plc_relay::bridge::{BridgeStep, ReplaceBridge};

fn proxy_replacements() -> Vec<(Vec<u8>, Vec<u8>)> {
    vec![
        (b"192.168.121.144".to_vec(), b"192.168.121.98".to_vec()),
        (b"A8:74:1D:04:9D:4A".to_vec(), b"08:00:27:A6:D5:86".to_vec()),
    ]
}

/// Runs bytes through the bridge; returns what went out, and whether it stopped.
fn run(reps: Vec<(Vec<u8>, Vec<u8>)>, data: &[u8]) -> (Vec<u8>, bool) {
    let mut bridge = ReplaceBridge::new(reps);
    let mut out = vec![];
    for &b in data {
        match bridge.checked_step(b).expect("replacement within the waiting bytes") {
            BridgeStep::Forward(bytes) => out.extend(bytes),
            BridgeStep::Stop => return (out, true),
        }
    }
    (out, false)
}

#[test]
fn plain_bytes_pass_through() {
    assert_eq!(run(proxy_replacements(), b"hello"), (b"hello".to_vec(), false));
}

#[test]
fn address_is_replaced() {
    assert_eq!(
        run(proxy_replacements(), b"x192.168.121.144y"),
        (b"x192.168.121.98y".to_vec(), false)
    );
}

#[test]
fn mac_is_replaced() {
    assert_eq!(
        run(proxy_replacements(), b"A8:74:1D:04:9D:4A!"),
        (b"08:00:27:A6:D5:86!".to_vec(), false)
    );
}

#[test]
fn both_replaced_in_one_stream() {
    assert_eq!(
        run(proxy_replacements(), b"ip=192.168.121.144;mac=A8:74:1D:04:9D:4A."),
        (b"ip=192.168.121.98;mac=08:00:27:A6:D5:86.".to_vec(), false)
    );
}

#[test]
fn partial_pattern_is_held_back() {
    let mut bridge = ReplaceBridge::new(proxy_replacements());
    let mut out = vec![];
    for &b in b"192.168.121.1" {
        match bridge.step(b) {
            BridgeStep::Forward(bytes) => out.extend(bytes),
            BridgeStep::Stop => panic!("unexpected stop"),
        }
    }
    assert!(out.is_empty());
    assert_eq!(bridge.outbuf.len(), 13);
    assert!(!bridge.outbuf[0].1.is_empty());
}

#[test]
fn idle_bridge_forwards_one_byte() {
    let mut bridge = ReplaceBridge::new(proxy_replacements());
    match bridge.step(b'z') {
        BridgeStep::Forward(bytes) => assert_eq!(bytes, vec![b'z']),
        BridgeStep::Stop => panic!("unexpected stop"),
    }
    assert!(bridge.outbuf.is_empty());
}

#[test]
fn stops_when_no_replacement_agrees_with_the_front() {
    let reps = vec![
        (b"abc".to_vec(), b"X".to_vec()),
        (b"abd".to_vec(), b"Y".to_vec()),
        (b"bz".to_vec(), b"Z".to_vec()),
    ];
    assert_eq!(run(reps, b"abz"), (vec![], true));
}

#[test]
fn too_long_replacement_is_reported() {
    let mut bridge = ReplaceBridge::new(vec![(b"aaa".to_vec(), b"X".to_vec()), (b"aa".to_vec(), b"Y".to_vec())]);
    assert!(bridge.checked_step(b'a').is_some());
    assert!(bridge.checked_step(b'a').is_none());
}

#[test]
fn pick_prefers_front_agreement() {
    let mut bridge = ReplaceBridge::new(vec![(b"ab".to_vec(), b"X".to_vec()), (b"b".to_vec(), b"Y".to_vec())]);
    assert!(!bridge.absorb(b'a'));
    assert!(bridge.absorb(b'b'));
    assert_eq!(bridge.pick(), Some(0));
    bridge.apply_replacement(0);
    assert_eq!(bridge.flush(), b"X".to_vec());
}

#[test]
fn run_without_completion_forwards_the_stream_with_a_held_tail() {
    let mut bridge = ReplaceBridge::new(proxy_replacements());
    let input = b"ping 192.168.1";
    let mut out = vec![];
    for &b in input.iter() {
        match bridge.step(b) {
            BridgeStep::Forward(bytes) => out.extend(bytes),
            BridgeStep::Stop => panic!("no pattern completes here"),
        }
    }
    let waiting: Vec<u8> = bridge.outbuf.iter().map(|e| e.0).collect();
    assert_eq!(out, b"ping ".to_vec());
    assert_eq!(waiting, b"192.168.1".to_vec());
    out.extend(waiting);
    assert_eq!(out, input.to_vec());
}
