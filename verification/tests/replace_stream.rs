use plc_relay::replace::{
    message, replacment_builder, rpl_boxed, rpl_util, PollStep, ReplaceStream, ScanOutcome,
    TriggerAction,
};

fn stream_with(triggers: Vec<(Vec<u8>, TriggerAction<&'static str>)>) -> ReplaceStream<(), &'static str> {
    replacment_builder((), triggers)
}

fn ready(step: PollStep) -> (Option<u8>, Option<usize>) {
    match step {
        PollStep::Ready { byte, fired } => (byte, fired),
        PollStep::NeedInput => panic!("expected a byte"),
    }
}

/// Polls until input is needed, collecting the bytes handed out.
fn drain(rs: &mut ReplaceStream<(), &'static str>) -> Vec<u8> {
    let mut out = vec![];
    loop {
        match rs.poll_step() {
            PollStep::NeedInput => return out,
            PollStep::Ready { byte: Some(b), .. } => out.push(b),
            PollStep::Ready { byte: None, .. } => return out,
        }
    }
}

#[test]
fn builder_starts_empty() {
    let rs = stream_with(vec![]);
    assert!(rs.buffer.is_empty());
    assert!(rs.triggers.is_empty());
}

#[test]
fn empty_buffer_needs_input() {
    let mut rs = stream_with(vec![rpl_util(b"ab".to_vec(), b"X".to_vec())]);
    assert!(matches!(rs.poll_step(), PollStep::NeedInput));
    assert!(rs.buffer.is_empty());
}

#[test]
fn no_triggers_pass_bytes_through() {
    let mut rs = stream_with(vec![]);
    rs.feed(b"hello");
    assert_eq!(drain(&mut rs), b"hello".to_vec());
}

#[test]
fn partial_match_waits_and_keeps_the_buffer() {
    let mut rs = stream_with(vec![rpl_util(b"13625".to_vec(), b"99999".to_vec())]);
    rs.feed(b"136");
    assert!(matches!(rs.scan_front(), ScanOutcome::NeedMore));
    assert!(matches!(rs.poll_step(), PollStep::NeedInput));
    assert_eq!(rs.buffer.iter().copied().collect::<Vec<_>>(), b"136".to_vec());
    rs.feed(b"25!");
    assert_eq!(drain(&mut rs), b"99999!".to_vec());
}

#[test]
fn replacement_fires_on_first_byte() {
    let mut rs = stream_with(vec![rpl_util(b"Dieses".to_vec(), b"TEST".to_vec())]);
    rs.feed(b"Dieses Wort");
    assert!(matches!(rs.scan_front(), ScanOutcome::Matched(0)));
    assert_eq!(ready(rs.poll_step()), (Some(b'T'), Some(0)));
    assert_eq!(rs.buffer.iter().copied().collect::<Vec<_>>(), b"EST Wort".to_vec());
}

#[test]
fn mismatch_hands_on_the_first_byte_only() {
    let mut rs = stream_with(vec![rpl_util(b"abc".to_vec(), b"X".to_vec())]);
    rs.feed(b"abx");
    assert!(matches!(rs.scan_front(), ScanOutcome::NoMatch));
    assert_eq!(ready(rs.poll_step()), (Some(b'a'), None));
    assert_eq!(rs.buffer.iter().copied().collect::<Vec<_>>(), b"bx".to_vec());
}

#[test]
fn first_complete_trigger_wins() {
    let mut rs = stream_with(vec![
        rpl_util(b"ab".to_vec(), b"1".to_vec()),
        rpl_util(b"ab".to_vec(), b"2".to_vec()),
    ]);
    rs.feed(b"ab");
    assert!(matches!(rs.scan_front(), ScanOutcome::Matched(0)));
    assert_eq!(ready(rs.poll_step()), (Some(b'1'), Some(0)));
}

#[test]
fn shorter_trigger_completes_before_longer() {
    let mut rs = stream_with(vec![
        rpl_util(b"abcd".to_vec(), b"L".to_vec()),
        rpl_util(b"ab".to_vec(), b"S".to_vec()),
    ]);
    rs.feed(b"abcd");
    assert!(matches!(rs.scan_front(), ScanOutcome::Matched(1)));
    assert_eq!(drain(&mut rs), b"Scd".to_vec());
}

#[test]
fn empty_replacement_can_end_the_buffer() {
    let mut rs = stream_with(vec![rpl_util(b"xy".to_vec(), vec![])]);
    rs.feed(b"xy");
    assert_eq!(ready(rs.poll_step()), (None, Some(0)));
    assert!(rs.buffer.is_empty());
}

#[test]
fn message_trigger_leaves_bytes() {
    let mut rs = stream_with(vec![(vec![0xe8, 0xbf, 0x27, 0x09], message("key"))]);
    rs.feed(&[0xe8, 0xbf, 0x27, 0x09, 0x01]);
    assert_eq!(ready(rs.poll_step()), (Some(0xe8), Some(0)));
    match &rs.triggers[0].1 {
        TriggerAction::Message(m) => assert_eq!(*m, "key"),
        _ => panic!("expected a message trigger"),
    }
    assert_eq!(rs.buffer.iter().copied().collect::<Vec<_>>(), vec![0xbf, 0x27, 0x09, 0x01]);
}

#[test]
fn empty_pattern_never_fires() {
    let mut rs = stream_with(vec![rpl_util(vec![], b"Z".to_vec())]);
    rs.feed(b"q");
    assert_eq!(ready(rs.poll_step()), (Some(b'q'), None));
}

#[test]
fn add_repl_appends_trigger() {
    let mut rs = stream_with(vec![]);
    rs.add_repl(b"13625".to_vec(), b"99999".to_vec());
    assert_eq!(rs.triggers.len(), 1);
    assert_eq!(rs.triggers[0].0, b"13625".to_vec());
    match &rs.triggers[0].1 {
        TriggerAction::Replace { target, repl } => {
            assert_eq!(target, &b"13625".to_vec());
            assert_eq!(repl, &b"99999".to_vec());
        }
        _ => panic!("expected a replacement"),
    }
    assert!(rs.targets_fit());
}

#[test]
fn replace_vec_swaps_the_front() {
    let mut rs = stream_with(vec![]);
    rs.feed(b"Dieses ist");
    rs.replace_vec(&b"Dieses".to_vec(), &b"TEST".to_vec());
    assert_eq!(rs.buffer.iter().copied().collect::<Vec<_>>(), b"TEST ist".to_vec());
}

#[test]
fn targets_fit_detects_long_target() {
    let rs = stream_with(vec![(b"a".to_vec(), rpl_boxed(b"abc".to_vec(), vec![]))]);
    assert!(!rs.targets_fit());
}

#[test]
fn pop_buffered_ignores_triggers() {
    let mut rs = stream_with(vec![rpl_util(b"a".to_vec(), b"b".to_vec())]);
    assert_eq!(rs.pop_buffered(), None);
    rs.feed(b"a");
    assert_eq!(rs.pop_buffered(), Some(b'a'));
}

#[test]
fn later_bytes_do_not_change_a_decision() {
    let mut a = stream_with(vec![rpl_util(b"abc".to_vec(), b"X".to_vec())]);
    a.feed(b"ax");
    let mut b = stream_with(vec![rpl_util(b"abc".to_vec(), b"X".to_vec())]);
    b.feed(b"axabc");
    assert!(matches!(a.scan_front(), ScanOutcome::NoMatch));
    assert!(matches!(b.scan_front(), ScanOutcome::NoMatch));
}

#[test]
fn fire_fits_only_for_a_firing_target_longer_than_the_buffer() {
    let mut rs = stream_with(vec![(b"a".to_vec(), rpl_boxed(b"abc".to_vec(), vec![]))]);
    assert!(rs.fire_fits());
    rs.feed(b"b");
    assert!(rs.fire_fits());
    let mut rs = stream_with(vec![(b"a".to_vec(), rpl_boxed(b"abc".to_vec(), vec![]))]);
    rs.feed(b"a");
    assert!(!rs.fire_fits());
    rs.feed(b"xy");
    assert!(rs.fire_fits());
}
