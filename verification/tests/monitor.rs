use plc_relay::monitor::{App, Format, Key, KeyAction, RenderPlan};

fn items() -> Vec<(Vec<u8>, u8)> {
    vec![
        (b"hello".to_vec(), 0),
        (b"reply".to_vec(), 1),
        (b"again".to_vec(), 0),
        (b"other".to_vec(), 1),
    ]
}

#[test]
fn new_app_starts_clean() {
    let app = App::new(items());
    assert_eq!(app.items.selected, None);
    assert!(app.message_list.items.is_empty());
    assert!(!app.hex_mode);
    assert!(app.redraw);
    assert_eq!(app.cache_width, None);
}

#[test]
fn q_quits() {
    let mut app = App::new(items());
    assert!(matches!(app.handle_key(Key::Char('q')), KeyAction::Quit));
}

#[test]
fn h_toggles_hex_mode() {
    let mut app = App::new(items());
    app.handle_key(Key::Char('h'));
    assert!(app.hex_mode);
    assert!(matches!(app.message_format(), Format::Hex));
    app.handle_key(Key::Char('h'));
    assert!(matches!(app.message_format(), Format::Utf8));
}

#[test]
fn arrows_move_selection() {
    let mut app = App::new(items());
    app.handle_key(Key::Down);
    app.handle_key(Key::Down);
    assert_eq!(app.items.selected, Some(1));
    app.handle_key(Key::Up);
    assert_eq!(app.items.selected, Some(0));
    app.handle_key(Key::Up);
    assert_eq!(app.items.selected, Some(3));
    app.handle_key(Key::Left);
    assert_eq!(app.items.selected, None);
}

#[test]
fn enter_sends_selected_item() {
    let mut app = App::new(items());
    assert!(matches!(app.handle_key(Key::Enter), KeyAction::Nothing));
    app.handle_key(Key::Down);
    app.handle_key(Key::Down);
    match app.handle_key(Key::Enter) {
        KeyAction::Send { bytes, record } => {
            assert_eq!(bytes, b"reply".to_vec());
            assert_eq!(record, (b"reply".to_vec(), 1));
            app.record_sent(record);
        }
        _ => panic!("expected a send"),
    }
    assert_eq!(app.message_list.items, vec![(b"reply".to_vec(), 1)]);
    assert_eq!(app.message_list.selected, Some(1));
    assert_eq!(app.items.selected, Some(3));
}

#[test]
fn l_sends_edited_session_message() {
    let mut app = App::new(items());
    app.record_response((0u8..20).collect());
    app.handle_key(Key::Char('i'));
    assert_eq!(app.message_list.selected, Some(0));
    match app.handle_key(Key::Char('l')) {
        KeyAction::Send { bytes, record } => {
            let mut expected: Vec<u8> = (0u8..20).collect();
            expected[2] = 2;
            expected[10] = 3;
            expected[14] = 227;
            assert_eq!(bytes, expected);
            assert_eq!(record, (expected, 0));
        }
        _ => panic!("expected a send"),
    }
}

#[test]
fn l_needs_fifteen_bytes() {
    let mut app = App::new(items());
    app.record_response(vec![1, 2, 3]);
    app.handle_key(Key::Char('i'));
    assert!(!app.key_allowed(&Key::Char('l')));
    // just after a push the selection is past the end
    app.record_response(vec![0; 20]);
    assert!(!app.key_allowed(&Key::Char('l')));
}

#[test]
fn o_toggles_replay_mark_and_moves_two() {
    let mut app = App::new(items());
    app.handle_key(Key::Down);
    app.redraw = false;
    app.handle_key(Key::Char('o'));
    assert_eq!(app.items.items[0].1, 2);
    assert_eq!(app.items.selected, Some(2));
    assert!(app.redraw);
    app.handle_key(Key::Up);
    app.handle_key(Key::Up);
    app.handle_key(Key::Char('o'));
    assert_eq!(app.items.items[0].1, 0);
}

#[test]
fn u_excludes_client_messages() {
    let mut app = App::new(items());
    app.handle_key(Key::Char('u'));
    let tags: Vec<u8> = app.items.items.iter().map(|i| i.1).collect();
    assert_eq!(tags, vec![2, 1, 2, 1]);
}

#[test]
fn r_replays_client_messages() {
    let mut app = App::new(items());
    match app.handle_key(Key::Char('r')) {
        KeyAction::Replay(list) => {
            assert_eq!(list, vec![(b"hello".to_vec(), 0), (b"again".to_vec(), 0)]);
            for item in list {
                app.record_replayed(item);
                app.record_response(vec![]);
            }
            app.finish_replay();
        }
        _ => panic!("expected a replay"),
    }
    assert_eq!(app.message_list.items.len(), 2);
    assert!(app.redraw);
}

#[test]
fn other_keys_do_nothing() {
    let mut app = App::new(items());
    assert!(matches!(app.handle_key(Key::Char('z')), KeyAction::Nothing));
    assert!(matches!(app.handle_key(Key::Other), KeyAction::Nothing));
    assert_eq!(app.items.selected, None);
}

#[test]
fn moving_in_an_empty_list_after_selection_is_refused() {
    let mut app = App::new(vec![]);
    assert!(app.key_allowed(&Key::Down));
    app.handle_key(Key::Down);
    assert!(!app.key_allowed(&Key::Down));
}

#[test]
fn render_plan_uses_cache_until_invalidated() {
    let mut app = App::new(items());
    assert!(matches!(app.plan_render(80), RenderPlan::Rebuild));
    assert!(matches!(app.plan_render(80), RenderPlan::UseCache));
    assert!(matches!(app.plan_render(100), RenderPlan::Rebuild));
    app.handle_key(Key::Char('u'));
    assert!(matches!(app.plan_render(100), RenderPlan::Rebuild));
}

#[test]
fn disconnect_notice_joins_session() {
    let mut app = App::new(items());
    app.record_disconnect();
    assert_eq!(
        app.message_list.items,
        vec![(b"PLC TERMINATED COMMUNICATION RESTABLISHING CONNECTION".to_vec(), 4)]
    );
}

#[test]
fn replay_after_exclusion_sends_nothing() {
    let mut app = App::new(items());
    app.handle_key(Key::Char('u'));
    app.handle_key(Key::Char('u'));
    let tags: Vec<u8> = app.items.items.iter().map(|i| i.1).collect();
    assert_eq!(tags, vec![2, 1, 2, 1]);
    match app.handle_key(Key::Char('r')) {
        KeyAction::Replay(list) => assert!(list.is_empty()),
        _ => panic!("expected a replay"),
    }
}
