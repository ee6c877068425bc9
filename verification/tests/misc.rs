use plc_relay::error::CustError;
use plc_relay::monitor::{Format, Key};
use plc_relay::render::{fits, format_items, format_pieces, Colour, Shade};
use plc_relay::replace::TriggerAction;
use plc_relay::replay::{classify, mark_bytes, mark_even_bytes, rekey_trigger, ReplayStep};
use plc_relay::viewer::App;

#[test]
fn classify_tags() {
    assert!(matches!(classify(0xff), ReplayStep::Stop));
    assert!(matches!(classify(0), ReplayStep::Send));
    assert!(matches!(classify(2), ReplayStep::Send));
    assert!(matches!(classify(1), ReplayStep::Expect));
}

#[test]
fn key_fields_are_marked() {
    assert_eq!(mark_bytes(&vec![0xa, 0xb, 0xc, 0xd]), vec![4, 0xa, 4, 0xb, 4, 0xc, 4, 0xd]);
    assert_eq!(mark_even_bytes(&vec![1, 2, 3, 4, 5, 6, 7]), vec![4, 1, 4, 3, 4, 5, 4, 7]);
}

#[test]
fn rekey_trigger_replaces_old_key() {
    let t: (Vec<u8>, TriggerAction<()>) = rekey_trigger(vec![4, 1], vec![4, 9]);
    assert_eq!(t.0, vec![4, 1]);
    match t.1 {
        TriggerAction::Replace { target, repl } => {
            assert_eq!(target, vec![4, 1]);
            assert_eq!(repl, vec![4, 9]);
        }
        _ => panic!("expected a replacement"),
    }
}

#[test]
fn cust_error_message() {
    let e: CustError = std::io::Error::new(std::io::ErrorKind::Other, "x").into();
    assert_eq!(e.message(), "data store disconnected");
    assert_eq!(e.source().kind(), std::io::ErrorKind::Other);
}

#[test]
fn render_styles_by_tag() {
    let items = vec![(b"ab".to_vec(), 0u8), (b"cd".to_vec(), 3u8)];
    let out = format_items(&items, 80, &Format::Hex);
    assert_eq!(out[0].lines, vec!["61 62"]);
    assert!(matches!(out[0].colour, Colour::Red));
    assert!(matches!(out[0].shade, Shade::Reset));
    assert!(matches!(out[1].colour, Colour::Green));
    assert!(matches!(out[1].shade, Shade::Black));
}

#[test]
fn render_pieces_cuts_long_messages() {
    let items = vec![(vec![b'a'; 1500], 1u8)];
    let out = format_pieces(&items, 2000, &Format::Utf8);
    assert_eq!(out.len(), 2);
    assert_eq!(out[0].lines[0].len(), 1024);
    assert_eq!(out[1].lines[0].len(), 476);
}

#[test]
fn widths_that_fit() {
    assert!(fits(6, &Format::Hex));
    assert!(!fits(5, &Format::Hex));
    assert!(fits(1, &Format::Utf8));
    assert!(!fits(0, &Format::Utf8));
}

#[test]
fn viewer_keys() {
    let mut app = App::new(vec![(vec![1], 0), (vec![2], 1)]);
    assert!(!app.handle_key(Key::Down));
    assert_eq!(app.items.selected, Some(0));
    assert!(!app.handle_key(Key::Up));
    assert_eq!(app.items.selected, Some(1));
    assert!(!app.handle_key(Key::Left));
    assert_eq!(app.items.selected, None);
    assert!(app.handle_key(Key::Char('q')));
    app.on_tick();
}

#[test]
fn viewer_up_on_empty_list_with_later_selection() {
    let mut app = App::new(vec![]);
    app.items.selected = Some(3);
    assert!(app.key_allowed(&Key::Up));
    assert!(!app.handle_key(Key::Up));
    assert_eq!(app.items.selected, Some(2));
    app.items.selected = Some(0);
    assert!(!app.key_allowed(&Key::Up));
    assert!(!app.key_allowed(&Key::Down));
}
