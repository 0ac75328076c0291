use x11_input_mirror::keyboard_and_clicks::{
    parse_click, parse_keyboard, process_output, Action, Event, EventKind, Parsed,
};
use x11_input_mirror::messages::{decode, write_button_message, write_mouse_message, Command, SessionError};
use x11_input_mirror::mouse::{self, parse_location};

#[test]
fn keyboard_detail_line_completes_event() {
    assert_eq!(
        parse_keyboard("    detail: 38", EventKind::KeyDown),
        Parsed::Ready(Event { kind: EventKind::KeyDown, code: 38, x: 0, y: 0 })
    );
    assert_eq!(
        parse_keyboard("    detail: +7", EventKind::KeyUp),
        Parsed::Ready(Event { kind: EventKind::KeyUp, code: 7, x: 0, y: 0 })
    );
    assert_eq!(
        parse_keyboard("    detail: 255", EventKind::KeyUp),
        Parsed::Ready(Event { kind: EventKind::KeyUp, code: 255, x: 0, y: 0 })
    );
}

#[test]
fn keyboard_other_line_keeps_event_pending() {
    assert_eq!(parse_keyboard("    device: 3 (3)", EventKind::KeyDown), Parsed::Pending(EventKind::KeyDown));
    assert_eq!(parse_keyboard("", EventKind::KeyUp), Parsed::Pending(EventKind::KeyUp));
    assert_eq!(parse_keyboard("   detail: 38", EventKind::KeyUp), Parsed::Pending(EventKind::KeyUp));
}

#[test]
fn keyboard_detail_out_of_range_is_invalid() {
    assert_eq!(parse_keyboard("    detail: 256", EventKind::KeyDown), Parsed::Invalid);
    assert_eq!(parse_keyboard("    detail: ", EventKind::KeyDown), Parsed::Invalid);
    assert_eq!(parse_keyboard("    detail: -1", EventKind::KeyDown), Parsed::Invalid);
    assert_eq!(parse_keyboard("    detail: 3 ", EventKind::KeyDown), Parsed::Invalid);
    assert_eq!(parse_keyboard("    detail: +", EventKind::KeyDown), Parsed::Invalid);
}

#[test]
fn click_detail_line_gives_button() {
    assert_eq!(parse_click("    detail: 1", EventKind::MouseDown), Parsed::Ready(1));
    assert_eq!(parse_click("    flags: ", EventKind::MouseUp), Parsed::Pending(EventKind::MouseUp));
    assert_eq!(parse_click("    detail: x", EventKind::MouseUp), Parsed::Invalid);
}

#[test]
fn output_with_key_press_and_release() {
    let text = "EVENT type 2 (KeyPress)\n    device: 3 (3)\n    detail: 38\n    flags: \nEVENT type 3 (KeyRelease)\n    device: 3 (3)\n    detail: 38\n";
    let r = process_output(None, text);
    assert!(!r.malformed);
    assert_eq!(r.mode, None);
    assert_eq!(
        r.actions,
        vec![
            Action::Key(Event { kind: EventKind::KeyDown, code: 38, x: 0, y: 0 }),
            Action::Key(Event { kind: EventKind::KeyUp, code: 38, x: 0, y: 0 }),
        ]
    );
}

#[test]
fn output_with_button_events() {
    let text = "EVENT type 15 (RawButtonPress)\n    detail: 1\nEVENT type 16 (RawButtonRelease)\n    detail: 3";
    let r = process_output(None, text);
    assert!(!r.malformed);
    assert_eq!(
        r.actions,
        vec![
            Action::Click { kind: EventKind::MouseDown, code: 1 },
            Action::Click { kind: EventKind::MouseUp, code: 3 },
        ]
    );
}

#[test]
fn event_split_over_chunks_keeps_mode() {
    let r = process_output(None, "EVENT type 15 (ButtonPress)\n    device: 2 (2)");
    assert_eq!(r.mode, Some(EventKind::MouseDown));
    assert!(r.actions.is_empty());
    let r = process_output(r.mode, "\n    detail: 2\n");
    assert_eq!(r.mode, None);
    assert_eq!(r.actions, vec![Action::Click { kind: EventKind::MouseDown, code: 2 }]);
}

#[test]
fn other_event_types_are_ignored() {
    let r = process_output(None, "EVENT type 6 (Motion)\n    detail: 0\nEVENT type 17 (Motion)\n");
    assert_eq!(r.mode, None);
    assert!(r.actions.is_empty());
    assert!(!r.malformed);
}

#[test]
fn event_type_is_read_as_a_prefix() {
    let r = process_output(None, "EVENT type 22 (XIPropertyEvent)\n    detail: 5\n");
    assert_eq!(r.actions, vec![Action::Key(Event { kind: EventKind::KeyDown, code: 5, x: 0, y: 0 })]);
}

#[test]
fn malformed_detail_stops_reading() {
    let text = "EVENT type 2\n    detail: 9\nEVENT type 3\n    detail: 999\nEVENT type 2\n    detail: 4\n";
    let r = process_output(None, text);
    assert!(r.malformed);
    assert_eq!(r.actions, vec![Action::Key(Event { kind: EventKind::KeyDown, code: 9, x: 0, y: 0 })]);
}

#[test]
fn mouse_location_from_xdotool() {
    assert_eq!(parse_location("x:1254 y:432 screen:0 window:81788931\n"), Some(mouse::Event { x: 1254, y: 432 }));
    assert_eq!(parse_location("x:5 y:6"), Some(mouse::Event { x: 5, y: 6 }));
    assert_eq!(parse_location("x:0 y:65535 screen:0"), Some(mouse::Event { x: 0, y: 65535 }));
}

#[test]
fn mouse_location_failures() {
    assert_eq!(parse_location("x:12"), None);
    assert_eq!(parse_location("x:70000 y:1 screen:0"), None);
    assert_eq!(parse_location("x y:1 screen:0"), None);
    assert_eq!(parse_location(""), None);
    assert_eq!(parse_location("x:1 y:"), None);
}

#[test]
fn mouse_message_round_trip() {
    let mut buf = [9u8; 8];
    write_mouse_message(&mut buf, mouse::Event { x: 1254, y: 432 });
    assert_eq!(buf, [100, 0xe6, 0x04, 0xb0, 0x01, 9, 9, 9]);
    assert_eq!(decode(&buf), Ok(Command::MouseMove { x: 1254, y: 432 }));
}

#[test]
fn key_message_round_trip() {
    let mut buf = [0u8; 8];
    write_button_message(&mut buf, Event { kind: EventKind::KeyUp, code: 38, x: 0, y: 0 });
    assert_eq!(buf, [101, 2, 38, 0, 0, 0, 0, 0]);
    assert_eq!(decode(&buf), Ok(Command::Key { press: false, code: 38 }));
}

#[test]
fn click_message_round_trip() {
    let mut buf = [7u8; 8];
    write_button_message(&mut buf, Event { kind: EventKind::MouseDown, code: 1, x: 300, y: 2 });
    assert_eq!(buf, [102, 1, 1, 44, 1, 2, 0, 7]);
    assert_eq!(decode(&buf), Ok(Command::Click { press: true, code: 1, x: 300, y: 2 }));
}

#[test]
fn invalid_messages() {
    assert_eq!(decode(&[103, 1, 1, 0, 0, 0, 0, 0]), Err(SessionError::InvalidPacket));
    assert_eq!(decode(&[101, 3, 1, 0, 0, 0, 0, 0]), Err(SessionError::InvalidKeyboardEvent));
    assert_eq!(decode(&[102, 0, 1, 0, 0, 0, 0, 0]), Err(SessionError::InvalidKeyboardEvent));
}
