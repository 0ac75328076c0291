use x11_input_mirror::config::SecurityConfig;
use x11_input_mirror::connector::{ClientHandshake, Connector};
use x11_input_mirror::encryption::ChaCha;
use x11_input_mirror::handshake::{ping_bytes, pong_bytes, HandshakeError};
use x11_input_mirror::keyboard_and_clicks::{Event, EventKind};
use x11_input_mirror::messages::{write_button_message, write_mouse_message, Command, SessionError};
use x11_input_mirror::mouse;
use x11_input_mirror::server::{command_args, ServerHandshake, ServerSession};

fn to_array<const N: usize>(v: &[u8]) -> [u8; N] {
    let mut a = [0u8; N];
    a.copy_from_slice(v);
    a
}

/// Runs both handshakes, each message handed from one end to the other.
fn connect(client_password: &str, server_password: &str) -> Result<(ChaCha, ServerSession), HandshakeError> {
    let mut client = ClientHandshake::new(client_password);
    let mut server = ServerHandshake::new(server_password);
    let pong = server.accept_ping(&ping_bytes())?;
    let flag = client.accept_pong(&pong)?;
    server.accept_flag(&[flag])?;
    let random = [0xa5u8; 25];
    let hello = server.hello(&random);
    let proof = client.accept_hello(&hello)?;
    let ack = server.accept_proof(&to_array::<14>(&proof))?;
    client.accept_ack(&[ack]);
    Ok((client.into_cipher(), server.into_session()))
}

#[test]
fn handshake_with_password() {
    assert!(connect("a long password", "a long password").is_ok());
}

#[test]
fn handshake_without_password() {
    assert!(connect("", "").is_ok());
}

#[test]
fn handshake_wrong_password() {
    assert_eq!(connect("a long password", "another password").err(), Some(HandshakeError::WrongPassword));
}

#[test]
fn handshake_security_config_mismatch() {
    let mut server = ServerHandshake::new("");
    server.accept_ping(&ping_bytes()).unwrap();
    assert_eq!(server.accept_flag(&[1]), Err(HandshakeError::SecurityConfigMismatch));
    let mut server = ServerHandshake::new("a long password");
    server.accept_ping(&ping_bytes()).unwrap();
    assert_eq!(server.accept_flag(&[0]), Err(HandshakeError::SecurityConfigMismatch));
    let mut client = ClientHandshake::new("a long password");
    client.accept_pong(&pong_bytes()).unwrap();
    let mut hello = [3u8; 25];
    hello[0] = 0;
    assert_eq!(client.accept_hello(&hello).err(), Some(HandshakeError::SecurityConfigMismatch));
}

#[test]
fn handshake_incompatible_server() {
    let mut client = ClientHandshake::new("pw");
    assert_eq!(client.accept_pong(&ping_bytes()), Err(HandshakeError::Incompatible));
    let mut client = ClientHandshake::new("pw");
    assert_eq!(client.accept_pong(&pong_bytes()), Ok(1));
    let mut client = ClientHandshake::new("");
    assert_eq!(client.accept_pong(&pong_bytes()), Ok(0));
}

#[test]
fn server_answers_the_ping_with_the_pong() {
    let mut server = ServerHandshake::new("a long password");
    assert_eq!(server.accept_ping(&ping_bytes()), Ok(pong_bytes()));
    let mut server = ServerHandshake::new("a long password");
    assert_eq!(server.accept_ping(&pong_bytes()), Err(HandshakeError::Incompatible));
    let mut server = ServerHandshake::new("");
    assert_eq!(server.accept_ping(b"ping_fds321sfX"), Err(HandshakeError::Incompatible));
}

#[test]
fn server_hello_layout() {
    let mut server = ServerHandshake::new("");
    server.accept_ping(&ping_bytes()).unwrap();
    server.accept_flag(&[0]).unwrap();
    assert!(!server.needs_random());
    assert_eq!(server.hello(&[7u8; 25]), [0u8; 25]);
    let mut server = ServerHandshake::new("a long password");
    server.accept_ping(&ping_bytes()).unwrap();
    server.accept_flag(&[1]).unwrap();
    assert!(server.needs_random());
    let mut expected = [7u8; 25];
    expected[0] = 1;
    assert_eq!(server.hello(&[7u8; 25]), expected);
}

fn send(connector: &mut Connector, message: [u8; 8]) -> [u8; 16] {
    let frames = connector.write(message);
    assert_eq!(frames.len(), 1);
    to_array(&frames[0])
}

#[test]
fn messages_reach_the_server() {
    for password in ["a long password", ""] {
        let (cipher, mut session) = connect(password, password).unwrap();
        let mut connector = Connector::new(vec![cipher]);
        let mut buf = [0u8; 8];
        write_mouse_message(&mut buf, mouse::Event { x: 1920, y: 1080 });
        assert!(connector.can_write() && session.can_receive());
        let frame = send(&mut connector, buf);
        assert_eq!(session.receive_frame(&frame), Ok(Command::MouseMove { x: 1920, y: 1080 }));
        write_button_message(&mut buf, Event { kind: EventKind::KeyDown, code: 38, x: 0, y: 0 });
        let frame = send(&mut connector, buf);
        assert_eq!(session.receive_frame(&frame), Ok(Command::Key { press: true, code: 38 }));
        write_button_message(&mut buf, Event { kind: EventKind::MouseUp, code: 3, x: 10, y: 20 });
        let frame = send(&mut connector, buf);
        assert_eq!(session.receive_frame(&frame), Ok(Command::Click { press: false, code: 3, x: 10, y: 20 }));
    }
}

#[test]
fn encrypted_frames_are_not_plaintext() {
    let (cipher, _session) = connect("a long password", "a long password").unwrap();
    let mut connector = Connector::new(vec![cipher]);
    let message = [100u8, 1, 2, 3, 4, 0, 0, 0];
    let frame = send(&mut connector, message);
    assert_ne!(frame[..8], message);
    assert_ne!(frame[..8], frame[8..]);
}

#[test]
fn each_server_has_its_own_keystream() {
    let (a, mut sa) = connect("a long password", "a long password").unwrap();
    let (b, mut sb) = connect("", "").unwrap();
    let mut connector = Connector::new(vec![a, b]);
    let message = [101u8, 1, 38, 0, 0, 0, 0, 0];
    let frames = connector.write(message);
    assert_eq!(frames.len(), 2);
    assert_eq!(frames[0].len(), 16);
    assert_eq!(frames[1], [message, message].concat());
    assert_eq!(sa.receive_frame(&to_array(&frames[0])), Ok(Command::Key { press: true, code: 38 }));
    assert_eq!(sb.receive_frame(&to_array(&frames[1])), Ok(Command::Key { press: true, code: 38 }));
}

#[test]
fn successive_messages_stay_in_step() {
    let (cipher, mut session) = connect("a long password", "a long password").unwrap();
    let mut connector = Connector::new(vec![cipher]);
    for code in 0..50u8 {
        let frame = send(&mut connector, [101, 1, code, 0, 0, 0, 0, 0]);
        assert_eq!(session.receive_frame(&frame), Ok(Command::Key { press: true, code }));
    }
}

#[test]
fn altered_second_copy_is_corrupted() {
    let (cipher, mut session) = connect("a long password", "a long password").unwrap();
    let mut connector = Connector::new(vec![cipher]);
    let frames = connector.write([101, 1, 1, 0, 0, 0, 0, 0]);
    let mut frame: [u8; 16] = to_array(&frames[0]);
    frame[8] ^= 0x40;
    assert_eq!(session.receive_frame(&frame), Err(SessionError::Corrupted));
}

#[test]
fn altered_frame_is_corrupted() {
    let (cipher, mut session) = connect("a long password", "a long password").unwrap();
    let mut connector = Connector::new(vec![cipher]);
    let mut frame = send(&mut connector, [100u8, 1, 2, 3, 4, 0, 0, 0]);
    frame[3] ^= 1;
    assert_eq!(session.receive_frame(&frame), Err(SessionError::Corrupted));
}

#[test]
fn invalid_frames() {
    let (cipher, mut session) = connect("", "").unwrap();
    let _ = cipher;
    let frame = [9u8, 0, 0, 0, 0, 0, 0, 0, 9, 0, 0, 0, 0, 0, 0, 0];
    assert_eq!(session.receive_frame(&frame), Err(SessionError::InvalidPacket));
    let frame = [101u8, 5, 0, 0, 0, 0, 0, 0, 101, 5, 0, 0, 0, 0, 0, 0];
    assert_eq!(session.receive_frame(&frame), Err(SessionError::InvalidKeyboardEvent));
}

#[test]
fn xdotool_arguments() {
    assert_eq!(command_args(&Command::MouseMove { x: 12, y: 3400 }), vec!["mousemove", "12", "3400"]);
    assert_eq!(command_args(&Command::Key { press: true, code: 38 }), vec!["keydown", "38"]);
    assert_eq!(command_args(&Command::Key { press: false, code: 0 }), vec!["keyup", "0"]);
    assert_eq!(
        command_args(&Command::Click { press: true, code: 1, x: 5, y: 6 }),
        vec!["mousemove", "5", "6", "mousedown", "1"]
    );
    assert_eq!(
        command_args(&Command::Click { press: false, code: 3, x: 65535, y: 0 }),
        vec!["mousemove", "65535", "0", "mouseup", "3"]
    );
}

#[test]
fn server_password_rules() {
    let ok = |p: &str| SecurityConfig { password: p.to_string() }.is_acceptable_for_server();
    assert!(ok(""));
    assert!(ok("twelve chars"));
    assert!(!ok("eleven char"));
    assert!(ok("ééééééé"));
    assert!(!SecurityConfig { password: String::new() }.should_be_encrypted());
    assert!(SecurityConfig { password: "x".to_string() }.should_be_encrypted());
}
