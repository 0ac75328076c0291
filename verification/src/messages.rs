//! The 8-byte messages that carry input events from the grabber to the
//! servers.
use crate::keyboard_and_clicks::{Event, EventKind};
use crate::mouse;
use crate::utils::{encode_u16, le_u16};
use vstd::prelude::*;

verus! {

/// The first byte of a mouse movement message.
pub const MOUSE_MOVE: u8 = 100;

/// The first byte of a keyboard message.
pub const KEYBOARD: u8 = 101;

/// The first byte of a mouse button message.
pub const MOUSE_BUTTON: u8 = 102;

/// The second byte of a keyboard or button message for a press.
pub const PRESS: u8 = 1;

/// The second byte of a keyboard or button message for a release.
pub const RELEASE: u8 = 2;

/// The first byte of the message of an event of kind `kind`.
pub open spec fn category(kind: EventKind) -> u8 {
    match kind {
        EventKind::KeyDown | EventKind::KeyUp => KEYBOARD,
        EventKind::MouseDown | EventKind::MouseUp => MOUSE_BUTTON,
    }
}

/// Whether events of kind `kind` are presses.
pub open spec fn is_press(kind: EventKind) -> bool {
    kind == EventKind::KeyDown || kind == EventKind::MouseDown
}

/// The second byte of the message of an event of kind `kind`.
pub open spec fn direction(kind: EventKind) -> u8 {
    if is_press(kind) {
        PRESS
    } else {
        RELEASE
    }
}

/// The message buffer `prev` after a mouse movement to (`x`, `y`) was
/// written into it: bytes 5 to 7 keep what they held.
pub open spec fn mouse_message(prev: Seq<u8>, x: u16, y: u16) -> Seq<u8> {
    seq![
        MOUSE_MOVE,
        (x % 256) as u8,
        (x / 256) as u8,
        (y % 256) as u8,
        (y / 256) as u8,
        prev[5],
        prev[6],
        prev[7],
    ]
}

/// The message buffer `prev` after the key or button event `e` was written
/// into it: byte 7 keeps what it held.
pub open spec fn button_message(prev: Seq<u8>, e: Event) -> Seq<u8> {
    seq![
        category(e.kind),
        direction(e.kind),
        e.code,
        (e.x % 256) as u8,
        (e.x / 256) as u8,
        (e.y % 256) as u8,
        (e.y / 256) as u8,
        prev[7],
    ]
}

/// Writes a mouse movement message into `buf`, which the grabber reuses from
/// message to message.
pub fn write_mouse_message(buf: &mut [u8; 8], location: mouse::Event)
    ensures
        final(buf)@ == mouse_message(old(buf)@, location.x, location.y),
        final(buf)@[0] == 100,
        final(buf)@[1] + 256 * final(buf)@[2] == location.x,
        final(buf)@[3] + 256 * final(buf)@[4] == location.y,
        forall|i: int| 5 <= i < 8 ==> #[trigger] final(buf)@[i] == old(buf)@[i],
{
    let x = encode_u16(location.x);
    let y = encode_u16(location.y);
    assert(x[0] == location.x % 256 && x[1] == location.x / 256);
    assert(y[0] == location.y % 256 && y[1] == location.y / 256);
    buf[0] = MOUSE_MOVE;
    buf[1] = x[0];
    buf[2] = x[1];
    buf[3] = y[0];
    buf[4] = y[1];
    assert(buf@ =~= mouse_message(old(buf)@, location.x, location.y));
}

/// Writes the message of a key or button event into `buf`, which the
/// grabber reuses from message to message.
pub fn write_button_message(buf: &mut [u8; 8], event: Event)
    ensures
        final(buf)@ == button_message(old(buf)@, event),
        final(buf)@[0] == (if event.kind == EventKind::KeyDown || event.kind == EventKind::KeyUp {
            101u8
        } else {
            102u8
        }),
        final(buf)@[1] == (if event.kind == EventKind::KeyDown || event.kind == EventKind::MouseDown {
            1u8
        } else {
            2u8
        }),
        final(buf)@[2] == event.code,
        final(buf)@[3] + 256 * final(buf)@[4] == event.x,
        final(buf)@[5] + 256 * final(buf)@[6] == event.y,
        final(buf)@[7] == old(buf)@[7],
{
    buf[0] = match event.kind {
        EventKind::KeyDown | EventKind::KeyUp => KEYBOARD,
        EventKind::MouseDown | EventKind::MouseUp => MOUSE_BUTTON,
    };
    buf[1] = match event.kind {
        EventKind::KeyDown | EventKind::MouseDown => PRESS,
        EventKind::KeyUp | EventKind::MouseUp => RELEASE,
    };
    buf[2] = event.code;
    let x = encode_u16(event.x);
    let y = encode_u16(event.y);
    assert(x[0] == event.x % 256 && x[1] == event.x / 256);
    assert(y[0] == event.y % 256 && y[1] == event.y / 256);
    buf[3] = x[0];
    buf[4] = x[1];
    buf[5] = y[0];
    buf[6] = y[1];
    assert(buf@ =~= button_message(old(buf)@, event));
}

/// What a server is asked to do.
#[derive(Debug, Clone, Copy, PartialEq, Eq, Structural)]
pub enum Command {
    /// Move the mouse to (`x`, `y`).
    MouseMove { x: u16, y: u16 },
    /// Press (or release) the key `code`.
    Key { press: bool, code: u8 },
    /// Move the mouse to (`x`, `y`), then press (or release) the button
    /// `code`.
    Click { press: bool, code: u8, x: u16, y: u16 },
}

/// Why a server drops a connection.
#[derive(Debug, Clone, Copy, PartialEq, Eq, Structural)]
pub enum SessionError {
    /// The two copies of the message in a frame differ.
    Corrupted,
    /// A keyboard or button message is neither a press nor a release.
    InvalidKeyboardEvent,
    /// The message is of no known kind.
    InvalidPacket,
}

/// The command that an 8-byte message carries.
pub open spec fn decode_message(m: Seq<u8>) -> Result<Command, SessionError> {
    if m[0] == MOUSE_MOVE {
        Ok(
            Command::MouseMove {
                x: le_u16(m.subrange(1, 3)) as u16,
                y: le_u16(m.subrange(3, 5)) as u16,
            },
        )
    } else if m[0] == KEYBOARD || m[0] == MOUSE_BUTTON {
        if m[1] == PRESS || m[1] == RELEASE {
            if m[0] == KEYBOARD {
                Ok(Command::Key { press: m[1] == PRESS, code: m[2] })
            } else {
                Ok(
                    Command::Click {
                        press: m[1] == PRESS,
                        code: m[2],
                        x: le_u16(m.subrange(3, 5)) as u16,
                        y: le_u16(m.subrange(5, 7)) as u16,
                    },
                )
            }
        } else {
            Err(SessionError::InvalidKeyboardEvent)
        }
    } else {
        Err(SessionError::InvalidPacket)
    }
}

/// The command that the server carries out for an input event.
pub open spec fn command_for(e: Event) -> Command {
    if e.kind == EventKind::KeyDown || e.kind == EventKind::KeyUp {
        Command::Key { press: is_press(e.kind), code: e.code }
    } else {
        Command::Click { press: is_press(e.kind), code: e.code, x: e.x, y: e.y }
    }
}

fn read_le_u16(m: &[u8], at: usize) -> (v: u16)
    requires
        at + 2 <= m@.len(),
    ensures
        v == le_u16(m@.subrange(at as int, at + 2)),
{
    m[at] as u16 + 256 * (m[at + 1] as u16)
}

/// Reads the command in an 8-byte message.
pub fn decode(m: &[u8]) -> (r: Result<Command, SessionError>)
    requires
        m@.len() >= 8,
    ensures
        r == decode_message(m@),
{
    if m[0] == MOUSE_MOVE {
        Ok(Command::MouseMove { x: read_le_u16(m, 1), y: read_le_u16(m, 3) })
    } else if m[0] == KEYBOARD || m[0] == MOUSE_BUTTON {
        if m[1] == PRESS || m[1] == RELEASE {
            if m[0] == KEYBOARD {
                Ok(Command::Key { press: m[1] == PRESS, code: m[2] })
            } else {
                Ok(
                    Command::Click {
                        press: m[1] == PRESS,
                        code: m[2],
                        x: read_le_u16(m, 3),
                        y: read_le_u16(m, 5),
                    },
                )
            }
        } else {
            Err(SessionError::InvalidKeyboardEvent)
        }
    } else {
        Err(SessionError::InvalidPacket)
    }
}

/// A mouse movement message, whatever the buffer held before, is read as
/// the movement that was written.
pub proof fn lemma_mouse_message_decodes(prev: Seq<u8>, x: u16, y: u16)
    requires
        prev.len() == 8,
    ensures
        decode_message(mouse_message(prev, x, y)) == Ok::<Command, SessionError>(
            Command::MouseMove { x, y },
        ),
{
    let m = mouse_message(prev, x, y);
    assert(m.subrange(1, 3) =~= seq![(x % 256) as u8, (x / 256) as u8]);
    assert(m.subrange(3, 5) =~= seq![(y % 256) as u8, (y / 256) as u8]);
}

/// The message of a key or button event, whatever the buffer held before,
/// is read as the command for that event.
pub proof fn lemma_button_message_decodes(prev: Seq<u8>, e: Event)
    requires
        prev.len() == 8,
    ensures
        decode_message(button_message(prev, e)) == Ok::<Command, SessionError>(command_for(e)),
{
    let m = button_message(prev, e);
    assert(m.subrange(3, 5) =~= seq![(e.x % 256) as u8, (e.x / 256) as u8]);
    assert(m.subrange(5, 7) =~= seq![(e.y % 256) as u8, (e.y / 256) as u8]);
}

} // verus!
