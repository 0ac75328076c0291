//! Mirrors mouse and keyboard input of one X11 machine onto others.
//!
//! The verified library holds the wire formats, the handshake and session
//! logic of both ends, the encryption state and the parsers for the output
//! of `xinput` and `xdotool`.
pub mod config;
pub mod connector;
pub mod encryption;
pub mod handshake;
pub mod keyboard_and_clicks;
pub mod messages;
pub mod mouse;
pub mod server;
pub mod utils;
