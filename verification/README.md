# x11_input_mirror

Mirrors the mouse and keyboard of one X11 machine (the grabber) onto others
(the servers) over TCP, optionally encrypted with XChaCha20 under a key
derived from a shared password.

- `src/` is the verified library (Verus): the 8-byte input messages, the
  16-byte frames that carry each message twice (for an integrity check), the handshakes of both ends, the
  encryption state, the reader of `xinput test-xi2` output, the reader of
  `xdotool getmouselocation` output and the `xdotool` arguments a server runs.
- `tests/` runs the library on concrete inputs.
- `app/` is the program around it: `x11-input-mirror grabber` and
  `x11-input-mirror server`, which read `GrabberConfig.toml`,
  `ServerConfig.toml` and `SecurityConfig.toml`, run the external tools and
  talk TCP.
