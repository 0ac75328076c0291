//! A server's side of a connection: its handshake, then the frames that
//! carry the grabber's messages, and what `xdotool` is asked to do for them.
use crate::encryption::{
    encrypts, halves_differ, is_tampered_16, lemma_apply_twice, lemma_same_stream,
    lemma_session_apply_twice, lemma_session_stream, lemma_session_streams_agree, session_apply,
    session_stream, ChaCha,
};
use crate::keyboard_and_clicks::Event;
use crate::handshake::{
    bytes_equal, client_accepts_hello, client_accepts_pong, encryption_flag, flag_of, hello_nonce,
    ping, ping_bytes, pong, pong_bytes, server_accepts_flag, server_accepts_ping,
    server_accepts_proof, HandshakeError,
};
use crate::messages::{
    button_message, command_for, decode, decode_message, lemma_button_message_decodes,
    lemma_mouse_message_decodes, mouse_message, Command, SessionError,
};
use crate::connector::nonce_of;
use crate::utils::{bytes_to_vec, decimal, decimal_string};
use vstd::prelude::*;

verus! {

/// How far a server's handshake with the grabber has come.
#[derive(Debug, Clone, Copy, PartialEq, Eq, Structural)]
pub enum ServerStage {
    /// The grabber's ping is awaited (14 bytes).
    AwaitPing,
    /// The grabber's encryption flag is awaited (1 byte).
    AwaitFlag,
    /// The hello is to be sent.
    SendHello,
    /// The grabber's encrypted ping is awaited (14 bytes).
    AwaitProof,
    /// The connection carries frames.
    Established,
}

/// The hello that a server sends: 25 bytes, random with a password and zero
/// without, whose first byte is then replaced by the encryption flag.
pub open spec fn server_hello(password: Seq<char>, random: Seq<u8>) -> Seq<u8> {
    let base = if encrypts(password) {
        random
    } else {
        Seq::new(25, |i: int| 0u8)
    };
    base.update(0, encryption_flag(password))
}

/// A server's handshake with the grabber. The server reads 14 bytes for
/// `accept_ping` and sends the pong that it returns, reads 1 byte for
/// `accept_flag`, sends what `hello` returns (given random bytes when
/// `needs_random` says so), reads 14 bytes for `accept_proof` and sends the
/// acknowledgement that it returns.
pub struct ServerHandshake {
    password: String,
    stage: ServerStage,
    cipher: ChaCha,
}

impl ServerHandshake {
    pub closed spec fn stage(&self) -> ServerStage {
        self.stage
    }

    pub closed spec fn password(&self) -> Seq<char> {
        self.password@
    }

    /// The encryption state, once the hello was made.
    pub closed spec fn cipher(&self) -> ChaCha {
        self.cipher
    }

    /// A handshake with `password`, waiting for the grabber's ping.
    pub fn new(password: &str) -> (h: ServerHandshake)
        ensures
            h.stage() == ServerStage::AwaitPing,
            h.password() == password@,
    {
        let nonce = [0u8; 24];
        ServerHandshake {
            password: password.to_owned(),
            stage: ServerStage::AwaitPing,
            cipher: ChaCha::new(false, password, &nonce),
        }
    }

    /// Checks the grabber's first message: it must be the ping. On success,
    /// the pong to send back.
    pub fn accept_ping(&mut self, ping_msg: &[u8; 14]) -> (r: Result<[u8; 14], HandshakeError>)
        requires
            old(self).stage() == ServerStage::AwaitPing,
        ensures
            r is Ok <==> server_accepts_ping(ping_msg@),
            r is Ok <==> ping_msg@ == seq![112u8, 105, 110, 103, 95, 102, 100, 115, 51, 50, 49, 115, 102, 114],
            r matches Ok(reply) ==> {
                &&& reply@ == pong()
                &&& reply@ == seq![112u8, 111, 110, 103, 95, 102, 100, 115, 51, 50, 49, 115, 102, 114]
                &&& final(self).stage() == ServerStage::AwaitFlag
                &&& final(self).password() == old(self).password()
            },
            r is Err ==> r == Err::<[u8; 14], HandshakeError>(HandshakeError::Incompatible),
            r is Err ==> *final(self) == *old(self),
    {
        let expected = ping_bytes();
        if !bytes_equal(ping_msg.as_slice(), expected.as_slice()) {
            return Err(HandshakeError::Incompatible);
        }
        self.stage = ServerStage::AwaitFlag;
        Ok(pong_bytes())
    }

    /// Checks that the grabber encrypts exactly when this server does.
    pub fn accept_flag(&mut self, flag: &[u8; 1]) -> (r: Result<(), HandshakeError>)
        requires
            old(self).stage() == ServerStage::AwaitFlag,
        ensures
            r is Ok <==> server_accepts_flag(old(self).password(), flag@[0]),
            r is Ok <==> flag@[0] == (if old(self).password().len() > 0 { 1u8 } else { 0u8 }),
            r is Ok ==> final(self).stage() == ServerStage::SendHello && final(self).password()
                == old(self).password(),
            r is Err ==> r == Err::<(), HandshakeError>(HandshakeError::SecurityConfigMismatch),
            r is Err ==> *final(self) == *old(self),
    {
        if flag[0] != flag_of(self.password.as_str()) {
            return Err(HandshakeError::SecurityConfigMismatch);
        }
        self.stage = ServerStage::SendHello;
        Ok(())
    }

    /// Whether the hello takes random bytes: it does with a password.
    pub fn needs_random(&self) -> (b: bool)
        ensures
            b == encrypts(self.password()),
    {
        !self.password.as_str().is_empty()
    }

    /// The hello to send; its last 24 bytes are the nonce of the keystream.
    pub fn hello(&mut self, random: &[u8; 25]) -> (h: [u8; 25])
        requires
            old(self).stage() == ServerStage::SendHello,
        ensures
            h@ == server_hello(old(self).password(), random@),
            h@.len() == 25,
            h@[0] == (if old(self).password().len() > 0 {
                1u8
            } else {
                0u8
            }),
            forall|i: int|
                1 <= i < 25 ==> #[trigger] h@[i] == (if old(self).password().len() > 0 {
                    random@[i]
                } else {
                    0u8
                }),
            final(self).stage() == ServerStage::AwaitProof,
            final(self).password() == old(self).password(),
            session_stream(final(self).cipher(), old(self).password(), hello_nonce(h@), 0),
            session_stream(final(self).cipher(), old(self).password(), h@.subrange(1, 25), 0),
            final(self).cipher().can_xor(14),
    {
        let encrypted = !self.password.as_str().is_empty();
        let mut buf = [0u8; 25];
        if encrypted {
            buf = *random;
        }
        buf[0] = flag_of(self.password.as_str());
        assert(buf@ =~= server_hello(self.password@, random@));
        let nonce = nonce_of(&buf);
        self.cipher = ChaCha::new(encrypted, self.password.as_str(), &nonce);
        self.stage = ServerStage::AwaitProof;
        buf
    }

    /// Checks the grabber's proof: it must decrypt to the ping. On success,
    /// the acknowledgement byte to send.
    pub fn accept_proof(&mut self, proof: &[u8; 14]) -> (r: Result<u8, HandshakeError>)
        requires
            old(self).stage() == ServerStage::AwaitProof,
            old(self).cipher().can_xor(14),
        ensures
            r is Ok <==> server_accepts_proof(old(self).cipher(), proof@),
            r is Ok <==> old(self).cipher().apply(proof@) == seq![112u8, 105, 110, 103, 95, 102, 100, 115, 51, 50, 49, 115, 102, 114],
            r matches Ok(ack) ==> {
                &&& ack == 1
                &&& final(self).stage() == ServerStage::Established
                &&& final(self).password() == old(self).password()
                &&& final(self).cipher() == old(self).cipher().advanced_by(14)
            },
            r is Err ==> r == Err::<u8, HandshakeError>(HandshakeError::WrongPassword),
            r is Err ==> *final(self) == *old(self),
    {
        let mut cipher = self.cipher;
        let mut buf = bytes_to_vec(proof.as_slice());
        cipher.xor(buf.as_mut_slice());
        let expected = ping_bytes();
        if !bytes_equal(buf.as_slice(), expected.as_slice()) {
            return Err(HandshakeError::WrongPassword);
        }
        self.cipher = cipher;
        self.stage = ServerStage::Established;
        Ok(1)
    }

    /// The session of the established connection.
    pub fn into_session(self) -> (s: ServerSession)
        requires
            self.stage() == ServerStage::Established,
        ensures
            s.cipher() == self.cipher(),
    {
        ServerSession { cipher: self.cipher }
    }
}

/// What a server makes of a 16-byte frame in encryption state `c`: each half
/// is decrypted in turn; if the halves then differ the frame was altered,
/// else it carries the command of its message.
pub open spec fn open_frame(c: ChaCha, frame: Seq<u8>) -> Result<Command, SessionError> {
    let plain = c.apply(frame.subrange(0, 8)) + c.advanced_by(8).apply(frame.subrange(8, 16));
    if halves_differ(plain) {
        Err(SessionError::Corrupted)
    } else {
        decode_message(plain)
    }
}

/// An established connection on a server's side.
pub struct ServerSession {
    cipher: ChaCha,
}

impl ServerSession {
    pub closed spec fn cipher(&self) -> ChaCha {
        self.cipher
    }

    /// Whether another frame can be decrypted.
    pub fn can_receive(&self) -> (b: bool)
        ensures
            b == self.cipher().can_xor(16),
    {
        self.cipher.can_encrypt(16)
    }

    /// Decrypts a frame and reads the command that it carries.
    pub fn receive_frame(&mut self, frame: &[u8; 16]) -> (r: Result<Command, SessionError>)
        requires
            old(self).cipher().can_xor(16),
        ensures
            r == open_frame(old(self).cipher(), frame@),
            final(self).cipher() == old(self).cipher().advanced_by(16),
    {
        let ghost c0 = self.cipher;
        proof {
            c0.lemma_advanced_by(8);
            c0.advanced_by(8).lemma_advanced_by(8);
            c0.lemma_advanced_by(16);
        }
        let mut first: Vec<u8> = Vec::new();
        let mut second: Vec<u8> = Vec::new();
        for i in 0..8
            invariant
                first@ == frame@.subrange(0, i as int),
                second@ == frame@.subrange(8, 8 + i as int),
        {
            first.push(frame[i]);
            second.push(frame[i + 8]);
            assert(first@ =~= frame@.subrange(0, i + 1));
            assert(second@ =~= frame@.subrange(8, 8 + i + 1));
        }
        self.cipher.xor(first.as_mut_slice());
        self.cipher.xor(second.as_mut_slice());
        let ghost plain = first@ + second@;
        let mut all = first;
        all.append(&mut second);
        assert(all@ =~= plain);
        proof {
            c0.lemma_advanced_by_add(8, 8);
        }
        if is_tampered_16(all.as_slice()) {
            return Err(SessionError::Corrupted);
        }
        decode(all.as_slice())
    }
}

/// The arguments of the `xdotool` run that carries out a command.
pub open spec fn xdotool_args(cmd: Command) -> Seq<Seq<char>> {
    match cmd {
        Command::MouseMove { x, y } => seq!["mousemove"@, decimal(x as nat), decimal(y as nat)],
        Command::Key { press, code } => seq![
            if press {
                "keydown"@
            } else {
                "keyup"@
            },
            decimal(code as nat),
        ],
        Command::Click { press, code, x, y } => seq![
            "mousemove"@,
            decimal(x as nat),
            decimal(y as nat),
            if press {
                "mousedown"@
            } else {
                "mouseup"@
            },
            decimal(code as nat),
        ],
    }
}

/// The arguments of the `xdotool` run that carries out `cmd`.
pub fn command_args(cmd: &Command) -> (args: Vec<String>)
    ensures
        args@.len() == xdotool_args(*cmd).len(),
        forall|i: int| 0 <= i < args@.len() ==> (#[trigger] args@[i])@ == xdotool_args(*cmd)[i],
        match *cmd {
            Command::MouseMove { x, y } => {
                &&& args@.len() == 3
                &&& args@[0]@ == "mousemove"@
                &&& args@[1]@ == decimal(x as nat)
                &&& args@[2]@ == decimal(y as nat)
            },
            Command::Key { press, code } => {
                &&& args@.len() == 2
                &&& args@[0]@ == (if press {
                    "keydown"@
                } else {
                    "keyup"@
                })
                &&& args@[1]@ == decimal(code as nat)
            },
            Command::Click { press, code, x, y } => {
                &&& args@.len() == 5
                &&& args@[0]@ == "mousemove"@
                &&& args@[1]@ == decimal(x as nat)
                &&& args@[2]@ == decimal(y as nat)
                &&& args@[3]@ == (if press {
                    "mousedown"@
                } else {
                    "mouseup"@
                })
                &&& args@[4]@ == decimal(code as nat)
            },
        },
{
    let mut args: Vec<String> = Vec::new();
    match cmd {
        Command::MouseMove { x, y } => {
            args.push(String::from_str("mousemove"));
            args.push(decimal_string(*x as u32));
            args.push(decimal_string(*y as u32));
        },
        Command::Key { press, code } => {
            args.push(String::from_str(if *press { "keydown" } else { "keyup" }));
            args.push(decimal_string(*code as u32));
        },
        Command::Click { press, code, x, y } => {
            args.push(String::from_str("mousemove"));
            args.push(decimal_string(*x as u32));
            args.push(decimal_string(*y as u32));
            args.push(String::from_str(if *press { "mousedown" } else { "mouseup" }));
            args.push(decimal_string(*code as u32));
        },
    }
    args
}

/// The frame that carries `message` from a grabber in encryption state
/// `c`: the message twice, each copy under the next 8 bytes of keystream, as
/// `Connector::write` makes it.
pub open spec fn frame_for(c: ChaCha, message: Seq<u8>) -> Seq<u8> {
    c.apply(message) + c.advanced_by(8).apply(message)
}

/// A message that the grabber sends (`Connector::write`) reaches a server
/// whose keystream is the grabber's intact: the server reads the command
/// that the message carries, and both ends then share the keystream again.
pub proof fn lemma_frame_roundtrip(client: ChaCha, server: ChaCha, message: Seq<u8>)
    requires
        client.same_stream(server),
        client.can_xor(16),
        message.len() == 8,
    ensures
        open_frame(server, frame_for(client, message)) == decode_message(message),
        client.advanced_by(16).same_stream(server.advanced_by(16)),
{
    client.lemma_advanced_by_add(8, 8);
    client.lemma_advanced_by(8);
    client.lemma_advanced_by(16);
    let c1 = client.advanced_by(8);
    let first = client.apply(message);
    let second = c1.apply(message);
    let frame = first + second;
    assert(frame.subrange(0, 8) =~= first);
    assert(frame.subrange(8, 16) =~= second);
    lemma_same_stream(client, server, message);
    lemma_same_stream(client, server, first);
    lemma_apply_twice(client, message);
    lemma_same_stream(c1, server.advanced_by(8), second);
    lemma_apply_twice(c1, message);
    server.lemma_advanced_by_add(8, 8);
    lemma_same_stream(client, server, Seq::new(16, |i: int| 0u8));
    let plain = message + message;
    assert(server.apply(frame.subrange(0, 8)) == message);
    assert(server.advanced_by(8).apply(frame.subrange(8, 16)) == message);
    assert(!halves_differ(plain)) by {
        assert forall|i: int| 0 <= i < 8 implies #[trigger] plain[i] == plain[i + 8] by {}
    }
    assert(plain.subrange(1, 3) =~= message.subrange(1, 3));
    assert(plain.subrange(3, 5) =~= message.subrange(3, 5));
    assert(plain.subrange(5, 7) =~= message.subrange(5, 7));
}

/// Messages that the grabber sends one after the other reach a server that
/// started with the grabber's keystream, in order and intact: after `i`
/// messages both ends have used `16 * i` bytes of keystream, and the server
/// reads message `i` as the command that it carries.
pub proof fn lemma_messages_arrive_in_order(
    client: ChaCha,
    server: ChaCha,
    messages: Seq<Seq<u8>>,
    i: nat,
)
    requires
        client.same_stream(server),
        client.can_xor(16 * messages.len()),
        forall|k: int| 0 <= k < messages.len() ==> (#[trigger] messages[k]).len() == 8,
        i < messages.len(),
    ensures
        open_frame(server.advanced_by(16 * i), frame_for(client.advanced_by(16 * i), messages[i as int]))
            == decode_message(messages[i as int]),
{
    assert(16 * i + 16 <= 16 * messages.len()) by (nonlinear_arith)
        requires
            i < messages.len(),
    ;
    client.lemma_advanced_by_add(16 * i, 16);
    lemma_same_stream(client, server, Seq::new(16 * i, |k: int| 0u8));
    lemma_frame_roundtrip(client.advanced_by(16 * i), server.advanced_by(16 * i), messages[i as int]);
}

/// A key or button event that the grabber writes into its message buffer
/// and sends reaches a server with the grabber's keystream as the command
/// for that event.
pub proof fn lemma_event_reaches_server(client: ChaCha, server: ChaCha, prev: Seq<u8>, e: Event)
    requires
        client.same_stream(server),
        client.can_xor(16),
        prev.len() == 8,
    ensures
        open_frame(server, frame_for(client, button_message(prev, e))) == Ok::<
            Command,
            SessionError,
        >(command_for(e)),
{
    lemma_frame_roundtrip(client, server, button_message(prev, e));
    lemma_button_message_decodes(prev, e);
}

/// A mouse movement that the grabber writes into its message buffer and
/// sends reaches a server with the grabber's keystream as that movement.
pub proof fn lemma_movement_reaches_server(client: ChaCha, server: ChaCha, prev: Seq<u8>, x: u16, y: u16)
    requires
        client.same_stream(server),
        client.can_xor(16),
        prev.len() == 8,
    ensures
        open_frame(server, frame_for(client, mouse_message(prev, x, y))) == Ok::<
            Command,
            SessionError,
        >(Command::MouseMove { x, y }),
{
    lemma_frame_roundtrip(client, server, mouse_message(prev, x, y));
    lemma_mouse_message_decodes(prev, x, y);
}

/// The grabber's and a server's handshakes with the same password fit
/// together at every step: the server accepts the ping, the grabber accepts
/// the pong, the server accepts the grabber's encryption flag, the grabber
/// accepts the server's hello (whatever random bytes it was made from), the
/// server accepts the ping encrypted with the hello's nonce, and both ends
/// then hold the same keystream. `client` is the grabber's state after its
/// proof, `server` the server's state after its hello.
pub proof fn lemma_handshake_agrees(
    password: Seq<char>,
    random: Seq<u8>,
    client: ChaCha,
    server: ChaCha,
)
    requires
        random.len() == 25,
        session_stream(client, password, hello_nonce(server_hello(password, random)), 14),
        session_stream(server, password, hello_nonce(server_hello(password, random)), 0),
        server.can_xor(14),
    ensures
        server_accepts_ping(ping()),
        client_accepts_pong(pong()),
        server_accepts_flag(password, encryption_flag(password)),
        client_accepts_hello(password, server_hello(password, random)),
        server_accepts_proof(
            server,
            session_apply(password, hello_nonce(server_hello(password, random)), 0, ping()),
        ),
        client.same_stream(server.advanced_by(14)),
{
    let nonce = hello_nonce(server_hello(password, random));
    lemma_session_stream(server, password, nonce, 0, ping());
    lemma_session_stream(server, password, nonce, 0, session_apply(password, nonce, 0, ping()));
    lemma_session_apply_twice(password, nonce, 0, ping());
    lemma_session_streams_agree(client, server.advanced_by(14), password, nonce, 14);
}

/// A button command moves the pointer to its position, then presses or
/// releases its button: the fourth argument is `mousedown` for a press and
/// `mouseup` for a release, whatever the button; the button, like the
/// position, is written in decimal. A key command presses or releases its key
/// alike.
pub proof fn lemma_button_args(press: bool, code: u8, x: u16, y: u16)
    ensures
        xdotool_args(Command::Click { press, code, x, y }).len() == 5,
        xdotool_args(Command::Click { press, code, x, y })[0] == "mousemove"@,
        xdotool_args(Command::Click { press, code, x, y })[1] == decimal(x as nat),
        xdotool_args(Command::Click { press, code, x, y })[2] == decimal(y as nat),
        press ==> xdotool_args(Command::Click { press, code, x, y })[3] == "mousedown"@,
        !press ==> xdotool_args(Command::Click { press, code, x, y })[3] == "mouseup"@,
        xdotool_args(Command::Click { press, code, x, y })[4] == decimal(code as nat),
        xdotool_args(Command::Key { press, code }).len() == 2,
        press ==> xdotool_args(Command::Key { press, code })[0] == "keydown"@,
        !press ==> xdotool_args(Command::Key { press, code })[0] == "keyup"@,
        xdotool_args(Command::Key { press, code })[1] == decimal(code as nat),
        xdotool_args(Command::MouseMove { x, y }) == seq!["mousemove"@, decimal(x as nat), decimal(y as nat)],
{
}

/// A server rejects a frame as corrupted exactly when its two halves,
/// each decrypted in turn, differ at some byte; otherwise it reads the
/// command in the first half.
pub proof fn lemma_open_frame_checks_halves(c: ChaCha, frame: Seq<u8>)
    requires
        frame.len() == 16,
    ensures
        ({
            let first = c.apply(frame.subrange(0, 8));
            let second = c.advanced_by(8).apply(frame.subrange(8, 16));
            &&& (open_frame(c, frame) == Err::<Command, SessionError>(SessionError::Corrupted))
                <== (exists|i: int| 0 <= i < 8 && #[trigger] first[i] != second[i])
            &&& (forall|i: int| 0 <= i < 8 ==> #[trigger] first[i] == second[i]) ==> open_frame(
                c,
                frame,
            ) == decode_message(first)
        }),
{
    let first = c.apply(frame.subrange(0, 8));
    let second = c.advanced_by(8).apply(frame.subrange(8, 16));
    let plain = first + second;
    if exists|i: int| 0 <= i < 8 && #[trigger] first[i] != second[i] {
        let i = choose|i: int| 0 <= i < 8 && #[trigger] first[i] != second[i];
        assert(plain[i] != plain[i + 8]);
    }
    if forall|i: int| 0 <= i < 8 ==> #[trigger] first[i] == second[i] {
        assert(plain.subrange(1, 3) =~= first.subrange(1, 3));
        assert(plain.subrange(3, 5) =~= first.subrange(3, 5));
        assert(plain.subrange(5, 7) =~= first.subrange(5, 7));
        assert(!halves_differ(plain)) by {
            assert forall|i: int| 0 <= i < 8 implies #[trigger] plain[i] == plain[i + 8] by {
                assert(plain[i] == first[i]);
                assert(plain[i + 8] == second[i]);
            }
        }
    }
}

} // verus!
