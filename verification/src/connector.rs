//! The grabber's side of a connection: its handshake, then the encryption
//! of every message for each server.
use crate::encryption::{lemma_session_stream, session_apply, session_stream, ChaCha};
use crate::handshake::{
    client_accepts_hello, client_accepts_pong, encryption_flag, flag_of, hello_nonce, ping,
    ping_bytes, pong, pong_bytes, bytes_equal, HandshakeError,
};
use crate::utils::bytes_to_vec;
use vstd::prelude::*;

verus! {

/// How far the grabber's handshake with one server has come.
#[derive(Debug, Clone, Copy, PartialEq, Eq, Structural)]
pub enum ClientStage {
    /// The ping was sent; the pong is awaited (14 bytes).
    AwaitPong,
    /// The encryption flag was sent; the server's hello is awaited (25 bytes).
    AwaitHello,
    /// The encrypted ping was sent; the server's acknowledgement is awaited
    /// (1 byte).
    AwaitAck,
    /// The connection carries messages.
    Established,
}

/// The nonce in a server's hello.
pub fn nonce_of(hello: &[u8; 25]) -> (nonce: [u8; 24])
    ensures
        nonce@ == hello_nonce(hello@),
        nonce@ == hello@.subrange(1, 25),
{
    let mut nonce = [0u8; 24];
    for i in 0..24
        invariant
            forall|j: int| 0 <= j < i ==> nonce@[j] == hello@[j + 1],
    {
        nonce[i] = hello[i + 1];
    }
    assert(nonce@ =~= hello_nonce(hello@));
    nonce
}

/// The grabber's handshake with one server. The grabber sends the ping
/// (`ping_bytes`) and reads 14 bytes for `accept_pong`, sends what that
/// returns and reads 25 bytes for `accept_hello`, sends what that returns and
/// reads 1 byte for `accept_ack`.
pub struct ClientHandshake {
    password: String,
    stage: ClientStage,
    cipher: ChaCha,
}

impl ClientHandshake {
    pub closed spec fn stage(&self) -> ClientStage {
        self.stage
    }

    pub closed spec fn password(&self) -> Seq<char> {
        self.password@
    }

    /// The encryption state, once the hello was accepted.
    pub closed spec fn cipher(&self) -> ChaCha {
        self.cipher
    }

    /// A handshake with `password`, after the ping was sent.
    pub fn new(password: &str) -> (h: ClientHandshake)
        ensures
            h.stage() == ClientStage::AwaitPong,
            h.password() == password@,
    {
        let nonce = [0u8; 24];
        ClientHandshake {
            password: password.to_owned(),
            stage: ClientStage::AwaitPong,
            cipher: ChaCha::new(false, password, &nonce),
        }
    }

    /// Checks the server's reply to the ping; on success, the encryption flag
    /// to send.
    pub fn accept_pong(&mut self, reply: &[u8; 14]) -> (r: Result<u8, HandshakeError>)
        requires
            old(self).stage() == ClientStage::AwaitPong,
        ensures
            r is Ok <==> client_accepts_pong(reply@),
            r is Ok <==> reply@ == seq![112u8, 111, 110, 103, 95, 102, 100, 115, 51, 50, 49, 115, 102, 114],
            r matches Ok(flag) ==> {
                &&& flag == encryption_flag(old(self).password())
                &&& final(self).stage() == ClientStage::AwaitHello
                &&& final(self).password() == old(self).password()
            },
            r is Err ==> r == Err::<u8, HandshakeError>(HandshakeError::Incompatible),
            r is Err ==> *final(self) == *old(self),
    {
        let expected = pong_bytes();
        if !bytes_equal(reply.as_slice(), expected.as_slice()) {
            return Err(HandshakeError::Incompatible);
        }
        self.stage = ClientStage::AwaitHello;
        Ok(flag_of(self.password.as_str()))
    }

    /// Checks the server's hello and takes its nonce; on success, the ping
    /// encrypted with the new keystream, to send as proof of the password.
    pub fn accept_hello(&mut self, hello: &[u8; 25]) -> (r: Result<Vec<u8>, HandshakeError>)
        requires
            old(self).stage() == ClientStage::AwaitHello,
        ensures
            r is Ok <==> client_accepts_hello(old(self).password(), hello@),
            r is Ok <==> hello@[0] == (if old(self).password().len() > 0 { 1u8 } else { 0u8 }),
            r matches Ok(proof) ==> {
                &&& proof@ == session_apply(old(self).password(), hello_nonce(hello@), 0, ping())
                &&& final(self).stage() == ClientStage::AwaitAck
                &&& final(self).password() == old(self).password()
                &&& session_stream(
                    final(self).cipher(),
                    old(self).password(),
                    hello_nonce(hello@),
                    14,
                )
                &&& session_stream(final(self).cipher(), old(self).password(), hello@.subrange(1, 25), 14)
                &&& proof@ == session_apply(old(self).password(), hello@.subrange(1, 25), 0, ping())
            },
            r is Err ==> r == Err::<Vec<u8>, HandshakeError>(HandshakeError::SecurityConfigMismatch),
            r is Err ==> *final(self) == *old(self),
    {
        let flag = flag_of(self.password.as_str());
        if hello[0] != flag {
            return Err(HandshakeError::SecurityConfigMismatch);
        }
        let nonce = nonce_of(hello);
        let mut cipher = ChaCha::new(!self.password.as_str().is_empty(), self.password.as_str(), &nonce);
        let ghost start = cipher;
        let mut proof = bytes_to_vec(ping_bytes().as_slice());
        proof {
            lemma_session_stream(start, self.password@, nonce@, 0, ping());
        }
        cipher.xor(proof.as_mut_slice());
        self.cipher = cipher;
        self.stage = ClientStage::AwaitAck;
        Ok(proof)
    }

    /// Takes the server's acknowledgement (any byte): the connection is
    /// established.
    pub fn accept_ack(&mut self, _ack: &[u8; 1])
        requires
            old(self).stage() == ClientStage::AwaitAck,
        ensures
            final(self).stage() == ClientStage::Established,
            final(self).password() == old(self).password(),
            final(self).cipher() == old(self).cipher(),
    {
        self.stage = ClientStage::Established;
    }

    /// The encryption state of the established connection.
    pub fn into_cipher(self) -> (c: ChaCha)
        requires
            self.stage() == ClientStage::Established,
        ensures
            c == self.cipher(),
    {
        self.cipher
    }
}

/// The encryption states of the grabber's connections, one per server, in
/// the order of the servers.
pub struct Connector {
    ciphers: Vec<ChaCha>,
}

impl Connector {
    pub closed spec fn ciphers(&self) -> Seq<ChaCha> {
        self.ciphers@
    }

    /// Whether every connection can encrypt `len` more bytes.
    pub open spec fn can_send(&self, len: nat) -> bool {
        forall|i: int| 0 <= i < self.ciphers().len() ==> #[trigger] self.ciphers()[i].can_xor(len)
    }

    /// The connector of established connections.
    pub fn new(ciphers: Vec<ChaCha>) -> (c: Connector)
        ensures
            c.ciphers() == ciphers@,
    {
        Connector { ciphers }
    }

    /// Whether every connection can send another message.
    pub fn can_write(&self) -> (b: bool)
        ensures
            b == self.can_send(16),
    {
        for i in 0..self.ciphers.len()
            invariant
                forall|j: int| 0 <= j < i ==> #[trigger] self.ciphers()[j].can_xor(16),
        {
            if !self.ciphers[i].can_encrypt(16) {
                assert(!self.ciphers()[i as int].can_xor(16));
                return false;
            }
        }
        true
    }

    /// The frames that carry `data` to each server, in order: the message
    /// twice, each copy encrypted with the next 8 bytes of that connection's
    /// keystream, so that the server can tell an altered frame.
    pub fn write(&mut self, data: [u8; 8]) -> (frames: Vec<Vec<u8>>)
        requires
            old(self).can_send(16),
        ensures
            frames@.len() == old(self).ciphers().len(),
            final(self).ciphers().len() == old(self).ciphers().len(),
            forall|i: int|
                0 <= i < frames@.len() ==> (#[trigger] frames@[i])@ == old(self).ciphers()[i].apply(
                    data@,
                ) + old(self).ciphers()[i].advanced_by(8).apply(data@),
            forall|i: int|
                0 <= i < frames@.len() ==> #[trigger] final(self).ciphers()[i]
                    == old(self).ciphers()[i].advanced_by(16),
    {
        let mut frames: Vec<Vec<u8>> = Vec::new();
        let n = self.ciphers.len();
        for i in 0..n
            invariant
                n == old(self).ciphers().len(),
                self.ciphers().len() == n,
                frames@.len() == i,
                forall|j: int| i <= j < n ==> #[trigger] self.ciphers()[j] == old(self).ciphers()[j],
                forall|j: int|
                    0 <= j < i ==> (#[trigger] frames@[j])@ == old(self).ciphers()[j].apply(data@)
                        + old(self).ciphers()[j].advanced_by(8).apply(data@),
                forall|j: int|
                    0 <= j < i ==> #[trigger] self.ciphers()[j] == old(self).ciphers()[j].advanced_by(
                        16,
                    ),
                old(self).can_send(16),
        {
            let mut cipher = self.ciphers[i];
            let ghost c0 = cipher;
            assert(old(self).ciphers()[i as int].can_xor(16));
            proof {
                c0.lemma_advanced_by_add(8, 8);
                c0.lemma_advanced_by(8);
            }
            let mut first = bytes_to_vec(data.as_slice());
            cipher.xor(first.as_mut_slice());
            let mut second = bytes_to_vec(data.as_slice());
            cipher.xor(second.as_mut_slice());
            let ghost f = first@;
            let ghost g = second@;
            first.append(&mut second);
            assert(first@ == f + g);
            self.ciphers.set(i, cipher);
            frames.push(first);
        }
        frames
    }
}

} // verus!
