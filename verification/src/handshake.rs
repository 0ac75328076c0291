//! What both ends of a connection agree on before input events flow.
use crate::encryption::{encrypts, ChaCha};
use vstd::prelude::*;
use vstd::utf8::{encode_utf8, is_ascii_chars, is_ascii_chars_encode_utf8};

verus! {

/// The bytes of `"ping_fds321sfr"`: what the grabber sends first, and,
/// encrypted, as its proof of the password.
pub open spec fn ping() -> Seq<u8> {
    seq![112u8, 105, 110, 103, 95, 102, 100, 115, 51, 50, 49, 115, 102, 114]
}

/// The bytes of `"pong_fds321sfr"`: the reply that the grabber expects to
/// its first message.
pub open spec fn pong() -> Seq<u8> {
    seq![112u8, 111, 110, 103, 95, 102, 100, 115, 51, 50, 49, 115, 102, 114]
}

/// The byte that announces whether traffic is encrypted: 1 with a password,
/// 0 without.
pub open spec fn encryption_flag(password: Seq<char>) -> u8 {
    if encrypts(password) {
        1
    } else {
        0
    }
}

/// The nonce in the server's hello: its last 24 bytes.
pub open spec fn hello_nonce(hello: Seq<u8>) -> Seq<u8> {
    hello.subrange(1, 25)
}

/// Whether a server takes `msg` as the grabber's first message: the ping.
pub open spec fn server_accepts_ping(msg: Seq<u8>) -> bool {
    msg == ping()
}

/// Whether the grabber takes `reply` as the answer to its ping: the pong.
pub open spec fn client_accepts_pong(reply: Seq<u8>) -> bool {
    reply == pong()
}

/// Whether a server with `password` takes `flag` from the grabber: both
/// encrypt, or neither does.
pub open spec fn server_accepts_flag(password: Seq<char>, flag: u8) -> bool {
    flag == encryption_flag(password)
}

/// Whether the grabber with `password` takes the server's `hello`: its first
/// byte is the grabber's own encryption flag.
pub open spec fn client_accepts_hello(password: Seq<char>, hello: Seq<u8>) -> bool {
    hello[0] == encryption_flag(password)
}

/// Whether a server in encryption state `c` takes `proof`: it decrypts to
/// the ping.
pub open spec fn server_accepts_proof(c: ChaCha, proof: Seq<u8>) -> bool {
    c.apply(proof) == ping()
}

/// Why a handshake fails.
#[derive(Debug, Clone, Copy, PartialEq, Eq, Structural)]
pub enum HandshakeError {
    /// The server did not answer the ping with the pong.
    Incompatible,
    /// One end encrypts and the other does not.
    SecurityConfigMismatch,
    /// The client's proof does not decrypt to the ping: another password.
    WrongPassword,
}

/// The ping.
pub fn ping_bytes() -> (p: [u8; 14])
    ensures
        p@ == ping(),
        p@ == seq![112u8, 105, 110, 103, 95, 102, 100, 115, 51, 50, 49, 115, 102, 114],
{
    let p = [112u8, 105, 110, 103, 95, 102, 100, 115, 51, 50, 49, 115, 102, 114];
    assert(p@ =~= ping());
    p
}

/// The pong.
pub fn pong_bytes() -> (p: [u8; 14])
    ensures
        p@ == pong(),
        p@ == seq![112u8, 111, 110, 103, 95, 102, 100, 115, 51, 50, 49, 115, 102, 114],
{
    let p = [112u8, 111, 110, 103, 95, 102, 100, 115, 51, 50, 49, 115, 102, 114];
    assert(p@ =~= pong());
    p
}

/// The encryption flag of `password`.
pub fn flag_of(password: &str) -> (f: u8)
    ensures
        f == encryption_flag(password@),
        f == (if password@.len() > 0 {
            1u8
        } else {
            0u8
        }),
{
    if password.is_empty() {
        0
    } else {
        1
    }
}

/// Whether two byte strings of the same length are equal.
pub fn bytes_equal(a: &[u8], b: &[u8]) -> (eq: bool)
    requires
        a@.len() == b@.len(),
    ensures
        eq == (a@ == b@),
{
    let mut i: usize = 0;
    while i < a.len()
        invariant
            a@.len() == b@.len(),
            i <= a@.len(),
            forall|j: int| 0 <= j < i ==> a@[j] == b@[j],
        decreases a@.len() - i,
    {
        if a[i] != b[i] {
            return false;
        }
        i = i + 1;
    }
    assert(a@ =~= b@);
    true
}

/// The ping is the text `ping_fds321sfr` and the pong the text
/// `pong_fds321sfr`, as bytes; the hello's nonce is its last 24 bytes.
pub proof fn lemma_handshake_constants(hello: Seq<u8>)
    ensures
        ping() == encode_utf8("ping_fds321sfr"@),
        pong() == encode_utf8("pong_fds321sfr"@),
        ping() == seq![112u8, 105, 110, 103, 95, 102, 100, 115, 51, 50, 49, 115, 102, 114],
        pong() == seq![112u8, 111, 110, 103, 95, 102, 100, 115, 51, 50, 49, 115, 102, 114],
        hello_nonce(hello) == hello.subrange(1, 25),
{
    reveal_strlit("ping_fds321sfr");
    reveal_strlit("pong_fds321sfr");
    let pi = "ping_fds321sfr"@;
    let po = "pong_fds321sfr"@;
    assert(is_ascii_chars(pi));
    assert(is_ascii_chars(po));
    is_ascii_chars_encode_utf8(pi);
    is_ascii_chars_encode_utf8(po);
    assert(encode_utf8(pi) =~= ping());
    assert(encode_utf8(po) =~= pong());
}

} // verus!
