use sha3::{Digest, Sha3_256};
use chacha::{KeyStream, SeekableKeyStream};
use rand::Rng;
use vstd::prelude::*;
use vstd::utf8::encode_utf8;

verus! {

/// The SHA3-256 digest of `data`, as `sha3::Sha3_256` computes it.
pub uninterp spec fn sha3_256(data: Seq<u8>) -> Seq<u8>;

/// The byte at `index` of the XChaCha20 keystream for `key` and `nonce`, as
/// the `chacha` crate produces it.
pub uninterp spec fn xchacha20_keystream_byte(key: Seq<u8>, nonce: Seq<u8>, index: int) -> u8;

/// `data` combined by XOR with the keystream for `key` and `nonce`, starting
/// at byte `position` of the stream.
pub open spec fn keystream_xor(key: Seq<u8>, nonce: Seq<u8>, position: nat, data: Seq<u8>) -> Seq<u8> {
    Seq::new(data.len(), |j: int| data[j] ^ xchacha20_keystream_byte(key, nonce, position + j))
}

/// The secret key that a password gives: the SHA3-256 digest of its UTF-8
/// bytes.
pub open spec fn password_key(password: Seq<char>) -> Seq<u8> {
    sha3_256(encode_utf8(password))
}

/// Traffic is encrypted exactly when the password is not empty.
pub open spec fn encrypts(password: Seq<char>) -> bool {
    password.len() > 0
}

/// Digests `data` with `sha3::Sha3_256` through `Digest::digest`; the
/// contract claims that the 32 bytes returned are the named SHA3-256 digest of
/// `data`.
#[verifier::external_body]
fn sha3_256_digest(data: &[u8]) -> (digest: [u8; 32])
    ensures
        digest@ == sha3_256(data@),
{
    let mut digest = [0u8; 32];
    digest.copy_from_slice(Sha3_256::digest(data).as_slice());
    digest
}

/// XORs `data` with the XChaCha20 keystream of the `chacha` crate for `key`
/// and `nonce`, from byte `position` on: `chacha::ChaCha::new_xchacha20`
/// makes the stream, `SeekableKeyStream::seek_to` moves it to `position` and
/// `KeyStream::xor_read` combines it with `data`. The contract claims that
/// byte `j` of `data` is XORed with keystream byte `position + j`. Neither
/// call fails on an XChaCha20 stream before byte 2^70, which the `requires`
/// keeps far away.
#[verifier::external_body]
fn xchacha20_xor(key: &[u8; 32], nonce: &[u8; 24], position: u64, data: &mut [u8])
    requires
        position + old(data)@.len() <= u64::MAX,
    ensures
        final(data)@.len() == old(data)@.len(),
        forall|j: int|
            0 <= j < old(data)@.len() ==> #[trigger] final(data)@[j] == old(data)@[j]
                ^ xchacha20_keystream_byte(key@, nonce@, position + j),
{
    let mut stream = chacha::ChaCha::new_xchacha20(key, nonce);
    let _ = stream.seek_to(position);
    let _ = stream.xor_read(data);
}

/// Twenty-five bytes from `rand::thread_rng`, filled by `Rng::fill`. Nothing
/// is claimed of them: they are random.
#[verifier::external_body]
fn random_bytes_25() -> [u8; 25] {
    let mut bytes = [0u8; 25];
    rand::thread_rng().fill(&mut bytes);
    bytes
}

/// Fills `buf`, which holds 25 bytes, with random bytes.
pub fn random_fill_25(buf: &mut [u8])
    requires
        old(buf)@.len() == 25,
    ensures
        final(buf)@.len() == 25,
{
    let drawn = random_bytes_25();
    fill_25(buf, &drawn);
}

/// Copies the 25 bytes of `drawn` into `buf`.
pub fn fill_25(buf: &mut [u8], drawn: &[u8; 25])
    requires
        old(buf)@.len() == 25,
    ensures
        final(buf)@ == drawn@,
{
    for i in 0..25
        invariant
            buf@.len() == 25,
            forall|j: int| 0 <= j < i ==> buf@[j] == drawn@[j],
    {
        buf[i] = drawn[i];
    }
    assert(buf@ =~= drawn@);
}

/// Whether the two halves of a 16-byte frame differ.
pub open spec fn halves_differ(buf: Seq<u8>) -> bool {
    exists|i: int| 0 <= i < 8 && #[trigger] buf[i] != buf[i + 8]
}

/// Whether the first 8 bytes of `buf` differ from the next 8: a message is
/// sent twice, so a difference shows that the frame was altered.
pub fn is_tampered_16(buf: &[u8]) -> (tampered: bool)
    requires
        buf@.len() >= 16,
    ensures
        tampered == halves_differ(buf@),
        tampered == exists|i: int| 0 <= i < 8 && #[trigger] buf@[i] != buf@[i + 8],
{
    let mut tampered = false;
    for i in 0..8
        invariant
            buf@.len() >= 16,
            tampered == exists|j: int| 0 <= j < i && #[trigger] buf@[j] != buf@[j + 8],
    {
        if buf[i] != buf[i + 8] {
            tampered = true;
        }
    }
    tampered
}

#[derive(Clone, Copy)]
struct Keystream {
    key: [u8; 32],
    nonce: [u8; 24],
    position: u64,
}

/// The encryption state of one end of a connection: either no encryption,
/// or an XChaCha20 keystream given by a key, a nonce and the number of bytes
/// of it already used.
#[derive(Clone, Copy)]
pub struct ChaCha {
    internal: Option<Keystream>,
}

impl ChaCha {
    /// Whether the state encrypts.
    pub closed spec fn is_encrypted(&self) -> bool {
        self.internal is Some
    }

    /// The key of the keystream (empty without encryption).
    pub closed spec fn key(&self) -> Seq<u8> {
        match self.internal {
            Some(k) => k.key@,
            None => Seq::empty(),
        }
    }

    /// The nonce of the keystream (empty without encryption).
    pub closed spec fn nonce(&self) -> Seq<u8> {
        match self.internal {
            Some(k) => k.nonce@,
            None => Seq::empty(),
        }
    }

    /// How many bytes of the keystream were used (0 without encryption).
    pub closed spec fn position(&self) -> nat {
        match self.internal {
            Some(k) => k.position as nat,
            None => 0,
        }
    }

    /// The state after `len` more bytes were encrypted.
    pub closed spec fn advanced_by(&self, len: nat) -> ChaCha {
        match self.internal {
            Some(k) => ChaCha {
                internal: Some(
                    Keystream { key: k.key, nonce: k.nonce, position: (k.position + len) as u64 },
                ),
            },
            None => *self,
        }
    }

    /// Whether `len` more bytes can be encrypted: the position is counted in
    /// a `u64`.
    pub open spec fn can_xor(&self, len: nat) -> bool {
        self.is_encrypted() ==> self.position() + len <= u64::MAX
    }

    /// What encrypting (or decrypting) `data` in this state gives.
    pub open spec fn apply(&self, data: Seq<u8>) -> Seq<u8> {
        if self.is_encrypted() {
            keystream_xor(self.key(), self.nonce(), self.position(), data)
        } else {
            data
        }
    }

    /// Whether two states produce the same keystream from here on.
    pub open spec fn same_stream(&self, other: ChaCha) -> bool {
        &&& self.is_encrypted() == other.is_encrypted()
        &&& self.key() == other.key()
        &&& self.nonce() == other.nonce()
        &&& self.position() == other.position()
    }

    /// What `advanced_by` keeps and changes.
    pub proof fn lemma_advanced_by(&self, len: nat)
        requires
            self.can_xor(len),
        ensures
            self.advanced_by(len).is_encrypted() == self.is_encrypted(),
            self.advanced_by(len).key() == self.key(),
            self.advanced_by(len).nonce() == self.nonce(),
            self.advanced_by(len).position() == if self.is_encrypted() {
                self.position() + len
            } else {
                0
            },
    {
    }

    /// Moving on by `a` bytes, then by `b`, is moving on by `a + b`.
    pub proof fn lemma_advanced_by_add(&self, a: nat, b: nat)
        requires
            self.can_xor(a + b),
        ensures
            self.advanced_by(a).advanced_by(b) == self.advanced_by(a + b),
            self.advanced_by(a).can_xor(b),
    {
    }

    /// A state without encryption has no key, no nonce and no position.
    pub proof fn lemma_unencrypted_is_empty(&self)
        ensures
            !self.is_encrypted() ==> self.key() == Seq::<u8>::empty() && self.nonce() == Seq::<
                u8,
            >::empty() && self.position() == 0,
    {
    }

    /// Whether `len` more bytes can be encrypted.
    pub fn can_encrypt(&self, len: usize) -> (b: bool)
        ensures
            b == self.can_xor(len as nat),
    {
        match self.internal {
            Some(k) => k.position <= u64::MAX - len as u64,
            None => true,
        }
    }

    /// A new state: with `should_be_encrypted`, the keystream of the key that
    /// `password` gives and of `nonce`, from its start; else no encryption.
    pub fn new(should_be_encrypted: bool, password: &str, nonce: &[u8; 24]) -> (c: ChaCha)
        ensures
            c.is_encrypted() == should_be_encrypted,
            c.position() == 0,
            should_be_encrypted ==> c.key() == password_key(password@),
            should_be_encrypted ==> c.key() == sha3_256(encode_utf8(password@)),
            should_be_encrypted ==> c.nonce() == nonce@,
            !should_be_encrypted ==> c.key() == Seq::<u8>::empty() && c.nonce() == Seq::<
                u8,
            >::empty(),
    {
        if should_be_encrypted {
            let secret_key = sha3_256_digest(password.as_bytes());
            ChaCha { internal: Some(Keystream { key: secret_key, nonce: *nonce, position: 0 }) }
        } else {
            ChaCha { internal: None }
        }
    }

    /// Encrypts (or decrypts) `dest` in place and moves past the keystream
    /// bytes used; without encryption `dest` stays as it is.
    pub fn xor(&mut self, dest: &mut [u8])
        requires
            old(self).can_xor(old(dest)@.len()),
        ensures
            final(dest)@ == old(self).apply(old(dest)@),
            final(dest)@.len() == old(dest)@.len(),
            old(self).is_encrypted() ==> forall|j: int|
                0 <= j < old(dest)@.len() ==> #[trigger] final(dest)@[j] == old(dest)@[j]
                    ^ xchacha20_keystream_byte(old(self).key(), old(self).nonce(), old(self).position() + j),
            !old(self).is_encrypted() ==> final(dest)@ == old(dest)@,
            *final(self) == old(self).advanced_by(old(dest)@.len()),
    {
        match self.internal {
            Some(k) => {
                let len = dest.len();
                xchacha20_xor(&k.key, &k.nonce, k.position, dest);
                assert(dest@ =~= old(self).apply(old(dest)@));
                self.internal = Some(
                    Keystream { key: k.key, nonce: k.nonce, position: k.position + len as u64 },
                );
            },
            None => {},
        }
    }
}

/// Encrypting twice in the same state gives the data back: decryption is
/// encryption with the same keystream.
pub proof fn lemma_apply_twice(c: ChaCha, data: Seq<u8>)
    ensures
        c.apply(c.apply(data)) == data,
{
    if c.is_encrypted() {
        let once = c.apply(data);
        assert forall|j: int| 0 <= j < data.len() implies #[trigger] c.apply(once)[j] == data[j] by {
            let b = data[j];
            let k = xchacha20_keystream_byte(c.key(), c.nonce(), c.position() + j);
            assert((b ^ k) ^ k == b) by (bit_vector);
        }
        assert(c.apply(once) =~= data);
    }
}

/// Encrypting two pieces one after the other, the second from where the
/// first ended, is encrypting them joined.
pub proof fn lemma_apply_concat(c: ChaCha, x: Seq<u8>, y: Seq<u8>)
    requires
        c.can_xor(x.len()),
    ensures
        c.apply(x + y) == c.apply(x) + c.advanced_by(x.len()).apply(y),
{
    c.lemma_advanced_by(x.len());
    assert(c.apply(x + y) =~= c.apply(x) + c.advanced_by(x.len()).apply(y));
}

/// Two states with the same stream encrypt alike, and keep the same stream
/// after the same number of bytes.
pub proof fn lemma_same_stream(a: ChaCha, b: ChaCha, data: Seq<u8>)
    requires
        a.same_stream(b),
        a.can_xor(data.len()),
    ensures
        a.apply(data) == b.apply(data),
        a.advanced_by(data.len()).same_stream(b.advanced_by(data.len())),
{
    a.lemma_advanced_by(data.len());
    b.lemma_advanced_by(data.len());
}

/// What encrypting `data` gives on a connection whose password is
/// `password` and whose nonce is `nonce`, from byte `position` of the
/// keystream on: the data itself when the password is empty.
pub open spec fn session_apply(password: Seq<char>, nonce: Seq<u8>, position: nat, data: Seq<u8>) -> Seq<u8> {
    if encrypts(password) {
        keystream_xor(password_key(password), nonce, position, data)
    } else {
        data
    }
}

/// Whether `c` is the state of a connection with `password` and `nonce`
/// after `used` bytes were encrypted.
pub open spec fn session_stream(c: ChaCha, password: Seq<char>, nonce: Seq<u8>, used: nat) -> bool {
    &&& c.is_encrypted() == encrypts(password)
    &&& encrypts(password) ==> {
        &&& c.key() == password_key(password)
        &&& c.nonce() == nonce
        &&& c.position() == used
    }
}

/// A state of a connection encrypts as the connection does, and moves on
/// along the same connection.
pub proof fn lemma_session_stream(c: ChaCha, password: Seq<char>, nonce: Seq<u8>, used: nat, data: Seq<u8>)
    requires
        session_stream(c, password, nonce, used),
        c.can_xor(data.len()),
    ensures
        c.apply(data) == session_apply(password, nonce, used, data),
        session_stream(c.advanced_by(data.len()), password, nonce, used + data.len()),
{
    c.lemma_advanced_by(data.len());
}

/// Encrypting twice at the same place of a connection gives the data back.
pub proof fn lemma_session_apply_twice(password: Seq<char>, nonce: Seq<u8>, position: nat, data: Seq<u8>)
    ensures
        session_apply(password, nonce, position, session_apply(password, nonce, position, data))
            == data,
{
    if encrypts(password) {
        let once = session_apply(password, nonce, position, data);
        let twice = session_apply(password, nonce, position, once);
        assert forall|j: int| 0 <= j < data.len() implies #[trigger] twice[j] == data[j] by {
            let b = data[j];
            let k = xchacha20_keystream_byte(password_key(password), nonce, position + j);
            assert((b ^ k) ^ k == b) by (bit_vector);
        }
        assert(twice =~= data);
    }
}

/// Without a password, traffic goes as it is.
pub proof fn lemma_empty_password_sends_plaintext(password: Seq<char>, nonce: Seq<u8>, position: nat, data: Seq<u8>)
    requires
        password.len() == 0,
    ensures
        session_apply(password, nonce, position, data) == data,
{
}

/// Two states of the same connection after the same number of bytes have
/// the same keystream from there on.
pub proof fn lemma_session_streams_agree(a: ChaCha, b: ChaCha, password: Seq<char>, nonce: Seq<u8>, used: nat)
    requires
        session_stream(a, password, nonce, used),
        session_stream(b, password, nonce, used),
    ensures
        a.same_stream(b),
{
    a.lemma_unencrypted_is_empty();
    b.lemma_unencrypted_is_empty();
}

/// What one state encrypts, another state with the same keystream
/// decrypts: two ends that made their states with `ChaCha::new` from the same
/// arguments, and encrypted the same number of bytes since, undo each other.
pub proof fn lemma_twin_decrypts(a: ChaCha, b: ChaCha, data: Seq<u8>)
    requires
        a.same_stream(b),
    ensures
        b.apply(a.apply(data)) == data,
{
    lemma_apply_twice(a, data);
}

} // verus!
