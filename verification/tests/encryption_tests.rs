use chacha::KeyStream;
use sha3::{Digest, Sha3_256};
use x11_input_mirror::encryption::{fill_25, is_tampered_16, random_fill_25, ChaCha};

fn reference_keystream_xor(password: &str, nonce: &[u8; 24], data: &mut [u8]) {
    let mut key = [0u8; 32];
    key.copy_from_slice(Sha3_256::digest(password.as_bytes()).as_slice());
    let mut stream = chacha::ChaCha::new_xchacha20(&key, nonce);
    stream.xor_read(data).unwrap();
}

#[test]
fn untampered_frame() {
    let mut buf = [0u8; 16];
    for i in 0..8 {
        buf[i] = i as u8 * 3;
        buf[i + 8] = i as u8 * 3;
    }
    assert!(!is_tampered_16(&buf));
}

#[test]
fn tampered_frame() {
    let mut buf = [7u8; 16];
    buf[15] = 8;
    assert!(is_tampered_16(&buf));
    let mut buf = [7u8; 16];
    buf[0] = 0;
    assert!(is_tampered_16(&buf));
}

#[test]
fn random_fill_fills_25_bytes() {
    let mut a = [0u8; 25];
    let mut b = [0u8; 25];
    random_fill_25(&mut a);
    random_fill_25(&mut b);
    assert_ne!(a, b);
}

#[test]
fn without_encryption_data_is_unchanged() {
    let mut c = ChaCha::new(false, "", &[9u8; 24]);
    let mut data = *b"hello, world";
    c.xor(&mut data);
    assert_eq!(&data, b"hello, world");
}

#[test]
fn encryption_is_xchacha20_with_sha3_key() {
    let nonce = [5u8; 24];
    let mut c = ChaCha::new(true, "correct horse battery", &nonce);
    let mut data = *b"ping_fds321sfr";
    c.xor(&mut data);
    let mut expected = *b"ping_fds321sfr";
    reference_keystream_xor("correct horse battery", &nonce, &mut expected);
    assert_eq!(data, expected);
    assert_ne!(&data, b"ping_fds321sfr");
}

#[test]
fn keystream_continues_across_calls() {
    let nonce = [1u8; 24];
    let mut c = ChaCha::new(true, "a password of length", &nonce);
    let mut whole = [0u8; 150];
    for i in 0..150 {
        whole[i] = i as u8;
    }
    let mut pieces = whole;
    c.xor(&mut pieces[..14]);
    c.xor(&mut pieces[14..80]);
    c.xor(&mut pieces[80..]);
    reference_keystream_xor("a password of length", &nonce, &mut whole);
    assert_eq!(pieces, whole);
}

#[test]
fn decryption_is_encryption() {
    let nonce = [200u8; 24];
    let mut sender = ChaCha::new(true, "twelve chars", &nonce);
    let mut receiver = ChaCha::new(true, "twelve chars", &nonce);
    let message = [100u8, 1, 2, 3, 4, 5, 6, 7];
    for _ in 0..5 {
        let mut data = message;
        sender.xor(&mut data);
        receiver.xor(&mut data);
        assert_eq!(data, message);
    }
}

#[test]
fn fill_25_copies_the_drawn_bytes() {
    let mut buf = [0u8; 25];
    let mut drawn = [0u8; 25];
    for i in 0..25 {
        drawn[i] = 200 - i as u8;
    }
    fill_25(&mut buf, &drawn);
    assert_eq!(buf, drawn);
}

#[test]
fn twin_states_undo_each_other() {
    let nonce = [3u8; 24];
    let mut a = ChaCha::new(true, "same password here", &nonce);
    let mut b = ChaCha::new(true, "same password here", &nonce);
    let mut data = *b"some bytes of traffic";
    a.xor(&mut data);
    b.xor(&mut data);
    assert_eq!(&data, b"some bytes of traffic");
}
