use aes_gcm::aead::{Aead, KeyInit};
use aes_gcm::{Aes256Gcm, Key, Nonce};
use ghostrpc::crypto::{
    clamp_padding, decrypt_payload, derive_cipher, encrypt_payload, seal_payload, strip_padding,
};
use sha2::{Digest, Sha256};

fn sealed_by_hand(secret: &str, plaintext: &[u8]) -> Vec<u8> {
    let digest = Sha256::digest(secret.as_bytes());
    let cipher = Aes256Gcm::new(Key::<Aes256Gcm>::from_slice(&digest));
    let nonce = [9u8; 12];
    let mut out = nonce.to_vec();
    out.extend(cipher.encrypt(Nonce::from_slice(&nonce), plaintext).unwrap());
    out
}

#[test]
fn sealed_payload_has_this_form() {
    let cipher = derive_cipher("secret");
    let nonce: [u8; 12] = [0, 1, 2, 3, 4, 5, 6, 7, 8, 9, 10, 11];
    let sealed = seal_payload(&cipher, &[0xaa; 16], &nonce, b"hello");
    let expected: Vec<u8> = vec![
        0x00, 0x01, 0x02, 0x03, 0x04, 0x05, 0x06, 0x07, 0x08, 0x09, 0x0a, 0x0b, 0xa9, 0xc6, 0x0e,
        0x21, 0xc3, 0x69, 0xcf, 0x2b, 0x6b, 0xfe, 0xd4, 0x35, 0xac, 0xf6, 0xef, 0x97, 0xc1, 0xd0,
        0x94, 0xfa, 0x94, 0x97, 0xda, 0xe3, 0x97, 0x9e, 0xb0, 0x1b, 0xbf, 0x62, 0x58, 0xe4, 0xf9,
        0x6f, 0x14, 0xba, 0xa5, 0xec, 0x11,
    ];
    assert_eq!(sealed.to_vec(), expected);
    assert_eq!(decrypt_payload(&cipher, &sealed), Ok(b"hello".to_vec()));
}

#[test]
fn payload_round_trip() {
    let cipher = derive_cipher("key");
    for drawn in [i32::MIN, 0, 15, 16, 128, 512, 513, i32::MAX] {
        let sealed = encrypt_payload(&cipher, b"some data", drawn);
        let padding = clamp_padding(drawn) as usize;
        assert_eq!(sealed.len(), 12 + 2 + padding + 9 + 16);
        assert_eq!(decrypt_payload(&cipher, &sealed), Ok(b"some data".to_vec()));
    }
    let a = encrypt_payload(&cipher, b"", 20);
    let b = encrypt_payload(&cipher, b"", 20);
    assert_ne!(a[..12], b[..12]);
    assert_eq!(decrypt_payload(&cipher, &a), Ok(Vec::new()));
}

#[test]
fn padding_is_clamped() {
    assert_eq!(clamp_padding(-5), 16);
    assert_eq!(clamp_padding(16), 16);
    assert_eq!(clamp_padding(100), 100);
    assert_eq!(clamp_padding(512), 512);
    assert_eq!(clamp_padding(1000), 512);
}

#[test]
fn bad_payloads_are_told_apart() {
    let cipher = derive_cipher("key");
    assert_eq!(decrypt_payload(&cipher, &[0; 11]), Err("Payload too short"));
    assert_eq!(decrypt_payload(&cipher, &[0; 12]), Err("Decryption failed"));
    assert_eq!(decrypt_payload(&cipher, &[0; 27]), Err("Decryption failed"));
    assert_eq!(decrypt_payload(&cipher, &[0; 40]), Err("Decryption failed"));
    assert_eq!(decrypt_payload(&cipher, &sealed_by_hand("key", &[1])), Err("Plaintext too short"));
    assert_eq!(decrypt_payload(&cipher, &sealed_by_hand("key", &[0, 3, 1, 2])), Err("Invalid padding"));
    assert_eq!(decrypt_payload(&cipher, &sealed_by_hand("key", &[0, 1, 7, 8, 9])), Ok(vec![8, 9]));
    assert_eq!(decrypt_payload(&cipher, &sealed_by_hand("other", &[0, 0])), Err("Decryption failed"));
    let mut sealed = encrypt_payload(&cipher, b"data", 16).to_vec();
    sealed[20] ^= 1;
    assert_eq!(decrypt_payload(&cipher, &sealed), Err("Decryption failed"));
}

#[test]
fn padding_is_stripped() {
    assert_eq!(strip_padding(&[]), Err("Plaintext too short"));
    assert_eq!(strip_padding(&[1, 0, 5]), Err("Invalid padding"));
    assert_eq!(strip_padding(&[0, 2, 9, 9, 1, 2, 3]), Ok(vec![1, 2, 3]));
}

#[test]
fn padding_is_random_and_in_front() {
    let sealed = encrypt_payload(&derive_cipher("key"), b"tail", 64);
    let digest = Sha256::digest(b"key");
    let cipher = Aes256Gcm::new(Key::<Aes256Gcm>::from_slice(&digest));
    let plain = cipher.decrypt(Nonce::from_slice(&sealed[..12]), &sealed[12..]).unwrap();
    assert_eq!(plain[..2].to_vec(), vec![0, 64]);
    assert!(plain[2..66].iter().any(|b| *b != 0));
    assert_eq!(plain[66..].to_vec(), b"tail".to_vec());
}
