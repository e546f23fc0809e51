use tempkeys::vault::{
    aad, decrypt, encrypt, header_of, hex, openable, parse_header, sealable, Generation, GEN_LEN,
    HEADER_LEN, KEY_LEN, NONCE_LEN,
};

const KEY: [u8; KEY_LEN] = [7; KEY_LEN];
const GEN: Generation = [1; GEN_LEN];
const NONCE: [u8; NONCE_LEN] = [9; NONCE_LEN];

fn seal(set: &str, name: &str, msg: &[u8]) -> Vec<u8> {
    encrypt(&KEY, &GEN, 1000, set, name, msg, &NONCE).unwrap()
}

fn refusal(key: &[u8], file: &[u8]) -> String {
    match decrypt(key, file, "s", "K") {
        Ok(_) => panic!("it was decrypted"),
        Err(e) => e,
    }
}

#[test]
fn round_trip_binary() {
    let msg = [0u8, 255, 10, 0, 42];
    let f = seal("s", "K", &msg);
    let h = parse_header(&f).unwrap();
    assert_eq!((h.generation, h.expiry), (GEN, 1000));
    assert_eq!(decrypt(&KEY, &f, "s", "K").unwrap().0, msg);
    assert!(!f.windows(msg.len()).any(|w| w == msg));
}

#[test]
fn wrong_key_or_context_fails() {
    let f = seal("s", "K", b"v");
    assert!(decrypt(&[8; KEY_LEN], &f, "s", "K").is_err());
    assert!(decrypt(&KEY, &f, "s", "OTHER").is_err(), "swapped key name");
    assert!(decrypt(&KEY, &f, "t", "K").is_err(), "moved keyset");
}

#[test]
fn tampering_fails() {
    let f = seal("s", "K", b"v");
    for i in [5, HEADER_LEN - 1, HEADER_LEN + 3, f.len() - 1] {
        let mut g = f.clone();
        g[i] ^= 1;
        assert!(decrypt(&KEY, &g, "s", "K").is_err(), "byte {i}");
    }
}

#[test]
fn layout_of_a_file() {
    let f = encrypt(&KEY, &[0xab; 16], 0x0102030405060708, "s", "K", b"secret", &NONCE).unwrap();
    assert_eq!(f.len(), HEADER_LEN + NONCE_LEN + 6 + 16);
    assert_eq!(&f[..4], b"TKY1");
    assert_eq!(&f[4..20], &[0xab; 16]);
    assert_eq!(&f[20..28], &[1, 2, 3, 4, 5, 6, 7, 8]);
    assert_eq!(&f[28..52], &NONCE);
}

#[test]
fn refusals_are_exact() {
    let f = seal("s", "K", b"v");
    assert_eq!(refusal(&KEY[..31], &f), "bad key length");
    assert_eq!(
        refusal(&[8; KEY_LEN], &f),
        "decryption failed: wrong key, or the file was modified or moved"
    );
    assert_eq!(refusal(&KEY, &f[..51]), "not a tempkeys secret file");
    assert_eq!(refusal(&KEY[..1], b"TKY0"), "not a tempkeys secret file");
    // A header and a nonce, and less than a tag behind them.
    assert_eq!(
        refusal(&KEY, &f[..60]),
        "decryption failed: wrong key, or the file was modified or moved"
    );
    match encrypt(&KEY[..16], &GEN, 1, "s", "K", b"v", &NONCE) {
        Ok(_) => panic!("a short key was taken"),
        Err(e) => assert_eq!(e, "bad key length"),
    }
}

#[test]
fn headers_need_the_magic_and_their_length() {
    let mut f = vec![0u8; 52];
    f[..4].copy_from_slice(b"TKY1");
    f[27] = 5;
    let h = parse_header(&f).unwrap();
    assert_eq!((h.generation, h.expiry), ([0; 16], 5));
    assert!(header_of(&Some(f.clone())).is_some());
    assert!(header_of(&Some(f[..51].to_vec())).is_none());
    assert!(header_of(&None).is_none());
    f[3] = b'2';
    assert!(parse_header(&f).is_err());
}

#[test]
fn nothing_and_much_can_be_sealed() {
    for n in [0usize, 1, 63, 64, 65, 5000] {
        let msg: Vec<u8> = (0..n).map(|i| (i % 251) as u8).collect();
        let f = seal("set.1", "N", &msg);
        assert_eq!(decrypt(&KEY, &f, "set.1", "N").unwrap().0, msg);
    }
}

#[test]
fn nonces_and_generations_change_the_file() {
    let a = seal("s", "K", b"value");
    let b = encrypt(&KEY, &GEN, 1000, "s", "K", b"value", &[10; 24]).unwrap();
    let c = encrypt(&KEY, &[2; 16], 1000, "s", "K", b"value", &NONCE).unwrap();
    assert_ne!(a[52..], b[52..]);
    assert_ne!(a[52..], c[52..]);
}

#[test]
fn hexadecimal_of_a_generation() {
    let mut g = [0u8; 16];
    g[0] = 0x0f;
    g[1] = 0xa9;
    g[15] = 0xff;
    assert_eq!(hex(&g), "0fa900000000000000000000000000ff");
}

#[test]
fn lengths_that_overrun_the_key_stream() {
    assert!(sealable(0));
    assert!(sealable(1 << 20));
    assert!(openable(0));
    assert!(openable(68));
    if usize::BITS == 64 {
        let last = 64 * 0xffff_fffeusize;
        assert!(sealable(last));
        assert!(!sealable(last + 1));
        assert!(!sealable(last + 63));
        assert!(sealable(last + 64));
        assert!(openable(last + 68));
        assert!(!openable(last + 69));
        assert!(openable(last + 64 + 68));
        assert!(!sealable(isize::MAX as usize));
    }
}

#[test]
fn associated_data_name_header_keyset_and_key() {
    assert_eq!(aad(b"he", "a", "bc"), b"he\0a\0bc");
    assert_eq!(aad(b"", "", ""), b"\0\0");
    assert_ne!(aad(b"he", "a", "bc"), aad(b"he", "ab", "c"));
    assert_ne!(aad(b"he", "a", "bc"), aad(b"hf", "a", "bc"));
}
