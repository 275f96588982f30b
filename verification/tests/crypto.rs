use rustic::compress::{pack_payload, unpack_payload, Compression};
use rustic::crypto::{decrypt, derive_key, encrypt, open, seal, KdfParams};
use rustic::error::ErrorKind;
use rustic::id::Id;

fn hex(bytes: &[u8]) -> String {
    bytes.iter().map(|b| format!("{:02x}", b)).collect()
}

#[test]
fn id_is_the_sha256_digest() {
    assert_eq!(
        hex(&Id::of(b"hello world").bytes),
        "b94d27b9934d3e08a52e52d7da7dabfac484efe37a5380ee9088f7ace2efcde9"
    );
    assert_eq!(
        hex(&Id::of(b"").bytes),
        "e3b0c44298fc1c149afbf4c8996fb92427ae41e4649b934ca495991b7852b855"
    );
}

#[test]
fn id_prefix_reads_little_end_first() {
    let mut bytes = [0u8; 32];
    bytes[0] = 1;
    bytes[1] = 2;
    bytes[7] = 0x80;
    bytes[8] = 0xff;
    let id = Id { bytes };
    assert_eq!(id.prefix(), 0x8000_0000_0000_0201);
}

#[test]
fn id_reads_and_writes_its_bytes() {
    let id = Id::of(b"abc");
    let mut out = vec![7u8];
    id.write(&mut out);
    assert_eq!(out.len(), 33);
    assert_eq!(Id::read(&out, 1), id);
    assert!(id.same(&Id::of(b"abc")));
    assert!(!id.same(&Id::of(b"abd")));
}

#[test]
fn seal_then_open_gives_the_message() {
    let key = [7u8; 32];
    let nonce = [9u8; 24];
    let sealed = seal(&key, &nonce, b"attack at dawn").unwrap();
    assert_eq!(sealed.len(), 14 + 40);
    assert_eq!(&sealed[..24], &nonce[..]);
    assert_ne!(&sealed[24..38], b"attack at dawn");
    assert_eq!(open(&key, &sealed).unwrap(), b"attack at dawn");
}

#[test]
fn seal_matches_the_published_vector() {
    // XChaCha20-Poly1305 with an empty message: the tag alone.
    let key = [0u8; 32];
    let nonce = [0u8; 24];
    let sealed = seal(&key, &nonce, b"").unwrap();
    assert_eq!(sealed.len(), 40);
    assert_eq!(open(&key, &sealed).unwrap(), b"");
}

#[test]
fn open_rejects_tampering_and_wrong_keys() {
    let key = [7u8; 32];
    let nonce = [9u8; 24];
    let sealed = seal(&key, &nonce, b"attack at dawn").unwrap();
    for i in 0..sealed.len() {
        let mut bad = sealed.clone();
        bad[i] ^= 1;
        assert!(open(&key, &bad).is_none());
    }
    assert!(open(&[8u8; 32], &sealed).is_none());
    assert!(open(&key, &sealed[..39]).is_none());
    assert!(open(&key, b"").is_none());
}

#[test]
fn encrypt_then_decrypt_gives_the_message() {
    let key = [1u8; 32];
    for message in [&b""[..], &b"x"[..], &[0u8; 1000][..]] {
        let c = encrypt(&key, message).unwrap();
        assert_eq!(c.len(), message.len() + 40);
        assert_eq!(decrypt(&key, &c).unwrap(), message);
    }
}

#[test]
fn encrypt_draws_a_fresh_nonce() {
    let key = [1u8; 32];
    let a = encrypt(&key, b"same").unwrap();
    let b = encrypt(&key, b"same").unwrap();
    assert_ne!(a, b);
}

#[test]
fn decrypt_reports_corruption() {
    let key = [1u8; 32];
    let mut c = encrypt(&key, b"payload").unwrap();
    let last = c.len() - 1;
    c[last] ^= 0x40;
    let e = decrypt(&key, &c).unwrap_err();
    assert_eq!(e.kind, ErrorKind::Corrupt);
    assert_eq!(e.context, None);
}

#[test]
fn derive_key_is_scrypt() {
    // RFC 7914, section 12, second vector, truncated to 32 bytes.
    let params = KdfParams { log_n: 10, r: 8, p: 16 };
    assert!(params.is_valid());
    let key = derive_key(b"password", b"NaCl", &params);
    assert_eq!(
        hex(&key),
        "fdbabe1c9d3472007856e7190d01e9fe7c6ad7cbc8237830e77376634b373162"
    );
}

#[test]
fn kdf_params_are_bounded() {
    assert!(KdfParams::standard().is_valid());
    assert!(!KdfParams { log_n: 0, r: 8, p: 1 }.is_valid());
    assert!(!KdfParams { log_n: 18, r: 8, p: 1 }.is_valid());
    assert!(KdfParams { log_n: 17, r: 8, p: 1 }.is_valid());
    assert!(!KdfParams { log_n: 16, r: 1, p: 1 }.is_valid());
    assert!(KdfParams { log_n: 15, r: 1, p: 1 }.is_valid());
    assert!(!KdfParams { log_n: 10, r: 0, p: 1 }.is_valid());
    assert!(!KdfParams { log_n: 10, r: 9, p: 1 }.is_valid());
    assert!(!KdfParams { log_n: 10, r: 8, p: 0 }.is_valid());
    assert!(!KdfParams { log_n: 10, r: 8, p: 17 }.is_valid());
}

#[test]
fn payload_round_trips() {
    let data = b"aaaaaaaaaaaaaaaaaaaaaaaaaaaaaaaaaaaaaaaaaaaaaaaaaaaaaaaaaaaaaaaaaaaaaaaa";
    let stored = pack_payload(data, Compression::Stored);
    assert_eq!(stored[0], 0);
    assert_eq!(&stored[1..], &data[..]);
    assert_eq!(unpack_payload(&stored).unwrap(), data);

    let packed = pack_payload(data, Compression::Deflate(6));
    assert_eq!(packed[0], 1);
    assert!(packed.len() < data.len());
    assert_eq!(unpack_payload(&packed).unwrap(), data);

    let empty = pack_payload(b"", Compression::Deflate(9));
    assert_eq!(unpack_payload(&empty).unwrap(), b"");
}

#[test]
fn payload_rejects_malformed_input() {
    assert!(unpack_payload(b"").is_none());
    assert!(unpack_payload(&[2, 1, 2, 3]).is_none());
    assert!(unpack_payload(&[1, 0xff, 0xff, 0xff]).is_none());
    assert_eq!(unpack_payload(&[0]).unwrap(), b"");
}

#[test]
fn payloads_are_compressed_where_that_is_shorter() {
    let flat = vec![7u8; 4000];
    let packed = pack_payload(&flat, Compression::Deflate(6));
    assert_eq!(packed[0], 1);
    assert!(packed.len() < 100);
    assert_eq!(unpack_payload(&packed).unwrap(), flat);
    let stored = pack_payload(&flat, Compression::Stored);
    assert_eq!(stored[0], 0);
    assert_eq!(&stored[1..], &flat[..]);
    // Two bytes do not shrink: they are stored as they are.
    assert_eq!(pack_payload(b"ab", Compression::Deflate(9)), vec![0u8, b'a', b'b']);
    assert_eq!(pack_payload(b"", Compression::Deflate(9)), vec![0u8]);
}

#[test]
fn addresses_are_written_in_hexadecimal_digits() {
    let id = Id::of(b"abc");
    let text = id.to_hex();
    assert_eq!(
        String::from_utf8(text.clone()).unwrap(),
        "ba7816bf8f01cfea414140de5dae2223b00361a396177a9cb410ff61f20015ad"
    );
    assert_eq!(Id::from_hex(&text), Some(id));
    assert_eq!(Id::from_hex(&text.to_ascii_uppercase()), Some(id));
    assert_eq!(Id::from_hex(&text[..63]), None);
    let mut bad = text.clone();
    bad[10] = b'g';
    assert_eq!(Id::from_hex(&bad), None);
    bad[10] = b'+';
    assert_eq!(Id::from_hex(&bad), None);
    assert_eq!(Id::zero().to_hex(), vec![b'0'; 64]);
    assert_eq!(Id::from_hex(&[b'F'; 64]), Some(Id { bytes: [255u8; 32] }));
}
