use distill_fs::bytes::{be_to_u32, be_to_u64, bytes_before, le_to_u32, le_to_u64, u32_to_le};
use distill_fs::checksum::{CheckSum, CheckSumMethod, CheckSumOnDisk};
use distill_fs::error::ErrorKind;

#[test]
fn test_checksum_logic() {
    let data = b"hello world";
    let cs_sha256 = CheckSum::from_data(data, CheckSumMethod::Sha256);
    let cs_blake3 = CheckSum::from_data(data, CheckSumMethod::Blake3);

    assert_ne!(cs_sha256.method, CheckSumMethod::Unknown);
    assert_ne!(cs_blake3.method, CheckSumMethod::Unknown);
    assert_ne!(cs_sha256.raw, cs_blake3.raw);
    assert_eq!(cs_sha256.method, CheckSumMethod::Sha256);
    assert_eq!(cs_blake3.method, CheckSumMethod::Blake3);

    let empty_cs = CheckSum::empty();
    assert_eq!(empty_cs.method, CheckSumMethod::Unknown);
}

#[test]
fn digests_are_those_of_the_methods() {
    let sha = CheckSum::from_data(b"abc", CheckSumMethod::Sha256);
    assert_eq!(
        sha.to_text(),
        "Sha256:ba7816bf8f01cfea414140de5dae2223b00361a396177a9cb410ff61f20015ad"
    );
    let blake = CheckSum::from_data(b"", CheckSumMethod::Blake3);
    assert_eq!(
        blake.to_text(),
        "Blake3:af1349b9f5f9a1a6a0404dea36dcc9499bcb25c9adc112b7cc9a93cae41f3262"
    );
    let unknown = CheckSum::from_data(b"", CheckSumMethod::Unknown);
    assert_eq!(unknown.raw, blake.raw);
    assert_eq!(unknown.method, CheckSumMethod::Unknown);
}

#[test]
fn methods_have_bytes() {
    assert_eq!(u8::from(CheckSumMethod::Sha256), 0);
    assert_eq!(u8::from(CheckSumMethod::Blake3), 1);
    assert_eq!(u8::from(CheckSumMethod::Unknown), 2);
    for b in 0..3 {
        assert_eq!(u8::from(CheckSumMethod::from(b)), b);
    }
    assert_eq!(CheckSumMethod::from(9), CheckSumMethod::Unknown);
}

#[test]
fn a_digest_has_32_bytes() {
    let cs = CheckSum::new(&[7; 32], CheckSumMethod::Blake3).unwrap();
    assert_eq!(cs.raw, [7; 32]);
    let e = CheckSum::new(&[7; 31], CheckSumMethod::Blake3).unwrap_err();
    assert_eq!(e.kind, ErrorKind::InvalidInput);
    assert_eq!(e.message, "Invalid checksum data len");
}

#[test]
fn stored_checksums_come_back() {
    let cs = CheckSum::from_data(b"stored", CheckSumMethod::Sha256);
    let stored = CheckSumOnDisk::from(cs);
    assert!(stored.is_valid());
    let bytes = stored.to_bytes();
    assert_eq!(bytes.len(), 40);
    assert_eq!(&bytes[..32], &cs.raw);
    let back = CheckSumOnDisk::from_bytes(&bytes, 0);
    assert!(back.same(&stored));
    assert!(CheckSum::from(back).same(&cs));
    assert!(!CheckSumOnDisk::from(CheckSum::empty()).is_valid());
    assert!(!stored.same(&CheckSumOnDisk::from(CheckSum::empty())));
}

#[test]
fn numbers_are_read_from_bytes() {
    let s = [1, 2, 3, 4, 5, 6, 7, 8];
    assert_eq!(be_to_u64(&s, 0), u64::from_be_bytes(s));
    assert_eq!(le_to_u64(&s, 0), u64::from_le_bytes(s));
    assert_eq!(be_to_u32(&s, 2), 0x03040506);
    assert_eq!(le_to_u32(&s, 2), 0x06050403);
    assert_eq!(u32_to_le(0x06050403), [3, 4, 5, 6]);
    assert!(bytes_before(b"ab", b"abc"));
    assert!(!bytes_before(b"b", b"abc"));
}
