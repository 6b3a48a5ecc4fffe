use mtsender::aes_ctr::{increment_be, AesCtr};
use mtsender::digest::{fixed_proxy_key, hmac_sha256};
use mtsender::octets::{le_i16, le_u32, read_le_u32, same_bytes, slice_copy};
use sha2::{Digest, Sha256};

fn bytes(hex: &str) -> Vec<u8> {
    (0..hex.len())
        .step_by(2)
        .map(|i| u8::from_str_radix(&hex[i..i + 2], 16).unwrap())
        .collect()
}

const KEY: &str = "603deb1015ca71be2b73aef0857d77811f352c073b6108d72d9810a30914dff4";
const COUNTER: &str = "f0f1f2f3f4f5f6f7f8f9fafbfcfdfeff";
const PLAIN: &str = "6bc1bee22e409f96e93d7e117393172aae2d8a571e03ac9c9eb76fac45af8e5130c81c46a35ce411e5fbc1191a0a52eff69f2445df4f9b17ad2b417be66c3710";
const HIDDEN: &str = "601ec313775789a5b7a7f504bbf3d228f443e3ca4d62b59aca84e990cacaf5c52b0930daa23de94ce87017ba2d84988ddfc9c58db67aada613c2dd08457941a6";

fn cipher() -> AesCtr {
    let key: [u8; 32] = bytes(KEY).try_into().unwrap();
    let iv: [u8; 16] = bytes(COUNTER).try_into().unwrap();
    AesCtr::new(&key, &iv)
}

#[test]
fn counter_mode_gives_the_published_vectors() {
    let mut data = bytes(PLAIN);
    cipher().apply(&mut data);
    assert_eq!(data, bytes(HIDDEN));
}

#[test]
fn counter_mode_is_its_own_inverse() {
    let mut data = bytes(HIDDEN);
    cipher().apply(&mut data);
    assert_eq!(data, bytes(PLAIN));
}

#[test]
fn counter_mode_streams() {
    let mut cipher = cipher();
    let mut data = bytes(PLAIN);
    let (first, rest) = data.split_at_mut(5);
    let (second, third) = rest.split_at_mut(30);
    cipher.apply(first);
    cipher.apply(&mut []);
    cipher.apply(second);
    cipher.apply(third);
    assert_eq!(data, bytes(HIDDEN));
}

#[test]
fn the_counter_wraps_around() {
    let mut counter = [0xffu8; 16];
    increment_be(&mut counter);
    assert_eq!(counter, [0u8; 16]);

    let mut counter = [0u8; 16];
    counter[14] = 0x01;
    counter[15] = 0xff;
    increment_be(&mut counter);
    assert_eq!(&counter[13..], &[0x00, 0x02, 0x00]);

    let mut wrapped = vec![0u8; 32];
    AesCtr::new(&[7u8; 32], &[0xffu8; 16]).apply(&mut wrapped);
    let mut from_zero = vec![0u8; 16];
    AesCtr::new(&[7u8; 32], &[0u8; 16]).apply(&mut from_zero);
    assert_eq!(&wrapped[16..], &from_zero[..]);
}

#[test]
fn authentication_codes_match_the_published_vectors() {
    assert_eq!(
        hmac_sha256(&[0x0b; 20], b"Hi There").to_vec(),
        bytes("b0344c61d8db38535ca8afceaf0bf12b881dc200c9833da726e9376c2e32cff7")
    );
    assert_eq!(
        hmac_sha256(
            &[0xaa; 131],
            b"Test Using Larger Than Block-Size Key - Hash Key First"
        )
        .to_vec(),
        bytes("60e431591ee0b67f0d8a26aacbf5b77f8e0bc6213728c5140546040f0ee37f54")
    );
}

#[test]
fn long_keys_are_hashed_first() {
    let key = [0x42u8; 65];
    let hashed: [u8; 32] = Sha256::digest(key).into();
    assert_eq!(hmac_sha256(&key, b"data"), hmac_sha256(&hashed, b"data"));
}

#[test]
fn zero_padding_of_a_short_key_makes_no_difference() {
    let mut padded = vec![1u8, 2, 3];
    let code = hmac_sha256(&padded, b"data");
    padded.resize(64, 0);
    assert_eq!(hmac_sha256(&padded, b"data"), code);
    padded.push(0);
    assert_ne!(hmac_sha256(&padded, b"data"), code);
}

#[test]
fn keys_are_mixed_with_the_secret() {
    let mut key = [0u8; 32];
    for (i, byte) in key.iter_mut().enumerate() {
        *byte = i as u8;
    }
    assert_eq!(
        fixed_proxy_key(key, &[0x3f; 16]).to_vec(),
        bytes("de7fe9492e899545106762f91c25797971edc30a06e93f1009983b2a64faf51c")
    );
}

#[test]
fn integers_are_written_least_significant_byte_first() {
    assert_eq!(le_u32(0x0102_0304), [4, 3, 2, 1]);
    assert_eq!(le_i16(2), [2, 0]);
    assert_eq!(le_i16(-2), [0xfe, 0xff]);
    assert_eq!(le_i16(i16::MIN), i16::MIN.to_le_bytes());
    assert_eq!(read_le_u32(&[4, 3, 2, 1, 9]), 0x0102_0304);
    assert_eq!(read_le_u32(&[0xff; 4]), u32::MAX);
}

#[test]
fn bytes_are_compared_and_copied() {
    assert!(same_bytes(&[], &[]));
    assert!(same_bytes(&[1, 2], &[1, 2]));
    assert!(!same_bytes(&[1, 2], &[1, 3]));
    assert!(!same_bytes(&[1, 2], &[1, 2, 3]));
    assert_eq!(slice_copy(&[1, 2, 3, 4], 1, 3), vec![2, 3]);
}
