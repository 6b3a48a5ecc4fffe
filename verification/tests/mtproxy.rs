use mtsender::aes_ctr::AesCtr;
use mtsender::client_hello::make_tls_client_hello;
use mtsender::config::{MtProxyConfig, MtProxyMode};
use mtsender::digest::{fixed_proxy_key, hmac_sha256};
use mtsender::obfuscated::make_obfuscated_header;

#[test]
fn parses_faketls_proxy_and_builds_sni_hello() {
    let config = MtProxyConfig::parse(
        "tg://proxy?server=white.mtproxy.pw&port=443&secret=ee3f8a91c2d7e04b6a9f12c5e8370bd4aa786170692e6f7a6f6e2e7275",
    )
    .expect("mtproxy url")
    .expect("valid mtproxy");

    assert_eq!(config.host, "white.mtproxy.pw");
    assert_eq!(config.port, 443);
    let MtProxyMode::FakeTls { domain } = &config.mode else {
        panic!("expected faketls");
    };
    assert_eq!(domain, "xapi.ozon.ru");

    let secret = config.proxy_secret().expect("proxy secret");
    let hello = make_tls_client_hello(domain, &secret).expect("client hello");

    assert_eq!(hello.len(), 517);
    assert!(hello.starts_with(&[0x16, 0x03, 0x01, 0x02, 0x00, 0x01, 0x00, 0x01, 0xfc]));
    assert_eq!(&hello[43..44], &[0x20]);
    assert_eq!(&hello[76..78], &[0x00, 0x22]);
    assert_eq!(hello[78], hello[79]);
    assert_eq!(hello[78] & 0x0f, 0x0a);
    assert!(hello
        .windows(domain.len())
        .any(|chunk| chunk == domain.as_bytes()));
    assert_ne!(&hello[11..43], &[0u8; 32]);

    let mut checked = hello.clone();
    let digest = checked[11..43].to_vec();
    checked[11..43].fill(0);
    let expected = hmac_sha256(&secret, &checked);
    assert_eq!(&digest[..28], &expected[..28]);
    let timestamp = u32::from_le_bytes([
        digest[28] ^ expected[28],
        digest[29] ^ expected[29],
        digest[30] ^ expected[30],
        digest[31] ^ expected[31],
    ]);
    assert!(timestamp > 1_700_000_000);
}

#[test]
fn obfuscated_header_carries_dc_id() {
    let secret = [0x3f; 16];
    let (header, _, _) = make_obfuscated_header(&secret, 2).expect("obfuscated header");

    let mut key = [0u8; 32];
    key.copy_from_slice(&header[8..40]);
    key = fixed_proxy_key(key, &secret);
    let iv: [u8; 16] = header[40..56].try_into().unwrap();
    let mut cipher = AesCtr::new(&key, &iv);
    let mut prefix = [0u8; 56];
    cipher.apply(&mut prefix);
    let mut tail = header[56..64].to_vec();
    cipher.apply(&mut tail);

    assert_eq!(&tail[0..4], &0xee_ee_ee_ee_u32.to_le_bytes());
    assert_eq!(&tail[4..6], &2_i16.to_le_bytes());
}
