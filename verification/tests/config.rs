use mtsender::config::{
    choose_secret, decode_secret, parse_host_port, parse_port, MtProxyConfig, MtProxyMode,
};
use mtsender::errors::{ErrorKind, MtProxyError};

const SECRET: &str = "3f8a91c2d7e04b6a9f12c5e8370bd4aa";

fn parsed(url: &str) -> MtProxyConfig {
    MtProxyConfig::parse(url).expect("proxy url").expect("valid")
}

fn refused(url: &str) -> &'static str {
    let err = MtProxyConfig::parse(url).expect("proxy url").unwrap_err();
    assert_eq!(err.kind(), ErrorKind::InvalidData);
    err.message().expect("message")
}

#[test]
fn other_urls_are_left_alone() {
    assert!(MtProxyConfig::parse("socks5://host:1080").is_none());
    assert!(MtProxyConfig::parse("tg://proxy").is_none());
    assert!(MtProxyConfig::parse("").is_none());
}

#[test]
fn links_are_read() {
    let config = parsed(&format!(
        "https://t.me/proxy?server=a%2Eb&port=8443&secret={}",
        SECRET
    ));
    assert_eq!(config.host, "a.b");
    assert_eq!(config.port, 8443);
    assert_eq!(config.secret.len(), 16);
    assert!(matches!(config.mode, MtProxyMode::Obfuscated));
    assert_eq!(config.proxy_secret().unwrap().to_vec(), config.secret);
}

#[test]
fn the_last_of_several_values_counts() {
    let config = parsed(&format!(
        "tg://proxy?server=a&server=b&port=1&port=2&secret=00&secret={}&x&y=z",
        SECRET
    ));
    assert_eq!(config.host, "b");
    assert_eq!(config.port, 2);
}

#[test]
fn a_secret_with_a_leading_dd_has_its_key_after_it() {
    let config = parsed(&format!("mtproxy://host:443/dd{}", SECRET));
    assert_eq!(config.secret.len(), 17);
    assert!(matches!(config.mode, MtProxyMode::Obfuscated));
    assert_eq!(config.proxy_secret().unwrap().to_vec(), config.secret[1..]);
}

#[test]
fn a_secret_with_a_leading_ee_names_a_domain() {
    let config = parsed(&format!("mtproxy://host:443/ee{}612e62", SECRET));
    assert_eq!(config.secret.len(), 20);
    let MtProxyMode::FakeTls { domain } = &config.mode else {
        panic!("expected a domain");
    };
    assert_eq!(domain, "a.b");
    assert_eq!(
        config.proxy_secret().unwrap().to_vec(),
        config.secret[1..17]
    );
}

#[test]
fn mtproxy_urls_have_several_forms() {
    let with_query = parsed(&format!("mtproxy://1.2.3.4:443?s={}", SECRET));
    assert_eq!((with_query.host.as_str(), with_query.port), ("1.2.3.4", 443));

    let secret_first = parsed(&format!("mtproxy://{}?server=h&port=5", SECRET));
    assert_eq!((secret_first.host.as_str(), secret_first.port), ("h", 5));
    assert_eq!(secret_first.secret.len(), 16);

    let all_in_query = parsed(&format!(
        "mtproxy://ignored?server=h&port=5&secret={}",
        SECRET
    ));
    assert_eq!(all_in_query.secret, secret_first.secret);

    let v6 = parsed(&format!("mtproxy://[::1]:443/{}", SECRET));
    assert_eq!((v6.host.as_str(), v6.port), ("[::1]", 443));
}

#[test]
fn what_is_missing_is_named() {
    assert_eq!(refused("tg://proxy?port=1&secret=00"), "mtproxy host missing");
    assert_eq!(refused("tg://proxy?server=a&secret=00"), "mtproxy port missing");
    assert_eq!(refused("tg://proxy?server=a&port=1"), "mtproxy secret missing");
    assert_eq!(refused("tg://proxy?server=a&port=1&s=00"), "mtproxy secret missing");
    assert_eq!(refused("mtproxy://x?port=1"), "mtproxy host missing");
    assert_eq!(refused("mtproxy://x?server=1"), "mtproxy port missing");
    assert_eq!(refused("mtproxy://h:1?server=1"), "mtproxy secret missing");
    assert_eq!(refused("mtproxy://h:1"), "mtproxy secret missing");
    assert_eq!(refused("mtproxy://h/00"), "proxy port missing");
}

#[test]
fn what_is_invalid_is_named() {
    assert_eq!(refused("tg://proxy?server=a&port=0&secret=00"), "invalid proxy port");
    assert_eq!(refused("mtproxy://h:x/00"), "invalid proxy port");
    assert_eq!(refused("mtproxy://h:1/!"), "invalid mtproxy secret");
    assert_eq!(refused("mtproxy://h:1/00"), "unsupported mtproxy secret");
    assert_eq!(
        refused(&format!("mtproxy://h:1/cc{}", SECRET)),
        "unsupported mtproxy secret"
    );
    assert_eq!(
        refused(&format!("mtproxy://h:1/ee{}ff", SECRET)),
        "invalid mtproxy domain"
    );
}

#[test]
fn urls_without_a_query_or_with_another_scheme_are_refused() {
    let err = MtProxyConfig::parse_tg_proxy("tg://proxy").unwrap_err();
    assert!(matches!(err, MtProxyError::QueryMissing));
    assert_eq!(err.message(), Some("mtproxy query is missing"));
    let err = MtProxyConfig::parse_mtproxy("tg://proxy?x").unwrap_err();
    assert!(matches!(err, MtProxyError::InvalidUrl));
    assert_eq!(err.message(), Some("invalid mtproxy url"));
}

#[test]
fn a_bad_port_counts_before_what_follows_it() {
    assert_eq!(
        refused("tg://proxy?port=x&server=%a€"),
        "invalid proxy port"
    );
}

#[test]
fn urls_that_would_be_cut_inside_a_character_are_noticed() {
    assert!(MtProxyConfig::parse_sliceable("tg://proxy?server=%a€").is_none());
    assert!(MtProxyConfig::parse_sliceable("mtproxy://h:1/€a").is_none());
    assert!(MtProxyConfig::parse_sliceable("mtproxy://h:1?s=%a€").is_none());
    assert!(MtProxyConfig::parse_sliceable("mtproxy://€a?server=h&port=1").is_none());
    assert!(MtProxyConfig::parse_sliceable("tg://proxy?server=h&port=1&secret=€a").is_none());
    assert!(matches!(
        MtProxyConfig::parse_sliceable("socks5://h:1"),
        Some(None)
    ));
    assert!(matches!(
        MtProxyConfig::parse_sliceable("tg://proxy?server=€a"),
        Some(Some(Err(MtProxyError::PortMissing)))
    ));
    let url = format!("mtproxy://h:1/{}", SECRET);
    let config = MtProxyConfig::parse_sliceable(&url).unwrap().unwrap().unwrap();
    assert_eq!(config.secret, parsed(&url).secret);
}

#[test]
fn secrets_come_in_three_notations() {
    let bytes: Vec<u8> = (0..16).map(|i| 0xf0 | i).collect();
    let hex: String = bytes.iter().map(|byte| format!("{:02x}", byte)).collect();
    assert_eq!(decode_secret(&hex).unwrap(), bytes);
    assert_eq!(decode_secret("8PHy8_T19vf4-fr7_P3-_w").unwrap(), bytes);
    assert_eq!(decode_secret("8PHy8/T19vf4+fr7/P3+/w==").unwrap(), bytes);
    assert_eq!(decode_secret(&format!(" {}\n", hex)).unwrap(), bytes);
    assert!(matches!(
        decode_secret("8PHy8/T19vf4-fr7/P3+/w=="),
        Err(MtProxyError::InvalidSecret)
    ));
}

#[test]
fn the_first_notation_that_fits_counts() {
    let one = vec![1u8; 16];
    let two = vec![2u8; 16];
    let three = vec![3u8; 16];
    assert_eq!(
        choose_secret(Some(one.clone()), Some(two.clone()), Some(three.clone())).unwrap(),
        one
    );
    assert_eq!(
        choose_secret(None, Some(two.clone()), Some(three.clone())).unwrap(),
        two
    );
    assert_eq!(choose_secret(None, None, Some(three.clone())).unwrap(), three);
    assert!(matches!(
        choose_secret(Some(vec![]), Some(two), None),
        Err(MtProxyError::UnsupportedSecret)
    ));
    assert!(matches!(
        choose_secret(None, None, None),
        Err(MtProxyError::InvalidSecret)
    ));
}

#[test]
fn endpoints_are_taken_apart_at_the_last_colon() {
    assert_eq!(parse_host_port("a:b:3").unwrap(), ("a:b".to_string(), 3));
    assert!(matches!(
        parse_host_port("ab"),
        Err(MtProxyError::EndpointPortMissing)
    ));
    assert!(matches!(
        parse_host_port("a:0"),
        Err(MtProxyError::InvalidPort)
    ));
    assert_eq!(parse_port("443").unwrap(), 443);
    assert!(matches!(parse_port("x"), Err(MtProxyError::InvalidPort)));
}

#[test]
fn secrets_of_other_lengths_have_no_key() {
    let config = |secret: Vec<u8>| MtProxyConfig {
        host: String::new(),
        port: 1,
        secret,
        mode: MtProxyMode::Obfuscated,
    };
    for len in 0..16 {
        let err = config(vec![0; len]).proxy_secret().unwrap_err();
        assert!(matches!(err, MtProxyError::InvalidSecretLength));
        assert_eq!(err.message(), Some("invalid mtproxy secret length"));
    }
    assert!(config(vec![0; 16]).proxy_secret().is_ok());
    assert!(config(vec![0; 40]).proxy_secret().is_ok());
}

#[test]
fn order_and_unknown_parts_make_no_difference() {
    let secret = format!("secret={}", SECRET);
    let link = |parts: &[&str]| parsed(&format!("tg://proxy?{}", parts.join("&")));
    let first = link(&["x", "server=old", "port=1", "y=2", "server=h", &secret]);
    for parts in [
        vec!["server=old", "port=1", "y=2", "server=h", &secret],
        vec!["server=h", "port=1", &secret],
        vec![&secret, "server=h", "port=1"],
        vec!["port=1", "port=1", &secret, "y=2", "x", "server=h"],
    ] {
        let other = link(&parts);
        assert_eq!(other.host, first.host);
        assert_eq!(other.port, first.port);
        assert_eq!(other.secret, first.secret);
    }
    assert_eq!(refused("tg://proxy?"), "mtproxy host missing");
    assert_eq!(refused("tg://proxy?x"), "mtproxy host missing");
}
