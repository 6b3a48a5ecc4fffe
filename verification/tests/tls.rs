use mtsender::aes_ctr::AesCtr;
use mtsender::client_hello::{client_hello, draw_client_hello, make_tls_client_hello};
use mtsender::digest::{fixed_proxy_key, hmac_sha256};
use mtsender::errors::{ErrorKind, MtProxyError};
use mtsender::fake_tls::{
    check_hello_response, fake_tls_hello_response_len, FakeTlsHandshake,
};
use mtsender::obfuscated::{draw_header, make_obfuscated_header, obfuscated_header};
use mtsender::random::Draws;
use mtsender::tls_record::{drain_plain, parse_tls_records, wrap_tls_records};
use sha2::{Digest, Sha256};
use std::collections::VecDeque;

fn bytes(hex: &str) -> Vec<u8> {
    (0..hex.len())
        .step_by(2)
        .map(|i| u8::from_str_radix(&hex[i..i + 2], 16).unwrap())
        .collect()
}

fn secret() -> [u8; 16] {
    let mut secret = [0u8; 16];
    for (i, byte) in secret.iter_mut().enumerate() {
        *byte = i as u8;
    }
    secret
}

fn fixed_hello() -> Vec<u8> {
    client_hello(
        "example.org",
        &secret(),
        &[0x10, 0x1f, 0x20, 0x30, 0x45, 0x46, 0xf0],
        &[7; 32],
        &[9; 32],
        0x0102_0304,
    )
    .unwrap()
}

#[test]
fn the_hello_is_laid_out_byte_for_byte() {
    let hello = fixed_hello();
    assert_eq!(hello.len(), 517);
    assert_eq!(
        hello[11..43],
        bytes("a2b8e593bef8428d892bc3d3d7bcc65734e9844b83510a400423f7f9b1435140")
    );
    assert_eq!(
        Sha256::digest(&hello).to_vec(),
        bytes("aacc1e7ea1f6cc5ea4fd1bc1c41c8525c9bbdc77f422909878f622190e576d8c")
    );
}

#[test]
fn the_hello_is_signed_with_the_time() {
    let hello = fixed_hello();
    let mut blank = hello.clone();
    blank[11..43].fill(0);
    let mut code = hmac_sha256(&secret(), &blank);
    for (byte, time) in code[28..].iter_mut().zip([4, 3, 2, 1]) {
        *byte ^= time;
    }
    assert_eq!(hello[11..43], code);
}

#[test]
fn neighbouring_greases_differ() {
    let hello = client_hello("a", &secret(), &[0x5f; 7], &[0; 32], &[0; 32], 0).unwrap();
    assert_eq!(hello[78], 0x5a);
    assert_eq!(hello[78], hello[79]);
    let end = hello.len() - hello.iter().rev().take_while(|byte| **byte == 0).count();
    assert!(hello[..end].windows(2).any(|pair| pair == [0x4a, 0x4a]));
}

#[test]
fn domains_fit_up_to_216_bytes() {
    let fits = "d".repeat(216);
    let hello = make_tls_client_hello(&fits, &secret()).unwrap();
    assert_eq!(hello.len(), 517);
    let err = make_tls_client_hello(&"d".repeat(217), &secret()).unwrap_err();
    assert!(matches!(err, MtProxyError::TlsDomainTooLong));
    assert_eq!(err.message(), Some("mtproxy faketls domain is too long"));
}

#[test]
fn two_hellos_differ() {
    let one = make_tls_client_hello("a.b", &secret()).unwrap();
    let two = make_tls_client_hello("a.b", &secret()).unwrap();
    assert_ne!(one[44..76], two[44..76]);
}

/// The time that is worked into a hello.
fn time_of(hello: &[u8]) -> u32 {
    let mut blank = hello.to_vec();
    blank[11..43].fill(0);
    let code = hmac_sha256(&secret(), &blank);
    assert_eq!(hello[11..39], code[..28]);
    let mut time = [0; 4];
    for (i, byte) in time.iter_mut().enumerate() {
        *byte = hello[39 + i] ^ code[28 + i];
    }
    u32::from_le_bytes(time)
}

#[test]
fn a_drawn_hello_carries_the_time_it_was_made_at() {
    let mut draws = Draws::new();
    let one = draw_client_hello(&mut draws, "a.b", &secret(), 77).unwrap();
    let two = draw_client_hello(&mut draws, "a.b", &secret(), u32::MAX).unwrap();
    assert_eq!(time_of(&one), 77);
    assert_eq!(time_of(&two), u32::MAX);
    assert_ne!(one[44..76], two[44..76]);
    let err = draw_client_hello(&mut draws, &"d".repeat(217), &secret(), 0).unwrap_err();
    assert!(matches!(err, MtProxyError::TlsDomainTooLong));

    let (_, hello) =
        FakeTlsHandshake::start_with(&mut draws, "a.b", &secret(), 0x0102_0304).unwrap();
    assert_eq!(time_of(&hello), 0x0102_0304);
    let fresh = make_tls_client_hello("a.b", &secret()).unwrap();
    assert!(time_of(&fresh) > 1_700_000_000);
}

/// An answer to a hello, with the code in place.
fn answer(hello_random: &[u8], payload: &[u8]) -> Vec<u8> {
    let mut response = vec![0x16, 0x03, 0x03, 0x00, 41];
    response.extend_from_slice(&[0; 41]);
    response.extend_from_slice(&[0x14, 0x03, 0x03, 0x00, 0x01, 0x01, 0x17, 0x03, 0x03]);
    response.extend_from_slice(&(payload.len() as u16).to_be_bytes());
    response.extend_from_slice(payload);
    let mut input = hello_random.to_vec();
    input.extend_from_slice(&response);
    let code = hmac_sha256(&secret(), &input);
    response[11..43].copy_from_slice(&code);
    response
}

#[test]
fn a_genuine_answer_is_accepted_in_any_pieces() {
    let (handshake, hello) = FakeTlsHandshake::start("example.org", &secret()).unwrap();
    let mut handshake = handshake;
    let response = answer(&hello[11..43], b"wxyz");
    for byte in &response[..response.len() - 1] {
        assert!(!handshake.on_read(&[*byte]).unwrap());
    }
    assert!(handshake.on_read(&response[response.len() - 1..]).unwrap());
}

#[test]
fn a_forged_answer_is_refused() {
    let (mut handshake, hello) = FakeTlsHandshake::start("example.org", &secret()).unwrap();
    let mut response = answer(&hello[11..43], b"wxyz");
    *response.last_mut().unwrap() ^= 1;
    let err = handshake.on_read(&response).unwrap_err();
    assert!(matches!(err, MtProxyError::HelloHashMismatch));
    assert_eq!(err.message(), Some("mtproxy faketls response hash mismatch"));
}

#[test]
fn an_answer_with_something_after_it_is_refused() {
    let (mut handshake, hello) = FakeTlsHandshake::start("example.org", &secret()).unwrap();
    let mut response = answer(&hello[11..43], b"wxyz");
    response.push(0);
    let err = handshake.on_read(&response).unwrap_err();
    assert!(matches!(err, MtProxyError::HelloTrailingData));
    assert_eq!(
        err.message(),
        Some("mtproxy faketls response has unexpected trailing data")
    );
}

#[test]
fn a_proxy_that_hangs_up_is_noticed() {
    let (mut handshake, _) = FakeTlsHandshake::start("example.org", &secret()).unwrap();
    let err = handshake.on_read(&[]).unwrap_err();
    assert!(matches!(err, MtProxyError::HelloClosed));
    assert_eq!(err.kind(), ErrorKind::UnexpectedEof);
    assert_eq!(err.message(), Some("mtproxy faketls closed during hello"));
}

#[test]
fn a_short_answer_is_refused() {
    let mut response = vec![0x16, 0x03, 0x03, 0x00, 0x00];
    response.extend_from_slice(&[0x14, 0x03, 0x03, 0x00, 0x01, 0x01, 0x17, 0x03, 0x03, 0, 0]);
    assert_eq!(fake_tls_hello_response_len(&response).unwrap(), Some(16));
    let err = check_hello_response(&secret(), &[0; 32], &response, 16).unwrap_err();
    assert!(matches!(err, MtProxyError::HelloResponseTooShort));
    assert_eq!(err.message(), Some("mtproxy faketls response is too short"));
}

#[test]
fn something_else_than_an_answer_is_refused() {
    assert_eq!(fake_tls_hello_response_len(&[0x15, 0x03, 0x03, 0]).unwrap(), None);
    let err = fake_tls_hello_response_len(&[0x15, 0x03, 0x03, 0, 0]).unwrap_err();
    assert!(matches!(err, MtProxyError::InvalidHelloResponse));
    assert_eq!(err.message(), Some("invalid mtproxy faketls hello response"));
}

#[test]
fn the_answer_of_fixed_bytes_has_the_right_code() {
    let hello = fixed_hello();
    let response = answer(&hello[11..43], b"wxyz");
    assert_eq!(response.len(), 61);
    assert!(check_hello_response(&secret(), &hello[11..43], &response, 61).is_ok());
}

#[test]
fn domains_that_no_proxy_has_are_refused() {
    for domain in [String::new(), "d".repeat(183)] {
        let err = match FakeTlsHandshake::start(&domain, &secret()) {
            Err(err) => err,
            Ok(_) => panic!("accepted"),
        };
        assert!(matches!(err, MtProxyError::InvalidTlsDomain));
        assert_eq!(err.message(), Some("invalid mtproxy faketls domain"));
    }
    assert!(FakeTlsHandshake::start(&"d".repeat(182), &secret()).is_ok());
}

fn unwrapped(raw: &[u8]) -> (Vec<u8>, Vec<u8>, bool) {
    let mut raw = raw.to_vec();
    let mut plain = VecDeque::new();
    let mut cipher = AesCtr::new(&[1; 32], &[2; 16]);
    let valid = parse_tls_records(&mut raw, &mut plain, &mut cipher).is_ok();
    let mut payload: Vec<u8> = plain.into_iter().collect();
    AesCtr::new(&[1; 32], &[2; 16]).apply(&mut payload);
    (payload, raw, valid)
}

#[test]
fn records_carry_up_to_2878_bytes() {
    let mut first = true;
    let data = vec![5u8; 2878 * 2 + 1];
    let out = wrap_tls_records(&data, &mut first);
    assert!(!first);
    assert_eq!(out.len(), 6 + data.len() + 3 * 5);
    assert_eq!(out[..6], [0x14, 0x03, 0x03, 0x00, 0x01, 0x01]);
    assert_eq!(out[6..11], [0x17, 0x03, 0x03, 0x0b, 0x3e]);
    assert_eq!(out[out.len() - 6..], [0x17, 0x03, 0x03, 0x00, 0x01, 5]);
}

#[test]
fn what_is_wrapped_is_unwrapped() {
    for len in [0usize, 1, 2877, 2878, 2879, 10_000] {
        let data: Vec<u8> = (0..len).map(|i| i as u8).collect();
        let mut first = false;
        let out = wrap_tls_records(&data, &mut first);
        assert_eq!(unwrapped(&out), (data, vec![], true));
    }
}

#[test]
fn records_may_arrive_in_pieces() {
    let mut first = false;
    let data: Vec<u8> = (0..100).collect();
    let mut out = wrap_tls_records(&data[..40], &mut first);
    out.extend(wrap_tls_records(&data[40..], &mut first));
    for cut in 0..out.len() {
        let mut raw = out[..cut].to_vec();
        let mut plain = VecDeque::new();
        let mut cipher = AesCtr::new(&[1; 32], &[2; 16]);
        parse_tls_records(&mut raw, &mut plain, &mut cipher).unwrap();
        raw.extend_from_slice(&out[cut..]);
        parse_tls_records(&mut raw, &mut plain, &mut cipher).unwrap();
        let mut payload: Vec<u8> = plain.into_iter().collect();
        AesCtr::new(&[1; 32], &[2; 16]).apply(&mut payload);
        assert_eq!(payload, data);
        assert!(raw.is_empty());
    }
}

#[test]
fn an_invalid_record_stays_invalid() {
    let mut raw = vec![0x17, 0x03, 0x03, 0x00, 0x01, 9];
    raw.extend_from_slice(&[0x15, 0x03, 0x03, 0x00, 0x00]);
    let (payload, rest, valid) = unwrapped(&raw);
    assert_eq!((payload, valid), (vec![9], false));
    assert_eq!(rest, vec![0x15, 0x03, 0x03, 0x00, 0x00]);
    raw.extend_from_slice(&[1, 2, 3]);
    assert!(!unwrapped(&raw).2);
}

#[test]
fn plain_bytes_are_drained_from_the_front() {
    let mut plain: VecDeque<u8> = (1..=5).collect();
    assert_eq!(drain_plain(&mut plain, 2), vec![1, 2]);
    assert_eq!(drain_plain(&mut plain, 0), Vec::<u8>::new());
    assert_eq!(drain_plain(&mut plain, 9), vec![3, 4, 5]);
    assert!(plain.is_empty());
}

#[test]
fn the_header_hides_its_last_eight_bytes() {
    let mut random = [0u8; 64];
    for (i, byte) in random.iter_mut().enumerate() {
        *byte = i as u8 + 1;
    }
    let (header, mut read, mut write) = obfuscated_header(&random, &[0x3f; 16], -2);
    assert_eq!(header[..56], random[..56]);

    let key = |bytes: &[u8]| {
        let mut hasher = Sha256::new();
        hasher.update(bytes);
        hasher.update([0x3f; 16]);
        let key: [u8; 32] = hasher.finalize().into();
        key
    };
    let mut clear = random.to_vec();
    clear[56..60].fill(0xee);
    clear[60..62].copy_from_slice(&(-2i16).to_le_bytes());
    let iv: [u8; 16] = clear[40..56].try_into().unwrap();
    let mut cipher = AesCtr::new(&key(&clear[8..40]), &iv);
    let mut hidden = clear.clone();
    cipher.apply(&mut hidden);
    assert_eq!(header[56..], hidden[56..]);

    let mut ours = [0u8; 20];
    let mut theirs = [0u8; 20];
    write.apply(&mut ours);
    cipher.apply(&mut theirs);
    assert_eq!(ours, theirs);

    clear.reverse();
    let iv: [u8; 16] = clear[40..56].try_into().unwrap();
    let mut cipher = AesCtr::new(&key(&clear[8..40]), &iv);
    let mut ours = [0u8; 20];
    let mut theirs = [0u8; 20];
    read.apply(&mut ours);
    cipher.apply(&mut theirs);
    assert_eq!(ours, theirs);
}

#[test]
fn both_ends_agree_on_the_keys() {
    let secret = [0x3f; 16];
    let (header, mut read, mut write) = make_obfuscated_header(&secret, 2).unwrap();
    let reversed: Vec<u8> = header.iter().rev().copied().collect();
    for (bytes, ours, behind) in [(&header, &mut write, 64), (&reversed, &mut read, 0)] {
        let key: [u8; 32] = bytes[8..40].try_into().unwrap();
        let iv: [u8; 16] = bytes[40..56].try_into().unwrap();
        let mut theirs = AesCtr::new(&fixed_proxy_key(key, &secret), &iv);
        theirs.apply(&mut vec![0; behind]);
        let mut one = [0u8; 40];
        let mut two = [0u8; 40];
        ours.apply(&mut one);
        theirs.apply(&mut two);
        assert_eq!(one, two);
    }
}

#[test]
fn a_header_comes_back_from_the_draws() {
    let mut draws = Draws::new();
    let mut random = [0u8; 64];
    draws.draw(&mut random).unwrap();
    assert_ne!(random, [0u8; 64]);
    let (one, _, _) = draw_header(&mut draws, &[1; 16], 4).unwrap();
    let (two, _, _) = draw_header(&mut draws, &[1; 16], 4).unwrap();
    assert_eq!((one.len(), two.len()), (64, 64));
    assert_ne!(one, two);
}

#[test]
fn data_centre_zero_leaves_the_random_bytes() {
    let random = [0x77u8; 64];
    let (header, _, _) = obfuscated_header(&random, &[0; 16], 0);
    let mut hasher = Sha256::new();
    hasher.update([0x77; 32]);
    hasher.update([0; 16]);
    let key: [u8; 32] = hasher.finalize().into();
    let mut cipher = AesCtr::new(&key, &[0x77; 16]);
    let mut opened = header.clone();
    cipher.apply(&mut opened);
    assert_eq!(opened[56..], [0xee, 0xee, 0xee, 0xee, 0x77, 0x77, 0x77, 0x77]);
}

#[test]
fn headers_never_look_like_something_else() {
    for _ in 0..200 {
        let (header, _, _) = make_obfuscated_header(&[1; 16], 4).unwrap();
        assert_eq!(header.len(), 64);
        assert_ne!(header[0], 0xef);
        for start in [b"HEAD", b"POST", b"GET ", b"OPTI", b"\xee\xee\xee\xee", b"\xdd\xdd\xdd\xdd"] {
            assert_ne!(&header[..4], start);
        }
        assert_ne!(header[4..8], [0; 4]);
    }
}
