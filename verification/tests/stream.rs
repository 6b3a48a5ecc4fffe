use mtsender::aes_ctr::AesCtr;
use mtsender::config::MtProxyConfig;
use mtsender::errors::{ErrorKind, MtProxyError};
use mtsender::random::Draws;
use mtsender::stream::{MtProxyStream, MtProxyWriteHalf};

const CCS: [u8; 6] = [0x14, 0x03, 0x03, 0x00, 0x01, 0x01];
const TAG: [u8; 4] = [0xee; 4];

fn reading() -> AesCtr {
    AesCtr::new(&[1; 32], &[2; 16])
}

fn writing() -> AesCtr {
    AesCtr::new(&[3; 32], &[4; 16])
}

fn stream(tls: bool, header: &[u8]) -> (MtProxyStream, Vec<u8>) {
    MtProxyStream::new(tls, header.to_vec(), reading(), writing())
}

fn hidden(mut cipher: AesCtr, data: &[u8]) -> Vec<u8> {
    let mut data = data.to_vec();
    cipher.apply(&mut data);
    data
}

fn record(data: &[u8]) -> Vec<u8> {
    let mut out = vec![0x17, 0x03, 0x03];
    out.extend_from_slice(&(data.len() as u16).to_be_bytes());
    out.extend_from_slice(data);
    out
}

/// Writes `buf` to the end and returns what went out.
fn written(half: &mut MtProxyWriteHalf, buf: &[u8]) -> Vec<u8> {
    let mut out = Vec::new();
    if let Some(len) = half.start(buf) {
        assert_eq!(len, buf.len());
        return out;
    }
    loop {
        let chunk = half.chunk().to_vec();
        let n = (chunk.len() + 1) / 2;
        out.extend_from_slice(&chunk[..n]);
        if let Some(len) = half.on_written(n).unwrap() {
            assert_eq!(len, buf.len());
            return out;
        }
    }
}

#[test]
fn the_header_is_sent_at_once_outside_of_tls() {
    let (mut stream, to_send) = stream(false, &[9; 64]);
    assert_eq!(to_send, vec![9; 64]);
    let (_, write) = stream.split();
    assert_eq!(written(write, b"hello"), hidden(writing(), b"hello"));
}

#[test]
fn the_header_goes_with_the_first_frame_inside_of_tls() {
    let (mut stream, to_send) = stream(true, &[9; 64]);
    assert!(to_send.is_empty());
    let (_, write) = stream.split();
    let mut payload = vec![9; 64];
    payload.extend_from_slice(&hidden(writing(), b"hello"));
    let mut expected = CCS.to_vec();
    expected.extend_from_slice(&record(&payload));
    assert_eq!(written(write, b"hello"), expected);
    let second = written(write, b"again");
    assert_eq!(second[..5], record(b"again")[..5]);
}

#[test]
fn frames_are_read_back() {
    for tls in [false, true] {
        let (mut ours, _) = MtProxyStream::new(tls, vec![], reading(), writing());
        let (mut theirs, _) = MtProxyStream::new(tls, vec![], writing(), reading());
        let mut received = Vec::new();
        for text in [&b"first"[..], b"second", &[7; 5000]] {
            let mut out = written(&mut ours.write, text);
            if tls && out.starts_with(&CCS) {
                out.drain(..6);
            }
            for piece in out.chunks(11) {
                received.extend(theirs.read.on_read(piece, usize::MAX).unwrap());
            }
        }
        let mut expected = b"firstsecond".to_vec();
        expected.extend_from_slice(&[7; 5000]);
        assert_eq!(received, expected);
    }
}

#[test]
fn the_tag_is_left_out_once() {
    let (mut stream, _) = stream(false, &[]);
    let mut tagged = TAG.to_vec();
    tagged.extend_from_slice(b"data");
    let mut cipher = writing();
    let mut expected = b"data".to_vec();
    cipher.apply(&mut expected);
    assert_eq!(written(&mut stream.write, &tagged), expected);

    let mut expected = tagged.clone();
    cipher.apply(&mut expected);
    assert_eq!(written(&mut stream.write, &tagged), expected);
}

#[test]
fn a_frame_of_nothing_but_the_tag_is_done_at_once() {
    let (mut stream, _) = stream(false, &[]);
    assert_eq!(stream.write.start(&TAG), Some(4));
    assert!(stream.write.chunk().is_empty());
    assert_eq!(written(&mut stream.write, &TAG), hidden(writing(), &TAG));
}

#[test]
fn writing_nothing_keeps_the_tag_waiting() {
    let (mut stream, _) = stream(false, &[]);
    assert_eq!(stream.write.start(&[]), Some(0));
    assert_eq!(stream.write.start(&TAG), Some(4));
}

#[test]
fn a_pending_frame_goes_first() {
    let (mut stream, _) = stream(false, &[]);
    let expected = hidden(writing(), b"first");
    assert_eq!(stream.write.start(b"first"), None);
    assert_eq!(stream.write.on_written(2).unwrap(), None);
    assert_eq!(stream.write.start(b"another one"), None);
    assert_eq!(stream.write.chunk(), &expected[2..]);
    assert_eq!(stream.write.on_written(3).unwrap(), Some(5));
    assert!(stream.write.chunk().is_empty());
}

#[test]
fn a_socket_that_takes_nothing_is_an_error() {
    let (mut stream, _) = stream(false, &[]);
    assert_eq!(stream.write.start(b"first"), None);
    let err = stream.write.on_written(0).unwrap_err();
    assert!(matches!(err, MtProxyError::FrameNotWritten));
    assert_eq!(err.kind(), ErrorKind::WriteZero);
    assert_eq!(err.message(), Some("failed to write mtproxy frame"));
    assert_eq!(stream.write.chunk().len(), 5);
}

#[test]
fn decrypted_bytes_wait_for_room() {
    let (mut stream, _) = stream(true, &[]);
    let raw = record(&hidden(reading(), b"0123456789"));
    assert_eq!(stream.read.take_ready(4), None);
    assert_eq!(stream.read.on_read(&raw[..7], 4).unwrap(), b"");
    assert_eq!(stream.read.on_read(&raw[7..], 4).unwrap(), b"0123");
    assert_eq!(stream.read.take_ready(4).unwrap(), b"4567");
    assert_eq!(stream.read.take_ready(4).unwrap(), b"89");
    assert_eq!(stream.read.take_ready(4), None);
}

#[test]
fn bytes_outside_of_tls_are_decrypted_as_they_come() {
    let (mut stream, _) = stream(false, &[]);
    let raw = hidden(reading(), b"0123456789");
    assert_eq!(stream.read.on_read(&raw[..3], 100).unwrap(), b"012");
    assert_eq!(stream.read.take_ready(4), None);
    assert_eq!(stream.read.on_read(&raw[3..], 100).unwrap(), b"3456789");
    assert_eq!(stream.read.on_read(&[], 100).unwrap(), b"");
}

#[test]
fn a_closed_connection_hands_out_nothing() {
    let (mut stream, _) = stream(true, &[]);
    assert_eq!(stream.read.on_read(&[], 10).unwrap(), b"");
}

#[test]
fn reads_are_limited_by_the_room_only_outside_of_tls() {
    assert_eq!(stream(true, &[]).0.read.read_limit(10), 8192);
    assert_eq!(stream(false, &[]).0.read.read_limit(10), 10);
}

#[test]
fn an_invalid_record_is_an_error() {
    let (mut stream, _) = stream(true, &[]);
    let err = stream.read.on_read(&[1, 2, 3, 4, 5], 10).unwrap_err();
    assert!(matches!(err, MtProxyError::InvalidTlsRecord));
    assert_eq!(err.message(), Some("invalid mtproxy faketls record"));
}

#[test]
fn a_connection_opens_with_a_fresh_header() {
    let secret = "3f8a91c2d7e04b6a9f12c5e8370bd4aa";
    let plain = MtProxyConfig::parse(&format!("mtproxy://h:1/dd{}", secret))
        .unwrap()
        .unwrap();
    let (_, header) = MtProxyStream::open(&plain, 2).unwrap();
    assert_eq!(header.len(), 64);

    let hiding = MtProxyConfig::parse(&format!("mtproxy://h:1/ee{}612e62", secret))
        .unwrap()
        .unwrap();
    let (mut stream, to_send) = MtProxyStream::open(&hiding, 2).unwrap();
    assert!(to_send.is_empty());
    let out = written(&mut stream.write, b"data");
    assert_eq!(out.len(), 6 + 5 + 64 + 4);

    let broken = MtProxyConfig {
        secret: vec![1, 2, 3],
        ..plain
    };
    assert!(matches!(
        MtProxyStream::open(&broken, 2),
        Err(MtProxyError::InvalidSecretLength)
    ));
}

#[test]
fn nothing_is_lost_over_a_run_of_reads() {
    let data: Vec<u8> = (0..=255).cycle().take(3000).collect();
    for tls in [false, true] {
        let (mut stream, _) = stream(tls, &[]);
        let hidden = hidden(reading(), &data);
        let raw: Vec<u8> = if tls {
            hidden.chunks(700).flat_map(record).collect()
        } else {
            hidden
        };
        let mut sent = raw.chunks(123);
        let mut received = Vec::new();
        let mut room = 1;
        while received.len() < data.len() {
            room = room % 97 + 1;
            if let Some(chunk) = stream.read.take_ready(room) {
                received.extend(chunk);
            } else if let Some(piece) = sent.next() {
                received.extend(stream.read.on_read(piece, room).unwrap());
            }
        }
        assert_eq!(received, data);
    }
}

#[test]
fn opening_may_share_the_random_source() {
    let config = MtProxyConfig::parse("mtproxy://h:1/dd3f8a91c2d7e04b6a9f12c5e8370bd4aa")
        .unwrap()
        .unwrap();
    let mut draws = Draws::new();
    let (_, one) = MtProxyStream::open_with(&mut draws, &config, 2).unwrap();
    let (_, two) = MtProxyStream::open_with(&mut draws, &config, 2).unwrap();
    assert_eq!((one.len(), two.len()), (64, 64));
    assert_ne!(one, two);
}
