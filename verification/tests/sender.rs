use grammers_crypto::DequeBuffer;
use grammers_mtproto::mtp::{self, Deserialization, DeserializeError, Mtp};
use grammers_mtproto::transport::{self, Intermediate, Transport};
use grammers_mtproto::MsgId;
use grammers_tl_types::{enums, types, Deserializable, Serializable};
use mtsender::errors::ErrorKind;
use mtsender::flow::{SenderError, Stop};
use mtsender::progress::Fault;
use mtsender::protocol::{Protocol, Received, Recorded, Unpacked};
use mtsender::requests::{
    find_request, Answer, MsgIdPair, Reply, Request, RequestState,
};
use mtsender::sender::{NetEvent, Sender, LEADING_BUFFER_SPACE, MAXIMUM_DATA, PING_DELAY};
use std::collections::VecDeque;

/// As many identifiers as asked for, all different.
fn ids(count: usize) -> Vec<MsgId> {
    let mut protocol = mtp::Encrypted::build().finish([0; 256]);
    let mut buffer = DequeBuffer::with_capacity(0, 0);
    (0..count)
        .map(|_| protocol.push(&mut buffer, &[0; 4]).unwrap())
        .collect()
}

/// A protocol that gives the answers it was told to give, and notes what it was asked.
#[derive(Default)]
struct Script {
    pushes: VecDeque<Option<MsgId>>,
    container: Option<MsgId>,
    packets: VecDeque<Unpacked>,
    messages: VecDeque<Result<Vec<Received>, DeserializeError>>,
    pushed: Vec<Vec<u8>>,
    unpacked: Vec<Vec<u8>>,
    payloads: Vec<Vec<u8>>,
    packs: usize,
    resets: usize,
}

impl Protocol for Script {
    fn push(&mut self, buffer: &mut DequeBuffer<u8>, body: &[u8]) -> Option<MsgId> {
        self.pushed.push(body.to_vec());
        let id = self.pushes.pop_front().unwrap();
        if id.is_some() {
            buffer.extend(body.iter().copied());
        }
        id
    }

    fn finalize(&mut self, _: &mut DequeBuffer<u8>) -> Option<MsgId> {
        self.container
    }

    fn pack(&mut self, buffer: &mut DequeBuffer<u8>) {
        self.packs += 1;
        buffer.extend_front(&[0xaa]);
    }

    fn unpack(&mut self, bytes: &[u8]) -> Unpacked {
        self.unpacked.push(bytes.to_vec());
        self.packets.pop_front().unwrap_or(Unpacked::MissingBytes)
    }

    fn deserialize(&mut self, payload: &[u8]) -> Result<Vec<Received>, DeserializeError> {
        self.payloads.push(payload.to_vec());
        self.messages.pop_front().unwrap_or(Ok(Vec::new()))
    }

    fn reset(&mut self) {
        self.resets += 1;
    }
}

fn sent(id: MsgId) -> RequestState {
    RequestState::Sent(MsgIdPair::new(id))
}

fn serialized(id: MsgId) -> RequestState {
    RequestState::Serialized(MsgIdPair::new(id))
}

fn sender_with(states: &[RequestState]) -> Sender<usize> {
    let mut sender = Sender::new(0);
    for (i, state) in states.iter().enumerate() {
        sender.enqueue_body(vec![i as u8, 1, 2, 3], i);
        sender.requests[i].state = *state;
    }
    sender
}

fn waiting(sender: &Sender<usize>) -> Vec<usize> {
    sender.requests.iter().map(|request| request.result).collect()
}

fn packet(next_offset: usize) -> Unpacked {
    Unpacked::Packet {
        data_start: 0,
        data_end: 0,
        next_offset,
    }
}

#[test]
fn a_new_sender_has_nothing_to_do() {
    let sender: Sender<usize> = Sender::new(5);
    assert!(sender.requests.is_empty());
    assert_eq!(sender.next_ping, 5 + PING_DELAY);
    assert_eq!(PING_DELAY, 60_000_000_000);
    assert!(sender.write_chunk().is_none());
    assert!(sender.check_room().is_ok());
}

#[test]
fn the_leading_space_is_what_the_layers_need() {
    assert_eq!(
        LEADING_BUFFER_SPACE,
        mtp::MAX_TRANSPORT_HEADER_LEN
            + mtp::ENCRYPTED_PACKET_HEADER_LEN
            + mtp::PLAIN_PACKET_HEADER_LEN
            + mtp::MESSAGE_CONTAINER_HEADER_LEN
    );
}

#[test]
fn requests_are_found_by_their_identifier() {
    let ids = ids(3);
    let sender = sender_with(&[
        RequestState::NotSerialized,
        serialized(ids[0]),
        sent(ids[1]),
        sent(ids[1]),
    ]);
    assert_eq!(find_request(&sender.requests, ids[0]), Some(1));
    assert_eq!(find_request(&sender.requests, ids[1]), Some(2));
    assert_eq!(find_request(&sender.requests, ids[2]), None);
}

#[test]
fn a_popped_request_is_replaced_by_the_last() {
    let ids = ids(4);
    let mut sender = sender_with(&[sent(ids[0]), sent(ids[1]), sent(ids[2])]);
    assert_eq!(sender.pop_request(ids[0]).unwrap().result, 0);
    assert_eq!(waiting(&sender), vec![2, 1]);
    assert!(sender.pop_request(ids[3]).is_none());
    assert_eq!(sender.pop_request(ids[1]).unwrap().result, 1);
    assert_eq!(waiting(&sender), vec![2]);
}

#[test]
fn results_reach_their_request() {
    let ids = ids(3);
    let mut sender = sender_with(&[sent(ids[0]), sent(ids[1])]);
    let mut answers = Vec::new();
    sender.process_result(ids[1], vec![1, 2, 3, 4], &mut answers);
    sender.process_result(ids[2], vec![], &mut answers);
    assert_eq!(answers.len(), 1);
    assert_eq!(answers[0].to, 1);
    assert!(matches!(&answers[0].reply, Reply::Body(body) if body == &[1, 2, 3, 4]));
    assert_eq!(waiting(&sender), vec![0]);
}

#[test]
fn errors_say_what_was_called() {
    let ids = ids(1);
    let mut sender = sender_with(&[RequestState::NotSerialized, sent(ids[0])]);
    let mut answers = Vec::new();
    sender.process_error(ids[0], 420, "FLOOD_WAIT_3".to_string(), &mut answers);
    let Reply::Rpc {
        code,
        message,
        caused_by,
    } = &answers[0].reply
    else {
        panic!("expected an error");
    };
    assert_eq!((*code, message.as_str()), (420, "FLOOD_WAIT_3"));
    assert_eq!(*caused_by, u32::from_le_bytes([1, 1, 2, 3]));
    assert_eq!(answers[0].to, 1);
}

#[test]
fn answers_that_cannot_be_read_are_handed_on() {
    let ids = ids(1);
    let mut sender = sender_with(&[sent(ids[0])]);
    let mut answers = Vec::new();
    sender.process_deserialize_error(
        ids[0],
        DeserializeError::DecompressionFailed,
        &mut answers,
    );
    assert!(matches!(
        answers[0].reply,
        Reply::Undecodable(DeserializeError::DecompressionFailed)
    ));
    assert!(sender.requests.is_empty());
}

#[test]
fn some_bad_messages_are_sent_again() {
    for code in [16, 17, 48] {
        let ids = ids(2);
        let container = RequestState::Sent(MsgIdPair {
            msg_id: ids[1],
            container_msg_id: ids[0],
        });
        let mut sender = sender_with(&[sent(ids[0]), container, sent(ids[1])]);
        let mut answers = Vec::new();
        sender.process_bad_message(ids[0], code, &mut answers);
        assert!(answers.is_empty());
        assert_eq!(waiting(&sender), vec![0, 1, 2]);
        assert!(matches!(sender.requests[0].state, RequestState::NotSerialized));
        assert!(matches!(sender.requests[1].state, RequestState::NotSerialized));
        assert!(matches!(sender.requests[2].state, RequestState::Sent(_)));
    }
}

#[test]
fn other_bad_messages_drop_their_requests() {
    for code in [0, 15, 18, 19, 20, 32, 33, 34, 35, 47, 49, 64, -16] {
        let ids = ids(2);
        let mut sender = sender_with(&[
            sent(ids[0]),
            sent(ids[1]),
            sent(ids[0]),
            RequestState::NotSerialized,
            sent(ids[1]),
        ]);
        let mut answers = Vec::new();
        sender.process_bad_message(ids[0], code, &mut answers);
        let to: Vec<usize> = answers.iter().map(|answer| answer.to).collect();
        assert_eq!(to, vec![2, 0]);
        assert!(answers.iter().all(|answer| matches!(answer.reply, Reply::Dropped)));
        assert_eq!(waiting(&sender), vec![3, 1, 4]);
    }
}

#[test]
fn what_was_not_sent_cannot_be_answered() {
    let ids = ids(2);
    let sender = sender_with(&[serialized(ids[0]), sent(ids[1])]);
    let result = |msg_id, len| Received::RpcResult {
        msg_id,
        body: vec![0; len],
    };
    assert!(matches!(
        sender.fault(&result(ids[0], 4)),
        Some(Fault::UnsentAnswered { .. })
    ));
    assert!(matches!(
        sender.fault(&Received::RpcError {
            msg_id: ids[0],
            code: 1,
            message: String::new()
        }),
        Some(Fault::UnsentAnswered { .. })
    ));
    assert!(matches!(
        sender.fault(&Received::Failure {
            msg_id: ids[0],
            error: DeserializeError::DecompressionFailed
        }),
        Some(Fault::UnsentAnswered { .. })
    ));
    assert!(matches!(
        sender.fault(&Received::BadMessage {
            msg_id: ids[0],
            code: 16
        }),
        Some(Fault::UnsentRejected { code: 16, .. })
    ));
    assert!(matches!(
        sender.fault(&result(ids[1], 3)),
        Some(Fault::ShortResult)
    ));
    assert!(sender.fault(&result(ids[1], 4)).is_none());
    assert!(sender.fault(&Received::Update(vec![])).is_none());
}

#[test]
fn messages_are_processed_up_to_a_fault() {
    let ids = ids(3);
    let mut sender = sender_with(&[sent(ids[0]), serialized(ids[1]), sent(ids[2])]);
    let mut answers = Vec::new();
    let mut updates = Vec::new();
    let done = sender.process_mtp_buffer(
        vec![
            Received::RpcResult {
                msg_id: ids[0],
                body: vec![0; 4],
            },
            Received::RpcResult {
                msg_id: ids[1],
                body: vec![0; 4],
            },
            Received::RpcResult {
                msg_id: ids[2],
                body: vec![0; 4],
            },
        ],
        &mut answers,
        &mut updates,
    );
    assert!(matches!(done, Err(Fault::UnsentAnswered { .. })));
    assert_eq!(answers.len(), 1);
    assert_eq!(waiting(&sender), vec![2, 1]);
}

#[test]
fn everyone_waits_or_is_answered_once() {
    let ids = ids(4);
    let mut sender = sender_with(&[
        sent(ids[0]),
        sent(ids[1]),
        sent(ids[2]),
        RequestState::NotSerialized,
        sent(ids[2]),
    ]);
    let mut answers: Vec<Answer<usize>> = Vec::new();
    let mut updates = Vec::new();
    sender
        .process_mtp_buffer(
            vec![
                Received::BadMessage {
                    msg_id: ids[2],
                    code: 20,
                },
                Received::RpcResult {
                    msg_id: ids[0],
                    body: vec![0; 4],
                },
                Received::RpcResult {
                    msg_id: ids[0],
                    body: vec![0; 4],
                },
                Received::RpcError {
                    msg_id: ids[3],
                    code: 1,
                    message: String::new(),
                },
            ],
            &mut answers,
            &mut updates,
        )
        .unwrap();
    let mut everyone: Vec<usize> = answers.iter().map(|answer| answer.to).collect();
    everyone.extend(waiting(&sender));
    everyone.sort();
    assert_eq!(everyone, vec![0, 1, 2, 3, 4]);
    assert_eq!(answers.len(), 3);
    assert!(waiting(&sender).contains(&3));
}

#[test]
fn the_buffer_is_filled_in_order_until_it_is_full() {
    let ids = ids(3);
    let mut sender = sender_with(&[
        RequestState::NotSerialized,
        sent(ids[0]),
        RequestState::NotSerialized,
        RequestState::NotSerialized,
        RequestState::NotSerialized,
    ]);
    let mut link = Recorded::new(Script {
        pushes: VecDeque::from(vec![Some(ids[1]), Some(ids[2]), None]),
        container: Some(ids[0]),
        ..Script::default()
    });
    sender.try_fill_write(&mut link);
    assert_eq!(link.protocol.pushed.len(), 3);
    assert_eq!(link.protocol.pushed[1], vec![2, 1, 2, 3]);
    assert_eq!(link.protocol.packs, 1);
    let pair = |i: usize| match sender.requests[i].state {
        RequestState::Serialized(pair) => pair,
        _ => panic!("not serialized"),
    };
    assert_eq!(pair(0).msg_id, ids[1]);
    assert_eq!(pair(0).container_msg_id, ids[0]);
    assert_eq!(pair(2).msg_id, ids[2]);
    assert!(matches!(sender.requests[1].state, RequestState::Sent(_)));
    assert!(matches!(sender.requests[3].state, RequestState::NotSerialized));
    assert!(matches!(sender.requests[4].state, RequestState::NotSerialized));
    assert_eq!(
        sender.write_chunk().unwrap(),
        &[0xaa, 0, 1, 2, 3, 2, 1, 2, 3]
    );

    sender.try_fill_write(&mut link);
    assert_eq!(link.protocol.pushed.len(), 3);
}

#[test]
fn what_is_received_stays_within_the_bound() {
    let mut sender: Sender<usize> = Sender::new(0);
    let mut link = Recorded::new(Script::default());
    let mut answers = Vec::new();
    while let Ok(room) = sender.check_room() {
        let event = NetEvent::Read(vec![0; room.min(100_000)]);
        let read = sender.on_event(&mut link, event, &mut answers);
        assert!(read.is_ok());
        assert!(sender.read_buf.len() <= MAXIMUM_DATA);
    }
    assert_eq!(sender.read_buf.len(), MAXIMUM_DATA);
    let unpacked = link.protocol.unpacked.len();
    for len in [0, 1] {
        let event = NetEvent::Read(vec![0; len]);
        let read = sender.on_event(&mut link, event, &mut answers);
        assert!(matches!(
            read,
            Err(Stop::Failed(SenderError::TooMuchData))
        ));
        assert_eq!(sender.read_buf.len(), MAXIMUM_DATA);
        assert_eq!(link.protocol.unpacked.len(), unpacked);
    }
}

#[test]
fn what_does_not_fit_is_not_received() {
    let mut sender: Sender<usize> = Sender::new(0);
    assert!(sender.receive(&[1, 2]).is_ok());
    assert!(sender.receive(&[3]).is_ok());
    assert_eq!(&sender.read_buf[..], &[1, 2, 3]);
    let err = match sender.receive(&vec![0; MAXIMUM_DATA - 2]) {
        Err(err) => err,
        Ok(()) => panic!("expected an error"),
    };
    assert!(matches!(err, SenderError::TooMuchData));
    assert_eq!(&sender.read_buf[..], &[1, 2, 3]);
    assert!(sender.receive(&vec![0; MAXIMUM_DATA - 3]).is_ok());
    assert_eq!(sender.read_buf.len(), MAXIMUM_DATA);
    assert!(sender.receive(&[]).is_err());
}

#[test]
fn nothing_is_packed_when_there_is_nothing_to_send() {
    let mut sender: Sender<usize> = Sender::new(0);
    let mut link = Recorded::new(Script::default());
    sender.try_fill_write(&mut link);
    assert_eq!(link.protocol.packs, 0);
    assert!(sender.write_chunk().is_none());
}

#[test]
fn requests_are_sent_once_all_of_the_buffer_is() {
    let ids = ids(1);
    let mut sender = sender_with(&[RequestState::NotSerialized]);
    let mut link = Recorded::new(Script {
        pushes: VecDeque::from(vec![Some(ids[0])]),
        container: Some(ids[0]),
        ..Script::default()
    });
    sender.try_fill_write(&mut link);
    sender.on_net_write(2);
    assert_eq!(sender.write_chunk().unwrap(), &[1, 2, 3]);
    assert!(matches!(sender.requests[0].state, RequestState::Serialized(_)));
    sender.on_net_write(3);
    assert!(sender.write_chunk().is_none());
    assert_eq!(sender.write_head, 0);
    assert!(matches!(sender.requests[0].state, RequestState::Sent(_)));
    assert!(sender
        .fault(&Received::BadMessage {
            msg_id: ids[0],
            code: 20
        })
        .is_none());
}

#[test]
fn big_buffers_are_given_up_after_sending() {
    let ids = ids(1);
    let mut sender: Sender<usize> = Sender::new(0);
    sender.enqueue_body(vec![7; 300 * 1024], 0);
    let mut link = Recorded::new(Script {
        pushes: VecDeque::from(vec![Some(ids[0])]),
        container: Some(ids[0]),
        ..Script::default()
    });
    sender.try_fill_write(&mut link);
    sender.on_net_write(300 * 1024 + 1);
    assert!(sender.write_chunk().is_none());
    assert!(matches!(sender.requests[0].state, RequestState::Sent(_)));
}

#[test]
fn pings_ask_to_be_disconnected_after_75_seconds() {
    let mut sender: Sender<usize> = Sender::new(0);
    sender.on_ping_timeout(-2, 9, 4);
    let ping = &sender.requests[0];
    assert_eq!(
        ping.body,
        grammers_tl_types::functions::PingDelayDisconnect {
            ping_id: -2,
            disconnect_delay: 75
        }
        .to_bytes()
    );
    assert_eq!(
        ping.body,
        vec![
            0x8c, 0x7b, 0x42, 0xf3, 0xfe, 0xff, 0xff, 0xff, 0xff, 0xff, 0xff, 0xff, 75, 0, 0, 0
        ]
    );
    assert_eq!(ping.result, 4);
    assert_eq!(sender.next_ping, 9 + PING_DELAY);
    sender.restart_ping(100);
    assert_eq!(sender.next_ping, 100 + PING_DELAY);
}

fn read_all(
    sender: &mut Sender<usize>,
    script: Script,
    bytes: &[u8],
) -> (Result<usize, Stop>, Vec<Answer<usize>>, Script) {
    sender.read_buf.extend_from_slice(bytes);
    let mut link = Recorded::new(script);
    let mut answers = Vec::new();
    let read = sender.on_net_read(&mut link, bytes.len(), &mut answers);
    (read.map(|updates| updates.len()), answers, link.protocol)
}

#[test]
fn a_closed_connection_is_an_error() {
    let mut sender = sender_with(&[]);
    let (read, _, script) = read_all(&mut sender, Script::default(), &[]);
    let Err(Stop::Failed(err)) = read else {
        panic!("expected an error");
    };
    assert!(matches!(err, SenderError::NothingRead));
    assert_eq!(err.io(), Some((ErrorKind::ConnectionReset, "read 0 bytes")));
    assert!(script.unpacked.is_empty());
}

#[test]
fn packets_are_taken_off_one_after_the_other() {
    let ids = ids(1);
    let mut sender = sender_with(&[sent(ids[0])]);
    let script = Script {
        packets: VecDeque::from(vec![
            Unpacked::Packet {
                data_start: 1,
                data_end: 3,
                next_offset: 4,
            },
            Unpacked::Packet {
                data_start: 0,
                data_end: 2,
                next_offset: 2,
            },
            Unpacked::MissingBytes,
        ]),
        messages: VecDeque::from(vec![
            Ok(vec![]),
            Ok(vec![Received::RpcResult {
                msg_id: ids[0],
                body: vec![5; 4],
            }]),
        ]),
        ..Script::default()
    };
    let (read, answers, script) = read_all(&mut sender, script, &[0, 1, 2, 3, 4, 5, 6]);
    assert_eq!(read.ok(), Some(0));
    assert_eq!(script.payloads, vec![vec![1, 2], vec![4, 5]]);
    assert_eq!(script.unpacked[1], vec![4, 5, 6]);
    assert_eq!(script.unpacked[2], vec![6]);
    assert_eq!(answers.len(), 1);
    assert_eq!(&sender.read_buf[..], &[6]);
}

#[test]
fn reading_stops_at_the_end_of_the_buffer() {
    let mut sender = sender_with(&[]);
    let script = Script {
        packets: VecDeque::from(vec![packet(3)]),
        ..Script::default()
    };
    let (read, _, script) = read_all(&mut sender, script, &[1, 2, 3]);
    assert_eq!(read.ok(), Some(0));
    assert_eq!(script.unpacked.len(), 1);
    assert!(sender.read_buf.is_empty());
}

#[test]
fn a_big_read_buffer_is_given_up_once_empty() {
    let mut sender = sender_with(&[]);
    let script = Script {
        packets: VecDeque::from(vec![packet(300 * 1024)]),
        ..Script::default()
    };
    let (read, _, _) = read_all(&mut sender, script, &vec![0; 300 * 1024]);
    assert_eq!(read.ok(), Some(0));
    assert!(sender.read_buf.is_empty());
    assert!(sender.read_buf.capacity() <= 256 * 1024);
}

#[test]
fn errors_below_stop_the_reading() {
    let mut sender = sender_with(&[]);
    let script = Script {
        packets: VecDeque::from(vec![Unpacked::Failed(transport::Error::BadLen { got: 9 })]),
        ..Script::default()
    };
    let (read, _, _) = read_all(&mut sender, script, &[1]);
    let Err(Stop::Failed(err)) = read else {
        panic!("expected an error");
    };
    assert!(matches!(
        err,
        SenderError::Transport(transport::Error::BadLen { got: 9 })
    ));
    assert_eq!(err.io(), None);
    assert_eq!(&sender.read_buf[..], &[1]);

    let script = Script {
        packets: VecDeque::from(vec![packet(1)]),
        messages: VecDeque::from(vec![Err(DeserializeError::MessageBufferTooSmall)]),
        ..Script::default()
    };
    let (read, _, _) = read_all(&mut sender, script, &[2]);
    let Err(Stop::Failed(err)) = read else {
        panic!("expected an error");
    };
    assert!(matches!(
        err,
        SenderError::Deserialize(DeserializeError::MessageBufferTooSmall)
    ));
    assert_eq!(err.io(), None);
}

#[test]
fn packets_beyond_the_buffer_are_noticed() {
    let mut sender = sender_with(&[]);
    let next = |next_offset| Script {
        packets: VecDeque::from(vec![packet(1), packet(next_offset)]),
        ..Script::default()
    };
    let (read, _, _) = read_all(&mut sender, next(usize::MAX), &[1, 2]);
    let Err(Stop::Failed(err)) = read else {
        panic!("expected an error");
    };
    assert!(matches!(err, SenderError::Overflow));
    assert_eq!(
        err.io(),
        Some((ErrorKind::InvalidData, "overflow while advancing read buffer"))
    );
    let (read, _, _) = read_all(&mut sender, next(9), &[]);
    assert!(matches!(read, Err(Stop::Failed(SenderError::NothingRead))));
    let (read, _, _) = read_all(&mut sender, next(9), &[3]);
    let Err(Stop::Failed(err)) = read else {
        panic!("expected an error");
    };
    assert!(matches!(err, SenderError::BeyondBuffer));
    assert_eq!(
        err.io(),
        Some((ErrorKind::InvalidData, "transport.unpack consumed beyond buffer"))
    );
    for (data_start, data_end) in [(0, 9), (2, 1)] {
        let script = Script {
            packets: VecDeque::from(vec![Unpacked::Packet {
                data_start,
                data_end,
                next_offset: 1,
            }]),
            ..Script::default()
        };
        let (read, _, script) = read_all(&mut sender, script, &[4]);
        assert!(matches!(read, Err(Stop::Faulted(Fault::PacketOutOfBounds))));
        assert!(script.payloads.is_empty());
    }
}

#[test]
fn a_fault_stops_the_reading() {
    let ids = ids(1);
    let mut sender = sender_with(&[serialized(ids[0])]);
    let script = Script {
        packets: VecDeque::from(vec![packet(1)]),
        messages: VecDeque::from(vec![Ok(vec![Received::RpcResult {
            msg_id: ids[0],
            body: vec![0; 4],
        }])]),
        ..Script::default()
    };
    let (read, answers, _) = read_all(&mut sender, script, &[1, 2]);
    assert!(matches!(
        read,
        Err(Stop::Faulted(Fault::UnsentAnswered { .. }))
    ));
    assert!(answers.is_empty());
}

#[test]
fn too_much_data_is_refused() {
    let mut sender: Sender<usize> = Sender::new(0);
    assert_eq!(sender.check_room().ok(), Some(MAXIMUM_DATA));
    sender.read_buf.resize(MAXIMUM_DATA - 1, 0);
    assert_eq!(sender.check_room().ok(), Some(1));
    sender.read_buf.resize(MAXIMUM_DATA, 0);
    let err = match sender.check_room() {
        Err(err) => err,
        Ok(_) => panic!("expected an error"),
    };
    assert!(matches!(err, SenderError::TooMuchData));
    assert_eq!(
        err.io(),
        Some((ErrorKind::InvalidData, "incoming buffer exceeds MAXIMUM_DATA"))
    );
    assert_eq!(MAXIMUM_DATA, 1_056_768);
}

#[test]
fn an_error_clears_the_buffers() {
    let ids = ids(1);
    let mut sender = sender_with(&[RequestState::NotSerialized]);
    let mut link = Recorded::new(Script {
        pushes: VecDeque::from(vec![Some(ids[0])]),
        container: Some(ids[0]),
        ..Script::default()
    });
    sender.try_fill_write(&mut link);
    sender.on_net_write(1);
    sender.read_buf.extend_from_slice(&[1]);
    sender.on_error(&mut link);
    assert!(sender.read_buf.is_empty());
    assert!(sender.write_chunk().is_none());
    assert_eq!(sender.write_head, 0);
    assert_eq!(link.protocol.resets, 1);
    assert_eq!(waiting(&sender), vec![0]);
}

#[test]
fn reconnecting_starts_over() {
    let ids = ids(2);
    let mut sender = sender_with(&[
        sent(ids[0]),
        serialized(ids[1]),
        RequestState::NotSerialized,
    ]);
    sender.on_reconnected();
    assert_eq!(waiting(&sender), vec![0, 1, 2]);
    for request in &sender.requests {
        assert!(matches!(request.state, RequestState::NotSerialized));
    }
    assert_eq!(find_request(&sender.requests, ids[0]), None);
}

#[test]
fn failing_answers_everyone_in_order() {
    let ids = ids(1);
    let mut sender = sender_with(&[sent(ids[0]), RequestState::NotSerialized, sent(ids[0])]);
    assert_eq!(sender.fail_all(), vec![0, 1, 2]);
    assert!(sender.requests.is_empty());
    assert_eq!(sender.fail_all(), Vec::<usize>::new());
}

#[test]
fn only_a_new_connection_settles_an_error() {
    let ids = ids(1);
    let states = [sent(ids[0]), RequestState::NotSerialized];
    let mut sender = sender_with(&states);
    assert!(sender.settle("lost", true, true, Some(Ok(()))).is_ok());
    assert_eq!(waiting(&sender), vec![0, 1]);
    assert!(matches!(sender.requests[0].state, RequestState::NotSerialized));

    let settled = sender.settle("lost", true, true, Some(Err("unreachable")));
    assert_eq!(settled, Err(("unreachable", vec![0, 1])));
    assert!(sender.requests.is_empty());

    for (io, may_retry) in [(true, false), (false, true), (false, false)] {
        let mut sender = sender_with(&states);
        let settled = sender.settle("lost", io, may_retry, None);
        assert_eq!(settled, Err(("lost", vec![0, 1])));
        assert!(sender.requests.is_empty());
    }
}

#[test]
fn events_are_dispatched() {
    let ids = ids(1);
    let mut sender: Sender<usize> = Sender::new(0);
    let mut answers = Vec::new();
    let mut link = Recorded::new(Script {
        pushes: VecDeque::from(vec![Some(ids[0])]),
        container: Some(ids[0]),
        packets: VecDeque::from(vec![packet(1)]),
        messages: VecDeque::from(vec![Ok(vec![Received::RpcResult {
            msg_id: ids[0],
            body: vec![1; 4],
        }])]),
        ..Script::default()
    });
    let request = Request::new(vec![1, 2, 3, 4], 3);
    let done = sender.on_event(&mut link, NetEvent::Request(request), &mut answers);
    assert!(matches!(done, Ok(updates) if updates.is_empty()));
    sender.try_fill_write(&mut link);
    let event = NetEvent::PingDue {
        ping_id: 1,
        now: 2,
        result: 4,
    };
    assert!(sender.on_event(&mut link, event, &mut answers).is_ok());
    assert!(sender.on_event(&mut link, NetEvent::Written(5), &mut answers).is_ok());
    assert!(sender.on_event(&mut link, NetEvent::Read(vec![0]), &mut answers).is_ok());
    assert_eq!(answers.len(), 1);
    assert_eq!(answers[0].to, 3);
    assert_eq!(waiting(&sender), vec![4]);
}

/// The real layers.
struct Layers<T, M> {
    transport: T,
    mtp: M,
}

impl<T: Transport, M: Mtp> Protocol for Layers<T, M> {
    fn push(&mut self, buffer: &mut DequeBuffer<u8>, body: &[u8]) -> Option<MsgId> {
        self.mtp.push(buffer, body)
    }

    fn finalize(&mut self, buffer: &mut DequeBuffer<u8>) -> Option<MsgId> {
        self.mtp.finalize(buffer)
    }

    fn pack(&mut self, buffer: &mut DequeBuffer<u8>) {
        self.transport.pack(buffer)
    }

    fn unpack(&mut self, bytes: &[u8]) -> Unpacked {
        match self.transport.unpack(bytes) {
            Ok(offset) => Unpacked::Packet {
                data_start: offset.data_start,
                data_end: offset.data_end,
                next_offset: offset.next_offset,
            },
            Err(transport::Error::MissingBytes) => Unpacked::MissingBytes,
            Err(err) => Unpacked::Failed(err),
        }
    }

    fn deserialize(&mut self, payload: &[u8]) -> Result<Vec<Received>, DeserializeError> {
        let mut messages = Vec::new();
        for message in self.mtp.deserialize(payload)? {
            match message {
                Deserialization::RpcResult(result) => messages.push(Received::RpcResult {
                    msg_id: result.msg_id,
                    body: result.body,
                }),
                _ => panic!("unexpected message"),
            }
        }
        Ok(messages)
    }

    fn reset(&mut self) {
        self.transport.reset();
        self.mtp.reset();
    }
}

#[test]
fn a_request_goes_out_and_its_answer_comes_back() {
    let mut link = Recorded::new(Layers {
        transport: Intermediate::new(),
        mtp: mtp::Plain::new(),
    });
    let mut sender = sender_with(&[RequestState::NotSerialized, RequestState::NotSerialized]);
    sender.try_fill_write(&mut link);
    let mut expected = vec![0xee; 4];
    expected.extend_from_slice(&24u32.to_le_bytes());
    expected.extend_from_slice(&[0; 16]);
    expected.extend_from_slice(&4u32.to_le_bytes());
    expected.extend_from_slice(&[0, 1, 2, 3]);
    assert_eq!(sender.write_chunk().unwrap(), &expected[..]);
    sender.on_net_write(expected.len());
    assert!(matches!(sender.requests[1].state, RequestState::NotSerialized));

    let mut reply = 24u32.to_le_bytes().to_vec();
    reply.extend_from_slice(&[0; 8]);
    reply.extend_from_slice(&5u64.to_le_bytes());
    reply.extend_from_slice(&4u32.to_le_bytes());
    reply.extend_from_slice(b"Hey!");
    let mut answers = Vec::new();
    sender.read_buf.extend_from_slice(&reply[..20]);
    assert!(sender.on_net_read(&mut link, 20, &mut answers).is_ok());
    assert!(answers.is_empty());
    assert_eq!(sender.read_buf.len(), 20);
    sender.read_buf.extend_from_slice(&reply[20..]);
    assert!(sender.on_net_read(&mut link, 8, &mut answers).is_ok());
    assert_eq!(answers.len(), 1);
    assert_eq!(answers[0].to, 0);
    assert!(matches!(&answers[0].reply, Reply::Body(body) if body == b"Hey!"));
    assert!(sender.read_buf.is_empty());
    assert_eq!(waiting(&sender), vec![1]);
}

fn update_short(date: i32) -> enums::Updates {
    types::UpdateShort {
        update: types::UpdateDeleteMessages {
            messages: Vec::new(),
            pts: 3,
            pts_count: -4,
        }
        .into(),
        date,
    }
    .into()
}

#[test]
fn updates_are_read_or_made_up_for() {
    let update = update_short(7);
    let mut updates = Vec::new();
    Sender::<usize>::process_update(&mut updates, update.to_bytes());
    assert_eq!(updates, vec![update.clone()]);

    let affected: enums::messages::AffectedMessages = types::messages::AffectedMessages {
        pts: 3,
        pts_count: -4,
    }
    .into();
    let mut updates = Vec::new();
    Sender::<usize>::process_update(&mut updates, affected.to_bytes());
    assert_eq!(updates, vec![update_short(0)]);
    let mut bytes = affected.to_bytes();
    bytes.push(9);
    assert_eq!(
        enums::messages::AffectedMessages::from_bytes(&bytes).ok(),
        Some(affected)
    );
    Sender::<usize>::process_update(&mut updates, bytes[..11].to_vec());
    assert_eq!(updates.len(), 1);

    let invited = types::messages::InvitedUsers {
        updates: enums::Updates::TooLong,
        missing_invitees: Vec::new(),
    };
    let bare = invited.to_bytes();
    let mut updates = Vec::new();
    Sender::<usize>::process_update(&mut updates, bare.clone());
    assert_eq!(updates.len(), 1);

    let mut updates = Vec::new();
    Sender::<usize>::process_update(&mut updates, vec![1, 2, 3, 4]);
    Sender::<usize>::process_update(&mut updates, Vec::new());
    assert!(updates.is_empty());
}
