use bytes::Bytes;
use conn_manager::dispatch;
use conn_manager::Client;
use conn_manager::Event;
use conn_manager::ReadOutcome;
use conn_manager::Reaction;
use conn_manager::Reader;
use conn_manager::Writer;
use conn_manager::READ_BUFFER_SIZE;
use std::sync::mpsc;
use std::sync::mpsc::Receiver;
use std::sync::Arc;

fn buffer_holding(bytes: &[u8]) -> [u8; READ_BUFFER_SIZE] {
    let mut buf = [0u8; READ_BUFFER_SIZE];
    buf[..bytes.len()].copy_from_slice(bytes);
    buf
}

fn connection(addr: &str) -> (Arc<Client>, Receiver<Bytes>) {
    let (tx, rx) = mpsc::channel::<Bytes>();
    (Arc::new(Client::new(addr.to_string(), tx)), rx)
}

/// Does what the dispatcher asks for and keeps a record of it.
fn carry_out(event: Event, log: &mut Vec<String>) {
    let label = match &event {
        Event::Connect(_) => "Connect".to_string(),
        Event::Disconnect(_) => "Disconnect".to_string(),
        Event::Frame(_, frame) => format!("Frame({} bytes)", frame.len()),
    };
    log.push(label);
    match dispatch(event) {
        Reaction::Notice(line) => log.push(line),
        Reaction::Echo(to, frame) => to.send(frame),
    }
}

/// Lets the writer take everything that is in the queue right now and
/// returns what it hands to the socket.
fn drain(writer: &mut Writer, queue: &Receiver<Bytes>) -> Vec<u8> {
    let mut on_socket = Vec::new();
    while let Ok(frame) = queue.try_recv() {
        if let Some(frame) = writer.on_dequeue(Some(frame)) {
            on_socket.extend_from_slice(&frame);
        }
    }
    on_socket
}

#[test]
fn ping_is_echoed_between_connect_and_disconnect() {
    let (client, queue) = connection("127.0.0.1:40001");
    let mut writer = Writer::new();
    let mut log = Vec::new();

    let (mut reader, connect) = Reader::open(client.clone());
    carry_out(connect, &mut log);
    assert!(drain(&mut writer, &queue).is_empty());

    let frame = reader.on_read(&buffer_holding(b"ping"), ReadOutcome::Data(4)).unwrap();
    carry_out(frame, &mut log);
    assert_eq!(drain(&mut writer, &queue), b"ping".to_vec());

    let disconnect = reader.on_read(&buffer_holding(b""), ReadOutcome::Data(0)).unwrap();
    carry_out(disconnect, &mut log);
    assert!(drain(&mut writer, &queue).is_empty());

    assert!(reader.is_closed());
    assert_eq!(
        log,
        vec![
            "Connect",
            "127.0.0.1:40001 connected",
            "Frame(4 bytes)",
            "Disconnect",
            "127.0.0.1:40001 disconnected",
        ]
    );
}

#[test]
fn hello_from_a_reaches_only_a() {
    let (a, queue_a) = connection("10.0.0.1:5000");
    let (b, queue_b) = connection("10.0.0.2:5000");
    let mut writer_a = Writer::new();
    let mut writer_b = Writer::new();
    let mut log = Vec::new();

    let (mut reader_a, connect_a) = Reader::open(a.clone());
    let (_reader_b, connect_b) = Reader::open(b.clone());
    carry_out(connect_a, &mut log);
    carry_out(connect_b, &mut log);

    let frame = reader_a.on_read(&buffer_holding(b"hello"), ReadOutcome::Data(5)).unwrap();
    match &frame {
        Event::Frame(from, _) => {
            assert!(Arc::ptr_eq(from, &a));
            assert!(!Arc::ptr_eq(from, &b));
        }
        _ => panic!("a read of five bytes gives a frame"),
    }
    carry_out(frame, &mut log);

    assert_eq!(drain(&mut writer_a, &queue_a), b"hello".to_vec());
    assert!(drain(&mut writer_b, &queue_b).is_empty());
}

#[test]
fn close_without_data_gives_connect_then_disconnect() {
    let (client, queue) = connection("192.168.1.9:61234");
    let mut log = Vec::new();

    let (mut reader, connect) = Reader::open(client.clone());
    assert!(matches!(connect, Event::Connect(_)));
    carry_out(connect, &mut log);

    let next = reader.on_read(&buffer_holding(b""), ReadOutcome::Data(0)).unwrap();
    assert!(matches!(next, Event::Disconnect(_)));
    carry_out(next, &mut log);

    assert!(reader.is_closed());
    assert!(queue.try_recv().is_err());
    assert_eq!(
        log,
        vec![
            "Connect",
            "192.168.1.9:61234 connected",
            "Disconnect",
            "192.168.1.9:61234 disconnected",
        ]
    );
}

#[test]
fn echo_gives_back_every_byte_in_order() {
    let (client, queue) = connection("127.0.0.1:40002");
    let mut writer = Writer::new();
    let mut log = Vec::new();
    let chunks: Vec<&[u8]> = vec![b"GET / HT", b"TP/1.1\r\n", b"\r\n", b"x"];

    let (mut reader, connect) = Reader::open(client.clone());
    carry_out(connect, &mut log);
    let mut sent = Vec::new();
    let mut received = Vec::new();
    for chunk in chunks {
        sent.extend_from_slice(chunk);
        let event = reader.on_read(&buffer_holding(chunk), ReadOutcome::Data(chunk.len())).unwrap();
        carry_out(event, &mut log);
        received.extend(drain(&mut writer, &queue));
    }
    assert_eq!(received, sent);
    assert_eq!(received, b"GET / HTTP/1.1\r\n\r\nx".to_vec());
}

#[test]
fn streams_of_two_connections_stay_apart() {
    let (a, queue_a) = connection("10.0.0.1:5000");
    let (b, queue_b) = connection("10.0.0.2:5000");
    let mut log = Vec::new();

    let (mut reader_a, connect_a) = Reader::open(a.clone());
    let (mut reader_b, connect_b) = Reader::open(b.clone());
    let mut shared = vec![connect_a, connect_b];
    shared.push(reader_a.on_read(&buffer_holding(b"a1"), ReadOutcome::Data(2)).unwrap());
    shared.push(reader_b.on_read(&buffer_holding(b"b1"), ReadOutcome::Data(2)).unwrap());
    shared.push(reader_b.on_read(&buffer_holding(b"b2"), ReadOutcome::Data(2)).unwrap());
    shared.push(reader_a.on_read(&buffer_holding(b"a2"), ReadOutcome::Data(2)).unwrap());
    shared.push(reader_b.on_read(&buffer_holding(b""), ReadOutcome::Failed).unwrap());
    shared.push(reader_a.on_read(&buffer_holding(b""), ReadOutcome::Data(0)).unwrap());

    for event in &shared {
        match event {
            Event::Connect(c) | Event::Disconnect(c) => {
                assert!(Arc::ptr_eq(c, &a) || Arc::ptr_eq(c, &b));
            }
            Event::Frame(c, frame) => {
                if frame[0] == b'a' {
                    assert!(Arc::ptr_eq(c, &a));
                } else {
                    assert!(Arc::ptr_eq(c, &b));
                }
            }
        }
    }
    for event in shared {
        carry_out(event, &mut log);
    }

    let mut writer_a = Writer::new();
    let mut writer_b = Writer::new();
    assert_eq!(drain(&mut writer_a, &queue_a), b"a1a2".to_vec());
    assert_eq!(drain(&mut writer_b, &queue_b), b"b1b2".to_vec());
}
