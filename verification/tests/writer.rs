use bytes::Bytes;
use conn_manager::client::Client;
use conn_manager::writer::Writer;
use std::sync::mpsc;

#[test]
fn new_writer_is_running() {
    let writer = Writer::new();
    assert!(!writer.is_stopped());
}

#[test]
fn running_writer_passes_frames_on_in_order() {
    let mut writer = Writer::new();
    let frames: Vec<&'static [u8]> = vec![b"one", b"two", b"three"];
    let mut written = Vec::new();
    for bytes in frames {
        match writer.on_dequeue(Some(Bytes::from_static(bytes))) {
            Some(frame) => written.push(frame),
            None => panic!("a running writer writes every frame"),
        }
    }
    assert_eq!(written, vec![&b"one"[..], &b"two"[..], &b"three"[..]]);
    assert!(!writer.is_stopped());
}

#[test]
fn writer_passes_on_the_very_buffer_it_was_given() {
    let mut writer = Writer::new();
    let frame = Bytes::from(vec![1u8, 2, 3]);
    let place = frame.as_ptr();
    let out = writer.on_dequeue(Some(frame)).unwrap();
    assert_eq!(out.as_ptr(), place);
    assert_eq!(&out[..], &[1u8, 2, 3]);
}

#[test]
fn closed_queue_stops_the_writer() {
    let mut writer = Writer::new();
    assert!(writer.on_dequeue(Some(Bytes::from_static(b"last"))).is_some());
    assert!(writer.on_dequeue(None).is_none());
    assert!(writer.is_stopped());
}

#[test]
fn failed_write_stops_the_writer() {
    let mut writer = Writer::new();
    assert!(writer.on_dequeue(Some(Bytes::from_static(b"lost"))).is_some());
    writer.on_write_failed();
    assert!(writer.is_stopped());
}

#[test]
fn stopped_writer_drops_what_it_is_given() {
    let mut writer = Writer::new();
    writer.on_write_failed();
    assert!(writer.on_dequeue(Some(Bytes::from_static(b"late"))).is_none());
    assert!(writer.on_dequeue(None).is_none());
    writer.on_write_failed();
    assert!(writer.is_stopped());
}

#[test]
fn writer_serves_a_queue_until_its_handle_is_gone() {
    let (tx, rx) = mpsc::channel::<Bytes>();
    let client = Client::new("127.0.0.1:7000".to_string(), tx);
    client.send(Bytes::from_static(b"a"));
    client.send(Bytes::from_static(b"bc"));
    client.send(Bytes::from_static(b"def"));
    drop(client);

    let mut writer = Writer::new();
    let mut on_socket = Vec::new();
    while !writer.is_stopped() {
        if let Some(frame) = writer.on_dequeue(rx.recv().ok()) {
            on_socket.push(frame);
        }
    }
    assert_eq!(on_socket, vec![&b"a"[..], &b"bc"[..], &b"def"[..]]);
}
