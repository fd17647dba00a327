use bytes::Bytes;
use conn_manager::client::Client;
use std::sync::mpsc;
use std::sync::mpsc::TryRecvError;
use std::sync::Arc;

#[test]
fn new_keeps_the_peer_address() {
    let (tx, _rx) = mpsc::channel::<Bytes>();
    let client = Client::new("127.0.0.1:8484".to_string(), tx);
    assert_eq!(client.addr(), "127.0.0.1:8484");
}

#[test]
fn send_puts_the_frame_on_the_queue() {
    let (tx, rx) = mpsc::channel::<Bytes>();
    let client = Client::new("127.0.0.1:1000".to_string(), tx);
    assert_eq!(rx.try_recv(), Err(TryRecvError::Empty));
    client.send(Bytes::from_static(b"payload"));
    assert_eq!(rx.try_recv(), Ok(Bytes::from_static(b"payload")));
    assert_eq!(rx.try_recv(), Err(TryRecvError::Empty));
}

#[test]
fn send_keeps_the_order_of_the_frames() {
    let (tx, rx) = mpsc::channel::<Bytes>();
    let client = Client::new("127.0.0.1:1001".to_string(), tx);
    for i in 0..100u8 {
        client.send(Bytes::from(vec![i; 3]));
    }
    for i in 0..100u8 {
        assert_eq!(rx.try_recv(), Ok(Bytes::from(vec![i; 3])));
    }
    assert_eq!(rx.try_recv(), Err(TryRecvError::Empty));
}

#[test]
fn send_to_a_dead_connection_is_silent() {
    let (tx, rx) = mpsc::channel::<Bytes>();
    let client = Client::new("127.0.0.1:1002".to_string(), tx);
    drop(rx);
    client.send(Bytes::from_static(b"lost"));
    client.send(Bytes::from_static(b"lost again"));
    assert_eq!(client.addr(), "127.0.0.1:1002");
}

#[test]
fn send_reaches_the_queue_through_any_holder() {
    let (tx, rx) = mpsc::channel::<Bytes>();
    let client = Arc::new(Client::new("127.0.0.1:1003".to_string(), tx));
    let listener = client.clone();
    let dispatcher = client.clone();
    listener.send(Bytes::from_static(b"1"));
    dispatcher.send(Bytes::from_static(b"2"));
    client.send(Bytes::from_static(b"3"));
    let got: Vec<Bytes> = rx.try_iter().collect();
    assert_eq!(got, vec![&b"1"[..], &b"2"[..], &b"3"[..]]);
}

#[test]
fn queue_closes_when_the_last_holder_is_gone() {
    let (tx, rx) = mpsc::channel::<Bytes>();
    let client = Arc::new(Client::new("127.0.0.1:1004".to_string(), tx));
    let other = client.clone();
    drop(client);
    assert_eq!(rx.try_recv(), Err(TryRecvError::Empty));
    drop(other);
    assert_eq!(rx.try_recv(), Err(TryRecvError::Disconnected));
}
