use pazk::ip::channel::{Channel as LoggedChannel, Coordinator};
use pazk::ip::{Channel, Log};

#[test]
fn channel_delivers_in_order_both_ways() {
    let (a, b) = Channel::<u8>::gen();
    a.send(1);
    a.send(2);
    b.send(9);
    assert_eq!(b.receive(), Some(1));
    assert_eq!(b.receive(), Some(2));
    assert_eq!(a.receive(), Some(9));
}

#[test]
fn send_to_a_dropped_end_is_discarded() {
    let (a, b) = Channel::<u8>::gen();
    drop(b);
    a.send(1);
}

#[test]
fn receive_from_a_dropped_end_returns_nothing() {
    let (a, b) = Channel::<u8>::gen();
    b.send(4);
    drop(b);
    assert_eq!(a.receive(), Some(4));
    assert_eq!(a.receive(), None);
}

#[test]
fn log_keeps_lines_in_order() {
    let log = Log::new();
    let other = log.clone();
    log.write(String::from("first"));
    other.write(String::from("second"));
    log.write(String::from("third"));
    let lines = log.get_log().lock().unwrap();
    assert_eq!(*lines, vec!["first", "second", "third"]);
}

#[test]
fn coordinator_records_every_send() {
    let coordinator: Coordinator<u8, char> = Coordinator::new();
    let (p, v) = coordinator.create_channel('P', 'V');
    p.send(10);
    v.send(20);
    p.send(30);
    assert_eq!(v.receive(), Some(10));
    assert_eq!(p.receive(), Some(20));
    assert_eq!(v.receive(), Some(30));
    let log = coordinator.get_log().lock().unwrap();
    let seen: Vec<(u8, char, char)> =
        log.iter().map(|m| (m.data, m.producer, m.consumer)).collect();
    assert_eq!(seen, vec![(10, 'P', 'V'), (20, 'V', 'P'), (30, 'P', 'V')]);
}

#[test]
fn coordinator_records_a_send_that_is_dropped() {
    let coordinator: Coordinator<u8, char> = Coordinator::new();
    let (p, v) = coordinator.create_channel('P', 'V');
    drop(v);
    p.send(10);
    assert_eq!(p.receive(), None);
    let log = coordinator.get_log().lock().unwrap();
    assert_eq!(log.len(), 1);
    assert_eq!(log[0].producer, 'P');
    assert_eq!(log[0].consumer, 'V');
}

#[test]
fn entry_names_the_sender_as_producer() {
    let coordinator: Coordinator<u8, char> = Coordinator::new();
    let (p, v) = coordinator.create_channel('P', 'V');
    let m = p.entry(7);
    assert_eq!((m.data, m.producer, m.consumer), (7, 'P', 'V'));
    let m = v.entry(8);
    assert_eq!((m.data, m.producer, m.consumer), (8, 'V', 'P'));
}

#[test]
fn join_crosses_the_two_queues() {
    let (tx1, rx1) = std::sync::mpsc::channel::<u8>();
    let (tx2, rx2) = std::sync::mpsc::channel::<u8>();
    let (into_first, into_second) = (tx1.clone(), tx2.clone());
    let (a, b) = Channel::join((tx1, rx1), (tx2, rx2));
    // what goes into the first queue comes out at the second end
    into_first.send(1).unwrap();
    a.send(2);
    assert_eq!(b.receive(), Some(1));
    assert_eq!(b.receive(), Some(2));
    // and what goes into the second queue comes out at the first end
    into_second.send(3).unwrap();
    b.send(4);
    assert_eq!(a.receive(), Some(3));
    assert_eq!(a.receive(), Some(4));
}

#[test]
fn logged_join_crosses_the_two_queues() {
    let coordinator: Coordinator<u8, char> = Coordinator::new();
    let (tx1, rx1) = std::sync::mpsc::channel::<u8>();
    let (tx2, rx2) = std::sync::mpsc::channel::<u8>();
    let (into_first, into_second) = (tx1.clone(), tx2.clone());
    let (p, v) = LoggedChannel::join((tx1, rx1), (tx2, rx2), 'P', 'V', coordinator.get_log());
    // what goes into the first queue comes out at the end of the second role
    into_first.send(1).unwrap();
    p.send(2);
    assert_eq!(v.receive(), Some(1));
    assert_eq!(v.receive(), Some(2));
    // and what goes into the second queue comes out at the end of the first
    into_second.send(3).unwrap();
    v.send(4);
    assert_eq!(p.receive(), Some(3));
    assert_eq!(p.receive(), Some(4));
    // both ends record in the coordinator's transcript
    let log = coordinator.get_log().lock().unwrap();
    let seen: Vec<(u8, char, char)> =
        log.iter().map(|m| (m.data, m.producer, m.consumer)).collect();
    assert_eq!(seen, vec![(2, 'P', 'V'), (4, 'V', 'P')]);
}
