use langton::{Param, Scale};

#[test]
fn parameter_starts_with_its_value() {
    let (_send, mut param) = Param::new(250u8);
    assert_eq!(param.get(), 250);
    assert_eq!(param.get(), 250);
}

#[test]
fn latest_value_sent_wins() {
    let (send, mut param) = Param::new(1usize);
    send.send(2).unwrap();
    send.send(3).unwrap();
    send.send(5).unwrap();
    assert_eq!(param.get(), 5);
    assert_eq!(param.get(), 5);
    send.send(4).unwrap();
    assert_eq!(param.get(), 4);
}

#[test]
fn every_sender_reaches_the_parameter() {
    let (send, mut param) = Param::new(0.5f64);
    let other = send.clone();
    send.send(1.5).unwrap();
    other.send(2.5).unwrap();
    assert_eq!(param.get(), 2.5);
    other.send(3.5).unwrap();
    send.send(4.5).unwrap();
    assert_eq!(param.get(), 4.5);
}

#[test]
fn value_stays_when_the_senders_are_gone() {
    let (send, mut param) = Param::new(7i32);
    send.send(8).unwrap();
    drop(send);
    assert_eq!(param.get(), 8);
    assert_eq!(param.get(), 8);
}

#[test]
fn observe_keeps_the_last_of_what_came() {
    let (_send, mut param) = Param::new(10u32);
    assert_eq!(param.observe(&vec![]), 10);
    assert_eq!(param.observe(&vec![11, 12, 13]), 13);
    assert_eq!(param.observe(&vec![]), 13);
    assert_eq!(param.observe(&vec![9]), 9);
    assert_eq!(param.get(), 9);
}

#[test]
fn scale_is_linear_unless_told() {
    assert_eq!(Scale::default(), Scale::Linear);
    assert_ne!(Scale::default(), Scale::Logarithmic);
}
