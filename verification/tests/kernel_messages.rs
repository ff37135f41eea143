use initd::netlink::{
    as_str, decode_link_message, poll_outcome, poll_watch_set, receive, route_monitor_address,
    uevent_address, uevent_fields, uevent_message, LinkEvent, PollOutcome, Received,
};

fn link_message(len: u32, ty: u16, flags: u32, name: &[u8]) -> Vec<u8> {
    let mut b = vec![0u8; 64];
    b[0..4].copy_from_slice(&len.to_le_bytes());
    b[4..6].copy_from_slice(&ty.to_le_bytes());
    b[24..28].copy_from_slice(&flags.to_le_bytes());
    b[36..36 + name.len()].copy_from_slice(name);
    b
}

#[test]
fn new_interface_reports_flags() {
    let b = link_message(40, 16, 0x41, b"eth0\0");
    match decode_link_message(&b, 64, true) {
        LinkEvent::NewInterface { name, up, running } => {
            assert_eq!(name, "eth0");
            assert!(up);
            assert!(running);
        }
        _ => panic!("expected a new interface"),
    }
    let b = link_message(40, 16, 0x0, b"wlan0\0");
    match decode_link_message(&b, 64, true) {
        LinkEvent::NewInterface { name, up, running } => {
            assert_eq!(name, "wlan0");
            assert!(!up && !running);
        }
        _ => panic!("expected a new interface"),
    }
}

#[test]
fn message_types() {
    assert!(matches!(decode_link_message(&link_message(40, 24, 0, b"x\0"), 64, true), LinkEvent::RouteChanged));
    assert!(matches!(decode_link_message(&link_message(40, 25, 0, b"x\0"), 64, true), LinkEvent::RouteChanged));
    match decode_link_message(&link_message(40, 21, 0, b"lo\0"), 64, true) {
        LinkEvent::AddressRemoved(n) => assert_eq!(n, "lo"),
        _ => panic!(),
    }
    match decode_link_message(&link_message(40, 17, 0, b"lo\0"), 64, true) {
        LinkEvent::InterfaceRemoved(n) => assert_eq!(n, "lo"),
        _ => panic!(),
    }
    match decode_link_message(&link_message(40, 20, 0, b"lo\0"), 64, true) {
        LinkEvent::Interface(n) => assert_eq!(n, "lo"),
        _ => panic!(),
    }
    assert!(matches!(decode_link_message(&link_message(40, 99, 0, b"lo\0"), 64, true), LinkEvent::Other));
}

#[test]
fn length_beyond_received_is_invalid() {
    match decode_link_message(&link_message(300, 16, 0, b"x\0"), 64, true) {
        LinkEvent::InvalidLength(n) => assert_eq!(n, 300),
        _ => panic!(),
    }
}

#[test]
fn interface_name_not_utf8_is_empty() {
    match decode_link_message(&link_message(40, 21, 0, b"\xff\xfe\0"), 64, true) {
        LinkEvent::AddressRemoved(n) => assert_eq!(n, ""),
        _ => panic!(),
    }
}

#[test]
fn receive_errors() {
    let b = vec![0u8; 64];
    assert!(matches!(receive(-1, Some(11), &b), Received::Retry));
    assert!(matches!(receive(-1, Some(4), &b), Received::Retry));
    assert!(matches!(receive(-1, Some(9), &b), Received::Failed));
    assert!(matches!(receive(-1, None, &b), Received::Failed));
    assert!(matches!(receive(0, None, &b), Received::Event(LinkEvent::Other)));
}

#[test]
fn nul_terminated_text() {
    assert_eq!(as_str(b"abc\0def"), "abc");
    assert_eq!(as_str(b"abc"), "abc");
    assert_eq!(as_str(b"\0abc"), "");
    assert_eq!(as_str(b"\xffabc\0"), "");
}

#[test]
fn uevent_text_fields() {
    let msg = b"add@/devices/x\0ACTION=add\0\0\xff\xfe\0SEQNUM=7\0\0\0";
    assert_eq!(uevent_fields(msg), vec!["add@/devices/x", "ACTION=add", "SEQNUM=7"]);
    assert_eq!(uevent_fields(b""), Vec::<String>::new());
    assert_eq!(uevent_message(-1, msg), None);
    assert_eq!(uevent_message(10, b"a\0b").unwrap(), vec!["a", "b"]);
}

#[test]
fn socket_addresses() {
    let a = uevent_address(42);
    assert_eq!((a.nl_family, a.nl_pid, a.nl_groups), (16, 42, 1));
    let a = route_monitor_address(7);
    assert_eq!((a.nl_family, a.nl_pid, a.nl_groups), (16, 7, 0x51));
}

#[test]
fn poll_outcomes() {
    let mut fds = poll_watch_set();
    assert_eq!((fds[0].fd, fds[0].events, fds[1].fd, fds[1].events), (1, 1, 2, 1));
    assert!(matches!(poll_outcome(-1, &fds), PollOutcome::Failed));
    assert!(matches!(poll_outcome(0, &fds), PollOutcome::TimedOut));
    fds[0].revents = 0x1;
    fds[1].revents = 0x4;
    match poll_outcome(2, &fds) {
        PollOutcome::Ready { first_readable, first_writable, second_readable, second_writable } => {
            assert!(first_readable && !first_writable && !second_readable && second_writable);
        }
        _ => panic!(),
    }
    fds[0].revents = 0x5;
    match poll_outcome(1, &fds) {
        PollOutcome::Ready { first_readable, first_writable, .. } => {
            assert!(!first_readable && !first_writable);
        }
        _ => panic!(),
    }
}

#[test]
fn big_endian_numbers() {
    let mut b = vec![0u8; 64];
    b[0..4].copy_from_slice(&40u32.to_be_bytes());
    b[4..6].copy_from_slice(&16u16.to_be_bytes());
    b[24..28].copy_from_slice(&0x40u32.to_be_bytes());
    b[36..40].copy_from_slice(b"em1\0");
    match decode_link_message(&b, 64, false) {
        LinkEvent::NewInterface { name, up, running } => {
            assert_eq!(name, "em1");
            assert!(!up && running);
        }
        _ => panic!("expected a new interface"),
    }
    match decode_link_message(&b, 64, true) {
        LinkEvent::InvalidLength(n) => assert_eq!(n, 40u32.swap_bytes()),
        _ => panic!("expected an invalid length"),
    }
}

#[test]
fn receive_reads_the_machine_order() {
    let b = if u16::from_ne_bytes([1, 0]) == 1 {
        link_message(40, 24, 0, b"x\0")
    } else {
        let mut b = vec![0u8; 64];
        b[0..4].copy_from_slice(&40u32.to_be_bytes());
        b[4..6].copy_from_slice(&24u16.to_be_bytes());
        b
    };
    assert!(matches!(receive(64, None, &b), Received::Event(LinkEvent::RouteChanged)));
}
