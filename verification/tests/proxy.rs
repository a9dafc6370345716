use mc_router::proxy::{failure_reason, reply_frame, ConnInfo, DialFailure};
use mc_router::addr::SocketAddress;

#[test]
fn dial_failures_have_their_reasons() {
    assert_eq!(failure_reason(DialFailure::Refused), "Gateway refused connection");
    assert_eq!(failure_reason(DialFailure::TimedOut), "Gateway timed out");
    assert_eq!(failure_reason(DialFailure::Other), "Unknown error");
}

#[test]
fn reply_is_length_id_and_string() {
    assert_eq!(reply_frame(""), Some(vec![0x02, 0x00, 0x00]));
    assert_eq!(reply_frame("{}"), Some(vec![0x04, 0x00, 0x02, 0x7b, 0x7d]));
    let document = "\"Gateway timed out\"";
    let mut expected = vec![21, 0x00, 19];
    expected.extend(document.as_bytes());
    assert_eq!(reply_frame(document), Some(expected));
}

#[test]
fn long_reply_has_multi_byte_lengths() {
    let document = "x".repeat(300);
    let frame = reply_frame(&document).unwrap();
    assert_eq!(&frame[..5], &[0xaf, 0x02, 0x00, 0xac, 0x02]);
    assert_eq!(frame.len(), 2 + 1 + 2 + 300);
    assert_eq!(&frame[5..], document.as_bytes());
}

#[test]
fn connection_record_is_copied_whole() {
    let conn = ConnInfo {
        peer: SocketAddress::new("1.1.1.1:1"),
        target: SocketAddress::new("2.2.2.2:2"),
        handler: 5,
    };
    assert_eq!(conn.clone(), conn);
}
