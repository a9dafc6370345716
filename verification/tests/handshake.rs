use mc_router::error::ErrorKind;
use mc_router::prot::{legacy_host, protocol_version, seek_default, seek_handshake, seek_legacy};
use mc_router::prot::{Host, PeekCursor, Seek};

fn host(domain: &str, port: u16) -> Host {
    Host { domain: domain.to_string(), port }
}

fn var_int(mut n: u32) -> Vec<u8> {
    let mut out = Vec::new();
    while n >= 128 {
        out.push((n % 128) as u8 | 0x80);
        n /= 128;
    }
    out.push(n as u8);
    out
}

fn modern_packet(domain: &str, port: u16) -> Vec<u8> {
    let mut body = vec![0x00, 0xf7, 0x05];
    body.extend(var_int(domain.len() as u32));
    body.extend(domain.as_bytes());
    body.extend(port.to_be_bytes());
    body.push(0x01);
    let mut packet = var_int(body.len() as u32);
    packet.extend(body);
    packet
}

fn legacy_packet_with(units: &[u16], port: u32) -> Vec<u8> {
    let mut packet = vec![0xfe, 0x01, 0xfa, 0x00, 0x0b];
    for unit in "MC|PingHost".encode_utf16() {
        packet.extend(unit.to_be_bytes());
    }
    let len = (7 + 2 * units.len()) as u16;
    packet.extend(len.to_be_bytes());
    packet.push(0x4a);
    packet.extend((units.len() as u16).to_be_bytes());
    for unit in units {
        packet.extend(unit.to_be_bytes());
    }
    packet.extend(port.to_be_bytes());
    packet
}

fn legacy_packet(domain: &str, port: u32) -> Vec<u8> {
    let units: Vec<u16> = domain.encode_utf16().collect();
    legacy_packet_with(&units, port)
}

const PLAY: [u8; 20] = [
    0x13, 0x00, 0xf7, 0x05, 0x0c, 0x70, 0x6c, 0x61, 0x79, 0x2e, 0x65, 0x78, 0x61, 0x6d, 0x70, 0x6c,
    0x65, 0x63, 0xdd, 0x01,
];

#[test]
fn modern_handshake_names_the_host() {
    assert_eq!(seek_handshake(&PLAY, false), Seek::Found(host("play.example", 25565)));
    assert_eq!(seek_handshake(&PLAY, true), Seek::Found(host("play.example", 25565)));
    assert_eq!(seek_default(&PLAY), Seek::Found(host("play.example", 25565)));
    assert_eq!(modern_packet("play.example", 25565), PLAY.to_vec());
}

#[test]
fn modern_handshake_whose_length_leaves_out_the_port_is_invalid() {
    let mut short = PLAY;
    short[0] = 0x10;
    assert_eq!(seek_handshake(&short, false), Seek::Failed(ErrorKind::InvalidData));
}

#[test]
fn what_follows_the_handshake_does_not_matter() {
    let mut more = PLAY.to_vec();
    more.extend([0x01, 0x00, 0xff, 0xfe, 0x80, 0x80, 0x80]);
    assert_eq!(seek_handshake(&more, false), Seek::Found(host("play.example", 25565)));
    let mut legacy = legacy_packet("legacy.example", 25565);
    legacy.extend([0x00, 0x01, 0x02]);
    assert_eq!(seek_handshake(&legacy, false), Seek::Found(host("legacy.example", 25565)));
}

#[test]
fn peeked_bytes_are_left_as_they_were() {
    let peeked = PLAY.to_vec();
    let before = peeked.clone();
    let _ = seek_handshake(&peeked, false);
    assert_eq!(peeked, before);
}

#[test]
fn fewer_than_five_bytes_ask_for_five() {
    assert_eq!(seek_handshake(&[], false), Seek::Need(5));
    assert_eq!(seek_handshake(&PLAY[..4], false), Seek::Need(5));
    assert_eq!(seek_handshake(&[0xfe, 0x01, 0xfa], false), Seek::Need(5));
}

#[test]
fn closed_peer_turns_a_wait_into_eof() {
    assert_eq!(seek_handshake(&[], true), Seek::Failed(ErrorKind::UnexpectedEof));
    assert_eq!(seek_handshake(&PLAY[..4], true), Seek::Failed(ErrorKind::UnexpectedEof));
    assert_eq!(seek_handshake(&PLAY[..19], true), Seek::Failed(ErrorKind::UnexpectedEof));
    let legacy = legacy_packet("legacy.example", 25565);
    assert_eq!(seek_handshake(&legacy[..28], true), Seek::Failed(ErrorKind::UnexpectedEof));
    assert_eq!(seek_handshake(&legacy[..40], true), Seek::Failed(ErrorKind::UnexpectedEof));
}

#[test]
fn incomplete_modern_handshake_asks_for_the_whole_packet() {
    for have in 5..20 {
        assert_eq!(seek_handshake(&PLAY[..have], false), Seek::Need(20));
    }
    let mut long = modern_packet(&"h".repeat(200), 1);
    assert_eq!(long[..2], [0xd0, 0x01]);
    let whole = long.len();
    long.truncate(100);
    assert_eq!(seek_handshake(&long, false), Seek::Need(whole));
    assert_eq!(whole, 2 + 208);
}

#[test]
fn modern_length_out_of_range_is_invalid() {
    assert_eq!(
        seek_handshake(&[0xff, 0xff, 0xff, 0xff, 0x0f, 0x00], false),
        Seek::Failed(ErrorKind::InvalidData)
    );
    assert_eq!(
        seek_handshake(&[0x94, 0x02, 0x00, 0x00, 0x00], false),
        Seek::Failed(ErrorKind::InvalidData)
    );
    assert_eq!(seek_handshake(&[0x93, 0x02, 0x00, 0x00, 0x00], false), Seek::Need(277));
}

#[test]
fn modern_length_that_never_ends_is_invalid() {
    assert_eq!(
        seek_handshake(&[0x80, 0x80, 0x80, 0x80, 0x80, 0x00], false),
        Seek::Failed(ErrorKind::InvalidData)
    );
}

#[test]
fn modern_zero_length_is_invalid() {
    assert_eq!(
        seek_handshake(&[0x00, 0x00, 0x00, 0x00, 0x00], false),
        Seek::Failed(ErrorKind::InvalidData)
    );
}

#[test]
fn modern_malformed_fields_are_invalid() {
    let bad_id = [0x05, 0x80, 0x80, 0x80, 0x80, 0x80];
    assert_eq!(seek_handshake(&bad_id, false), Seek::Failed(ErrorKind::InvalidData));
    let bad_version = [0x04, 0x00, 0xf7, 0x85, 0x80];
    assert_eq!(seek_handshake(&bad_version, false), Seek::Failed(ErrorKind::InvalidData));
    let cut_string = [0x05, 0x00, 0x01, 0x09, 0x61, 0x62];
    assert_eq!(seek_handshake(&cut_string, false), Seek::Failed(ErrorKind::InvalidData));
    let not_utf8 = [0x08, 0x00, 0x01, 0x02, 0xc3, 0x28, 0x63, 0xdd, 0x01];
    assert_eq!(seek_handshake(&not_utf8, false), Seek::Failed(ErrorKind::InvalidData));
    let no_state = [0x06, 0x00, 0x01, 0x01, 0x61, 0x63, 0xdd];
    assert_eq!(seek_handshake(&no_state, false), Seek::Failed(ErrorKind::InvalidData));
    let half_port = [0x05, 0x00, 0x01, 0x01, 0x61, 0x63];
    assert_eq!(seek_handshake(&half_port, false), Seek::Failed(ErrorKind::InvalidData));
}

#[test]
fn modern_address_longer_than_256_bytes_is_invalid() {
    let mut body = vec![0x00, 0x01, 0x81, 0x02];
    body.extend(vec![0x61; 257]);
    body.extend([0x63, 0xdd, 0x01]);
    assert_eq!(body.len(), 264);
    let mut packet = vec![0x88, 0x02];
    packet.extend(body);
    assert_eq!(seek_handshake(&packet, false), Seek::Failed(ErrorKind::InvalidData));
    let fits = modern_packet_long(256);
    assert_eq!(seek_handshake(&fits, false), Seek::Found(host(&"a".repeat(256), 25565)));
}

fn modern_packet_long(n: usize) -> Vec<u8> {
    let mut body = vec![0x00, 0x01, 0x80, 0x02];
    body.extend(vec![0x61; n]);
    body.extend([0x63, 0xdd, 0x01]);
    let mut packet = vec![0x87, 0x02];
    packet.extend(body);
    packet
}

#[test]
fn legacy_ping_names_the_host() {
    let packet = legacy_packet("legacy.example", 25565);
    assert_eq!(packet.len(), 29 + 35);
    assert_eq!(seek_handshake(&packet, false), Seek::Found(host("legacy.example", 25565)));
    assert_eq!(seek_legacy(&packet), Seek::Found(host("legacy.example", 25565)));
}

#[test]
fn legacy_ping_reads_utf16() {
    let packet = legacy_packet("grüße.example", 1);
    assert_eq!(seek_handshake(&packet, false), Seek::Found(host("grüße.example", 1)));
    let packet = legacy_packet("a\u{1F600}b", 2);
    assert_eq!(seek_handshake(&packet, false), Seek::Found(host("a\u{1F600}b", 2)));
    let packet = legacy_packet("", 3);
    assert_eq!(seek_handshake(&packet, false), Seek::Found(host("", 3)));
}

#[test]
fn legacy_port_keeps_its_low_16_bits() {
    let packet = legacy_packet("legacy.example", 0x0001_63dd);
    assert_eq!(seek_handshake(&packet, false), Seek::Found(host("legacy.example", 25565)));
    let packet = legacy_packet("legacy.example", 0xffff_0000);
    assert_eq!(seek_handshake(&packet, false), Seek::Found(host("legacy.example", 0)));
}

#[test]
fn incomplete_legacy_ping_asks_for_more() {
    let packet = legacy_packet("legacy.example", 25565);
    for have in 5..29 {
        assert_eq!(seek_handshake(&packet[..have], false), Seek::Need(29));
    }
    for have in 29..packet.len() {
        assert_eq!(seek_handshake(&packet[..have], false), Seek::Need(64));
    }
}

#[test]
fn legacy_payload_length_out_of_range_is_invalid() {
    let mut packet = legacy_packet("legacy.example", 25565);
    packet[27] = 0x00;
    packet[28] = 0x06;
    assert_eq!(seek_handshake(&packet, false), Seek::Failed(ErrorKind::InvalidData));
    packet[27] = 0x02;
    packet[28] = 0x07;
    assert_eq!(seek_handshake(&packet, false), Seek::Failed(ErrorKind::InvalidData));
    packet[28] = 0x06;
    assert_eq!(seek_handshake(&packet, false), Seek::Need(29 + 518));
    let empty_host = legacy_packet("", 9);
    assert_eq!(empty_host[27..29], [0x00, 0x07]);
    assert_eq!(seek_handshake(&empty_host, false), Seek::Found(host("", 9)));
}

#[test]
fn legacy_host_longer_than_the_payload_is_invalid() {
    let mut packet = legacy_packet("legacy.example", 25565);
    packet[31] = 15;
    assert_eq!(seek_handshake(&packet, false), Seek::Failed(ErrorKind::InvalidData));
    packet[30] = 0xff;
    packet[31] = 0xff;
    assert_eq!(seek_handshake(&packet, false), Seek::Failed(ErrorKind::InvalidData));
}

#[test]
fn legacy_host_that_is_not_utf16_is_invalid() {
    let packet = legacy_packet_with(&[0x0061, 0xd800, 0x0062], 25565);
    assert_eq!(seek_handshake(&packet, false), Seek::Failed(ErrorKind::InvalidData));
    let packet = legacy_packet_with(&[0xdc00], 25565);
    assert_eq!(seek_handshake(&packet, false), Seek::Failed(ErrorKind::InvalidData));
}

#[test]
fn legacy_host_is_made_of_text_and_port() {
    assert_eq!(legacy_host(Some("a.example".to_string()), 25565), Seek::Found(host("a.example", 25565)));
    assert_eq!(legacy_host(Some("a.example".to_string()), 65536 + 7), Seek::Found(host("a.example", 7)));
    assert_eq!(legacy_host(None, 25565), Seek::Failed(ErrorKind::InvalidData));
}

#[test]
fn standalone_parsers_ask_for_their_own_minimum() {
    assert_eq!(seek_default(&[]), Seek::Need(1));
    assert_eq!(seek_default(&[0x80, 0x80]), Seek::Need(3));
    assert_eq!(seek_default(&[0x07]), Seek::Need(8));
    assert_eq!(seek_legacy(&[]), Seek::Need(29));
}

#[test]
fn cursor_reads_without_consuming() {
    let stream = [0x10, 0x11, 0x12, 0x13, 0x14, 0x15];
    let mut cursor = PeekCursor::new(&stream, 0);
    assert_eq!(cursor.get_pos(), 0);
    assert_eq!(cursor.read(2).to_vec(), vec![0x10, 0x11]);
    assert_eq!(cursor.get_pos(), 2);
    assert_eq!(cursor.read(3).to_vec(), vec![0x12, 0x13, 0x14]);
    assert_eq!(cursor.get_pos(), 5);
    assert_eq!(cursor.read(4).to_vec(), vec![0x15]);
    assert_eq!(cursor.get_pos(), 9);
    assert_eq!(cursor.read(1).to_vec(), Vec::<u8>::new());
    assert_eq!(cursor.get_pos(), 10);
    cursor.set_pos(1);
    assert_eq!(cursor.get_pos(), 1);
    assert_eq!(cursor.read(0).to_vec(), Vec::<u8>::new());
    assert_eq!(cursor.read(5).to_vec(), vec![0x11, 0x12, 0x13, 0x14, 0x15]);
    assert_eq!(stream, [0x10, 0x11, 0x12, 0x13, 0x14, 0x15]);
}

#[test]
fn cursor_reads_var_ints() {
    let stream = [0xf7, 0x05, 0x80, 0x80, 0x80, 0x80, 0x80, 0x01, 0xff];
    let mut cursor = PeekCursor::new(&stream, 0);
    assert_eq!(cursor.read_var_int(), Ok(759));
    assert_eq!(cursor.get_pos(), 2);
    assert_eq!(cursor.read_var_int(), Err(ErrorKind::InvalidData));
    assert_eq!(cursor.get_pos(), 2);
    cursor.set_pos(7);
    assert_eq!(cursor.read_var_int(), Ok(1));
    assert_eq!(cursor.get_pos(), 8);
    assert_eq!(cursor.read_var_int(), Err(ErrorKind::UnexpectedEof));
    assert_eq!(cursor.get_pos(), 8);
    cursor.set_pos(9);
    assert_eq!(cursor.read_var_int(), Err(ErrorKind::UnexpectedEof));
    cursor.set_pos(40);
    assert_eq!(cursor.read_var_int(), Err(ErrorKind::UnexpectedEof));
    assert_eq!(cursor.get_pos(), 40);
}

#[test]
fn version_is_read_from_a_complete_handshake() {
    assert_eq!(protocol_version(&PLAY), Some(759));
    let mut more = PLAY.to_vec();
    more.extend([0x09, 0x09]);
    assert_eq!(protocol_version(&more), Some(759));
    assert_eq!(protocol_version(&legacy_packet("legacy.example", 25565)), Some(0x4a));
    let padded = [0x08, 0x80, 0x00, 0x2f, 0x01, 0x61, 0x63, 0xdd, 0x02];
    assert_eq!(seek_handshake(&padded, false), Seek::Found(host("a", 25565)));
    assert_eq!(protocol_version(&padded), Some(47));
}

#[test]
fn version_is_not_read_from_anything_else() {
    assert_eq!(protocol_version(&[]), None);
    assert_eq!(protocol_version(&PLAY[..19]), None);
    assert_eq!(protocol_version(&[0x80, 0x80, 0x80, 0x80, 0x80]), None);
    let legacy = legacy_packet("legacy.example", 25565);
    assert_eq!(protocol_version(&legacy[..40]), None);
    let bad = legacy_packet_with(&[0xd800], 25565);
    assert_eq!(protocol_version(&bad), None);
}
