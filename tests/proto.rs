use std::collections::VecDeque;
use tusq::messages::{password_cleartext, password_md5};
use tusq::messages;
use tusq::proto::{ProtoMessage, ProtoParser, ProtoStartup, StartupMessage};

#[test]
fn it_can_create_a_cleartext_password_response() {
    let password = "123456";
    let expected = &[112, 0, 0, 0, 11, 49, 50, 51, 52, 53, 54, 0];
    assert_eq!(&password_cleartext(password), expected);
}

#[test]
fn it_can_create_an_md5_password_response() {
    let user = "testuser";
    let password = "123456";
    let salt = &[0x17, 0xF5, 0x9E, 0x3E];

    // Underlying md5 password: md5c7342a0451b0de1a27c3e7e31776792e
    let expected = &[
        112, 0, 0, 0, 40, 109, 100, 53, 99, 55, 51, 52, 50, 97, 48, 52, 53, 49, 98, 48, 100, 101,
        49, 97, 50, 55, 99, 51, 101, 55, 101, 51, 49, 55, 55, 54, 55, 57, 50, 101, 0,
    ];
    assert_eq!(&password_md5(user, password, salt), expected);
}

fn expected_startup_message() -> StartupMessage {
    let mut expected = StartupMessage::new();
    expected.protocol_version = 196608;
    expected
        .parameters
        .insert("application_name".into(), "psql".into());
    expected
        .parameters
        .insert("client_encoding".into(), "UTF8".into());
    expected
        .parameters
        .insert("database".into(), "dispatch_development".into());
    expected.parameters.insert("user".into(), "postgres".into());
    expected
}

#[test]
fn it_can_parse_a_complete_startup_message() {
    let startup_message_packet = &[
        0, 0, 0, 96, 0, 3, 0, 0, 117, 115, 101, 114, 0, 112, 111, 115, 116, 103, 114, 101, 115, 0,
        100, 97, 116, 97, 98, 97, 115, 101, 0, 100, 105, 115, 112, 97, 116, 99, 104, 95, 100, 101,
        118, 101, 108, 111, 112, 109, 101, 110, 116, 0, 97, 112, 112, 108, 105, 99, 97, 116, 105,
        111, 110, 95, 110, 97, 109, 101, 0, 112, 115, 113, 108, 0, 99, 108, 105, 101, 110, 116,
        95, 101, 110, 99, 111, 100, 105, 110, 103, 0, 85, 84, 70, 56, 0, 0,
    ];

    let mut parser = ProtoParser::new();

    let (n, startup_message) = parser.parse_startup(startup_message_packet).unwrap();
    assert_eq!(n, startup_message_packet.len());
    assert_eq!(
        startup_message.unwrap(),
        ProtoStartup::Message(expected_startup_message())
    );
}

#[test]
fn it_returns_empty_when_missing_data() {
    let packet = &[84, 0, 0, 0];
    let mut msgs = VecDeque::new();
    let mut parser = ProtoParser::new();
    assert_eq!(parser.parse(packet, &mut msgs).unwrap(), 0);
    assert_eq!(msgs.len(), 0);
}

#[test]
fn it_can_parse_a_partial_and_skip_insufficient_buffer() {
    let packet = &[
        // Complete C tag.
        67, 0, 0, 0, 13, 83, 69, 76, 69, 67, 84, 32, 49, 0,
        // Only 4-bytes of a second C tag message.
        67, 0, 0, 0,
    ];

    let mut msgs = VecDeque::new();
    let mut parser = ProtoParser::new();
    let n = parser.parse(packet, &mut msgs).unwrap();
    assert_eq!(n, packet.len() - 4);
    assert_eq!(msgs.len(), 1);
    assert_eq!(msgs[0], ProtoMessage::Message('C', 0, 13));
}

#[test]
fn it_can_parse_a_partial_over_several_buffers() {
    // T tag split over 3 packets.
    let packet1 = &[84, 0, 0, 0, 29, 0, 1, 103, 117, 105, 100, 0];
    let packet2 = &[0, 1, 54, 55, 0, 2, 0, 0, 4, 19, 255];
    let packet3 = &[255, 0, 0, 0, 44, 0, 0];

    let mut msgs = VecDeque::new();
    let mut parser = ProtoParser::new();
    let n1 = parser.parse(packet1, &mut msgs).unwrap();
    let n2 = parser.parse(packet2, &mut msgs).unwrap();
    let n3 = parser.parse(packet3, &mut msgs).unwrap();

    assert_eq!([n1, n2, n3], [packet1.len(), packet2.len(), packet3.len()]);
    assert_eq!(msgs.len(), 3);
    assert_eq!(msgs[0], ProtoMessage::Partial('T', 0, 11));
    assert_eq!(msgs[1], ProtoMessage::Partial('T', 0, 10));
    assert_eq!(msgs[2], ProtoMessage::PartialComplete('T', 6));
}

#[test]
fn it_can_parse_multiple_complete_msgs_and_then_a_partial() {
    let packet = &[
        // T tag
        84, 0, 0, 0, 29, 0, 1, 103, 117, 105, 100, 0, 0, 1, 54, 55, 0, 2, 0, 0, 4, 19, 255, 255,
        0, 0, 0, 44, 0, 0,
        // D tag
        68, 0, 0, 0, 50, 0, 1, 0, 0, 0, 40, 83, 72, 82, 45, 100, 54, 52, 97, 100, 99, 101, 55,
    ];

    let mut msgs = VecDeque::new();
    let mut parser = ProtoParser::new();
    let n = parser.parse(packet, &mut msgs).unwrap();

    assert_eq!(n, packet.len());
    assert_eq!(msgs.len(), 2);
    assert_eq!(msgs[0], ProtoMessage::Message('T', 0, 29));
    assert_eq!(msgs[1], ProtoMessage::Partial('D', 30, packet.len() - 1));
}

#[test]
fn it_can_parse_auth_ok() {
    let packet = messages::auth_ok();

    let mut msgs = VecDeque::new();
    let mut parser = ProtoParser::new();
    let n = parser.parse(&packet, &mut msgs).unwrap();

    assert_eq!(n, packet.len());
    assert_eq!(msgs.len(), 1);
    assert_eq!(msgs[0], ProtoMessage::Message('R', 0, 8));
}

#[test]
fn it_can_parse_multiple_complete_msgs() {
    let packet = &[
        // T tag
        84, 0, 0, 0, 29, 0, 1, 103, 117, 105, 100, 0, 0, 1, 54, 55, 0, 2, 0, 0, 4, 19, 255, 255,
        0, 0, 0, 44, 0, 0,
        // D tag
        68, 0, 0, 0, 50, 0, 1, 0, 0, 0, 40, 83, 72, 82, 45, 100, 54, 52, 97, 100, 99, 101, 55,
        45, 48, 97, 48, 49, 45, 52, 54, 100, 101, 45, 57, 99, 53, 101, 45, 55, 55, 101, 102, 55,
        101, 101, 57, 101, 51, 101, 52,
        // C tag
        67, 0, 0, 0, 13, 83, 69, 76, 69, 67, 84, 32, 49, 0,
    ];

    let mut msgs = VecDeque::new();
    let mut parser = ProtoParser::new();
    let n = parser.parse(packet, &mut msgs).unwrap();

    assert_eq!(n, packet.len());
    assert_eq!(msgs.len(), 3);
    assert_eq!(msgs[0], ProtoMessage::Message('T', 0, 29));
    assert_eq!(msgs[1], ProtoMessage::Message('D', 30, 80));
    assert_eq!(msgs[2], ProtoMessage::Message('C', 81, packet.len() - 1));
}

#[test]
fn it_can_parse_a_partial_msg_and_later_complete_the_partial() {
    // This is a row description message with a column called "guid"
    let packet1 = &[
        68, 0, 0, 0, 50, 0, 1, 0, 0, 0, 40, 83, 72, 82, 45, 100, 54, 52, 97, 100, 99, 101, 55, 45,
        48, 97, 48, 49, 45, 52, 54,
    ];
    let packet2 = &[
        100, 101, 45, 57, 99, 53, 101, 45, 55, 55, 101, 102, 55, 101, 101, 57, 101, 51, 101, 52,
    ];

    let mut msgs = VecDeque::new();
    let mut parser = ProtoParser::new();
    let n = parser.parse(packet1, &mut msgs).unwrap();
    assert_eq!(n, packet1.len());
    assert_eq!(msgs.len(), 1);
    assert_eq!(
        msgs.pop_front().unwrap(),
        ProtoMessage::Partial('D', 0, packet1.len() - 1)
    );

    let n = parser.parse(packet2, &mut msgs).unwrap();
    assert_eq!(n, packet2.len());
    assert_eq!(msgs.len(), 1);
    assert_eq!(
        msgs[0],
        ProtoMessage::PartialComplete('D', packet2.len() - 1)
    );
}

#[test]
fn it_can_parse_a_complete_msg() {
    // This is a data row message with a column called "guid"
    let packet = &[
        68, 0, 0, 0, 50, 0, 1, 0, 0, 0, 40, 83, 72, 82, 45, 100, 54, 52, 97, 100, 99, 101, 55, 45,
        48, 97, 48, 49, 45, 52, 54, 100, 101, 45, 57, 99, 53, 101, 45, 55, 55, 101, 102, 55, 101,
        101, 57, 101, 51, 101, 52,
    ];

    let mut msgs = VecDeque::new();
    let mut parser = ProtoParser::new();
    let n = parser.parse(packet, &mut msgs).unwrap();

    assert_eq!(n, packet.len());
    assert_eq!(msgs.len(), 1);
    assert_eq!(msgs[0], ProtoMessage::Message('D', 0, packet.len() - 1));
}

#[test]
fn it_can_parse_a_sync_msg() {
    let packet = &[b'S', 0, 0, 0, 4];

    let mut msgs = VecDeque::new();
    let mut parser = ProtoParser::new();
    let n = parser.parse(packet, &mut msgs).unwrap();

    assert_eq!(n, packet.len());
    assert_eq!(msgs.len(), 1);
    assert_eq!(msgs[0], ProtoMessage::Message('S', 0, packet.len() - 1));
}
