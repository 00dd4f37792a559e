use bytes::BytesMut;
use radio_panel::front_panel_input::{
    command_bytes, decode_message, find_newline, DecodeError, EncodeError, EventsCodec, Light,
    PanelInputEvent, PanelOutputEvent,
};

fn buf(bytes: &[u8]) -> BytesMut {
    BytesMut::from(bytes)
}

fn decode(bytes: &[u8]) -> (Result<Option<PanelInputEvent>, DecodeError>, Vec<u8>) {
    let mut codec = EventsCodec;
    let mut b = buf(bytes);
    assert!(codec.can_decode(&b));
    let r = codec.decode(&mut b);
    (r, b.as_ref().to_vec())
}

#[test]
fn decodes_wiper_line() {
    let (r, rest) = decode(b"w123\n");
    assert!(matches!(r, Ok(Some(PanelInputEvent::Wiper(123)))));
    assert!(rest.is_empty());
}

#[test]
fn decodes_volume_turn_and_keeps_following_bytes() {
    let (r, rest) = decode(b"r-5\nw7\n");
    assert!(matches!(r, Ok(Some(PanelInputEvent::VolumeTurn(-5)))));
    assert_eq!(rest, b"w7\n".to_vec());
}

#[test]
fn white_space_around_the_number_is_ignored() {
    let (r, _) = decode(b"w  42 \r\n");
    assert!(matches!(r, Ok(Some(PanelInputEvent::Wiper(42)))));
    let (r, _) = decode("w\u{a0}5\n".as_bytes());
    assert!(matches!(r, Ok(Some(PanelInputEvent::Wiper(5)))));
    let (r, _) = decode(b"r+17\n");
    assert!(matches!(r, Ok(Some(PanelInputEvent::VolumeTurn(17)))));
}

#[test]
fn extreme_readings() {
    let (r, _) = decode(b"w-2147483648\n");
    assert!(matches!(r, Ok(Some(PanelInputEvent::Wiper(i32::MIN)))));
    let (r, _) = decode(b"r2147483647\n");
    assert!(matches!(r, Ok(Some(PanelInputEvent::VolumeTurn(i32::MAX)))));
}

#[test]
fn partial_line_waits() {
    let (r, rest) = decode(b"w12");
    assert!(matches!(r, Ok(None)));
    assert_eq!(rest, b"w12".to_vec());
    let twenty = [b'7'; 20];
    let (r, rest) = decode(&twenty);
    assert!(matches!(r, Ok(None)));
    assert_eq!(rest, twenty.to_vec());
}

#[test]
fn long_garbage_without_line_end_is_dropped() {
    let (r, rest) = decode(&[b'7'; 21]);
    assert!(matches!(r, Ok(None)));
    assert!(rest.is_empty());
}

#[test]
fn invalid_utf8_line_is_an_error_and_is_consumed() {
    let (r, rest) = decode(&[0xff, b'\n', b'w', b'1', b'\n']);
    assert!(matches!(r, Err(DecodeError::InvalidString)));
    assert_eq!(rest, b"w1\n".to_vec());
}

#[test]
fn unknown_letter_gives_no_event() {
    let (r, rest) = decode(b"x99\nr1\n");
    assert!(matches!(r, Ok(None)));
    assert_eq!(rest, b"r1\n".to_vec());
    let (r, rest) = decode(b"\n");
    assert!(matches!(r, Ok(None)));
    assert!(rest.is_empty());
}

#[test]
fn undecodable_lines_are_reported_before_decoding() {
    let codec = EventsCodec;
    assert!(!codec.can_decode(&buf(b"w\n")));
    assert!(!codec.can_decode(&buf(b"wabc\n")));
    assert!(!codec.can_decode(&buf(b"r2147483648\n")));
    assert!(!codec.can_decode(&buf("\u{e9}1\n".as_bytes())));
    assert!(!codec.can_decode(&buf(b"w1 2\n")));
    assert!(codec.can_decode(&buf(b"w1")));
    assert!(codec.can_decode(&buf(&[0xff, b'\n'])));
    assert!(codec.can_decode(&buf(b"q\n")));
}

#[test]
fn a_line_decodes_the_same_whatever_follows() {
    let (a, _) = decode(b"w31\n");
    let (b, rest) = decode(b"w31\nxx\xff");
    assert!(matches!(a, Ok(Some(PanelInputEvent::Wiper(31)))));
    assert!(matches!(b, Ok(Some(PanelInputEvent::Wiper(31)))));
    assert_eq!(rest, b"xx\xff".to_vec());
}

#[test]
fn decode_message_reads_one_line() {
    assert!(matches!(decode_message("r10\n"), Some(PanelInputEvent::VolumeTurn(10))));
    assert!(matches!(decode_message("w0\n"), Some(PanelInputEvent::Wiper(0))));
    assert!(decode_message("z\n").is_none());
}

#[test]
fn find_newline_finds_the_first() {
    assert_eq!(find_newline(b"ab\ncd\n"), Some(2));
    assert_eq!(find_newline(b"abcd"), None);
    assert_eq!(find_newline(b""), None);
}

#[test]
fn commands_on_the_wire() {
    assert_eq!(command_bytes(&PanelOutputEvent::SetLight(Light::Left, 0)), b"b0\n".to_vec());
    assert_eq!(command_bytes(&PanelOutputEvent::SetLight(Light::Right, 255)), b"a255\n".to_vec());
    assert_eq!(command_bytes(&PanelOutputEvent::SetLight(Light::Left, 42)), b"b42\n".to_vec());
    assert_eq!(command_bytes(&PanelOutputEvent::SetLight(Light::Right, 100)), b"a100\n".to_vec());
}

#[test]
fn encode_appends_the_command() {
    let mut codec = EventsCodec;
    let mut dst = BytesMut::with_capacity(64);
    dst.extend_from_slice(b"a1\n");
    let r = codec.encode(PanelOutputEvent::SetLight(Light::Left, 7), &mut dst);
    assert!(r.is_ok());
    assert_eq!(dst.as_ref(), b"a1\nb7\n");
}

#[test]
fn encode_fails_without_room_and_leaves_the_buffer() {
    let mut codec = EventsCodec;
    let mut dst = BytesMut::from(vec![b'x'; 64]);
    assert_eq!(dst.capacity(), dst.len());
    let before = dst.as_ref().to_vec();
    let r = codec.encode(PanelOutputEvent::SetLight(Light::Right, 200), &mut dst);
    assert!(matches!(r, Err(EncodeError::BufferFull)));
    assert_eq!(dst.as_ref().to_vec(), before);
}

#[test]
fn discarded_input_is_reported_before_decoding() {
    let codec = EventsCodec;
    assert!(codec.will_discard(&buf(&[b'7'; 21])));
    assert!(!codec.will_discard(&buf(&[b'7'; 20])));
    let mut long_line = vec![b'7'; 30];
    long_line.push(b'\n');
    assert!(!codec.will_discard(&buf(&long_line)));
}

#[test]
fn unrecognized_lines_are_reported_before_decoding() {
    let codec = EventsCodec;
    assert_eq!(codec.unrecognized_line(&buf(b"x99\nr1\n")), Some("x99\n".to_string()));
    assert_eq!(codec.unrecognized_line(&buf(b"\n")), Some("\n".to_string()));
    assert_eq!(codec.unrecognized_line(&buf(b"w5\n")), None);
    assert_eq!(codec.unrecognized_line(&buf(b"x99")), None);
    assert_eq!(codec.unrecognized_line(&buf(&[0xff, b'\n'])), None);
}

#[test]
fn only_the_wiper_retunes() {
    assert_eq!(PanelInputEvent::Wiper(150).wiper_position(), Some(150));
    assert_eq!(PanelInputEvent::VolumeTurn(3).wiper_position(), None);
}
