use huebeat::core_types::{Color, LightFrame};
use huebeat::hue_stream::{decode_hex, encode_frame, Session, StreamError, MAX_CHANNELS};

const CFG_ID: &str = "01234567-89ab-cdef-0123-456789abcdef";

#[test]
fn frame_layout() {
    let frame = LightFrame { channels: vec![(0, Color::new(255, 0, 128))] };
    let buf = encode_frame(CFG_ID, 7, &frame).unwrap();
    assert_eq!(&buf[0..9], b"HueStream");
    assert_eq!(&buf[9..11], &[0x02, 0x00]);
    assert_eq!(buf[11], 7); // sequence
    assert_eq!(buf[14], 0x00); // RGB color space
    assert_eq!(&buf[16..52], CFG_ID.as_bytes());
    assert_eq!(buf[52], 0); // channel id
    assert_eq!(&buf[53..55], &0xffffu16.to_be_bytes());
    assert_eq!(&buf[55..57], &0x0000u16.to_be_bytes());
    assert_eq!(&buf[57..59], &(128u16 * 257).to_be_bytes());
    assert_eq!(buf.len(), 52 + 7);
}

#[test]
fn hex_decoding() {
    assert!(decode_hex("00ff").is_err());
    assert_eq!(
        decode_hex("000102030405060708090a0b0c0d0e0f").unwrap(),
        (0..16).collect::<Vec<u8>>()
    );
}

#[test]
fn keys_take_both_cases_and_nothing_else() {
    assert_eq!(decode_hex("FFfeFDfcFBfaF9f8F7f6F5f4F3f2F1f0").unwrap()[0], 0xff);
    assert_eq!(decode_hex("FFfeFDfcFBfaF9f8F7f6F5f4F3f2F1f0").unwrap()[15], 0xf0);
    assert!(matches!(
        decode_hex("0g0102030405060708090a0b0c0d0e0f"),
        Err(StreamError::BadClientKey)
    ));
    assert!(matches!(
        decode_hex("+00102030405060708090a0b0c0d0e0f"),
        Err(StreamError::BadClientKey)
    ));
    assert!(matches!(
        decode_hex("é00102030405060708090a0b0c0d0e0"),
        Err(StreamError::BadClientKey)
    ));
    assert!(matches!(decode_hex(""), Err(StreamError::BadClientKey)));
}

#[test]
fn at_most_twenty_channels_are_sent() {
    let channels: Vec<(u8, Color)> = (0..25).map(|i| (i, Color::new(i, 2, 3))).collect();
    let buf = encode_frame(CFG_ID, 0, &LightFrame { channels }).unwrap();
    assert_eq!(buf.len(), 52 + 7 * MAX_CHANNELS);
    assert_eq!(&buf[52 + 7 * 19..], &[19, 19, 19, 2, 2, 3, 3]);
}

#[test]
fn configuration_ids_are_36_bytes() {
    let frame = LightFrame { channels: vec![] };
    assert!(matches!(encode_frame("short", 0, &frame), Err(StreamError::BadConfigId(5))));
    // 35 letters, one of them of two bytes.
    let id = "é1234567-89ab-cdef-0123-456789abcde";
    assert_eq!(id.len(), 36);
    assert_eq!(encode_frame(id, 0, &frame).unwrap().len(), 52);
}

#[test]
fn sessions_number_their_packets() {
    let key = "000102030405060708090a0b0c0d0e0f";
    let (mut session, credentials) = Session::open("app-id", key, CFG_ID).ok().unwrap();
    assert_eq!(credentials.psk, (0..16).collect::<Vec<u8>>());
    assert_eq!(credentials.identity, b"app-id");
    let frame = LightFrame { channels: vec![(3, Color::new(1, 2, 3))] };
    for i in 0..600u32 {
        let packet = session.next_packet(&frame).unwrap();
        assert_eq!(packet[11] as u32, i % 256);
        assert_eq!(&packet[52..], &[3, 1, 1, 2, 2, 3, 3]);
    }
}

#[test]
fn sessions_check_the_configuration_before_the_key() {
    assert!(matches!(
        Session::open("app", "not a key", "not an id").err(),
        Some(StreamError::BadConfigId(9))
    ));
    assert!(matches!(
        Session::open("app", "not a key", CFG_ID).err(),
        Some(StreamError::BadClientKey)
    ));
}
