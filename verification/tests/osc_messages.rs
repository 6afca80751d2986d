use huebeat::core_types::{Band, Color, Palette};
use huebeat::osc_io::{
    band_name, beat_message, bpm_message, encode, genre_message, intensity_message,
    palette_message, OscArg, OscMessage,
};
use huebeat::single::Single;
use rosc::{OscPacket, OscType};

fn s(x: f32) -> Single {
    Single { bits: x.to_bits() }
}

fn hardcore() -> Palette {
    Palette { name: "Hardcore".to_string(), colors: vec![Color::new(255, 23, 68)] }
}

/// The same message in the types of the OSC crate.
fn counterpart(m: &OscMessage) -> rosc::OscMessage {
    rosc::OscMessage {
        addr: m.addr.clone(),
        args: m
            .args
            .iter()
            .map(|a| match a {
                OscArg::Text(t) => OscType::String(t.clone()),
                OscArg::Float(x) => OscType::Float(f32::from_bits(x.bits)),
            })
            .collect(),
    }
}

#[test]
fn messages_decode() {
    let (_, packet) = rosc::decoder::decode_udp(&encode(&bpm_message(s(174.0))).unwrap()).unwrap();
    match packet {
        OscPacket::Message(m) => {
            assert_eq!(m.addr, "/hue2/bpm");
            assert_eq!(m.args, vec![OscType::Float(174.0)]);
        }
        _ => panic!("expected message"),
    }
    let (_, packet) = rosc::decoder::decode_udp(&encode(&palette_message(&hardcore())).unwrap()).unwrap();
    match packet {
        OscPacket::Message(m) => {
            assert_eq!(m.addr, "/hue2/palette");
            assert_eq!(m.args[0], OscType::String("Hardcore".into()));
            assert_eq!(m.args[1], OscType::String("#ff1744".into()));
        }
        _ => panic!("expected message"),
    }
}

#[test]
fn bytes_are_those_of_the_osc_crate() {
    let mut many = hardcore();
    for i in 0..9 {
        many.name.push('é');
        many.colors.push(Color::new(i, 2 * i, 255 - i));
        for m in [
            bpm_message(s(128.25 + i as f32)),
            beat_message(Band::ALL[i as usize % 4], s(-0.75 / i as f32)),
            intensity_message(s(0.1 * i as f32)),
            genre_message(&"deep_house"[..i as usize + 1]),
            palette_message(&many),
            OscMessage { addr: String::new(), args: vec![] },
        ] {
            let bytes = encode(&m).unwrap();
            let expected = rosc::encoder::encode(&OscPacket::Message(counterpart(&m))).unwrap();
            assert_eq!(bytes, expected, "{m:?}");
            assert_eq!(bytes.len() % 4, 0);
        }
    }
}

#[test]
fn a_beat_message_byte_by_byte() {
    let bytes = encode(&beat_message(Band::Low, s(1.0))).unwrap();
    assert_eq!(
        bytes,
        [
            b"/hue2/beat\0\0".as_slice(),
            b",sf\0".as_slice(),
            b"low\0".as_slice(),
            &[0x3f, 0x80, 0, 0],
        ]
        .concat()
    );
}

#[test]
fn bands_have_names() {
    assert_eq!(Band::ALL.map(band_name), ["low", "low_mid", "high_mid", "high"]);
}
