use huebeat::audio_capture::{
    describe_devices, find_device, mix_down, parse_device_id, sample_from_i16, sample_from_i32,
    sample_from_u16, CaptureError, DeviceKind,
};
use huebeat::single::Single;

fn s(x: f32) -> Single {
    Single { bits: x.to_bits() }
}

fn f(x: Single) -> f32 {
    f32::from_bits(x.bits)
}

#[test]
fn devices_are_described_and_found_again() {
    let names = vec!["Speakers".to_string(), "HDMI: TV".to_string()];
    let default = Some("HDMI: TV".to_string());
    for (kind, prefix) in [(DeviceKind::Loopback, "loopback:"), (DeviceKind::Input, "input:")] {
        let list = describe_devices(kind, &names, &default);
        assert_eq!(list.len(), 2);
        for (d, name) in list.iter().zip(&names) {
            assert_eq!(d.id, format!("{prefix}{name}"));
            assert_eq!(&d.name, name);
            assert_eq!(d.kind, kind);
            assert_eq!(d.is_default, name == "HDMI: TV");
            assert_eq!(parse_device_id(Some(&d.id)), (kind, Some(name.clone())));
        }
    }
    assert!(!describe_devices(DeviceKind::Input, &names, &None)[0].is_default);
}

#[test]
fn device_identifiers() {
    let parse = |id: &str| parse_device_id(Some(id));
    assert_eq!(parse_device_id(None), (DeviceKind::Loopback, None));
    assert_eq!(parse("loopback:A"), (DeviceKind::Loopback, Some("A".to_string())));
    assert_eq!(parse("input:"), (DeviceKind::Input, Some(String::new())));
    assert_eq!(parse("Speakers"), (DeviceKind::Loopback, Some("Speakers".to_string())));
    assert_eq!(parse("loopback"), (DeviceKind::Loopback, Some("loopback".to_string())));
    assert_eq!(parse("other:X"), (DeviceKind::Loopback, Some("other:X".to_string())));
    assert_eq!(parse("ïnput:X"), (DeviceKind::Loopback, Some("ïnput:X".to_string())));
}

#[test]
fn the_first_device_of_a_name_is_taken() {
    let names: Vec<String> = ["a", "b", "b"].iter().map(|n| n.to_string()).collect();
    assert_eq!(find_device(&names, "b").unwrap(), 1);
    match find_device(&names, "c") {
        Err(CaptureError::DeviceNotFound(n)) => assert_eq!(n, "c"),
        other => panic!("{other:?}"),
    }
}

#[test]
fn samples_become_floats() {
    for x in [0i16, 1, -1, 123, i16::MAX, i16::MIN] {
        assert_eq!(f(sample_from_i16(x)), x as f32 / 32768.0);
    }
    for x in [0u16, 1, 32767, 32768, 40000, u16::MAX] {
        assert_eq!(f(sample_from_u16(x)), (x as f32 - 32768.0) / 32768.0);
    }
    for x in [0i32, 7, -7, 123456789, -123456789, i32::MAX, i32::MIN] {
        assert_eq!(f(sample_from_i32(x)), x as f32 / 2147483648.0);
    }
}

#[test]
fn channels_are_mixed_to_mono() {
    let data: Vec<Single> = [0.5, -0.25, 1.0, 0.0, 0.3].iter().map(|&x| s(x)).collect();
    let mono: Vec<f32> = mix_down(&data, 2).into_iter().map(f).collect();
    assert_eq!(mono, vec![(0.5 - 0.25) / 2.0, (1.0 + 0.0) / 2.0]);
    let mono: Vec<f32> = mix_down(&data, 3).into_iter().map(f).collect();
    assert_eq!(mono, vec![(0.5f32 - 0.25 + 1.0) / 3.0]);
    assert_eq!(mix_down(&data, 1), data);
    assert!(mix_down(&data, 6).is_empty());
}
