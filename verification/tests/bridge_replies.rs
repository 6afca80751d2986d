use huebeat::commands::{pair_result, PairResult};
use huebeat::audio_capture::CaptureError;
use huebeat::diag::{knows_area, DiagStep, Diagnosis, SWEEP_FRAMES};
use huebeat::double::Double;
use huebeat::hue_client::{
    announce, check_status, entertainment_resource, pairing_url, read_application_id,
    read_entertainment_configs, read_lights, read_pairing, DiscoveredBridge, HueClient, HueError,
    PairedBridge,
};
use huebeat::hue_stream::StreamError;
use huebeat::json::{Json, JsonNumber, JsonValue};
use huebeat::osc_io::OscError;

/// A parsed reply.
fn json(text: &str) -> Json {
    convert(&serde_json::from_str(text).unwrap())
}

fn convert(v: &serde_json::Value) -> Json {
    let value = match v {
        serde_json::Value::Null => JsonValue::Null,
        serde_json::Value::Bool(b) => JsonValue::Bool(*b),
        serde_json::Value::Number(n) => JsonValue::Number(JsonNumber {
            signed: n.as_i64(),
            unsigned: n.as_u64(),
            float: n.as_f64().map(|x| Double { bits: x.to_bits() }),
        }),
        serde_json::Value::String(s) => JsonValue::Text(s.clone()),
        serde_json::Value::Array(a) => JsonValue::List(a.iter().map(convert).collect()),
        serde_json::Value::Object(m) => {
            JsonValue::Object(m.iter().map(|(k, v)| (k.clone(), convert(v))).collect())
        }
    };
    Json { text: v.to_string(), value }
}

#[test]
fn pairing_succeeds_with_both_keys() {
    let reply = json(r#"[{"success":{"username":"user-1","clientkey":"00ff"}}]"#);
    let b = read_pairing("10.0.0.2", &reply).unwrap();
    assert_eq!((b.ip.as_str(), b.app_key.as_str(), b.client_key.as_str()), ("10.0.0.2", "user-1", "00ff"));
    assert_eq!(b.clone().app_key, "user-1");
}

#[test]
fn pairing_waits_for_the_button() {
    let reply = json(r#"[{"error":{"type":101,"description":"link button not pressed"}}]"#);
    assert!(matches!(read_pairing("x", &reply), Err(HueError::LinkButtonNotPressed)));
    assert!(matches!(
        pair_result(read_pairing("x", &reply)),
        Ok(PairResult::WaitingForButton)
    ));
}

#[test]
fn pairing_errors_carry_their_texts() {
    let texts = |reply: &str| match read_pairing("x", &json(reply)) {
        Err(HueError::Bridge(t)) => format!("bridge {t}"),
        Err(HueError::Unexpected(t)) => format!("unexpected {t}"),
        other => panic!("{other:?}"),
    };
    assert_eq!(texts(r#"[{"error":{"type":7}}]"#), r#"bridge {"type":7}"#);
    assert_eq!(texts(r#"[{"error":{"type":"101"}}]"#), r#"bridge {"type":"101"}"#);
    assert_eq!(texts("{}"), "unexpected {}");
    assert_eq!(texts("[]"), "unexpected []");
    assert_eq!(texts("[{}]"), "unexpected [{}]");
    assert_eq!(texts(r#"[{"success":{"clientkey":"k"}}]"#), "unexpected missing username");
    assert_eq!(
        texts(r#"[{"success":{"username":"u","clientkey":5}}]"#),
        "unexpected missing clientkey"
    );
    match pair_result(read_pairing("x", &json("[]"))) {
        Err(t) => assert_eq!(t, "unexpected response: []"),
        other => panic!("{other:?}"),
    }
}

#[test]
fn errors_in_words() {
    let e = || "x".to_string();
    assert_eq!(HueError::Http(e()).to_text(), "http error: x");
    assert_eq!(HueError::Mdns(e()).to_text(), "mdns error: x");
    assert_eq!(HueError::Bridge(e()).to_text(), "bridge error: x");
    assert_eq!(HueError::LinkButtonNotPressed.to_text(), "link button not pressed");
    assert_eq!(StreamError::Io(e()).to_text(), "io error: x");
    assert_eq!(StreamError::Dtls(e()).to_text(), "dtls error: x");
    assert_eq!(
        StreamError::BadClientKey.to_text(),
        "invalid client key (expected 32 hex chars)"
    );
    for n in [0usize, 9, 10, 35, 1000, usize::MAX] {
        assert_eq!(
            StreamError::BadConfigId(n).to_text(),
            format!("entertainment configuration id must be 36 chars, got {n}")
        );
    }
    assert_eq!(CaptureError::DeviceNotFound(e()).to_text(), "device not found: x");
    assert_eq!(CaptureError::NoConfig(e()).to_text(), "no supported config for device x");
    assert_eq!(CaptureError::Cpal(e()).to_text(), "cpal error: x");
    assert_eq!(OscError::Io(e()).to_text(), "io error: x");
    assert_eq!(OscError::Encode(e()).to_text(), "osc encode error: x");
}

#[test]
fn diagnosis_tries_both_identities() {
    let key = || "key".to_string();
    let mut d = Diagnosis::new(Some("id".to_string()), key());
    assert!(matches!(&d.step, DiagStep::Start { identity } if identity == "id"));
    d = d.next(true);
    assert!(matches!(&d.step, DiagStep::Handshake { identity } if identity == "id"));
    d = d.next(false);
    assert!(matches!(d.step, DiagStep::Abort));
    d = d.next(true);
    assert!(matches!(&d.step, DiagStep::Start { identity } if identity == "key"));
    d = d.next(false);
    assert!(matches!(d.step, DiagStep::Done));
    let mut d = Diagnosis::new(None, key()).next(true).next(true);
    for i in 0..SWEEP_FRAMES {
        assert!(matches!(d.step, DiagStep::Send { frame } if frame == i));
        d = d.next(true);
    }
    assert!(matches!(d.step, DiagStep::Finish));
    assert!(matches!(d.next(true).step, DiagStep::Done));
    let d = Diagnosis::new(None, key()).next(true).next(true).next(true).next(false);
    assert!(matches!(d.step, DiagStep::Finish));
}

#[test]
fn lights_are_listed_with_stand_ins() {
    let body = json(
        r#"{"data":[{"id":"a","metadata":{"name":"Desk"},"on":{"on":true}},{"on":{"on":1}}]}"#,
    );
    let lights = read_lights(&body);
    assert_eq!(lights.len(), 2);
    assert_eq!((lights[0].id.as_str(), lights[0].name.as_str(), lights[0].on), ("a", "Desk", true));
    assert_eq!((lights[1].id.as_str(), lights[1].name.as_str(), lights[1].on), ("", "light", false));
    assert!(read_lights(&json("{}")).is_empty());
    assert!(read_lights(&json(r#"{"data":{}}"#)).is_empty());
}

#[test]
fn entertainment_configurations_are_listed() {
    let body = json(
        r#"{"data":[{"id":"area-1","metadata":{"name":"Room"},"channels":[
            {"channel_id":3,"position":{"x":-0.5,"y":0.25,"z":1}},
            {"channel_id":259,"position":{}},
            {}]},{}]}"#,
    );
    let configs = read_entertainment_configs(&body);
    assert_eq!(configs.len(), 2);
    assert!(knows_area(&configs, "area-1") && !knows_area(&configs, "area-2"));
    assert_eq!((configs[0].id.as_str(), configs[0].name.as_str()), ("area-1", "Room"));
    let c = &configs[0].channels;
    assert_eq!([c[0].channel_id, c[1].channel_id, c[2].channel_id], [3, 3, 0]);
    let bits = |x: f64| x.to_bits();
    assert_eq!([c[0].x.bits, c[0].y.bits, c[0].z.bits], [bits(-0.5), bits(0.25), bits(1.0)]);
    assert_eq!(c[1].x.bits, bits(0.0));
    assert_eq!((configs[1].id.as_str(), configs[1].name.as_str()), ("", "area"));
    assert!(configs[1].channels.is_empty());
}

#[test]
fn a_failed_status_is_an_error_with_the_body() {
    let ok = check_status(true, "200 OK", json(r#"{"a":1}"#)).unwrap();
    assert_eq!(ok.text, r#"{"a":1}"#);
    match check_status(false, "404 Not Found", json(r#"{"errors":[]}"#)) {
        Err(HueError::Bridge(t)) => assert_eq!(t, r#"404 Not Found: {"errors":[]}"#),
        other => panic!("{other:?}"),
    }
}

#[test]
fn identities_come_from_the_header() {
    assert_eq!(read_application_id(Some("id-7".to_string()), "200 OK").unwrap(), "id-7");
    match read_application_id(None, "403 Forbidden") {
        Err(HueError::Unexpected(t)) => assert_eq!(
            t,
            "missing hue-application-id header (GET /auth/v2 -> 403 Forbidden)"
        ),
        other => panic!("{other:?}"),
    }
}

#[test]
fn addresses_of_requests() {
    let bridge = PairedBridge {
        ip: "192.168.1.9".to_string(),
        app_key: "key".to_string(),
        client_key: "secret".to_string(),
    };
    let c = HueClient::new(&bridge);
    assert_eq!(c.app_key(), "key");
    assert_eq!(c.url("resource/light"), "https://192.168.1.9/clip/v2/resource/light");
    assert_eq!(c.auth_url(), "https://192.168.1.9/auth/v2");
    assert_eq!(pairing_url("192.168.1.9"), "https://192.168.1.9/api");
    assert_eq!(entertainment_resource("abc"), "resource/entertainment_configuration/abc");
}

#[test]
fn discovery_keeps_each_address_once() {
    let bridge = |ip: &str, name: &str| DiscoveredBridge {
        ip: ip.to_string(),
        name: name.to_string(),
        bridge_id: Some("ecb5".to_string()),
    };
    let mut found = Vec::new();
    announce(&mut found, bridge("10.0.0.1", "first"));
    announce(&mut found, bridge("fe80::1", "sixth"));
    announce(&mut found, bridge("10.0.0.1", "again"));
    announce(&mut found, bridge("10.0.0.2", "second"));
    let list: Vec<(&str, &str)> =
        found.iter().map(|b| (b.ip.as_str(), b.name.as_str())).collect();
    assert_eq!(list, vec![("10.0.0.1", "first"), ("10.0.0.2", "second")]);
}
