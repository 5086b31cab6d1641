use overlayvid::marker::{parse_transcript, ParseError};
use overlayvid::{EventType, Spec};

fn spec_fixture() -> Spec {
    Spec {
        used: vec![("logo".to_string(), "/assets/logo.png".to_string())],
        audio: "audio.wav".to_string(),
        transcript: "transcript.txt".to_string(),
        output: "out.mp4".to_string(),
        work: "work".to_string(),
        rate: 30,
        resolution: (640, 480),
    }
}

#[test]
fn cleaning_removes_markers_and_collapses_whitespace() {
    let spec = spec_fixture();
    let raw = "Hello {\"uuid\":\"a\",\"info\":\"ImgEnd\"} world  and\n\nmore";
    let cleaned = spec.cleaned_transcript(raw);
    assert_eq!(cleaned, "Hello world and\nmore");
}

#[test]
fn cleaning_is_idempotent_on_concrete_input() {
    let spec = spec_fixture();
    let raw = "A {\"uuid\":\"x\",\"info\":\"JsEnd\"} B  C\n\nD";
    let once = spec.cleaned_transcript(raw);
    let twice = spec.cleaned_transcript(&once);
    assert_eq!(once, twice);
}

#[test]
fn parse_recovers_both_markers_with_positions() {
    let raw = "Hello {\"uuid\":\"a\",\"info\":{\"ImgStart\":[\"logo\",[0,0,10,10]]}} world {\"uuid\":\"a\",\"info\":\"ImgEnd\"}";
    let t = parse_transcript(raw).expect("should parse");
    assert_eq!(t.cleaned, "Hello world ");
    assert_eq!(t.markers.len(), 2);
    assert_eq!(t.markers[0].timestamp, 6);
    assert_eq!(t.markers[0].uuid, "a");
    match &t.markers[0].info {
        EventType::ImgStart(slug, rect) => {
            assert_eq!(slug, "logo");
            assert_eq!(*rect, (0, 0, 10, 10));
        },
        other => panic!("wrong info: {:?}", other),
    }
    assert_eq!(t.markers[1].timestamp, 12);
    assert!(matches!(t.markers[1].info, EventType::ImgEnd));
    assert!(t.markers[0].absolute.is_none());
    assert!(t.markers[0].relative.is_none());
}

#[test]
fn marker_keys_in_any_order_and_time_overrides_in_millis() {
    let raw = "{ \"info\" : \"JsEnd\" , \"absolute\" : 1.5 , \"relative\" : -0.25 , \"uuid\" : \"u1\" }";
    let t = parse_transcript(raw).expect("should parse");
    assert_eq!(t.markers.len(), 1);
    let m = &t.markers[0];
    assert_eq!(m.uuid, "u1");
    assert_eq!(m.absolute, Some(1500));
    assert_eq!(m.relative, Some(-250));
    assert!(matches!(m.info, EventType::JsEnd));
}

#[test]
fn fractional_digits_beyond_milliseconds_are_truncated() {
    let raw = "{\"uuid\":\"u\",\"info\":\"ImgEnd\",\"absolute\":2.0009}";
    let t = parse_transcript(raw).expect("should parse");
    assert_eq!(t.markers[0].absolute, Some(2000));
}

#[test]
fn js_start_keeps_raw_argument_text() {
    let raw = "{\"uuid\":\"s\",\"info\":{\"JsStart\":{\"speed\":3}}}";
    let t = parse_transcript(raw).expect("should parse");
    match &t.markers[0].info {
        EventType::JsStart(args) => assert_eq!(args, "{\"speed\":3}"),
        other => panic!("wrong info: {:?}", other),
    }
}

#[test]
fn bad_marker_reports_decode_error_with_offset() {
    let raw = "abc {not json}";
    match parse_transcript(raw) {
        Err(ParseError::MarkerDecode { offset }) => assert_eq!(offset, 4),
        other => panic!("expected decode error, got {:?}", other),
    }
}

#[test]
fn duplicate_or_unknown_keys_are_decode_errors() {
    assert!(matches!(
        parse_transcript("{\"uuid\":\"a\",\"uuid\":\"b\",\"info\":\"ImgEnd\"}"),
        Err(ParseError::MarkerDecode { .. })
    ));
    assert!(matches!(
        parse_transcript("{\"uuid\":\"a\",\"info\":\"ImgEnd\",\"extra\":1}"),
        Err(ParseError::MarkerDecode { .. })
    ));
    assert!(matches!(
        parse_transcript("{\"uuid\":\"a\"}"),
        Err(ParseError::MarkerDecode { .. })
    ));
}

#[test]
fn unterminated_marker_and_stray_brace_are_fatal() {
    assert!(matches!(
        parse_transcript("hello {\"uuid\":\"a\""),
        Err(ParseError::UnterminatedMarker)
    ));
    assert!(matches!(
        parse_transcript("oops } here"),
        Err(ParseError::UnterminatedMarker)
    ));
}

#[test]
fn escaped_quotes_in_strings_are_unescaped() {
    let raw = "{\"uuid\":\"a\\\"b\",\"info\":\"ImgEnd\"}";
    let t = parse_transcript(raw).expect("should parse");
    assert_eq!(t.markers[0].uuid, "a\"b");
}

#[test]
fn asset_path_finds_configured_slug() {
    let spec = spec_fixture();
    assert_eq!(spec.asset_path("logo"), Some("/assets/logo.png".to_string()));
    assert_eq!(spec.asset_path("missing"), None);
}
