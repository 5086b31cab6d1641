use overlayvid::marker::parse_transcript;
use overlayvid::timeline::{build_timeline, BuildError};
use overlayvid::{EventType, GentleWord};

fn word(start: i64, end: i64, so: usize, eo: usize) -> GentleWord {
    GentleWord {
        case: "success".to_string(),
        start: Some(start),
        end: Some(end),
        start_offset: Some(so),
        end_offset: Some(eo),
        word: None,
        aligned_word: None,
    }
}

fn failed_word() -> GentleWord {
    GentleWord {
        case: "not-found-in-audio".to_string(),
        start: None,
        end: None,
        start_offset: None,
        end_offset: None,
        word: None,
        aligned_word: None,
    }
}

#[test]
fn end_to_end_two_marker_transcript() {
    let raw = "Hello {\"uuid\":\"a\",\"info\":{\"ImgStart\":[\"logo\",[0,0,10,10]]}} world {\"uuid\":\"a\",\"info\":\"ImgEnd\"}";
    let t = parse_transcript(raw).expect("should parse");
    let words = vec![word(0, 500, 0, 5), word(600, 1000, 6, 11)];
    let b = build_timeline(t.markers, &words, 30, (640, 480)).expect("should build");
    let tl = b.timeline;
    // marker at position 6 is covered by "Hello" (span 0..5, tolerance 2),
    // marker at position 12 by "world" (span 6..11)
    assert_eq!(tl.events.len(), 2);
    assert_eq!(tl.events[0].timestamp, 0);
    assert!(matches!(tl.events[0].info, EventType::ImgStart(..)));
    assert_eq!(tl.events[1].timestamp, 600);
    assert!(matches!(tl.events[1].info, EventType::ImgEnd));
    assert_eq!(tl.length, 3000);
    assert_eq!(tl.rate, 30);
    assert!(b.dropped.is_empty());
}

#[test]
fn marker_inside_span_takes_word_start_time() {
    let t = parse_transcript("one two {\"uuid\":\"m\",\"info\":\"ImgEnd\"}").expect("parse");
    assert_eq!(t.markers[0].timestamp, 8);
    let words = vec![word(0, 400, 0, 3), word(450, 900, 4, 7)];
    // position 8: "one" span 0..3 fails (3 + 2 < 8); "two" span 4..7 covers (4 < 8 <= 9)
    let b = build_timeline(t.markers, &words, 24, (10, 10)).expect("build");
    assert_eq!(b.timeline.events[0].timestamp, 450);
}

#[test]
fn unmatched_marker_falls_back_to_previous_match_end() {
    let t = parse_transcript(
        "one {\"uuid\":\"a\",\"info\":\"ImgEnd\"} {\"uuid\":\"b\",\"info\":\"JsEnd\"}",
    )
    .expect("parse");
    assert_eq!(t.markers[0].timestamp, 4);
    assert_eq!(t.markers[1].timestamp, 4);
    // only "one" (span 0..3) exists; it covers position 4 for both markers;
    // push the second marker out of every span instead:
    let t2 = parse_transcript(
        "one two three {\"uuid\":\"a\",\"info\":\"ImgEnd\"}x{\"uuid\":\"b\",\"info\":\"JsEnd\"}",
    )
    .expect("parse");
    assert_eq!(t2.markers[0].timestamp, 14);
    assert_eq!(t2.markers[1].timestamp, 15);
    let words = vec![word(100, 800, 8, 13)];
    // marker a: "three" span 8..13 covers 14 (8 < 14 <= 15) -> start 100, match end 800
    // marker b at 15: 13 + 2 >= 15 also covers -> start 100
    let b2 = build_timeline(t2.markers, &words, 24, (10, 10)).expect("build");
    assert_eq!(b2.timeline.events[0].timestamp, 100);
    assert_eq!(b2.timeline.events[1].timestamp, 100);
    // now a marker clearly past every span: falls back to the last match's end
    let t3 = parse_transcript(
        "one two three {\"uuid\":\"a\",\"info\":\"ImgEnd\"} trailing words here {\"uuid\":\"b\",\"info\":\"JsEnd\"}",
    )
    .expect("parse");
    let words3 = vec![word(100, 800, 8, 13)];
    let b3 = build_timeline(t3.markers, &words3, 24, (10, 10)).expect("build");
    assert_eq!(b3.timeline.events[0].timestamp, 100);
    assert_eq!(b3.timeline.events[1].timestamp, 800);
    assert!(b3.dropped.is_empty());
}

#[test]
fn initial_unmatched_marker_is_dropped_and_reported() {
    let t = parse_transcript(
        "aaaa bbbb cccc dddd {\"uuid\":\"late\",\"info\":\"ImgEnd\"}",
    )
    .expect("parse");
    assert_eq!(t.markers[0].timestamp, 20);
    // the only word ends long before the marker's position
    let words = vec![word(0, 300, 0, 4)];
    let b = build_timeline(t.markers, &words, 24, (10, 10)).expect("build");
    assert!(b.timeline.events.is_empty());
    assert_eq!(b.dropped, vec![0]);
}

#[test]
fn absolute_and_relative_overrides_bypass_alignment() {
    let t = parse_transcript(
        "x {\"uuid\":\"a\",\"info\":\"ImgEnd\",\"absolute\":2.0,\"relative\":-0.5} y {\"uuid\":\"b\",\"info\":\"JsEnd\",\"relative\":0.25}",
    )
    .expect("parse");
    let words = vec![word(0, 1000, 0, 3)];
    let b = build_timeline(t.markers, &words, 24, (10, 10)).expect("build");
    // absolute 2000 + relative -500 = 1500; offset match start 0 + relative 250 = 250
    assert_eq!(b.timeline.events[0].timestamp, 250);
    assert_eq!(b.timeline.events[1].timestamp, 1500);
}

#[test]
fn events_are_sorted_by_timestamp() {
    let t = parse_transcript(
        "{\"uuid\":\"c\",\"info\":\"ImgEnd\",\"absolute\":3.0}{\"uuid\":\"a\",\"info\":\"ImgEnd\",\"absolute\":1.0}{\"uuid\":\"b\",\"info\":\"ImgEnd\",\"absolute\":2.0}",
    )
    .expect("parse");
    let words = vec![word(0, 100, 0, 1)];
    let b = build_timeline(t.markers, &words, 24, (10, 10)).expect("build");
    let ts: Vec<i64> = b.timeline.events.iter().map(|e| e.timestamp).collect();
    assert_eq!(ts, vec![1000, 2000, 3000]);
    for w in b.timeline.events.windows(2) {
        assert!(w[0].timestamp <= w[1].timestamp);
    }
}

#[test]
fn ties_keep_marker_order() {
    let t = parse_transcript(
        "{\"uuid\":\"first\",\"info\":\"ImgEnd\",\"absolute\":1.0}{\"uuid\":\"second\",\"info\":\"ImgEnd\",\"absolute\":1.0}",
    )
    .expect("parse");
    let words = vec![word(0, 100, 0, 1)];
    let b = build_timeline(t.markers, &words, 24, (10, 10)).expect("build");
    assert_eq!(b.timeline.events[0].uuid, "first");
    assert_eq!(b.timeline.events[1].uuid, "second");
}

#[test]
fn failed_words_are_not_candidates() {
    let t = parse_transcript("one {\"uuid\":\"a\",\"info\":\"ImgEnd\"}").expect("parse");
    // an ineligible word that would otherwise cover position 4
    let words = vec![failed_word(), word(700, 900, 0, 3)];
    let b = build_timeline(t.markers, &words, 24, (10, 10)).expect("build");
    assert_eq!(b.timeline.events[0].timestamp, 700);
}

#[test]
fn no_usable_words_is_an_error() {
    let t = parse_transcript("one {\"uuid\":\"a\",\"info\":\"ImgEnd\"}").expect("parse");
    let words = vec![failed_word()];
    assert_eq!(
        build_timeline(t.markers, &words, 24, (10, 10)).err(),
        Some(BuildError::NoUsableWords)
    );
}

#[test]
fn duration_pads_last_usable_word_by_two_seconds() {
    let t = parse_transcript("just words").expect("parse");
    let words = vec![word(0, 500, 0, 4), word(600, 1234, 5, 9), failed_word()];
    let b = build_timeline(t.markers, &words, 24, (10, 10)).expect("build");
    assert_eq!(b.timeline.length, 3234);
}

#[test]
fn tick_and_due_helpers_follow_exact_arithmetic() {
    let t = parse_transcript(
        "{\"uuid\":\"a\",\"info\":\"ImgEnd\",\"absolute\":0.1}{\"uuid\":\"b\",\"info\":\"ImgEnd\",\"absolute\":0.5}",
    )
    .expect("parse");
    let words = vec![word(0, 1000, 0, 1)];
    let tl = build_timeline(t.markers, &words, 10, (10, 10)).expect("build").timeline;
    // length 3000 ms at 10 fps: frame 29 is at 2.9 s, frame 30 at 3.0 s
    assert!(tl.tick_within(29));
    assert!(!tl.tick_within(30));
    // frame 1 = 0.1 s: event at 100 ms is not strictly before it
    assert_eq!(tl.due_count(0, 1), 0);
    // frame 2 = 0.2 s: the 100 ms event is due, the 500 ms one is not
    assert_eq!(tl.due_count(0, 2), 1);
    assert_eq!(tl.due_count(1, 6), 1);
}
