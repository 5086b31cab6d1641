use overlayvid::{ApplyError, AssetCache, Event, EventType, Frame};

fn img_start(uuid: &str, slug: &str) -> Event {
    Event {
        timestamp: 0,
        uuid: uuid.to_string(),
        info: EventType::ImgStart(slug.to_string(), (0, 0, 4, 4)),
    }
}

fn img_end(uuid: &str) -> Event {
    Event { timestamp: 0, uuid: uuid.to_string(), info: EventType::ImgEnd }
}

#[test]
fn start_then_end_restores_prior_contents() {
    let mut f = Frame::new((64, 64));
    f.apply(&img_start("keep", "bg")).unwrap();
    let before: Vec<String> = f.contents.iter().map(|e| e.uuid.clone()).collect();
    f.apply(&img_start("temp", "logo")).unwrap();
    assert_eq!(f.contents.len(), 2);
    f.apply(&img_end("temp")).unwrap();
    let after: Vec<String> = f.contents.iter().map(|e| e.uuid.clone()).collect();
    assert_eq!(before, after);
}

#[test]
fn end_removes_every_entry_with_that_identity() {
    let mut f = Frame::new((64, 64));
    f.apply(&img_start("dup", "a")).unwrap();
    f.apply(&img_start("dup", "b")).unwrap();
    f.apply(&img_start("other", "c")).unwrap();
    f.apply(&img_end("dup")).unwrap();
    assert_eq!(f.contents.len(), 1);
    assert_eq!(f.contents[0].uuid, "other");
}

#[test]
fn js_end_also_removes_by_identity() {
    let mut f = Frame::new((64, 64));
    f.apply(&img_start("x", "a")).unwrap();
    let ev = Event { timestamp: 0, uuid: "x".to_string(), info: EventType::JsEnd };
    f.apply(&ev).unwrap();
    assert!(f.contents.is_empty());
}

#[test]
fn script_start_is_not_implemented() {
    let mut f = Frame::new((64, 64));
    let ev = Event {
        timestamp: 0,
        uuid: "s".to_string(),
        info: EventType::JsStart("{}".to_string()),
    };
    assert_eq!(f.apply(&ev), Err(ApplyError::NotImplemented));
    assert!(f.contents.is_empty());
}

#[test]
fn asset_cache_insert_get_contains() {
    let mut cache = AssetCache::new();
    assert!(!cache.contains("logo"));
    assert!(cache.get("logo").is_none());
    cache.insert("logo".to_string(), vec![1, 2, 3]);
    assert!(cache.contains("logo"));
    assert_eq!(cache.get("logo").unwrap(), &vec![1, 2, 3]);
    assert!(!cache.contains("other"));
}
