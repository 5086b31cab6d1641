use overlayvid::compositor::composite;
use overlayvid::{AssetCache, Event, EventType, RenderError};

/// Encodes an RGBA image through the real codec, as the asset store
/// would hold it.
fn encode_png(width: u32, height: u32, rgba: &[u8]) -> Vec<u8> {
    let mut out: Vec<u8> = Vec::new();
    {
        let mut enc = png::Encoder::new(&mut out, width, height);
        enc.set_color(png::ColorType::Rgba);
        enc.set_depth(png::BitDepth::Eight);
        let mut writer = enc.write_header().unwrap();
        writer.write_image_data(rgba).unwrap();
    }
    out
}

fn overlay(slug: &str, rect: (usize, usize, usize, usize)) -> Event {
    Event {
        timestamp: 0,
        uuid: "o".to_string(),
        info: EventType::ImgStart(slug.to_string(), rect),
    }
}

#[test]
fn empty_snapshot_gives_opaque_black_frame() {
    let cache = AssetCache::new();
    let buf = composite(&vec![], &cache, (2, 2)).unwrap();
    assert_eq!(buf.len(), 16);
    for px in buf.chunks(4) {
        assert_eq!(px, &[0, 0, 0, 255]);
    }
}

#[test]
fn opaque_overlay_paints_its_rectangle() {
    let mut cache = AssetCache::new();
    cache.insert("red".to_string(), encode_png(1, 1, &[255, 0, 0, 255]));
    let contents = vec![overlay("red", (0, 0, 1, 1))];
    let buf = composite(&contents, &cache, (4, 4)).unwrap();
    // pixel (0,0) lies inside the rectangle and samples the red source
    assert_eq!(&buf[0..4], &[255, 0, 0, 255]);
    // pixel (3,3) lies outside and keeps the opaque black base
    let p = (3 * 4 + 3) * 4;
    assert_eq!(&buf[p..p + 4], &[0, 0, 0, 255]);
}

#[test]
fn semi_transparent_overlay_blends_by_source_alpha() {
    let mut cache = AssetCache::new();
    cache.insert("tint".to_string(), encode_png(1, 1, &[100, 200, 40, 128]));
    let contents = vec![overlay("tint", (0, 0, 0, 0))];
    let buf = composite(&contents, &cache, (1, 1)).unwrap();
    // over black: channel * 128 / 255, rounded down; alpha forced opaque
    assert_eq!(&buf[0..4], &[50, 100, 20, 255]);
}

#[test]
fn later_overlays_draw_on_top() {
    let mut cache = AssetCache::new();
    cache.insert("red".to_string(), encode_png(1, 1, &[255, 0, 0, 255]));
    cache.insert("blue".to_string(), encode_png(1, 1, &[0, 0, 255, 255]));
    let contents = vec![overlay("red", (0, 0, 0, 0)), overlay("blue", (0, 0, 0, 0))];
    let buf = composite(&contents, &cache, (1, 1)).unwrap();
    assert_eq!(&buf[0..4], &[0, 0, 255, 255]);
}

#[test]
fn offscreen_overlay_leaves_frame_untouched_and_opaque() {
    let mut cache = AssetCache::new();
    cache.insert("red".to_string(), encode_png(2, 2, &[255, 0, 0, 255].repeat(4)));
    // rectangle starts at x = 10 in a 4-wide frame: entirely outside
    let contents = vec![overlay("red", (10, 0, 2, 2))];
    let buf = composite(&contents, &cache, (4, 4)).unwrap();
    for px in buf.chunks(4) {
        assert_eq!(px, &[0, 0, 0, 255]);
    }
}

#[test]
fn missing_and_undecodable_assets_are_errors() {
    let cache = AssetCache::new();
    let contents = vec![overlay("ghost", (0, 0, 1, 1))];
    assert_eq!(composite(&contents, &cache, (2, 2)).err(), Some(RenderError::MissingAsset));

    let mut cache2 = AssetCache::new();
    cache2.insert("junk".to_string(), vec![1, 2, 3, 4]);
    let contents2 = vec![overlay("junk", (0, 0, 1, 1))];
    assert_eq!(composite(&contents2, &cache2, (2, 2)).err(), Some(RenderError::BadAsset));
}

#[test]
fn script_overlays_are_not_rendered() {
    let cache = AssetCache::new();
    let ev = Event {
        timestamp: 0,
        uuid: "s".to_string(),
        info: EventType::JsStart("{}".to_string()),
    };
    let buf = composite(&vec![ev], &cache, (2, 2)).unwrap();
    for px in buf.chunks(4) {
        assert_eq!(px, &[0, 0, 0, 255]);
    }
}
