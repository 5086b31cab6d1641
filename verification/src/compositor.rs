//! Alpha-compositing of active overlays onto an RGBA pixel buffer.
//!
//! Every byte of the output is pinned by `composite_spec`: the buffer
//! starts fully opaque black; each active image overlay is drawn in
//! active-list order, so later overlays land on top.  For each
//! destination pixel inside the overlay's placement rectangle the nearest
//! source pixel is sampled, its alpha channel weights the blend, and the
//! destination alpha is forced fully opaque.  Pixels outside the
//! rectangle, and samples that would fall outside the decoded image, are
//! left alone.
use vstd::prelude::*;

use crate::frame::AssetCache;
use crate::timeline::{Event, EventType};

verus! {

/// Whether the bytes decode as an eight-bit RGBA PNG image.  The decoder
/// is deterministic: the same bytes always give the same answer.
pub uninterp spec fn png_ok(b: Seq<u8>) -> bool;

/// The pixel width of the decoded image.
pub uninterp spec fn png_width(b: Seq<u8>) -> int;

/// The pixel height of the decoded image.
pub uninterp spec fn png_height(b: Seq<u8>) -> int;

/// The decoded pixel bytes, row-major RGBA.
pub uninterp spec fn png_rgba(b: Seq<u8>) -> Seq<u8>;

/// A decoded overlay image.
pub struct PngImage {
    pub width: usize,
    pub height: usize,
    pub pixels: Vec<u8>,
}

/// Why a frame could not be composited: an active overlay names a slug
/// with no cached bytes, or the cached bytes do not decode as an
/// eight-bit RGBA PNG.
#[derive(Debug, PartialEq, Eq, Structural)]
pub enum RenderError {
    MissingAsset,
    BadAsset,
}

/// Relies on `png::Decoder` and `png::Reader::next_frame`: decoding is a
/// pure function of the input bytes, and for an eight-bit RGBA image the
/// output buffer holds `4 * width * height` bytes, row-major.  Bytes that
/// fail to decode, or decode to any other colour layout, are refused.
#[verifier::external_body]
fn decode_png(b: &Vec<u8>) -> (r: Result<PngImage, ()>)
    ensures
        r is Ok <==> png_ok(b@),
        r matches Ok(img) ==> img.width as int == png_width(b@) && img.height as int == png_height(
            b@,
        ) && img.pixels@ == png_rgba(b@) && img.pixels@.len() == 4 * img.width * img.height,
{
    let decoder = png::Decoder::new(std::io::Cursor::new(b.as_slice()));
    let mut reader = decoder.read_info().map_err(|_| ())?;
    let size = reader.output_buffer_size().ok_or(())?;
    let mut pixels = vec![0u8; size];
    let info = reader.next_frame(&mut pixels).map_err(|_| ())?;
    match (info.color_type, info.bit_depth) {
        (png::ColorType::Rgba, png::BitDepth::Eight) => {
            Ok(PngImage { width: info.width as usize, height: info.height as usize, pixels })
        },
        _ => Err(()),
    }
}

/// Source-over blend of one channel: the source weighted by its alpha
/// plus the destination weighted by the remainder, each term rounded
/// down.
pub open spec fn blend_chan(s: int, d: int, a: int) -> int {
    (s * a) / 255 + (d * (255 - a)) / 255
}

fn blend(s: u8, d: u8, a: u8) -> (r: u8)
    ensures
        r as int == blend_chan(s as int, d as int, a as int),
{
    let su = s as u32;
    let au = a as u32;
    let du = d as u32;
    proof {
        assert(su * au <= 255 * 255 && du * (255 - au) <= 255 * 255 && (su as int * au as int)
            / 255 <= au as int && (du as int * (255 - au as int)) / 255 <= 255 - au as int)
            by (nonlinear_arith)
            requires
                0 <= su <= 255 && 0 <= du <= 255 && 0 <= au <= 255,
        ;
    }
    let sv = (su * au) / 255;
    let dv = (du * (255 - au)) / 255;
    (sv + dv) as u8
}

/// A destination pixel lies under the overlay when both its coordinates
/// fall inside the placement rectangle, ends included.
pub open spec fn covered_px(px: int, py: int, x: int, y: int, w: int, h: int) -> bool {
    x <= px <= x + w && y <= py <= y + h
}

/// Nearest-sample coordinate: the covered span is mapped linearly onto
/// the image width, rounding down.  A zero-width rectangle samples
/// column zero.
pub open spec fn sample_coord(p: int, lo: int, span: int, extent: int) -> int {
    if span > 0 {
        ((p - lo) * extent) / span
    } else {
        0
    }
}

/// The byte at index `i` of the frame after one overlay is drawn.
pub open spec fn draw_byte(
    f: Seq<u8>,
    i: int,
    fw: int,
    x: int,
    y: int,
    w: int,
    h: int,
    iw: int,
    ih: int,
    img: Seq<u8>,
) -> u8 {
    let p = i / 4;
    let c = i % 4;
    let px = p % fw;
    let py = p / fw;
    if !covered_px(px, py, x, y, w, h) {
        f[i]
    } else {
        let ix = sample_coord(px, x, w, iw);
        let iy = sample_coord(py, y, h, ih);
        let pd = (ix + iy * iw) * 4;
        if pd + 3 >= img.len() {
            f[i]
        } else if c == 3 {
            255u8
        } else {
            blend_chan(img[pd + c] as int, f[i] as int, img[pd + 3] as int) as u8
        }
    }
}

/// The whole frame after one overlay is drawn.
pub open spec fn draw_spec(
    f: Seq<u8>,
    fw: int,
    x: int,
    y: int,
    w: int,
    h: int,
    iw: int,
    ih: int,
    img: Seq<u8>,
) -> Seq<u8> {
    Seq::new(f.len(), |i: int| draw_byte(f, i, fw, x, y, w, h, iw, ih, img))
}

fn draw_overlay(
    frame: &mut Vec<u8>,
    fw: usize,
    fh: usize,
    x: usize,
    y: usize,
    w: usize,
    h: usize,
    img: &PngImage,
)
    requires
        old(frame)@.len() == 4 * fw * fh,
        img.pixels@.len() == 4 * img.width * img.height,
    ensures
        final(frame)@ == draw_spec(
            old(frame)@,
            fw as int,
            x as int,
            y as int,
            w as int,
            h as int,
            img.width as int,
            img.height as int,
            img.pixels@,
        ),
{
    let ghost f0 = frame@;
    let ghost result = draw_spec(
        f0,
        fw as int,
        x as int,
        y as int,
        w as int,
        h as int,
        img.width as int,
        img.height as int,
        img.pixels@,
    );
    if fw == 0 {
        proof {
            assert(f0.len() == 0) by (nonlinear_arith)
                requires
                    f0.len() == 4 * fw * fh,
                    fw == 0,
            ;
            assert(frame@ =~= result);
        }
        return ;
    }
    let flen = frame.len();
    let total = flen / 4;
    proof {
        assert(total == fw * fh) by (nonlinear_arith)
            requires
                flen as int == 4 * fw * fh,
                total == flen as int / 4,
        ;
    }
    let mut p: usize = 0;
    while p < total
        invariant
            frame@.len() == f0.len(),
            f0.len() == 4 * fw * fh,
            img.pixels@.len() == 4 * img.width * img.height,
            fw > 0,
            total == fw * fh,
            flen as int == f0.len(),
            p <= total,
            result == draw_spec(
                f0,
                fw as int,
                x as int,
                y as int,
                w as int,
                h as int,
                img.width as int,
                img.height as int,
                img.pixels@,
            ),
            result.len() == f0.len(),
            forall|i: int| 0 <= i < 4 * p ==> frame@[i] == result[i],
            forall|i: int| 4 * p <= i < f0.len() ==> frame@[i] == f0[i],
        decreases total - p,
    {
        let px = p % fw;
        let py = p / fw;
        proof {
            assert(4 * p + 4 <= flen) by (nonlinear_arith)
                requires
                    p < total,
                    total == fw * fh,
                    flen as int == 4 * fw * fh,
            ;
        }
        let base = 4 * p;
        proof {
            assert(px as int == (base as int / 4) % (fw as int) && py as int == (base as int / 4)
                / (fw as int)) by (nonlinear_arith)
                requires
                    fw > 0,
                    px as int == p as int % fw as int,
                    py as int == p as int / fw as int,
                    base == 4 * p,
            ;
        }
        if px >= x && px - x <= w && py >= y && py - y <= h {
            let iw = img.width;
            let ih = img.height;
            let plen = img.pixels.len();
            let dx = px - x;
            let dy = py - y;
            proof {
                assert(dx as u128 * iw as u128 <= u128::MAX && dy as u128 * ih as u128
                    <= u128::MAX) by (nonlinear_arith)
                    requires
                        dx as int <= usize::MAX,
                        dy as int <= usize::MAX,
                        iw as int <= usize::MAX,
                        ih as int <= usize::MAX,
                        usize::MAX as int <= u64::MAX as int,
                ;
            }
            let ix: u128 = if w > 0 {
                (dx as u128 * iw as u128) / w as u128
            } else {
                0
            };
            let iy: u128 = if h > 0 {
                (dy as u128 * ih as u128) / h as u128
            } else {
                0
            };
            proof {
                assert(ix as int == sample_coord(px as int, x as int, w as int, iw as int)
                    && iy as int == sample_coord(py as int, y as int, h as int, ih as int)
                    && ix as int <= iw as int && iy as int <= ih as int) by (nonlinear_arith)
                    requires
                        w >= 0 && h >= 0 && iw >= 0 && ih >= 0,
                        dx as int == px as int - x as int,
                        dy as int == py as int - y as int,
                        0 <= dx as int <= w as int,
                        0 <= dy as int <= h as int,
                        ix as int == (if w > 0 {
                            (dx as int * iw as int) / w as int
                        } else {
                            0
                        }),
                        iy as int == (if h > 0 {
                            (dy as int * ih as int) / h as int
                        } else {
                            0
                        }),
                ;
                assert(iy as int * iw as int <= plen as int && (ix as int + iy as int * iw as int)
                    * 4 <= 5 * (usize::MAX as int)) by (nonlinear_arith)
                    requires
                        0 <= ix as int <= iw as int,
                        0 <= iy as int <= ih as int,
                        iw as int >= 0,
                        ih as int >= 0,
                        plen as int == 4 * iw as int * ih as int,
                        plen as int <= usize::MAX as int,
                        iw as int <= usize::MAX as int,
                ;
            }
            let pd: u128 = (ix + iy * iw as u128) * 4;
            proof {
                assert(pd as int == (ix as int + iy as int * iw as int) * 4 && pd as int >= 0);
            }
            if pd + 3 < img.pixels.len() as u128 {
                let pdu = pd as usize;
                let a = img.pixels[pdu + 3];
                let r0 = blend(img.pixels[pdu], frame[base], a);
                let g0 = blend(img.pixels[pdu + 1], frame[base + 1], a);
                let b0 = blend(img.pixels[pdu + 2], frame[base + 2], a);
                frame[base] = r0;
                frame[base + 1] = g0;
                frame[base + 2] = b0;
                frame[base + 3] = 255;
                proof {
                    assert forall|i: int| base <= i < base + 4 implies frame@[i] == result[i] by {
                        assert(i / 4 == p as int && result[i] == draw_byte(
                            f0,
                            i,
                            fw as int,
                            x as int,
                            y as int,
                            w as int,
                            h as int,
                            img.width as int,
                            img.height as int,
                            img.pixels@,
                        ));
                    }
                }
            } else {
                proof {
                    assert forall|i: int| base <= i < base + 4 implies frame@[i] == result[i] by {
                        assert(i / 4 == p as int);
                    }
                }
            }
        } else {
            proof {
                assert forall|i: int| base <= i < base + 4 implies frame@[i] == result[i] by {
                    assert(i / 4 == p as int);
                    assert(!covered_px(px as int, py as int, x as int, y as int, w as int, h as int));
                }
            }
        }
        p = p + 1;
    }
    proof {
        assert(4 * total == flen) by (nonlinear_arith)
            requires
                flen as int == 4 * fw * fh,
                total == fw * fh,
        ;
        assert(frame@ =~= result);
    }
}

} // verus!

verus! {

/// The starting frame: fully opaque black.
pub open spec fn base_frame(fw: int, fh: int) -> Seq<u8> {
    Seq::new(
        (4 * fw * fh) as nat,
        |i: int|
            if i % 4 == 3 {
                255u8
            } else {
                0u8
            },
    )
}

/// One event's effect on the frame: an image overlay whose asset is
/// cached and decodes is drawn; anything else leaves the frame alone.
/// Script overlays are not rendered.
pub open spec fn step_overlay(f: Seq<u8>, ev: Event, cache: AssetCache, fw: int, fh: int) -> Seq<
    u8,
> {
    match ev.info {
        EventType::ImgStart(slug, rect) => match cache.spec_get(slug@) {
            Some(b) => if png_ok(b) {
                draw_spec(
                    f,
                    fw,
                    rect.0 as int,
                    rect.1 as int,
                    rect.2 as int,
                    rect.3 as int,
                    png_width(b),
                    png_height(b),
                    png_rgba(b),
                )
            } else {
                f
            },
            None => f,
        },
        _ => f,
    }
}

/// The composited frame: the active overlays drawn in order onto opaque
/// black, so later overlays land on top.
pub open spec fn composite_spec(evs: Seq<Event>, cache: AssetCache, fw: int, fh: int) -> Seq<u8>
    decreases evs.len(),
{
    if evs.len() == 0 {
        base_frame(fw, fh)
    } else {
        step_overlay(composite_spec(evs.drop_last(), cache, fw, fh), evs.last(), cache, fw, fh)
    }
}

/// Compositing never changes the frame's size.
pub proof fn lemma_composite_len(evs: Seq<Event>, cache: AssetCache, fw: int, fh: int)
    requires
        fw >= 0,
        fh >= 0,
    ensures
        composite_spec(evs, cache, fw, fh).len() == 4 * fw * fh,
    decreases evs.len(),
{
    assert(4 * fw * fh >= 0) by (nonlinear_arith)
        requires
            fw >= 0 && fh >= 0,
    ;
    if evs.len() > 0 {
        lemma_composite_len(evs.drop_last(), cache, fw, fh);
    }
}

/// Every pixel of a composited frame is fully opaque: drawing either
/// forces a pixel's alpha to 255 or leaves it as it was, and the base
/// frame is opaque already.
pub proof fn lemma_composite_opaque(evs: Seq<Event>, cache: AssetCache, fw: int, fh: int)
    requires
        fw >= 0,
        fh >= 0,
    ensures
        forall|i: int|
            0 <= i < composite_spec(evs, cache, fw, fh).len() && i % 4 == 3 ==> composite_spec(
                evs,
                cache,
                fw,
                fh,
            )[i] == 255u8,
    decreases evs.len(),
{
    assert(4 * fw * fh >= 0) by (nonlinear_arith)
        requires
            fw >= 0 && fh >= 0,
    ;
    if evs.len() > 0 {
        lemma_composite_opaque(evs.drop_last(), cache, fw, fh);
        lemma_composite_len(evs.drop_last(), cache, fw, fh);
        let prev = composite_spec(evs.drop_last(), cache, fw, fh);
        let cur = composite_spec(evs, cache, fw, fh);
        assert forall|i: int| 0 <= i < cur.len() && i % 4 == 3 implies cur[i] == 255u8 by {
            assert(prev[i] == 255u8);
        }
    }
}

/// An overlay whose placement rectangle lies entirely outside the frame
/// — its left edge at or past the frame's width, or its top edge at or
/// past the frame's height — changes nothing: every byte of the frame,
/// colour and alpha alike, is left exactly as it was.
pub proof fn lemma_offscreen_overlay(
    f: Seq<u8>,
    fw: int,
    fh: int,
    x: int,
    y: int,
    w: int,
    h: int,
    iw: int,
    ih: int,
    img: Seq<u8>,
)
    requires
        f.len() == 4 * fw * fh,
        fw >= 0,
        fh >= 0,
        x >= fw || y >= fh,
    ensures
        draw_spec(f, fw, x, y, w, h, iw, ih, img) == f,
{
    let r = draw_spec(f, fw, x, y, w, h, iw, ih, img);
    assert forall|i: int| 0 <= i < f.len() implies r[i] == f[i] by {
        if fw == 0 || fh == 0 {
            assert(f.len() == 0) by (nonlinear_arith)
                requires
                    f.len() == 4 * fw * fh,
                    fw >= 0,
                    fh >= 0,
                    fw == 0 || fh == 0,
            ;
        } else {
            let p = i / 4;
            assert(p < fw * fh) by (nonlinear_arith)
                requires
                    0 <= i < f.len(),
                    f.len() == 4 * fw * fh,
                    p == i / 4,
            ;
            assert(p % fw < fw && p / fw < fh) by (nonlinear_arith)
                requires
                    fw > 0,
                    fh > 0,
                    0 <= p < fw * fh,
            ;
            assert(!covered_px(p % fw, p / fw, x, y, w, h));
        }
    }
    assert(r =~= f);
}

/// An active image overlay whose rectangle lies entirely outside the
/// frame leaves the composited frame exactly as it would be without the
/// overlay; every pixel's alpha is still forced opaque, as it is in any
/// composited frame.
pub proof fn lemma_offscreen_composite(
    evs: Seq<Event>,
    ev: Event,
    cache: AssetCache,
    fw: int,
    fh: int,
)
    requires
        fw >= 0,
        fh >= 0,
        ev.info matches EventType::ImgStart(_slug, rect) && (rect.0 as int >= fw || rect.1 as int
            >= fh),
    ensures
        composite_spec(evs.push(ev), cache, fw, fh) == composite_spec(evs, cache, fw, fh),
        forall|i: int|
            0 <= i < composite_spec(evs.push(ev), cache, fw, fh).len() && i % 4 == 3
                ==> composite_spec(evs.push(ev), cache, fw, fh)[i] == 255u8,
{
    assert(evs.push(ev).drop_last() =~= evs);
    assert(evs.push(ev).last() == ev);
    let prev = composite_spec(evs, cache, fw, fh);
    lemma_composite_len(evs, cache, fw, fh);
    assert(prev.len() == 4 * fw * fh || prev.len() == 0);
    match ev.info {
        EventType::ImgStart(slug, rect) => match cache.spec_get(slug@) {
            Some(b) => {
                if png_ok(b) {
                    if prev.len() == 4 * fw * fh {
                        lemma_offscreen_overlay(
                            prev,
                            fw,
                            fh,
                            rect.0 as int,
                            rect.1 as int,
                            rect.2 as int,
                            rect.3 as int,
                            png_width(b),
                            png_height(b),
                            png_rgba(b),
                        );
                    } else {
                        assert(draw_spec(
                            prev,
                            fw as int,
                            rect.0 as int,
                            rect.1 as int,
                            rect.2 as int,
                            rect.3 as int,
                            png_width(b),
                            png_height(b),
                            png_rgba(b),
                        ) =~= prev);
                    }
                }
            },
            None => {},
        },
        _ => {},
    }
    lemma_composite_opaque(evs.push(ev), cache, fw, fh);
}

/// An image overlay can be rendered when its asset bytes are cached and
/// decode as an eight-bit RGBA PNG; events of any other kind need
/// nothing.
pub open spec fn ev_renderable(ev: Event, cache: AssetCache) -> bool {
    ev.info matches EventType::ImgStart(slug, _rect) ==> cache.spec_get(slug@) matches Some(b)
        && png_ok(b)
}

/// Composites one frame: the active overlays, in order, alpha-blended
/// onto an opaque black buffer of the given resolution.  Succeeds exactly
/// when every active image overlay's asset is cached and decodes; the
/// error tells which condition failed first.
pub fn composite(contents: &Vec<Event>, assets: &AssetCache, resolution: (usize, usize)) -> (r:
    Result<Vec<u8>, RenderError>)
    requires
        4 * (resolution.0 as int) * (resolution.1 as int) <= usize::MAX as int,
    ensures
        r is Ok <==> (forall|k: int|
            0 <= k < contents@.len() ==> ev_renderable(#[trigger] contents@[k], *assets)),
        r matches Ok(buf) ==> buf@ == composite_spec(
            contents@,
            *assets,
            resolution.0 as int,
            resolution.1 as int,
        ) && buf@.len() == 4 * resolution.0 * resolution.1,
        r matches Err(e) ==> exists|k: int|
            0 <= k < contents@.len() && !ev_renderable(#[trigger] contents@[k], *assets),
{
    let fw = resolution.0;
    let fh = resolution.1;
    proof {
        assert(fw as int * fh as int <= usize::MAX as int) by (nonlinear_arith)
            requires
                4 * (fw as int) * (fh as int) <= usize::MAX as int,
                fw as int >= 0,
                fh as int >= 0,
        ;
    }
    let pixels = fw * fh;
    let mut buf: Vec<u8> = Vec::new();
    let mut p: usize = 0;
    while p < pixels
        invariant
            pixels == fw * fh,
            4 * (fw as int) * (fh as int) <= usize::MAX as int,
            p <= pixels,
            buf@.len() == 4 * p,
            forall|i: int|
                0 <= i < buf@.len() ==> buf@[i] == (if i % 4 == 3 {
                    255u8
                } else {
                    0u8
                }),
        decreases pixels - p,
    {
        proof {
            assert(4 * p + 4 <= 4 * (fw as int) * (fh as int)) by (nonlinear_arith)
                requires
                    p < pixels,
                    pixels == fw * fh,
            ;
        }
        buf.push(0);
        buf.push(0);
        buf.push(0);
        buf.push(255);
        p = p + 1;
    }
    proof {
        assert(4 * (pixels as int) == 4 * (fw as int) * (fh as int)) by (nonlinear_arith)
            requires
                pixels == fw * fh,
        ;
        assert(buf@ =~= base_frame(fw as int, fh as int));
        assert(contents@.take(0) =~= Seq::<Event>::empty());
    }
    let n = contents.len();
    let mut k: usize = 0;
    while k < n
        invariant
            n == contents@.len(),
            k <= n,
            4 * (resolution.0 as int) * (resolution.1 as int) <= usize::MAX as int,
            fw == resolution.0,
            fh == resolution.1,
            buf@ == composite_spec(contents@.take(k as int), *assets, fw as int, fh as int),
            buf@.len() == 4 * (fw as int) * (fh as int),
            forall|j: int| 0 <= j < k ==> ev_renderable(#[trigger] contents@[j], *assets),
        decreases n - k,
    {
        proof {
            assert(contents@.take(k as int + 1).drop_last() =~= contents@.take(k as int));
            assert(contents@.take(k as int + 1).last() == contents@[k as int]);
        }
        match &contents[k].info {
            EventType::ImgStart(slug, rect) => {
                match assets.get(slug.as_str()) {
                    Some(bytes) => {
                        match decode_png(bytes) {
                            Ok(img) => {
                                draw_overlay(
                                    &mut buf,
                                    fw,
                                    fh,
                                    rect.0,
                                    rect.1,
                                    rect.2,
                                    rect.3,
                                    &img,
                                );
                            },
                            Err(_) => {
                                return Err(RenderError::BadAsset);
                            },
                        }
                    },
                    None => {
                        return Err(RenderError::MissingAsset);
                    },
                }
            },
            _ => {},
        }
        k = k + 1;
    }
    proof {
        assert(contents@.take(n as int) =~= contents@);
    }
    Ok(buf)
}

} // verus!
