//! Extraction of inline markers from annotated transcript text.
//!
//! The annotated transcript is scanned character by character while a brace
//! depth is tracked.  While the depth is positive, characters accumulate in
//! a marker buffer; when the depth returns to zero the buffer is decoded as
//! one marker.  Characters that never belong to a marker buffer form the
//! cleaned transcript, except that a space following a space, or a newline
//! following a newline, is dropped.  Each marker records the index it
//! occupies in the cleaned transcript.
//!
//! Brace counting deliberately ignores quoted strings: a brace inside a
//! JSON string value is counted like any other.  Downstream transcripts
//! rely on this exact behaviour, fragile as it is.
use vstd::prelude::*;

use crate::text::str_chars;
use crate::timeline::EventType;

verus! {

/// One extracted marker buffer: the cleaned-transcript index it occupies
/// and its raw text, outer braces included.
pub ghost struct Chunk {
    pub pos: int,
    pub text: Seq<char>,
}

/// The state of the transcript scan: current brace depth, pending marker
/// buffer, cleaned output so far, markers recovered so far, and whether a
/// stray closing brace (one at depth zero) has been seen, which freezes
/// the scan.
pub ghost struct Scan {
    pub depth: int,
    pub buf: Seq<char>,
    pub cleaned: Seq<char>,
    pub markers: Seq<Chunk>,
    pub stray: bool,
}

pub open spec fn scan_init() -> Scan {
    Scan {
        depth: 0,
        buf: Seq::empty(),
        cleaned: Seq::empty(),
        markers: Seq::empty(),
        stray: false,
    }
}

/// Appends one kept character to the cleaned output, collapsing a run of
/// spaces or of newlines to a single character.
pub open spec fn clean_push(out: Seq<char>, c: char) -> Seq<char> {
    if out.len() > 0 && ((c == ' ' && out.last() == ' ') || (c == '\n' && out.last() == '\n')) {
        out
    } else {
        out.push(c)
    }
}

/// Advances the scan by one character.
pub open spec fn scan_step(st: Scan, c: char) -> Scan {
    if st.stray {
        st
    } else {
        let depth1 = if c == '{' {
            st.depth + 1
        } else {
            st.depth
        };
        if c == '}' && depth1 == 0 {
            Scan { depth: st.depth, buf: st.buf, cleaned: st.cleaned, markers: st.markers, stray: true }
        } else {
            let buf1 = if depth1 > 0 {
                st.buf.push(c)
            } else {
                st.buf
            };
            let depth2 = if c == '}' {
                depth1 - 1
            } else {
                depth1
            };
            if depth2 == 0 && buf1.len() > 0 {
                Scan {
                    depth: 0,
                    buf: Seq::empty(),
                    cleaned: st.cleaned,
                    markers: st.markers.push(Chunk { pos: st.cleaned.len() as int, text: buf1 }),
                    stray: false,
                }
            } else if depth2 == 0 {
                Scan {
                    depth: 0,
                    buf: buf1,
                    cleaned: clean_push(st.cleaned, c),
                    markers: st.markers,
                    stray: false,
                }
            } else {
                Scan { depth: depth2, buf: buf1, cleaned: st.cleaned, markers: st.markers, stray: false }
            }
        }
    }
}

/// The scan state after consuming the whole input.
pub open spec fn scan_seq(s: Seq<char>) -> Scan
    decreases s.len(),
{
    if s.len() == 0 {
        scan_init()
    } else {
        scan_step(scan_seq(s.drop_last()), s.last())
    }
}

/// The cleaned, spoken-word-only transcript: markers removed, runs of
/// spaces and of newlines collapsed.
pub open spec fn clean_spec(s: Seq<char>) -> Seq<char> {
    scan_seq(s).cleaned
}

/// True when no closing brace occurs at depth zero anywhere in the input.
/// On such a stray brace the scan stops: the transcript is treated as
/// fatally malformed.
pub open spec fn no_stray(s: Seq<char>) -> bool {
    !scan_seq(s).stray
}

/// A string that could be a cleaned transcript: no braces, and no space
/// directly after a space nor newline directly after a newline.
pub open spec fn tidy(w: Seq<char>) -> bool {
    &&& forall|i: int| 0 <= i < w.len() ==> w[i] != '{' && w[i] != '}'
    &&& forall|i: int|
        0 < i < w.len() ==> !((#[trigger] w[i - 1] == ' ' && w[i] == ' ') || (w[i - 1] == '\n'
            && w[i] == '\n'))
}

proof fn lemma_clean_push_tidy(out: Seq<char>, c: char)
    requires
        tidy(out),
        c != '{',
        c != '}',
    ensures
        tidy(clean_push(out, c)),
{
    let r = clean_push(out, c);
    if r != out {
        assert forall|i: int| 0 < i < r.len() implies !((#[trigger] r[i - 1] == ' ' && r[i] == ' ')
            || (r[i - 1] == '\n' && r[i] == '\n')) by {
            if i < r.len() - 1 {
                assert(r[i - 1] == out[i - 1] && r[i] == out[i]);
            }
        }
    }
}

/// The cleaned output of any scan is tidy.
proof fn lemma_cleaned_tidy(s: Seq<char>)
    ensures
        tidy(clean_spec(s)),
    decreases s.len(),
{
    if s.len() == 0 {
        assert(tidy(scan_init().cleaned));
    } else {
        let v = s.drop_last();
        let prev = scan_seq(v);
        lemma_cleaned_tidy(v);
        lemma_scan_shape(v);
        let c = s.last();
        let cur = scan_seq(s);
        assert(cur == scan_step(prev, c));
        if !prev.stray && c != '{' && c != '}' {
            lemma_clean_push_tidy(prev.cleaned, c);
            assert(cur.cleaned == prev.cleaned || cur.cleaned == clean_push(prev.cleaned, c));
        } else {
            assert(cur.cleaned == prev.cleaned);
        }
    }
}

/// Scanning a tidy string is the identity: no markers, no strays, the
/// cleaned output is the input itself.
proof fn lemma_scan_of_tidy(w: Seq<char>)
    requires
        tidy(w),
    ensures
        scan_seq(w) == (Scan {
            depth: 0,
            buf: Seq::<char>::empty(),
            cleaned: w,
            markers: Seq::<Chunk>::empty(),
            stray: false,
        }),
    decreases w.len(),
{
    if w.len() == 0 {
        assert(scan_seq(w) =~= scan_init());
        assert(scan_init().cleaned =~= w);
        assert(scan_seq(w) == (Scan {
            depth: 0,
            buf: Seq::<char>::empty(),
            cleaned: w,
            markers: Seq::<Chunk>::empty(),
            stray: false,
        }));
    } else {
        let v = w.drop_last();
        assert(tidy(v)) by {
            assert(forall|i: int| 0 <= i < v.len() ==> v[i] == w[i]);
        }
        lemma_scan_of_tidy(v);
        let c = w.last();
        assert(c != '{' && c != '}');
        let r = clean_push(v, c);
        if v.len() > 0 && ((c == ' ' && v.last() == ' ') || (c == '\n' && v.last() == '\n')) {
            assert((w[w.len() - 2] == ' ' && w[w.len() - 1] == ' ') || (w[w.len() - 2] == '\n'
                && w[w.len() - 1] == '\n'));
            assert(false);
        }
        assert(r =~= w);
        assert(scan_seq(w) == scan_step(scan_seq(v), c));
    }
}

/// Cleaning is idempotent: cleaning a cleaned transcript changes nothing.
/// This holds for every input string, stray braces included.
pub proof fn lemma_clean_idempotent(s: Seq<char>)
    ensures
        clean_spec(clean_spec(s)) == clean_spec(s),
{
    lemma_cleaned_tidy(s);
    lemma_scan_of_tidy(clean_spec(s));
}

/// Invariant of a scan that has not gone stray: the depth is never
/// negative, and the pending buffer is nonempty exactly while the depth is
/// positive.
pub proof fn lemma_scan_shape(s: Seq<char>)
    ensures
        !scan_seq(s).stray ==> scan_seq(s).depth >= 0 && scan_seq(s).depth <= s.len() && (scan_seq(
            s,
        ).depth > 0 <==> scan_seq(s).buf.len() > 0),
    decreases s.len(),
{
    if s.len() > 0 {
        lemma_scan_shape(s.drop_last());
    }
}

/// Marker positions never exceed the cleaned length, and the cleaned
/// output only grows: each marker's position is the cleaned length at the
/// moment it closed.
proof fn lemma_positions_shape(s: Seq<char>)
    ensures
        forall|k: int|
            0 <= k < scan_seq(s).markers.len() ==> 0 <= #[trigger] scan_seq(s).markers[k].pos
                <= scan_seq(s).cleaned.len(),
    decreases s.len(),
{
    if s.len() > 0 {
        lemma_positions_shape(s.drop_last());
        let prev = scan_seq(s.drop_last());
        assert(prev.cleaned.len() <= scan_seq(s).cleaned.len());
        assert(forall|k: int|
            0 <= k < prev.markers.len() ==> scan_seq(s).markers[k] == prev.markers[k]);
    }
}

/// Marker positions are recovered in nondecreasing order of their place in
/// the cleaned transcript.  Two markers with no kept character between
/// them share a position, so the order is not strict in general.
pub proof fn lemma_positions_monotone(s: Seq<char>)
    ensures
        forall|i: int, j: int|
            0 <= i <= j < scan_seq(s).markers.len() ==> #[trigger] scan_seq(s).markers[i].pos
                <= #[trigger] scan_seq(s).markers[j].pos,
        forall|k: int|
            0 <= k < scan_seq(s).markers.len() ==> 0 <= #[trigger] scan_seq(s).markers[k].pos
                <= scan_seq(s).cleaned.len(),
    decreases s.len(),
{
    lemma_positions_shape(s);
    if s.len() > 0 {
        lemma_positions_monotone(s.drop_last());
        let prev = scan_seq(s.drop_last());
        assert(forall|k: int|
            0 <= k < prev.markers.len() ==> scan_seq(s).markers[k] == prev.markers[k]);
    }
}

/// The net brace depth of a string, independent of the scan.
pub open spec fn net_depth(s: Seq<char>) -> int
    decreases s.len(),
{
    if s.len() == 0 {
        0
    } else {
        net_depth(s.drop_last()) + if s.last() == '{' {
            1int
        } else if s.last() == '}' {
            -1int
        } else {
            0int
        }
    }
}

/// How many closing braces return the net depth to zero: for text whose
/// braces are properly nested this is the number of top-level brace
/// groups, hence the number of markers present.
pub open spec fn close_count(s: Seq<char>) -> int
    decreases s.len(),
{
    if s.len() == 0 {
        0
    } else {
        close_count(s.drop_last()) + if s.last() == '}' && net_depth(s) == 0 {
            1int
        } else {
            0int
        }
    }
}

/// So long as no stray closing brace occurs, the scan recovers exactly one
/// marker per top-level brace group: as many markers as there are closing
/// braces that return the depth to zero.
pub proof fn lemma_marker_count(s: Seq<char>)
    requires
        no_stray(s),
    ensures
        scan_seq(s).markers.len() == close_count(s),
        scan_seq(s).depth == net_depth(s),
    decreases s.len(),
{
    if s.len() > 0 {
        let v = s.drop_last();
        assert(!scan_seq(v).stray) by {
            if scan_seq(v).stray {
                assert(scan_seq(s).stray);
            }
        }
        lemma_marker_count(v);
        lemma_scan_shape(v);
    }
}

} // verus!

verus! {

/// Cap on the seconds part of a time override, so that the value in
/// milliseconds stays strictly below `TIME_BOUND`.
pub const SEC_CAP: u64 = 2_000_000_000_000_000;

pub open spec fn is_ws(c: char) -> bool {
    c == ' ' || c == '\t' || c == '\n' || c == '\r'
}

/// First index at or after `i` holding a non-whitespace character.
pub open spec fn skip_ws(s: Seq<char>, i: int) -> int
    decreases s.len() - i,
{
    if 0 <= i && i < s.len() && is_ws(s[i]) {
        skip_ws(s, i + 1)
    } else {
        i
    }
}

pub open spec fn is_digit(c: char) -> bool {
    48 <= (c as u32) && (c as u32) <= 57
}

pub open spec fn digit_val(c: char) -> int {
    (c as u32) - 48
}

/// The character named by a backslash escape, if the escape is supported.
/// Unicode escapes (`\uXXXX`) are not part of the marker dialect.
pub open spec fn esc_char(c: char) -> Option<char> {
    if c == '"' {
        Some('"')
    } else if c == '\\' {
        Some('\\')
    } else if c == '/' {
        Some('/')
    } else if c == 'n' {
        Some('\n')
    } else if c == 't' {
        Some('\t')
    } else if c == 'r' {
        Some('\r')
    } else if c == 'b' {
        Some('\u{0008}')
    } else if c == 'f' {
        Some('\u{000C}')
    } else {
        None
    }
}

/// Body of a quoted string, `i` just past the opening quote: the unescaped
/// characters and the index just past the closing quote.
pub open spec fn parse_str_body(s: Seq<char>, i: int, acc: Seq<char>) -> Option<(Seq<char>, int)>
    decreases s.len() - i,
{
    if i < 0 || i >= s.len() {
        None
    } else if s[i] == '"' {
        Some((acc, i + 1))
    } else if s[i] == '\\' {
        if i + 1 < s.len() {
            match esc_char(s[i + 1]) {
                Some(e) => parse_str_body(s, i + 2, acc.push(e)),
                None => None,
            }
        } else {
            None
        }
    } else {
        parse_str_body(s, i + 1, acc.push(s[i]))
    }
}

/// A quoted string starting at `i`.
pub open spec fn parse_string(s: Seq<char>, i: int) -> Option<(Seq<char>, int)> {
    if 0 <= i && i < s.len() && s[i] == '"' {
        parse_str_body(s, i + 1, Seq::empty())
    } else {
        None
    }
}

/// A run of decimal digits folded into `acc`; any value exceeding `cap`
/// fails the parse.
pub open spec fn parse_digits(s: Seq<char>, i: int, acc: int, cap: int) -> Option<(int, int)>
    decreases s.len() - i,
{
    if i < 0 {
        None
    } else if i < s.len() && is_digit(s[i]) {
        let acc2 = acc * 10 + digit_val(s[i]);
        if acc2 > cap {
            None
        } else {
            parse_digits(s, i + 1, acc2, cap)
        }
    } else {
        Some((acc, i))
    }
}

/// Fractional digits of a number: the first three carry weight
/// 100, 10 and 1 milliseconds; any further digits are consumed and
/// ignored.  Returns the millisecond value and the index past the run.
pub open spec fn frac_millis(s: Seq<char>, i: int, mul: int, acc: int) -> (int, int)
    decreases s.len() - i,
{
    if 0 <= i && i < s.len() && is_digit(s[i]) {
        frac_millis(s, i + 1, mul / 10, acc + digit_val(s[i]) * mul)
    } else {
        (acc, i)
    }
}

/// A JSON-style number at `i`, read as integer milliseconds: optional
/// minus sign, one or more integer digits (the seconds part, capped at
/// `SEC_CAP`), optionally a point followed by one or more fractional
/// digits, of which the first three contribute to the millisecond value.
/// Exponent notation is not part of the marker dialect.
pub open spec fn parse_number_ms(s: Seq<char>, i: int) -> Option<(int, int)> {
    let neg = 0 <= i && i < s.len() && s[i] == '-';
    let j = if neg {
        i + 1
    } else {
        i
    };
    if 0 <= j && j < s.len() && is_digit(s[j]) {
        match parse_digits(s, j, 0, SEC_CAP as int) {
            Some((v, j2)) => {
                if j2 < s.len() && s[j2] == '.' {
                    if j2 + 1 < s.len() && is_digit(s[j2 + 1]) {
                        let fm = frac_millis(s, j2 + 1, 100, 0);
                        let m = v * 1000 + fm.0;
                        Some(
                            (
                                if neg {
                                    -m
                                } else {
                                    m
                                },
                                fm.1,
                            ),
                        )
                    } else {
                        None
                    }
                } else {
                    Some(
                        (
                            if neg {
                                -(v * 1000)
                            } else {
                                v * 1000
                            },
                            j2,
                        ),
                    )
                }
            },
            None => None,
        }
    } else {
        None
    }
}

/// A bare nonnegative integer that must fit in `usize`.
pub open spec fn parse_usize_num(s: Seq<char>, i: int) -> Option<(int, int)> {
    if 0 <= i && i < s.len() && is_digit(s[i]) {
        parse_digits(s, i, 0, usize::MAX as int)
    } else {
        None
    }
}

/// End of a brace-balanced blob: `i` is inside the blob with `depth` open
/// braces seen so far; returns the index just past the matching close.
/// String values receive no special treatment, as everywhere in this
/// format.
pub open spec fn blob_end(s: Seq<char>, i: int, depth: int) -> Option<int>
    decreases s.len() - i,
{
    if i < 0 || i >= s.len() {
        None
    } else {
        let d2 = depth + if s[i] == '{' {
            1int
        } else if s[i] == '}' {
            -1int
        } else {
            0int
        };
        if d2 == 0 {
            Some(i + 1)
        } else if d2 < 0 {
            None
        } else {
            blob_end(s, i + 1, d2)
        }
    }
}

/// The decoded form of a marker's `info` field.
pub ghost enum InfoModel {
    JsStart(Seq<char>),
    ImgStart(Seq<char>, (int, int, int, int)),
    JsEnd,
    ImgEnd,
}

/// A placement rectangle `[x, y, w, h]` of bare integers.
pub open spec fn parse_rect(s: Seq<char>, i: int) -> Option<((int, int, int, int), int)> {
    if 0 <= i && i < s.len() && s[i] == '[' {
        let i1 = skip_ws(s, i + 1);
        match parse_usize_num(s, i1) {
            Some((x, ja)) => {
                let j1 = skip_ws(s, ja);
                if j1 < s.len() && s[j1] == ',' {
                    let i2 = skip_ws(s, j1 + 1);
                    match parse_usize_num(s, i2) {
                        Some((y, jb)) => {
                            let j2 = skip_ws(s, jb);
                            if j2 < s.len() && s[j2] == ',' {
                                let i3 = skip_ws(s, j2 + 1);
                                match parse_usize_num(s, i3) {
                                    Some((w, jc)) => {
                                        let j3 = skip_ws(s, jc);
                                        if j3 < s.len() && s[j3] == ',' {
                                            let i4 = skip_ws(s, j3 + 1);
                                            match parse_usize_num(s, i4) {
                                                Some((h, jd)) => {
                                                    let j4 = skip_ws(s, jd);
                                                    if j4 < s.len() && s[j4] == ']' {
                                                        Some(((x, y, w, h), j4 + 1))
                                                    } else {
                                                        None
                                                    }
                                                },
                                                None => None,
                                            }
                                        } else {
                                            None
                                        }
                                    },
                                    None => None,
                                }
                            } else {
                                None
                            }
                        },
                        None => None,
                    }
                } else {
                    None
                }
            },
            None => None,
        }
    } else {
        None
    }
}

/// The payload of an `ImgStart` info value: `[ "slug", [x, y, w, h] ]`.
pub open spec fn parse_img_payload(s: Seq<char>, i: int) -> Option<
    (Seq<char>, (int, int, int, int), int),
> {
    if 0 <= i && i < s.len() && s[i] == '[' {
        let i1 = skip_ws(s, i + 1);
        match parse_string(s, i1) {
            Some((slug, ja)) => {
                let j1 = skip_ws(s, ja);
                if j1 < s.len() && s[j1] == ',' {
                    let i2 = skip_ws(s, j1 + 1);
                    match parse_rect(s, i2) {
                        Some((rect, jb)) => {
                            let j2 = skip_ws(s, jb);
                            if j2 < s.len() && s[j2] == ']' {
                                Some((slug, rect, j2 + 1))
                            } else {
                                None
                            }
                        },
                        None => None,
                    }
                } else {
                    None
                }
            },
            None => None,
        }
    } else {
        None
    }
}

/// The `info` value: either the string `"ImgEnd"` or `"JsEnd"`, or an
/// object with a single `"ImgStart"` or `"JsStart"` key.  A `JsStart`
/// argument must itself be a brace-delimited object; its raw text is kept.
pub open spec fn parse_info(s: Seq<char>, i: int) -> Option<(InfoModel, int)> {
    if 0 <= i && i < s.len() && s[i] == '"' {
        match parse_string(s, i) {
            Some((w, j)) => {
                if w == "ImgEnd"@ {
                    Some((InfoModel::ImgEnd, j))
                } else if w == "JsEnd"@ {
                    Some((InfoModel::JsEnd, j))
                } else {
                    None
                }
            },
            None => None,
        }
    } else if 0 <= i && i < s.len() && s[i] == '{' {
        let j = skip_ws(s, i + 1);
        match parse_string(s, j) {
            Some((key, j2)) => {
                let j3 = skip_ws(s, j2);
                if j3 < s.len() && s[j3] == ':' {
                    let j4 = skip_ws(s, j3 + 1);
                    if key == "ImgStart"@ {
                        match parse_img_payload(s, j4) {
                            Some((slug, rect, j5)) => {
                                let j6 = skip_ws(s, j5);
                                if j6 < s.len() && s[j6] == '}' {
                                    Some((InfoModel::ImgStart(slug, rect), j6 + 1))
                                } else {
                                    None
                                }
                            },
                            None => None,
                        }
                    } else if key == "JsStart"@ {
                        if j4 < s.len() && s[j4] == '{' {
                            match blob_end(s, j4, 0) {
                                Some(j5) => {
                                    let j6 = skip_ws(s, j5);
                                    if j6 < s.len() && s[j6] == '}' {
                                        Some((InfoModel::JsStart(s.subrange(j4, j5)), j6 + 1))
                                    } else {
                                        None
                                    }
                                },
                                None => None,
                            }
                        } else {
                            None
                        }
                    } else {
                        None
                    }
                } else {
                    None
                }
            },
            None => None,
        }
    } else {
        None
    }
}

/// The fields of a marker object as they are gathered.
pub ghost struct MarkerModel {
    pub uuid: Option<Seq<char>>,
    pub info: Option<InfoModel>,
    pub absolute: Option<int>,
    pub relative: Option<int>,
}

/// The members of a marker object from `i` (just past `{` and leading
/// whitespace) to the closing brace.  Keys may come in any order; each of
/// `uuid`, `info`, `absolute` and `relative` may appear at most once, and
/// no other key is known.
pub open spec fn parse_members(s: Seq<char>, i: int, m: MarkerModel) -> Option<(MarkerModel, int)>
    decreases s.len() - i,
{
    match parse_string(s, i) {
        Some((key, j)) => {
            let j2 = skip_ws(s, j);
            if j2 < s.len() && s[j2] == ':' {
                let j3 = skip_ws(s, j2 + 1);
                let stepped: Option<(MarkerModel, int)> = if key == "uuid"@ {
                    if m.uuid is Some {
                        None
                    } else {
                        match parse_string(s, j3) {
                            Some((u, j4)) => Some(
                                (
                                    MarkerModel {
                                        uuid: Some(u),
                                        info: m.info,
                                        absolute: m.absolute,
                                        relative: m.relative,
                                    },
                                    j4,
                                ),
                            ),
                            None => None,
                        }
                    }
                } else if key == "info"@ {
                    if m.info is Some {
                        None
                    } else {
                        match parse_info(s, j3) {
                            Some((inf, j4)) => Some(
                                (
                                    MarkerModel {
                                        uuid: m.uuid,
                                        info: Some(inf),
                                        absolute: m.absolute,
                                        relative: m.relative,
                                    },
                                    j4,
                                ),
                            ),
                            None => None,
                        }
                    }
                } else if key == "absolute"@ {
                    if m.absolute is Some {
                        None
                    } else {
                        match parse_number_ms(s, j3) {
                            Some((t, j4)) => Some(
                                (
                                    MarkerModel {
                                        uuid: m.uuid,
                                        info: m.info,
                                        absolute: Some(t),
                                        relative: m.relative,
                                    },
                                    j4,
                                ),
                            ),
                            None => None,
                        }
                    }
                } else if key == "relative"@ {
                    if m.relative is Some {
                        None
                    } else {
                        match parse_number_ms(s, j3) {
                            Some((t, j4)) => Some(
                                (
                                    MarkerModel {
                                        uuid: m.uuid,
                                        info: m.info,
                                        absolute: m.absolute,
                                        relative: Some(t),
                                    },
                                    j4,
                                ),
                            ),
                            None => None,
                        }
                    }
                } else {
                    None
                };
                match stepped {
                    Some((m2, j4)) => {
                        let j5 = skip_ws(s, j4);
                        if j5 < s.len() && s[j5] == ',' {
                            let j6 = skip_ws(s, j5 + 1);
                            if j6 <= i || j6 > s.len() {
                                None
                            } else {
                                parse_members(s, j6, m2)
                            }
                        } else if j5 < s.len() && s[j5] == '}' {
                            Some((m2, j5 + 1))
                        } else {
                            None
                        }
                    },
                    None => None,
                }
            } else {
                None
            }
        },
        None => None,
    }
}

/// A whole marker buffer: one object whose `uuid` and `info` members are
/// present, with nothing but whitespace around it.
pub open spec fn decode_marker_spec(s: Seq<char>) -> Option<MarkerModel> {
    let i = skip_ws(s, 0);
    if 0 <= i && i < s.len() && s[i] == '{' {
        let j = skip_ws(s, i + 1);
        match parse_members(
            s,
            j,
            MarkerModel { uuid: None, info: None, absolute: None, relative: None },
        ) {
            Some((m, j2)) => {
                if 0 <= j2 <= s.len() && skip_ws(s, j2) == s.len() && m.uuid is Some && m.info
                    is Some {
                    Some(m)
                } else {
                    None
                }
            },
            None => None,
        }
    } else {
        None
    }
}

} // verus!

verus! {

/// A marker as recovered from the annotated transcript: the index it
/// occupies in the cleaned transcript, optional absolute and relative
/// time overrides in milliseconds, its identity and its directive.
#[derive(Debug)]
pub struct IntermediateEvent {
    pub timestamp: usize,
    pub absolute: Option<i64>,
    pub relative: Option<i64>,
    pub uuid: String,
    pub info: EventType,
}

/// Why the annotated transcript could not be parsed.  `MarkerDecode`
/// carries the cleaned-transcript index of the offending marker;
/// `UnterminatedMarker` means the text ended inside a marker, or a
/// closing brace appeared outside of any marker.
#[derive(Debug, PartialEq, Eq, Structural)]
pub enum ParseError {
    MarkerDecode { offset: usize },
    UnterminatedMarker,
}

/// The two outputs of parsing: the cleaned transcript and the markers.
#[derive(Debug)]
pub struct Transcript {
    pub cleaned: String,
    pub markers: Vec<IntermediateEvent>,
}

pub open spec fn info_matches(e: EventType, m: InfoModel) -> bool {
    match m {
        InfoModel::JsStart(b) => e matches EventType::JsStart(a) && a@ == b,
        InfoModel::ImgStart(sm, rm) => e matches EventType::ImgStart(sl, r) && sl@ == sm && r.0
            == rm.0 && r.1 == rm.1 && r.2 == rm.2 && r.3 == rm.3,
        InfoModel::JsEnd => e matches EventType::JsEnd,
        InfoModel::ImgEnd => e matches EventType::ImgEnd,
    }
}

pub open spec fn opt_time_matches(a: Option<i64>, b: Option<int>) -> bool {
    match b {
        Some(y) => a matches Some(x) && x as int == y,
        None => a is None,
    }
}

/// The recovered marker `e`, standing at cleaned-transcript index `pos`,
/// carries exactly the fields of the decoded model `m`.
pub open spec fn marker_matches(e: IntermediateEvent, m: MarkerModel, pos: int) -> bool {
    &&& e.timestamp as int == pos
    &&& m.uuid matches Some(u) && e.uuid@ == u
    &&& m.info matches Some(inf) && info_matches(e.info, inf)
    &&& opt_time_matches(e.absolute, m.absolute)
    &&& opt_time_matches(e.relative, m.relative)
}

/// One recovered chunk decodes to the given marker.
pub open spec fn chunk_decoded(ch: Chunk, e: IntermediateEvent) -> bool {
    &&& decode_marker_spec(ch.text) matches Some(m) && marker_matches(e, m, ch.pos)
}

fn is_ws_exec(c: char) -> (r: bool)
    ensures
        r == is_ws(c),
{
    c == ' ' || c == '\t' || c == '\n' || c == '\r'
}

fn is_digit_exec(c: char) -> (r: bool)
    ensures
        r == is_digit(c),
{
    let u = c as u32;
    48 <= u && u <= 57
}

fn esc_char_exec(c: char) -> (r: Option<char>)
    ensures
        r == esc_char(c),
{
    if c == '"' {
        Some('"')
    } else if c == '\\' {
        Some('\\')
    } else if c == '/' {
        Some('/')
    } else if c == 'n' {
        Some('\n')
    } else if c == 't' {
        Some('\t')
    } else if c == 'r' {
        Some('\r')
    } else if c == 'b' {
        Some('\u{0008}')
    } else if c == 'f' {
        Some('\u{000C}')
    } else {
        None
    }
}

fn skip_ws_exec(s: &Vec<char>, i: usize) -> (r: usize)
    requires
        i <= s@.len(),
    ensures
        r as int == skip_ws(s@, i as int),
        i <= r <= s@.len(),
    decreases s@.len() - i,
{
    if i < s.len() && is_ws_exec(s[i]) {
        skip_ws_exec(s, i + 1)
    } else {
        i
    }
}

fn parse_str_body_exec(s: &Vec<char>, i: usize, acc: Vec<char>) -> (r: Option<(Vec<char>, usize)>)
    requires
        i <= s@.len(),
    ensures
        match r {
            Some(p) => parse_str_body(s@, i as int, acc@) == Some((p.0@, p.1 as int)) && i < p.1
                <= s@.len(),
            None => parse_str_body(s@, i as int, acc@) is None,
        },
    decreases s@.len() - i,
{
    if i >= s.len() {
        return None;
    }
    let c = s[i];
    if c == '"' {
        Some((acc, i + 1))
    } else if c == '\\' {
        if i + 1 < s.len() {
            match esc_char_exec(s[i + 1]) {
                Some(e) => {
                    let mut acc2 = acc;
                    acc2.push(e);
                    parse_str_body_exec(s, i + 2, acc2)
                },
                None => None,
            }
        } else {
            None
        }
    } else {
        let mut acc2 = acc;
        acc2.push(c);
        parse_str_body_exec(s, i + 1, acc2)
    }
}

fn parse_string_exec(s: &Vec<char>, i: usize) -> (r: Option<(Vec<char>, usize)>)
    requires
        i <= s@.len(),
    ensures
        match r {
            Some(p) => parse_string(s@, i as int) == Some((p.0@, p.1 as int)) && i < p.1
                <= s@.len(),
            None => parse_string(s@, i as int) is None,
        },
{
    if i < s.len() && s[i] == '"' {
        parse_str_body_exec(s, i + 1, Vec::new())
    } else {
        None
    }
}

fn parse_digits_exec(s: &Vec<char>, i: usize, acc: u128, cap: u128) -> (r: Option<(u128, usize)>)
    requires
        i <= s@.len(),
        acc <= cap,
        cap <= u128::MAX / 16,
    ensures
        match r {
            Some(p) => parse_digits(s@, i as int, acc as int, cap as int) == Some(
                (p.0 as int, p.1 as int),
            ) && i <= p.1 <= s@.len() && p.0 <= cap,
            None => parse_digits(s@, i as int, acc as int, cap as int) is None,
        },
    decreases s@.len() - i,
{
    if i < s.len() && is_digit_exec(s[i]) {
        let d = (s[i] as u32 - 48) as u128;
        let acc2 = acc * 10 + d;
        if acc2 > cap {
            None
        } else {
            parse_digits_exec(s, i + 1, acc2, cap)
        }
    } else {
        Some((acc, i))
    }
}

fn frac_millis_exec(s: &Vec<char>, i: usize, mul: u32, acc: u32) -> (r: (u32, usize))
    requires
        i <= s@.len(),
        mul == 100 || mul == 10 || mul == 1 || mul == 0,
        mul > 0 ==> acc + 10 * mul <= 1000,
        mul == 0 ==> acc <= 999,
    ensures
        frac_millis(s@, i as int, mul as int, acc as int) == (r.0 as int, r.1 as int),
        r.0 <= 999,
        i <= r.1 <= s@.len(),
    decreases s@.len() - i,
{
    if i < s.len() && is_digit_exec(s[i]) {
        let d = s[i] as u32 - 48;
        frac_millis_exec(s, i + 1, mul / 10, acc + d * mul)
    } else {
        (acc, i)
    }
}

fn parse_number_ms_exec(s: &Vec<char>, i: usize) -> (r: Option<(i64, usize)>)
    requires
        i <= s@.len(),
    ensures
        match r {
            Some(p) => parse_number_ms(s@, i as int) == Some((p.0 as int, p.1 as int)) && i <= p.1
                <= s@.len(),
            None => parse_number_ms(s@, i as int) is None,
        },
{
    let neg = i < s.len() && s[i] == '-';
    let j = if neg {
        i + 1
    } else {
        i
    };
    if j < s.len() && is_digit_exec(s[j]) {
        match parse_digits_exec(s, j, 0, SEC_CAP as u128) {
            Some((v, j2)) => {
                if j2 < s.len() && s[j2] == '.' {
                    if j2 + 1 < s.len() && is_digit_exec(s[j2 + 1]) {
                        let fm = frac_millis_exec(s, j2 + 1, 100, 0);
                        let m = (v * 1000 + fm.0 as u128) as i64;
                        Some(
                            (
                                if neg {
                                    -m
                                } else {
                                    m
                                },
                                fm.1,
                            ),
                        )
                    } else {
                        None
                    }
                } else {
                    let m = (v * 1000) as i64;
                    Some(
                        (
                            if neg {
                                -m
                            } else {
                                m
                            },
                            j2,
                        ),
                    )
                }
            },
            None => None,
        }
    } else {
        None
    }
}

fn parse_usize_num_exec(s: &Vec<char>, i: usize) -> (r: Option<(usize, usize)>)
    requires
        i <= s@.len(),
    ensures
        match r {
            Some(p) => parse_usize_num(s@, i as int) == Some((p.0 as int, p.1 as int)) && i <= p.1
                <= s@.len(),
            None => parse_usize_num(s@, i as int) is None,
        },
{
    if i < s.len() && is_digit_exec(s[i]) {
        match parse_digits_exec(s, i, 0, usize::MAX as u128) {
            Some((v, j)) => Some((v as usize, j)),
            None => None,
        }
    } else {
        None
    }
}

fn blob_end_exec(s: &Vec<char>, i: usize, depth: usize) -> (r: Option<usize>)
    requires
        i <= s@.len(),
        depth <= i,
    ensures
        match r {
            Some(j) => blob_end(s@, i as int, depth as int) == Some(j as int) && i < j <= s@.len(),
            None => blob_end(s@, i as int, depth as int) is None,
        },
    decreases s@.len() - i,
{
    if i >= s.len() {
        return None;
    }
    let c = s[i];
    if c == '{' {
        let d2 = depth + 1;
        if d2 == 0 {
            Some(i + 1)
        } else {
            blob_end_exec(s, i + 1, d2)
        }
    } else if c == '}' {
        if depth == 0 {
            None
        } else {
            let d2 = depth - 1;
            if d2 == 0 {
                Some(i + 1)
            } else {
                blob_end_exec(s, i + 1, d2)
            }
        }
    } else {
        if depth == 0 {
            Some(i + 1)
        } else {
            blob_end_exec(s, i + 1, depth)
        }
    }
}

fn chars_range(s: &Vec<char>, a: usize, b: usize) -> (r: Vec<char>)
    requires
        a <= b <= s@.len(),
    ensures
        r@ == s@.subrange(a as int, b as int),
{
    let mut out: Vec<char> = Vec::new();
    let mut i: usize = a;
    while i < b
        invariant
            a <= i <= b <= s@.len(),
            out@ == s@.subrange(a as int, i as int),
        decreases b - i,
    {
        out.push(s[i]);
        proof {
            assert(out@ =~= s@.subrange(a as int, i + 1));
        }
        i = i + 1;
    }
    out
}

fn parse_rect_exec(s: &Vec<char>, i: usize) -> (r: Option<((usize, usize, usize, usize), usize)>)
    requires
        i <= s@.len(),
    ensures
        match r {
            Some(p) => parse_rect(s@, i as int) == Some(
                (
                    (p.0.0 as int, p.0.1 as int, p.0.2 as int, p.0.3 as int),
                    p.1 as int,
                ),
            ) && i <= p.1 <= s@.len(),
            None => parse_rect(s@, i as int) is None,
        },
{
    if !(i < s.len() && s[i] == '[') {
        return None;
    }
    let i1 = skip_ws_exec(s, i + 1);
    let (x, ja) = match parse_usize_num_exec(s, i1) {
        Some(p) => p,
        None => {
            return None;
        },
    };
    let j1 = skip_ws_exec(s, ja);
    if !(j1 < s.len() && s[j1] == ',') {
        return None;
    }
    let i2 = skip_ws_exec(s, j1 + 1);
    let (y, jb) = match parse_usize_num_exec(s, i2) {
        Some(p) => p,
        None => {
            return None;
        },
    };
    let j2 = skip_ws_exec(s, jb);
    if !(j2 < s.len() && s[j2] == ',') {
        return None;
    }
    let i3 = skip_ws_exec(s, j2 + 1);
    let (w, jc) = match parse_usize_num_exec(s, i3) {
        Some(p) => p,
        None => {
            return None;
        },
    };
    let j3 = skip_ws_exec(s, jc);
    if !(j3 < s.len() && s[j3] == ',') {
        return None;
    }
    let i4 = skip_ws_exec(s, j3 + 1);
    let (h, jd) = match parse_usize_num_exec(s, i4) {
        Some(p) => p,
        None => {
            return None;
        },
    };
    let j4 = skip_ws_exec(s, jd);
    if j4 < s.len() && s[j4] == ']' {
        Some(((x, y, w, h), j4 + 1))
    } else {
        None
    }
}

fn parse_info_exec(s: &Vec<char>, i: usize) -> (r: Option<(EventType, usize)>)
    requires
        i <= s@.len(),
    ensures
        match r {
            Some(p) => parse_info(s@, i as int) matches Some(q) && info_matches(p.0, q.0) && p.1
                as int == q.1 && i <= p.1 <= s@.len(),
            None => parse_info(s@, i as int) is None,
        },
{
    if i < s.len() && s[i] == '"' {
        match parse_string_exec(s, i) {
            Some((w, j)) => {
                if crate::text::chars_eq_str(&w, "ImgEnd") {
                    Some((EventType::ImgEnd, j))
                } else if crate::text::chars_eq_str(&w, "JsEnd") {
                    Some((EventType::JsEnd, j))
                } else {
                    None
                }
            },
            None => None,
        }
    } else if i < s.len() && s[i] == '{' {
        let j = skip_ws_exec(s, i + 1);
        let (key, j2) = match parse_string_exec(s, j) {
            Some(p) => p,
            None => {
                return None;
            },
        };
        let j3 = skip_ws_exec(s, j2);
        if !(j3 < s.len() && s[j3] == ':') {
            return None;
        }
        let j4 = skip_ws_exec(s, j3 + 1);
        if crate::text::chars_eq_str(&key, "ImgStart") {
            if !(j4 < s.len() && s[j4] == '[') {
                return None;
            }
            let i1 = skip_ws_exec(s, j4 + 1);
            let (slug, ja) = match parse_string_exec(s, i1) {
                Some(p) => p,
                None => {
                    return None;
                },
            };
            let j1 = skip_ws_exec(s, ja);
            if !(j1 < s.len() && s[j1] == ',') {
                return None;
            }
            let i2 = skip_ws_exec(s, j1 + 1);
            let (rect, jb) = match parse_rect_exec(s, i2) {
                Some(p) => p,
                None => {
                    return None;
                },
            };
            let j2b = skip_ws_exec(s, jb);
            if !(j2b < s.len() && s[j2b] == ']') {
                return None;
            }
            let j5 = j2b + 1;
            let j6 = skip_ws_exec(s, j5);
            if j6 < s.len() && s[j6] == '}' {
                Some((EventType::ImgStart(crate::text::chars_string(&slug), rect), j6 + 1))
            } else {
                None
            }
        } else if crate::text::chars_eq_str(&key, "JsStart") {
            if !(j4 < s.len() && s[j4] == '{') {
                return None;
            }
            let j5 = match blob_end_exec(s, j4, 0) {
                Some(j5) => j5,
                None => {
                    return None;
                },
            };
            let j6 = skip_ws_exec(s, j5);
            if j6 < s.len() && s[j6] == '}' {
                let blob = chars_range(s, j4, j5);
                Some((EventType::JsStart(crate::text::chars_string(&blob)), j6 + 1))
            } else {
                None
            }
        } else {
            None
        }
    } else {
        None
    }
}

struct Partial {
    uuid: Option<Vec<char>>,
    info: Option<EventType>,
    absolute: Option<i64>,
    relative: Option<i64>,
}

/// The unique decoded form that an `info` value stands for.
pub open spec fn model_of_info(e: EventType) -> InfoModel {
    match e {
        EventType::JsStart(a) => InfoModel::JsStart(a@),
        EventType::ImgStart(sl, r) => InfoModel::ImgStart(
            sl@,
            (r.0 as int, r.1 as int, r.2 as int, r.3 as int),
        ),
        EventType::JsEnd => InfoModel::JsEnd,
        EventType::ImgEnd => InfoModel::ImgEnd,
    }
}

/// The unique model that the gathered fields stand for.
spec fn model_of_partial(p: Partial) -> MarkerModel {
    MarkerModel {
        uuid: match p.uuid {
            Some(u) => Some(u@),
            None => None,
        },
        info: match p.info {
            Some(e) => Some(model_of_info(e)),
            None => None,
        },
        absolute: match p.absolute {
            Some(t) => Some(t as int),
            None => None,
        },
        relative: match p.relative {
            Some(t) => Some(t as int),
            None => None,
        },
    }
}

/// Whether the gathered fields `p` stand for the model `m`.
spec fn partial_matches(p: Partial, m: MarkerModel) -> bool {
    &&& match m.uuid {
        Some(u) => p.uuid matches Some(x) && x@ == u,
        None => p.uuid is None,
    }
    &&& match m.info {
        Some(inf) => p.info matches Some(e) && info_matches(e, inf),
        None => p.info is None,
    }
    &&& opt_time_matches(p.absolute, m.absolute)
    &&& opt_time_matches(p.relative, m.relative)
}

fn parse_members_exec(s: &Vec<char>, i: usize, p: Partial) -> (r: Option<(Partial, usize)>)
    requires
        i <= s@.len(),
    ensures
        match r {
            Some(pr) => parse_members(s@, i as int, model_of_partial(p)) matches Some(q) && q.0
                == model_of_partial(pr.0) && pr.1 as int == q.1 && pr.1 <= s@.len(),
            None => parse_members(s@, i as int, model_of_partial(p)) is None,
        },
    decreases s@.len() - i,
{
    let (key, j) = match parse_string_exec(s, i) {
        Some(p2) => p2,
        None => {
            return None;
        },
    };
    let j2 = skip_ws_exec(s, j);
    if !(j2 < s.len() && s[j2] == ':') {
        return None;
    }
    let j3 = skip_ws_exec(s, j2 + 1);
    let stepped: Option<(Partial, usize)> = if crate::text::chars_eq_str(&key, "uuid") {
        if p.uuid.is_some() {
            None
        } else {
            match parse_string_exec(s, j3) {
                Some((u, j4)) => Some(
                    (
                        Partial {
                            uuid: Some(u),
                            info: p.info,
                            absolute: p.absolute,
                            relative: p.relative,
                        },
                        j4,
                    ),
                ),
                None => None,
            }
        }
    } else if crate::text::chars_eq_str(&key, "info") {
        if p.info.is_some() {
            None
        } else {
            match parse_info_exec(s, j3) {
                Some((inf, j4)) => Some(
                    (
                        Partial {
                            uuid: p.uuid,
                            info: Some(inf),
                            absolute: p.absolute,
                            relative: p.relative,
                        },
                        j4,
                    ),
                ),
                None => None,
            }
        }
    } else if crate::text::chars_eq_str(&key, "absolute") {
        if p.absolute.is_some() {
            None
        } else {
            match parse_number_ms_exec(s, j3) {
                Some((t, j4)) => Some(
                    (
                        Partial {
                            uuid: p.uuid,
                            info: p.info,
                            absolute: Some(t),
                            relative: p.relative,
                        },
                        j4,
                    ),
                ),
                None => None,
            }
        }
    } else if crate::text::chars_eq_str(&key, "relative") {
        if p.relative.is_some() {
            None
        } else {
            match parse_number_ms_exec(s, j3) {
                Some((t, j4)) => Some(
                    (
                        Partial {
                            uuid: p.uuid,
                            info: p.info,
                            absolute: p.absolute,
                            relative: Some(t),
                        },
                        j4,
                    ),
                ),
                None => None,
            }
        }
    } else {
        None
    };
    let (p2, j4) = match stepped {
        Some(pr) => pr,
        None => {
            return None;
        },
    };
    let j5 = skip_ws_exec(s, j4);
    if j5 < s.len() && s[j5] == ',' {
        let j6 = skip_ws_exec(s, j5 + 1);
        if j6 <= i || j6 > s.len() {
            None
        } else {
            parse_members_exec(s, j6, p2)
        }
    } else if j5 < s.len() && s[j5] == '}' {
        Some((p2, j5 + 1))
    } else {
        None
    }
}

} // verus!

verus! {

/// Decodes one marker buffer, recording `pos` as the marker's index in
/// the cleaned transcript.
fn decode_marker(s: &Vec<char>, pos: usize) -> (r: Option<IntermediateEvent>)
    ensures
        match r {
            Some(e) => decode_marker_spec(s@) matches Some(m) && marker_matches(e, m, pos as int),
            None => decode_marker_spec(s@) is None,
        },
{
    let i = skip_ws_exec(s, 0);
    if !(i < s.len() && s[i] == '{') {
        return None;
    }
    let j = skip_ws_exec(s, i + 1);
    let empty = Partial { uuid: None, info: None, absolute: None, relative: None };
    match parse_members_exec(s, j, empty) {
        Some((p2, j2)) => {
            if skip_ws_exec(s, j2) == s.len() {
                let Partial { uuid, info, absolute, relative } = p2;
                match (uuid, info) {
                    (Some(u), Some(inf)) => Some(
                        IntermediateEvent {
                            timestamp: pos,
                            absolute,
                            relative,
                            uuid: crate::text::chars_string(&u),
                            info: inf,
                        },
                    ),
                    _ => None,
                }
            } else {
                None
            }
        },
        None => None,
    }
}

pub proof fn lemma_scan_take_step(s: Seq<char>, i: int)
    requires
        0 <= i < s.len(),
    ensures
        scan_seq(s.take(i + 1)) == scan_step(scan_seq(s.take(i)), s[i]),
{
    assert(s.take(i + 1).drop_last() =~= s.take(i));
    assert(s.take(i + 1).last() == s[i]);
}

/// Once the scan has gone stray it never changes again.
proof fn lemma_scan_freeze(s: Seq<char>, i: int)
    requires
        0 <= i <= s.len(),
        scan_seq(s.take(i)).stray,
    ensures
        scan_seq(s) == scan_seq(s.take(i)),
    decreases s.len() - i,
{
    if i == s.len() {
        assert(s.take(i) =~= s);
    } else {
        lemma_scan_take_step(s, i);
        lemma_scan_freeze(s, i + 1);
    }
}

/// The markers recovered from a prefix stay, unchanged, in the markers of
/// the whole input.
proof fn lemma_scan_extend(s: Seq<char>, i: int)
    requires
        0 <= i <= s.len(),
    ensures
        scan_seq(s.take(i)).markers.len() <= scan_seq(s).markers.len(),
        forall|k: int|
            0 <= k < scan_seq(s.take(i)).markers.len() ==> #[trigger] scan_seq(s).markers[k]
                == scan_seq(s.take(i)).markers[k],
    decreases s.len() - i,
{
    if i == s.len() {
        assert(s.take(i) =~= s);
    } else {
        lemma_scan_take_step(s, i);
        lemma_scan_extend(s, i + 1);
    }
}

/// Parses an annotated transcript: returns the cleaned transcript and the
/// decoded markers in order, each holding the cleaned-transcript index it
/// occupies, or the first error met.
///
/// Exactly the inputs whose braces never close at depth zero, end at
/// depth zero, and whose every brace group decodes as a marker are
/// accepted.
pub fn parse_transcript(s: &str) -> (r: Result<Transcript, ParseError>)
    ensures
        match r {
            Ok(t) => {
                &&& no_stray(s@) && scan_seq(s@).depth == 0
                &&& t.cleaned@ == clean_spec(s@)
                &&& t.markers@.len() == scan_seq(s@).markers.len()
                &&& forall|k: int|
                    0 <= k < t.markers@.len() ==> chunk_decoded(
                        #[trigger] scan_seq(s@).markers[k],
                        t.markers@[k],
                    )
            },
            Err(e) => match e {
                ParseError::MarkerDecode { offset } => exists|k: int|
                    0 <= k < scan_seq(s@).markers.len() && decode_marker_spec(
                        (#[trigger] scan_seq(s@).markers[k]).text,
                    ) is None && offset as int == scan_seq(s@).markers[k].pos && (forall|j: int|
                        0 <= j < k ==> decode_marker_spec(
                            (#[trigger] scan_seq(s@).markers[j]).text,
                        ) is Some),
                ParseError::UnterminatedMarker => (scan_seq(s@).stray || scan_seq(s@).depth != 0)
                    && (forall|k: int|
                    0 <= k < scan_seq(s@).markers.len() ==> decode_marker_spec(
                        (#[trigger] scan_seq(s@).markers[k]).text,
                    ) is Some),
            },
        },
{
    let chars = str_chars(s);
    let n = chars.len();
    let mut depth: usize = 0;
    let mut buf: Vec<char> = Vec::new();
    let mut cleaned: Vec<char> = Vec::new();
    let mut markers: Vec<IntermediateEvent> = Vec::new();
    let mut i: usize = 0;
    while i < n
        invariant
            chars@ == s@,
            n == s@.len(),
            i <= n,
            !scan_seq(s@.take(i as int)).stray,
            depth as int == scan_seq(s@.take(i as int)).depth,
            buf@ == scan_seq(s@.take(i as int)).buf,
            cleaned@ == scan_seq(s@.take(i as int)).cleaned,
            markers@.len() == scan_seq(s@.take(i as int)).markers.len(),
            forall|k: int|
                0 <= k < markers@.len() ==> chunk_decoded(
                    #[trigger] scan_seq(s@.take(i as int)).markers[k],
                    markers@[k],
                ),
        decreases n - i,
    {
        proof {
            lemma_scan_take_step(s@, i as int);
            lemma_scan_shape(s@.take(i as int));
        }
        let ghost prev = scan_seq(s@.take(i as int));
        let ghost cur = scan_seq(s@.take(i as int + 1));
        let c = chars[i];
        if c == '{' {
            depth = depth + 1;
            buf.push(c);
        } else if c == '}' {
            if depth == 0 {
                // a stray closing brace freezes the scan for good
                proof {
                    lemma_scan_freeze(s@, i as int + 1);
                }
                return Err(ParseError::UnterminatedMarker);
            }
            buf.push(c);
            depth = depth - 1;
            if depth == 0 {
                let ev = decode_marker(&buf, cleaned.len());
                proof {
                    lemma_scan_extend(s@, i as int + 1);
                }
                match ev {
                    Some(e) => {
                        markers.push(e);
                        buf = Vec::new();
                    },
                    None => {
                        let ghost k = markers@.len() as int;
                        assert(scan_seq(s@).markers[k] == cur.markers[k]);
                        assert(decode_marker_spec(scan_seq(s@).markers[k].text) is None);
                        assert(forall|j: int|
                            0 <= j < k ==> decode_marker_spec(
                                (#[trigger] scan_seq(s@).markers[j]).text,
                            ) is Some);
                        return Err(ParseError::MarkerDecode { offset: cleaned.len() });
                    },
                }
            }
        } else {
            if depth > 0 {
                buf.push(c);
            } else {
                let collapse = if cleaned.len() > 0 {
                    let last = cleaned[cleaned.len() - 1];
                    (c == ' ' && last == ' ') || (c == '\n' && last == '\n')
                } else {
                    false
                };
                if !collapse {
                    cleaned.push(c);
                }
            }
        }
        i = i + 1;
    }
    proof {
        assert(s@.take(n as int) =~= s@);
    }
    if depth != 0 {
        return Err(ParseError::UnterminatedMarker);
    }
    Ok(Transcript { cleaned: crate::text::chars_string(&cleaned), markers })
}

} // verus!

verus! {

/// A scan that never goes stray on the whole input never goes stray on a
/// prefix of it either.
pub proof fn lemma_scan_prefix(s: Seq<char>, i: int)
    requires
        0 <= i <= s.len(),
        !scan_seq(s).stray,
    ensures
        !scan_seq(s.take(i)).stray,
{
    if scan_seq(s.take(i)).stray {
        lemma_scan_freeze(s, i);
    }
}

} // verus!
