//! Timed overlay events and the timeline that orders them.
use vstd::prelude::*;

use crate::gentle::{eligible, GentleWord};
use crate::marker::IntermediateEvent;

verus! {

/// Largest magnitude, in milliseconds, that any timestamp handled by the
/// library may take.  Keeping every input time strictly below this bound
/// lets sums of two times, and the two-second tail pad, stay inside `i64`.
pub const TIME_BOUND: i64 = 0x2000_0000_0000_0000;

/// The kind of overlay a marker starts or ends.
///
/// `JsStart` is a reserved, explicitly unimplemented capability: its
/// argument is the raw text of the JSON object that configured it.
/// `ImgStart` names an asset slug and a placement rectangle
/// `(x, y, w, h)` in destination pixels.
#[derive(Debug)]
pub enum EventType {
    JsStart(String),
    ImgStart(String, (usize, usize, usize, usize)),
    JsEnd,
    ImgEnd,
}

impl Clone for EventType {
    fn clone(&self) -> (r: Self)
        ensures
            r == *self,
    {
        match self {
            EventType::JsStart(args) => EventType::JsStart(args.clone()),
            EventType::ImgStart(slug, rect) => EventType::ImgStart(slug.clone(), *rect),
            EventType::JsEnd => EventType::JsEnd,
            EventType::ImgEnd => EventType::ImgEnd,
        }
    }
}

/// A timestamped overlay instruction; `timestamp` is in milliseconds.
#[derive(Debug)]
pub struct Event {
    pub timestamp: i64,
    pub uuid: String,
    pub info: EventType,
}

impl Clone for Event {
    fn clone(&self) -> (r: Self)
        ensures
            r == *self,
    {
        Event { timestamp: self.timestamp, uuid: self.uuid.clone(), info: self.info.clone() }
    }
}

/// The ordered list of timed events plus the render parameters.
/// `length` is the total duration in milliseconds.
pub struct Timeline {
    pub events: Vec<Event>,
    pub rate: usize,
    pub length: i64,
    pub resolution: (usize, usize),
}

} // verus!

verus! {

/// A word covers a marker position when the marker stands strictly after
/// the word's first character and no further than two characters past its
/// span's end; the two-character tolerance absorbs trailing punctuation.
pub open spec fn covers(w: GentleWord, p: int) -> bool {
    &&& eligible(w)
    &&& w.start_offset->Some_0 < p
    &&& w.end_offset->Some_0 + 2 >= p
}

/// The least index of a word covering position `p`, if any.
pub open spec fn first_cover(ws: Seq<GentleWord>, p: int) -> Option<int>
    decreases ws.len(),
{
    if ws.len() == 0 {
        None
    } else if covers(ws[0], p) {
        Some(0)
    } else {
        match first_cover(ws.drop_first(), p) {
            Some(i) => Some(i + 1),
            None => None,
        }
    }
}

proof fn lemma_first_cover(ws: Seq<GentleWord>, p: int)
    ensures
        match first_cover(ws, p) {
            Some(i) => 0 <= i < ws.len() && covers(ws[i], p) && forall|j: int|
                0 <= j < i ==> !covers(#[trigger] ws[j], p),
            None => forall|j: int| 0 <= j < ws.len() ==> !covers(#[trigger] ws[j], p),
        },
    decreases ws.len(),
{
    if ws.len() > 0 && !covers(ws[0], p) {
        let tail = ws.drop_first();
        lemma_first_cover(tail, p);
        assert(forall|j: int| 0 <= j < tail.len() ==> #[trigger] tail[j] == ws[j + 1]);
        match first_cover(tail, p) {
            Some(i) => {
                assert(covers(tail[i], p));
                assert(ws[i + 1] == tail[i]);
                assert forall|j: int| 0 <= j < i + 1 implies !covers(#[trigger] ws[j], p) by {
                    if j > 0 {
                        assert(ws[j] == tail[j - 1]);
                        assert(!covers(tail[j - 1], p));
                    }
                }
            },
            None => {
                assert forall|j: int| 0 <= j < ws.len() implies !covers(#[trigger] ws[j], p) by {
                    if j > 0 {
                        assert(ws[j] == tail[j - 1]);
                        assert(!covers(tail[j - 1], p));
                    }
                }
            },
        }
    }
}

/// What one marker resolves to: its timestamp in milliseconds, or `None`
/// when it stays unresolved; and the carry-forward state after it, the
/// end time and end span of the last directly matched word.
pub open spec fn resolve_step(
    m: IntermediateEvent,
    ws: Seq<GentleWord>,
    last: Option<(int, int)>,
) -> (Option<int>, Option<(int, int)>) {
    let rel: int = match m.relative {
        Some(t) => t as int,
        None => 0,
    };
    match m.absolute {
        Some(a) => (Some(a + rel), last),
        None => match first_cover(ws, m.timestamp as int) {
            Some(i) => (
                Some(ws[i].start->Some_0 + rel),
                Some((ws[i].end->Some_0 as int, ws[i].end_offset->Some_0 as int)),
            ),
            None => match last {
                Some((t, off)) => (Some(t + rel), last),
                None => (None, last),
            },
        },
    }
}

/// The outcome of resolving a run of markers: for each resolved marker
/// its index and timestamp, the indices of the markers that stayed
/// unresolved, and the final carry-forward state.
pub ghost struct Resolution {
    pub items: Seq<(int, int)>,
    pub dropped: Seq<int>,
    pub last: Option<(int, int)>,
}

/// Resolves the markers in order, threading the carry-forward state.
pub open spec fn resolve_all(
    ms: Seq<IntermediateEvent>,
    ws: Seq<GentleWord>,
    last0: Option<(int, int)>,
) -> Resolution
    decreases ms.len(),
{
    if ms.len() == 0 {
        Resolution { items: Seq::empty(), dropped: Seq::empty(), last: last0 }
    } else {
        let prefix = resolve_all(ms.drop_last(), ws, last0);
        let st = resolve_step(ms.last(), ws, prefix.last);
        match st.0 {
            Some(t) => Resolution {
                items: prefix.items.push((ms.len() - 1, t)),
                dropped: prefix.dropped,
                last: st.1,
            },
            None => Resolution {
                items: prefix.items,
                dropped: prefix.dropped.push(ms.len() - 1),
                last: st.1,
            },
        }
    }
}

/// A marker whose position falls strictly inside one word's span — after
/// its start, at most two characters past its end — and that carries no
/// time override takes that word's start time as its timestamp, provided
/// no earlier word also covers the position.
pub proof fn lemma_marker_in_span(
    m: IntermediateEvent,
    ws: Seq<GentleWord>,
    last: Option<(int, int)>,
    i: int,
)
    requires
        m.absolute is None,
        m.relative is None,
        0 <= i < ws.len(),
        covers(ws[i], m.timestamp as int),
        forall|j: int| 0 <= j < i ==> !covers(#[trigger] ws[j], m.timestamp as int),
    ensures
        resolve_step(m, ws, last).0 == Some(ws[i].start->Some_0 as int),
{
    lemma_first_cover(ws, m.timestamp as int);
    match first_cover(ws, m.timestamp as int) {
        Some(k) => {
            if k < i {
                assert(!covers(ws[k], m.timestamp as int));
            }
            if k > i {
                assert(!covers(ws[i], m.timestamp as int));
            }
        },
        None => {
            assert(!covers(ws[i], m.timestamp as int));
        },
    }
}

/// When no word covers a marker's position and the marker carries no
/// override, it falls back to the end time of the most recent directly
/// matched word; with no prior match it stays unresolved, rather than
/// being timestamped at zero.
pub proof fn lemma_marker_fallback(
    m: IntermediateEvent,
    ws: Seq<GentleWord>,
    last: Option<(int, int)>,
)
    requires
        m.absolute is None,
        m.relative is None,
        forall|j: int| 0 <= j < ws.len() ==> !covers(#[trigger] ws[j], m.timestamp as int),
    ensures
        last matches Some(pr) ==> resolve_step(m, ws, last).0 == Some(pr.0),
        last is None ==> resolve_step(m, ws, last).0 is None,
{
    lemma_first_cover(ws, m.timestamp as int);
    match first_cover(ws, m.timestamp as int) {
        Some(k) => {
            assert(!covers(ws[k], m.timestamp as int));
        },
        None => {},
    }
}

/// The greatest index of a usable word.
pub open spec fn last_eligible(ws: Seq<GentleWord>) -> Option<int>
    decreases ws.len(),
{
    if ws.len() == 0 {
        None
    } else if eligible(ws.last()) {
        Some(ws.len() - 1)
    } else {
        last_eligible(ws.drop_last())
    }
}

/// Timestamps never decrease along the event list.
pub open spec fn sorted_ts(s: Seq<Event>) -> bool {
    forall|i: int, j: int| 0 <= i < j < s.len() ==> s[i].timestamp <= s[j].timestamp
}

/// Every absolute or relative override stays strictly inside the time
/// bound, so sums of two of them fit in an `i64`.
pub open spec fn marker_times_bounded(ms: Seq<IntermediateEvent>) -> bool {
    forall|k: int|
        0 <= k < ms.len() ==> ((#[trigger] ms[k]).absolute matches Some(t) ==> -TIME_BOUND < t
            < TIME_BOUND) && (ms[k].relative matches Some(t) ==> -TIME_BOUND < t < TIME_BOUND)
}

/// Every word time stays strictly inside the time bound.
pub open spec fn word_times_bounded(ws: Seq<GentleWord>) -> bool {
    forall|k: int|
        0 <= k < ws.len() ==> ((#[trigger] ws[k]).start matches Some(t) ==> -TIME_BOUND < t
            < TIME_BOUND) && (ws[k].end matches Some(t) ==> -TIME_BOUND < t < TIME_BOUND)
}

/// The built event `e` realizes the resolved item: its timestamp is the
/// resolved time, and its identity and directive are those of the marker
/// the item came from.
pub open spec fn event_matches_item(
    e: Event,
    ms: Seq<IntermediateEvent>,
    item: (int, int),
) -> bool {
    &&& 0 <= item.0 < ms.len()
    &&& e.timestamp as int == item.1
    &&& e.uuid == ms[item.0].uuid
    &&& e.info == ms[item.0].info
}

/// How the timeline was built: the timeline itself and the indices of the
/// markers that could not be resolved and were dropped, to be surfaced as
/// warnings.
pub struct TimelineBuild {
    pub timeline: Timeline,
    pub dropped: Vec<usize>,
}

/// Building a timeline fails only when the aligner returned no usable
/// word at all, leaving the total duration undefined.
#[derive(Debug, PartialEq, Eq, Structural)]
pub enum BuildError {
    NoUsableWords,
}

fn find_cover(words: &Vec<GentleWord>, p: usize) -> (r: Option<usize>)
    ensures
        match r {
            Some(i) => first_cover(words@, p as int) == Some(i as int) && i < words@.len(),
            None => first_cover(words@, p as int) is None,
        },
{
    let n = words.len();
    let mut i: usize = 0;
    while i < n
        invariant
            n == words@.len(),
            i <= n,
            forall|j: int| 0 <= j < i ==> !covers(#[trigger] words@[j], p as int),
        decreases n - i,
    {
        let w = &words[i];
        let c = if w.is_eligible() {
            let so = match w.start_offset {
                Some(v) => v,
                None => 0,
            };
            let eo = match w.end_offset {
                Some(v) => v,
                None => 0,
            };
            // `eo + 2 >= p` phrased without overflow
            so < p && (p < 2 || eo >= p - 2)
        } else {
            false
        };
        proof {
            assert(c == covers(words@[i as int], p as int));
        }
        if c {
            proof {
                lemma_first_cover(words@, p as int);
                match first_cover(words@, p as int) {
                    Some(k) => {
                        if k < i {
                            assert(!covers(words@[k], p as int));
                        }
                        if k > i {
                            assert(!covers(words@[i as int], p as int));
                        }
                    },
                    None => {
                        assert(!covers(words@[i as int], p as int));
                    },
                }
            }
            return Some(i);
        }
        i = i + 1;
    }
    proof {
        lemma_first_cover(words@, p as int);
        match first_cover(words@, p as int) {
            Some(k) => {
                assert(!covers(words@[k], p as int));
            },
            None => {},
        }
    }
    None
}

fn find_last_eligible(words: &Vec<GentleWord>) -> (r: Option<usize>)
    ensures
        match r {
            Some(i) => last_eligible(words@) == Some(i as int) && i < words@.len() && eligible(
                words@[i as int],
            ),
            None => last_eligible(words@) is None,
        },
{
    let mut j = words.len();
    proof {
        assert(words@.take(words@.len() as int) =~= words@);
    }
    while j > 0
        invariant
            j <= words@.len(),
            last_eligible(words@) == last_eligible(words@.take(j as int)),
        decreases j,
    {
        if words[j - 1].is_eligible() {
            proof {
                assert(words@.take(j as int).last() == words@[j - 1]);
            }
            return Some(j - 1);
        }
        proof {
            assert(words@.take(j as int).drop_last() =~= words@.take(j - 1));
        }
        j = j - 1;
    }
    proof {
        assert(words@.take(0) =~= Seq::<GentleWord>::empty());
    }
    None
}

/// Stable sort by timestamp: an event is placed after every event whose
/// timestamp is no greater, so ties keep their original order.
fn sort_events(v: Vec<Event>) -> (r: Vec<Event>)
    ensures
        sorted_ts(r@),
        r@.to_multiset() == v@.to_multiset(),
        forall|k: int| 0 <= k < r@.len() ==> v@.contains(#[trigger] r@[k]),
{
    broadcast use vstd::seq_lib::group_to_multiset_ensures;

    let n = v.len();
    let mut out: Vec<Event> = Vec::new();
    let mut i: usize = 0;
    proof {
        assert(v@.take(0) =~= Seq::<Event>::empty());
        assert(out@.to_multiset() =~= v@.take(0).to_multiset());
    }
    while i < n
        invariant
            n == v@.len(),
            i <= n,
            sorted_ts(out@),
            out@.len() == i,
            out@.to_multiset() == v@.take(i as int).to_multiset(),
        decreases n - i,
    {
        let e = v[i].clone();
        let mut p = out.len();
        while p > 0 && out[p - 1].timestamp > e.timestamp
            invariant
                p <= out@.len(),
                forall|j: int| p <= j < out@.len() ==> out@[j].timestamp > e.timestamp,
            decreases p,
        {
            p = p - 1;
        }
        let ghost old_out = out@;
        out.insert(p, e);
        proof {
            assert(v@.take(i as int + 1).drop_last() =~= v@.take(i as int));
            assert(v@.take(i as int + 1) =~= v@.take(i as int).push(v@[i as int]));
            vstd::seq_lib::to_multiset_build::<Event>(v@.take(i as int), v@[i as int]);
            assert(out@ == old_out.insert(p as int, e));
            vstd::seq_lib::to_multiset_insert::<Event>(old_out, p as int, e);
            assert forall|a: int, b: int| 0 <= a < b < out@.len() implies out@[a].timestamp
                <= out@[b].timestamp by {
                if a < p && b < p {
                    assert(out@[a] == old_out[a] && out@[b] == old_out[b]);
                } else if a < p && b == p {
                    assert(out@[a] == old_out[a]);
                    assert(a <= p - 1 < old_out.len());
                    assert(old_out[a].timestamp <= old_out[p - 1].timestamp);
                } else if a < p && b > p {
                    assert(out@[a] == old_out[a] && out@[b] == old_out[b - 1]);
                } else if a == p && b > p {
                    assert(out@[b] == old_out[b - 1]);
                } else {
                    assert(out@[a] == old_out[a - 1] && out@[b] == old_out[b - 1]);
                }
            }
        }
        i = i + 1;
    }
    proof {
        assert(v@.take(n as int) =~= v@);
        assert forall|k: int| 0 <= k < out@.len() implies v@.contains(#[trigger] out@[k]) by {
            assert(out@.contains(out@[k]));
            vstd::seq_lib::to_multiset_contains::<Event>(out@, out@[k]);
            vstd::seq_lib::to_multiset_contains::<Event>(v@, out@[k]);
        }
    }
    out
}

/// Builds the timeline: resolves every marker against the aligned words
/// (direct span match, else carry-forward fallback, else dropped), sorts
/// the resolved events by timestamp keeping ties in marker order, and
/// sets the duration to the last usable word's end time plus two seconds.
/// Fails exactly when no word is usable.
pub fn build_timeline(
    markers: Vec<IntermediateEvent>,
    words: &Vec<GentleWord>,
    rate: usize,
    resolution: (usize, usize),
) -> (r: Result<TimelineBuild, BuildError>)
    requires
        marker_times_bounded(markers@),
        word_times_bounded(words@),
    ensures
        match r {
            Ok(b) => {
                &&& last_eligible(words@) matches Some(li) && b.timeline.length == words@[li].end->Some_0
                    + 2000
                &&& b.timeline.rate == rate
                &&& b.timeline.resolution == resolution
                &&& sorted_ts(b.timeline.events@)
                &&& exists|u: Seq<Event>|
                    {
                        let res = resolve_all(markers@, words@, None);
                        &&& #[trigger] u.to_multiset() == b.timeline.events@.to_multiset()
                        &&& u.len() == res.items.len()
                        &&& forall|k: int|
                            0 <= k < u.len() ==> event_matches_item(u[k], markers@, res.items[k])
                    }
                &&& b.dropped@.len() == resolve_all(markers@, words@, None).dropped.len()
                &&& forall|k: int|
                    0 <= k < b.dropped@.len() ==> b.dropped@[k] as int == resolve_all(
                        markers@,
                        words@,
                        None,
                    ).dropped[k]
                &&& rate >= 1 ==> b.timeline.wf()
            },
            Err(e) => e == BuildError::NoUsableWords && last_eligible(words@) is None,
        },
{
    let li = match find_last_eligible(words) {
        Some(i) => i,
        None => {
            return Err(BuildError::NoUsableWords);
        },
    };
    proof {
        assert(word_times_bounded(words@));
        assert(((words@[li as int]).start matches Some(t) ==> -TIME_BOUND < t < TIME_BOUND) && (
        words@[li as int].end matches Some(t) ==> -TIME_BOUND < t < TIME_BOUND));
    }
    let last_end = match words[li].end {
        Some(t) => t,
        None => 0,
    };
    let n = markers.len();
    let mut resolved: Vec<Event> = Vec::new();
    let mut dropped: Vec<usize> = Vec::new();
    let mut last: Option<(i64, usize)> = None;
    let mut i: usize = 0;
    while i < n
        invariant
            n == markers@.len(),
            i <= n,
            marker_times_bounded(markers@),
            word_times_bounded(words@),
            ({
                let res = resolve_all(markers@.take(i as int), words@, None);
                &&& resolved@.len() == res.items.len()
                &&& forall|k: int|
                    0 <= k < resolved@.len() ==> event_matches_item(
                        resolved@[k],
                        markers@,
                        res.items[k],
                    )
                &&& dropped@.len() == res.dropped.len()
                &&& forall|k: int| 0 <= k < dropped@.len() ==> dropped@[k] as int == res.dropped[k]
                &&& match res.last {
                    Some(pr) => last matches Some(ex) && ex.0 as int == pr.0 && ex.1 as int == pr.1
                        && -TIME_BOUND < pr.0 < TIME_BOUND,
                    None => last is None,
                }
                &&& forall|k: int|
                    0 <= k < resolved@.len() ==> -2 * (TIME_BOUND as int) < ((
                    #[trigger] resolved@[k]).timestamp as int) && (resolved@[k].timestamp as int)
                        < 2 * (TIME_BOUND as int)
            }),
        decreases n - i,
    {
        proof {
            assert(markers@.take(i as int + 1).drop_last() =~= markers@.take(i as int));
            assert(markers@.take(i as int + 1).last() == markers@[i as int]);
        }
        let m = &markers[i];
        let rel: i64 = match m.relative {
            Some(t) => t,
            None => 0,
        };
        match m.absolute {
            Some(a) => {
                resolved.push(
                    Event { timestamp: a + rel, uuid: m.uuid.clone(), info: m.info.clone() },
                );
            },
            None => {
                match find_cover(words, m.timestamp) {
                    Some(wi) => {
                        let w = &words[wi];
                        proof {
                            lemma_first_cover(words@, m.timestamp as int);
                        }
                        let ws = match w.start {
                            Some(t) => t,
                            None => 0,
                        };
                        let we = match w.end {
                            Some(t) => t,
                            None => 0,
                        };
                        let weo = match w.end_offset {
                            Some(t) => t,
                            None => 0,
                        };
                        resolved.push(
                            Event {
                                timestamp: ws + rel,
                                uuid: m.uuid.clone(),
                                info: m.info.clone(),
                            },
                        );
                        last = Some((we, weo));
                    },
                    None => {
                        match last {
                            Some(pr) => {
                                resolved.push(
                                    Event {
                                        timestamp: pr.0 + rel,
                                        uuid: m.uuid.clone(),
                                        info: m.info.clone(),
                                    },
                                );
                            },
                            None => {
                                dropped.push(i);
                            },
                        }
                    },
                }
            },
        }
        i = i + 1;
    }
    proof {
        assert(markers@.take(n as int) =~= markers@);
    }
    let ghost unsorted = resolved@;
    let events = sort_events(resolved);
    proof {
        let res = resolve_all(markers@, words@, None);
        assert(unsorted.to_multiset() == events@.to_multiset());
        assert forall|k: int|
            0 <= k < events@.len() implies -2 * (TIME_BOUND as int) < ((
        #[trigger] events@[k]).timestamp as int) && (events@[k].timestamp as int) < 2 * (
        TIME_BOUND as int) by {
            assert(unsorted.contains(events@[k]));
            let j = choose|j: int| 0 <= j < unsorted.len() && unsorted[j] == events@[k];
            assert(unsorted[j].timestamp == events@[k].timestamp);
        }
    }
    Ok(
        TimelineBuild {
            timeline: Timeline { events, rate, length: last_end + 2000, resolution },
            dropped,
        },
    )
}

} // verus!

verus! {

impl Timeline {
    /// Sanity of a timeline handed to the render loop: at least one frame
    /// per second of rate, events in timestamp order, and every time
    /// small enough that exact rational comparisons fit in an `i128`.
    pub open spec fn wf(&self) -> bool {
        &&& 1 <= self.rate
        &&& sorted_ts(self.events@)
        &&& -2 * (TIME_BOUND as int) < self.length < 2 * (TIME_BOUND as int)
        &&& forall|k: int|
            0 <= k < self.events@.len() ==> -2 * (TIME_BOUND as int) < (
            #[trigger] self.events@[k]).timestamp < 2 * (TIME_BOUND as int)
    }

    /// Whether a frame event with this index is due strictly before the
    /// wall time of frame `frame`: `timestamp < frame / rate`, compared
    /// exactly over milliseconds.
    pub open spec fn due(&self, k: int, frame: int) -> bool {
        (self.events@[k].timestamp as int) * (self.rate as int) < frame * 1000
    }

    /// Whether frame `frame` falls before the end of the video, that is,
    /// its wall time `frame / rate` is strictly less than the duration.
    pub fn tick_within(&self, frame: usize) -> (r: bool)
        requires
            1 <= self.rate,
            -2 * (TIME_BOUND as int) < (self.length as int),
            (self.length as int) < 2 * (TIME_BOUND as int),
        ensures
            r == ((frame as int) * 1000 < (self.length as int) * (self.rate as int)),
    {
        proof {
            assert((frame as int) * 1000 <= (usize::MAX as int) * 1000 && -(2 * (TIME_BOUND
                as int)) * (usize::MAX as int) <= (self.length as int) * (self.rate as int) <= (2
                * (TIME_BOUND as int)) * (usize::MAX as int)) by (nonlinear_arith)
                requires
                    0 <= frame as int <= usize::MAX as int,
                    1 <= self.rate as int <= usize::MAX as int,
                    -2 * (TIME_BOUND as int) < (self.length as int) && (self.length as int) < 2 * (
                    TIME_BOUND as int),
            ;
            assert(usize::MAX as int <= u64::MAX as int);
            assert((2 * (TIME_BOUND as int)) * (u64::MAX as int) < i128::MAX as int)
                by (nonlinear_arith);
            assert((2 * (TIME_BOUND as int)) * (usize::MAX as int) <= (2 * (TIME_BOUND as int)) * (
            u64::MAX as int)) by (nonlinear_arith)
                requires
                    0 <= usize::MAX as int <= u64::MAX as int,
            ;
        }
        let lhs: i128 = frame as i128 * 1000;
        let rhs: i128 = self.length as i128 * self.rate as i128;
        lhs < rhs
    }

    /// How many not-yet-consumed events, starting at `cursor`, are due
    /// before the wall time of frame `frame`.  Because the list is
    /// sorted, they are exactly the next `r` events; the one after, if
    /// any, is not yet due.
    pub fn due_count(&self, cursor: usize, frame: usize) -> (r: usize)
        requires
            self.wf(),
            cursor <= self.events@.len(),
        ensures
            cursor + r <= self.events@.len(),
            forall|j: int| cursor <= j < cursor + r ==> self.due(j, frame as int),
            cursor + r < self.events@.len() ==> !self.due(cursor + r, frame as int),
    {
        let n = self.events.len();
        let mut i = cursor;
        while i < n
            invariant
                self.wf(),
                n == self.events@.len(),
                cursor <= i <= n,
                forall|j: int| cursor <= j < i ==> self.due(j, frame as int),
            decreases n - i,
        {
            proof {
                assert((self.events@[i as int].timestamp as int) * (self.rate as int) <= (2 * (
                TIME_BOUND as int)) * (u64::MAX as int) && (self.events@[i as int].timestamp
                    as int) * (self.rate as int) >= -(2 * (TIME_BOUND as int)) * (u64::MAX as int)
                    && (frame as int) * 1000 <= (u64::MAX as int) * 1000) by (nonlinear_arith)
                    requires
                        -2 * (TIME_BOUND as int) < (self.events@[i as int].timestamp as int) && (
                        self.events@[i as int].timestamp as int) < 2 * (TIME_BOUND as int),
                        1 <= self.rate as int <= u64::MAX as int,
                        0 <= frame as int <= u64::MAX as int,
                ;
                assert((2 * (TIME_BOUND as int)) * (u64::MAX as int) < i128::MAX as int)
                    by (nonlinear_arith);
            }
            let lhs: i128 = self.events[i].timestamp as i128 * self.rate as i128;
            let rhs: i128 = frame as i128 * 1000;
            if !(lhs < rhs) {
                return i - cursor;
            }
            i = i + 1;
        }
        n - cursor
    }
}

} // verus!
