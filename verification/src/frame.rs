//! The per-frame overlay tracker and the shared asset cache.
//!
//! Events are consumed strictly in timestamp order.  An image start joins
//! the active list; an end event removes every active entry carrying its
//! identity, whatever that entry's own kind — so an identity reused
//! across kinds ends both.  Script overlays are a reserved capability:
//! applying one fails fast.
use vstd::prelude::*;

use crate::timeline::{Event, EventType};

verus! {

/// First-match lookup among the cached assets.
spec fn cache_lookup(entries: Seq<(String, Vec<u8>)>, slug: Seq<char>) -> Option<
    Seq<u8>,
>
    decreases entries.len(),
{
    if entries.len() == 0 {
        None
    } else if entries[0].0@ == slug {
        Some(entries[0].1@)
    } else {
        cache_lookup(entries.drop_first(), slug)
    }
}

/// The shared store of raw overlay asset bytes, keyed by slug.  Each
/// slug is loaded once, before any snapshot that needs it is handed to a
/// composition worker; workers only read.
pub struct AssetCache {
    entries: Vec<(String, Vec<u8>)>,
}

impl AssetCache {
    /// The bytes cached for a slug, if any.
    pub closed spec fn spec_get(&self, slug: Seq<char>) -> Option<Seq<u8>> {
        cache_lookup(self.entries@, slug)
    }

    /// An empty cache.
    pub fn new() -> (r: AssetCache)
        ensures
            forall|s: Seq<char>| r.spec_get(s) is None,
    {
        let r = AssetCache { entries: Vec::new() };
        proof {
            assert(forall|s: Seq<char>| r.spec_get(s) is None);
        }
        r
    }

    /// Whether a slug is cached.
    pub fn contains(&self, slug: &str) -> (r: bool)
        ensures
            r == (self.spec_get(slug@) is Some),
    {
        let n = self.entries.len();
        let mut i: usize = 0;
        proof {
            assert(self.entries@.skip(0) =~= self.entries@);
        }
        while i < n
            invariant
                n == self.entries@.len(),
                i <= n,
                self.spec_get(slug@) == cache_lookup(self.entries@.skip(i as int), slug@),
            decreases n - i,
        {
            proof {
                assert(self.entries@.skip(i as int)[0] == self.entries@[i as int]);
                assert(self.entries@.skip(i as int).drop_first() =~= self.entries@.skip(
                    i as int + 1,
                ));
            }
            if crate::text::str_eq_str(self.entries[i].0.as_str(), slug) {
                return true;
            }
            i = i + 1;
        }
        proof {
            assert(self.entries@.skip(n as int) =~= Seq::<(String, Vec<u8>)>::empty());
        }
        false
    }

    /// The cached bytes for a slug.
    pub fn get(&self, slug: &str) -> (r: Option<&Vec<u8>>)
        ensures
            match r {
                Some(b) => self.spec_get(slug@) == Some(b@),
                None => self.spec_get(slug@) is None,
            },
    {
        let n = self.entries.len();
        let mut i: usize = 0;
        proof {
            assert(self.entries@.skip(0) =~= self.entries@);
        }
        while i < n
            invariant
                n == self.entries@.len(),
                i <= n,
                self.spec_get(slug@) == cache_lookup(self.entries@.skip(i as int), slug@),
            decreases n - i,
        {
            proof {
                assert(self.entries@.skip(i as int)[0] == self.entries@[i as int]);
                assert(self.entries@.skip(i as int).drop_first() =~= self.entries@.skip(
                    i as int + 1,
                ));
            }
            if crate::text::str_eq_str(self.entries[i].0.as_str(), slug) {
                return Some(&self.entries[i].1);
            }
            i = i + 1;
        }
        proof {
            assert(self.entries@.skip(n as int) =~= Seq::<(String, Vec<u8>)>::empty());
        }
        None
    }

    /// Caches bytes under a slug.  A fresh slug leaves every other slug's
    /// lookup unchanged; the caller keeps the write-once discipline by
    /// checking `contains` first.
    pub fn insert(&mut self, slug: String, bytes: Vec<u8>)
        ensures
            final(self).spec_get(slug@) == Some(bytes@),
            forall|s: Seq<char>|
                s != slug@ ==> #[trigger] final(self).spec_get(s) == old(self).spec_get(s),
    {
        let ghost old_entries = self.entries@;
        self.entries.insert(0, (slug, bytes));
        proof {
            assert(self.entries@.drop_first() =~= old_entries);
        }
    }
}

/// Why an event could not be applied: script overlays are reserved and
/// unimplemented.
#[derive(Debug, PartialEq, Eq, Structural)]
pub enum ApplyError {
    NotImplemented,
}

/// What applying one event does to the active list: a script start is
/// refused; an image start joins the list; an end event removes every
/// entry with its identity.
pub open spec fn apply_spec(contents: Seq<Event>, event: Event) -> Option<Seq<Event>> {
    match event.info {
        EventType::JsStart(_) => None,
        EventType::ImgStart(_, _) => Some(contents.push(event)),
        EventType::JsEnd | EventType::ImgEnd => Some(
            contents.filter(|e: Event| e.uuid@ != event.uuid@),
        ),
    }
}

/// The overlays active at the current frame.
pub struct Frame {
    pub contents: Vec<Event>,
    pub resolution: (usize, usize),
}

impl Frame {
    /// A frame state with no active overlays.
    pub fn new(resolution: (usize, usize)) -> (r: Frame)
        ensures
            r.contents@ == Seq::<Event>::empty(),
            r.resolution == resolution,
    {
        Frame { contents: Vec::new(), resolution }
    }

    /// Applies one event to the active list, as `apply_spec` says; fails
    /// exactly on a script start, leaving the state unchanged.
    pub fn apply(&mut self, event: &Event) -> (r: Result<(), ApplyError>)
        ensures
            match r {
                Ok(_) => apply_spec(old(self).contents@, *event) matches Some(c)
                    && final(self).contents@ == c
                    && final(self).resolution == old(self).resolution,
                Err(e) => e == ApplyError::NotImplemented
                    && apply_spec(old(self).contents@, *event) is None
                    && *final(self) == *old(self),
            },
    {
        match &event.info {
            EventType::JsStart(_) => Err(ApplyError::NotImplemented),
            EventType::ImgStart(_, _) => {
                self.contents.push(event.clone());
                Ok(())
            },
            EventType::JsEnd | EventType::ImgEnd => {
                let ghost old_contents = self.contents@;
                let mut kept: Vec<Event> = Vec::new();
                let n = self.contents.len();
                let mut i: usize = 0;
                proof {
                    reveal(Seq::filter);
                    assert(old_contents.take(0) =~= Seq::<Event>::empty());
                    assert(kept@ =~= old_contents.take(0).filter(
                        |e: Event| e.uuid@ != event.uuid@,
                    ));
                }
                while i < n
                    invariant
                        n == self.contents@.len(),
                        i <= n,
                        self.contents@ == old_contents,
                        kept@ == old_contents.take(i as int).filter(
                            |e: Event| e.uuid@ != event.uuid@,
                        ),
                    decreases n - i,
                {
                    proof {
                        reveal(Seq::filter);
                        assert(old_contents.take(i as int + 1).drop_last() =~= old_contents.take(
                            i as int,
                        ));
                        assert(old_contents.take(i as int + 1).last() == old_contents[i as int]);
                    }
                    let keep = self.contents[i].uuid != event.uuid;
                    if keep {
                        let e = self.contents[i].clone();
                        kept.push(e);
                    }
                    i = i + 1;
                }
                proof {
                    assert(old_contents.take(n as int) =~= old_contents);
                }
                self.contents = kept;
                Ok(())
            },
        }
    }
}

/// Filtering keeps a sequence whose every element passes the test.
proof fn lemma_filter_identity(s: Seq<Event>, pred: spec_fn(Event) -> bool)
    requires
        forall|k: int| 0 <= k < s.len() ==> pred(#[trigger] s[k]),
    ensures
        s.filter(pred) == s,
    decreases s.len(),
{
    reveal(Seq::filter);
    if s.len() > 0 {
        lemma_filter_identity(s.drop_last(), pred);
        assert(s.drop_last().push(s.last()) =~= s);
    }
}

/// Starting an image overlay and then applying an end event carrying the
/// same identity returns the active list to its prior contents, provided
/// no prior entry already carried that identity.
pub proof fn lemma_start_end_round_trip(s: Seq<Event>, start_ev: Event, end_ev: Event)
    requires
        start_ev.info matches EventType::ImgStart(_slug, _rect),
        end_ev.info matches EventType::ImgEnd || end_ev.info matches EventType::JsEnd,
        start_ev.uuid@ == end_ev.uuid@,
        forall|k: int| 0 <= k < s.len() ==> (#[trigger] s[k]).uuid@ != end_ev.uuid@,
    ensures
        apply_spec(s, start_ev) matches Some(mid) && apply_spec(mid, end_ev) == Some(s),
{
    reveal(Seq::filter);
    let pred = |e: Event| e.uuid@ != end_ev.uuid@;
    let mid = s.push(start_ev);
    assert(mid.drop_last() =~= s);
    lemma_filter_identity(s, pred);
    assert(mid.filter(pred) == s);
}

} // verus!
