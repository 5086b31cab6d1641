//! Words as returned by the external forced aligner, with times in
//! integer milliseconds.  Only successfully aligned words carrying all
//! four time and span fields can anchor a marker.
use vstd::prelude::*;

use crate::text::str_eq_str;

verus! {

/// One recognized word: its outcome tag, its time span in milliseconds,
/// and its character span within the cleaned transcript that was sent to
/// the aligner.  Fields are optional because the aligner omits them for
/// words it failed to place.
#[derive(Debug)]
pub struct GentleWord {
    pub case: String,
    pub start: Option<i64>,
    pub end: Option<i64>,
    pub start_offset: Option<usize>,
    pub end_offset: Option<usize>,
    pub word: Option<String>,
    pub aligned_word: Option<String>,
}

/// A word is usable when its outcome is `success` and its two times and
/// two spans are all present.
pub open spec fn eligible(w: GentleWord) -> bool {
    &&& w.case@ == "success"@
    &&& w.start is Some
    &&& w.end is Some
    &&& w.start_offset is Some
    &&& w.end_offset is Some
}

impl GentleWord {
    /// Whether this word can anchor a marker.
    pub fn is_eligible(&self) -> (r: bool)
        ensures
            r == eligible(*self),
    {
        str_eq_str(self.case.as_str(), "success") && self.start.is_some() && self.end.is_some()
            && self.start_offset.is_some() && self.end_offset.is_some()
    }
}

} // verus!
