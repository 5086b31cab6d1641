//! The run configuration: where the inputs live, where output goes, and
//! the render parameters.
use vstd::prelude::*;

use crate::marker::{clean_spec, no_stray, scan_seq, lemma_scan_shape, lemma_scan_prefix, lemma_scan_take_step};
use crate::text::str_eq_str;

verus! {

/// The run configuration.  `used` maps asset slugs to the places their
/// bytes live; `rate` is frames per second; `resolution` is the output
/// frame size in pixels.
pub struct Spec {
    pub used: Vec<(String, String)>,
    pub audio: String,
    pub transcript: String,
    pub output: String,
    pub work: String,
    pub rate: usize,
    pub resolution: (usize, usize),
}

/// First-match lookup among the configured assets.
pub open spec fn lookup(used: Seq<(String, String)>, slug: Seq<char>) -> Option<Seq<char>>
    decreases used.len(),
{
    if used.len() == 0 {
        None
    } else if used[0].0@ == slug {
        Some(used[0].1@)
    } else {
        lookup(used.drop_first(), slug)
    }
}

impl Spec {
    /// The cleaned, spoken-word-only transcript: marker text dropped, a
    /// space after a space and a newline after a newline dropped.  The
    /// input may not hold a closing brace at brace depth zero.
    pub fn cleaned_transcript(&self, transcript: &str) -> (r: String)
        requires
            no_stray(transcript@),
        ensures
            r@ == clean_spec(transcript@),
    {
        let chars = crate::text::str_chars(transcript);
        let n = chars.len();
        let mut depth: usize = 0;
        let mut cleaned: Vec<char> = Vec::new();
        let mut i: usize = 0;
        while i < n
            invariant
                chars@ == transcript@,
                n == transcript@.len(),
                i <= n,
                no_stray(transcript@),
                !scan_seq(transcript@.take(i as int)).stray,
                depth as int == scan_seq(transcript@.take(i as int)).depth,
                cleaned@ == scan_seq(transcript@.take(i as int)).cleaned,
            decreases n - i,
        {
            proof {
                lemma_scan_take_step(transcript@, i as int);
                lemma_scan_prefix(transcript@, i as int + 1);
                lemma_scan_shape(transcript@.take(i as int));
            }
            let c = chars[i];
            if c == '{' {
                depth = depth + 1;
            } else if c == '}' {
                depth = depth - 1;
            } else {
                if depth == 0 {
                    let collapse = if cleaned.len() > 0 {
                        let last = cleaned[cleaned.len() - 1];
                        (c == ' ' && last == ' ') || (c == '\n' && last == '\n')
                    } else {
                        false
                    };
                    if !collapse {
                        cleaned.push(c);
                    }
                }
            }
            i = i + 1;
        }
        proof {
            assert(transcript@.take(n as int) =~= transcript@);
        }
        crate::text::chars_string(&cleaned)
    }

    /// The place configured for an asset slug, if any: the first entry of
    /// `used` whose key is the slug.
    pub fn asset_path(&self, slug: &str) -> (r: Option<String>)
        ensures
            match r {
                Some(p) => lookup(self.used@, slug@) == Some(p@),
                None => lookup(self.used@, slug@) is None,
            },
    {
        let n = self.used.len();
        let mut i: usize = 0;
        proof {
            assert(self.used@.skip(0) =~= self.used@);
        }
        while i < n
            invariant
                n == self.used@.len(),
                i <= n,
                lookup(self.used@, slug@) == lookup(self.used@.skip(i as int), slug@),
            decreases n - i,
        {
            let entry = &self.used[i];
            if str_eq_str(entry.0.as_str(), slug) {
                proof {
                    assert(self.used@.skip(i as int)[0] == self.used@[i as int]);
                }
                return Some(entry.1.clone());
            }
            proof {
                assert(self.used@.skip(i as int).drop_first() =~= self.used@.skip(i as int + 1));
                assert(self.used@.skip(i as int)[0] == self.used@[i as int]);
            }
            i = i + 1;
        }
        proof {
            assert(self.used@.skip(n as int) =~= Seq::<(String, String)>::empty());
        }
        None
    }
}

} // verus!
