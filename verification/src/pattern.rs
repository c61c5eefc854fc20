//! Compiled regular expressions, held behind a small trusted boundary.
//!
//! A `Pattern` pairs a compiled `regex::Regex` with the pattern text it was
//! compiled from.  The behaviour of the engine is named, not restated: the
//! spec functions below stand for what the engine returns on a given pattern
//! and haystack, and every contract of the matcher is phrased over them.

use vstd::prelude::*;

verus! {

use vstd::utf8::encode_utf8;

/// Whether `regex::Regex::new` accepts `pat` as a pattern.  Compilation is a
/// function of the pattern text alone.
pub uninterp spec fn valid_pattern(pat: Seq<char>) -> bool;

/// The successive non-overlapping matches that `regex::Regex::find_iter`
/// yields for the pattern `pat` over the haystack `hay`, as half-open byte
/// ranges into the UTF-8 encoding of `hay`.  The result is a function of the
/// pattern and haystack texts alone.
pub uninterp spec fn find_all_of(pat: Seq<char>, hay: Seq<char>) -> Seq<(usize, usize)>;

/// The match that `regex::Regex::find_at` returns for the pattern `pat` over
/// the haystack `hay` when the search starts at byte offset `start`, if any.
pub uninterp spec fn find_at_of(pat: Seq<char>, hay: Seq<char>, start: usize) -> Option<
    (usize, usize),
>;

#[verifier::external_type_specification]
#[verifier::external_body]
pub struct ExRegex(regex::Regex);

/// A compiled regular expression together with its source text.
///
/// The fields are private and every constructor lives in this module, so the
/// invariant that `re` is the output of `regex::Regex::new` on `src` holds of
/// every `Pattern` value the rest of the crate can reach.
pub struct Pattern {
    re: regex::Regex,
    src: String,
}

impl View for Pattern {
    type V = Seq<char>;

    closed spec fn view(&self) -> Seq<char> {
        self.src@
    }
}

impl Pattern {
    /// Relies on `regex::Regex::new`: whether a pattern compiles depends on
    /// the pattern text alone, and the compiled value matches as that text
    /// prescribes.
    #[verifier::external_body]
    pub(crate) fn compile(src: &str) -> (r: Result<Pattern, String>)
        ensures
            r.is_ok() == valid_pattern(src@),
            r matches Ok(p) ==> p@ == src@,
    {
        match regex::Regex::new(src) {
            Ok(re) => Ok(Pattern { re, src: src.to_string() }),
            Err(e) => Err(format!("{}", e)),
        }
    }

    /// Relies on `regex::Regex::find_iter`: it yields the successive
    /// non-overlapping matches, each a half-open byte range within the
    /// haystack with `start() <= end()`.
    #[verifier::external_body]
    pub(crate) fn find_all(&self, hay: &str) -> (r: Vec<(usize, usize)>)
        ensures
            r@ == find_all_of(self@, hay@),
            forall|i: int|
                0 <= i < r@.len() ==> (#[trigger] r@[i]).0 <= r@[i].1 <= encode_utf8(hay@).len(),
    {
        self.re.find_iter(hay).map(|m| (m.start(), m.end())).collect()
    }

    /// Relies on `regex::Regex::find_at`: it returns the first match of the
    /// search that starts at byte offset `start`, a half-open byte range
    /// beginning at or after `start`; it panics only when `start` exceeds the
    /// haystack length, which the precondition rules out.
    #[verifier::external_body]
    pub(crate) fn find_from(&self, hay: &str, start: usize) -> (r: Option<(usize, usize)>)
        requires
            start <= encode_utf8(hay@).len(),
        ensures
            r == find_at_of(self@, hay@, start),
            r matches Some(m) ==> start <= m.0 <= m.1 <= encode_utf8(hay@).len(),
    {
        self.re.find_at(hay, start).map(|m| (m.start(), m.end()))
    }
}

} // verus!
