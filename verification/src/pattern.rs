//! Regular expressions. The calls into `regex` stand here; what an expression matches has a name.
use vstd::prelude::*;
use vstd::utf8::{encode_utf8, is_char_boundary};

use crate::tags::{ranges_of, Span};

verus! {

/// A compiled expression of the `regex` crate.
#[verifier::external_type_specification]
#[verifier::external_body]
pub struct ExRegex(regex::Regex);

/// A compiled expression together with the text it was compiled from.
#[derive(Debug)]
pub struct Pattern {
    re: regex::Regex,
    source: String,
}

/// Why a text is no expression; `None` where it is one.
pub uninterp spec fn regex_fault(pattern: Seq<char>) -> Option<Seq<char>>;

/// The byte ranges of a text that an expression matches.
pub uninterp spec fn regex_matches(pattern: Seq<char>, text: Seq<char>) -> Seq<(int, int)>;

impl Pattern {
    /// The text that the expression was compiled from.
    pub closed spec fn text(&self) -> Seq<char> {
        self.source@
    }

    /// `regex::Regex::new`: whether a text compiles, and what is said of one that does not, is a
    /// function of the text.
    #[verifier::external_body]
    pub(crate) fn compile(pattern: &str) -> (r: Result<Pattern, String>)
        ensures
            match r {
                Ok(p) => p.text() == pattern@ && regex_fault(pattern@) is None,
                Err(m) => regex_fault(pattern@) == Some(m@),
            },
    {
        match regex::Regex::new(pattern) {
            Ok(re) => Ok(Pattern { re, source: pattern.to_string() }),
            Err(e) => Err(e.to_string()),
        }
    }

    /// `regex::Regex::find_iter`: the successive matches are a function of the expression and the
    /// text. They do not overlap, come in order, and begin and end at character boundaries.
    #[verifier::external_body]
    pub(crate) fn find_all(&self, text: &str) -> (found: Vec<Span>)
        ensures
            ranges_of(found@) == regex_matches(self.text(), text@),
            forall|k: int|
                0 <= k < found@.len() ==> {
                    &&& (#[trigger] found@[k]).start <= found@[k].end
                    &&& found@[k].end <= encode_utf8(text@).len()
                    &&& is_char_boundary(encode_utf8(text@), found@[k].start as int)
                    &&& is_char_boundary(encode_utf8(text@), found@[k].end as int)
                },
            forall|k: int, l: int|
                0 <= k < l < found@.len() ==> (#[trigger] found@[k]).end <= (
                #[trigger] found@[l]).start,
    {
        self.re.find_iter(text).map(|m| Span { start: m.start(), end: m.end() }).collect()
    }
}

} // verus!
