//! The regular-expression engine as seen by the removal logic: the spans it
//! reports over a haystack, as byte offsets, lazily and in ascending order.

use vstd::prelude::*;
use vstd::string::StringSliceAdditionalSpecFns;

use crate::source::SpanSource;
use crate::spans::{on_char_boundaries, spans_ordered};

verus! {

#[verifier::external_type_specification]
#[verifier::external_body]
pub struct ExRegex(regex::Regex);

#[verifier::external_type_specification]
#[verifier::external_body]
pub struct ExMatches<'r, 'h>(regex::Matches<'r, 'h>);

#[verifier::external_type_specification]
#[verifier::external_body]
pub struct ExBytesRegex(regex::bytes::Regex);

#[verifier::external_type_specification]
#[verifier::external_body]
pub struct ExBytesMatches<'r, 'h>(regex::bytes::Matches<'r, 'h>);

/// The spans, as `(start, end)` byte offsets, that a match iterator over a
/// `str` haystack has yet to yield, in the order it yields them.
pub uninterp spec fn str_pending(it: regex::Matches) -> Seq<(usize, usize)>;

/// The spans, as `(start, end)` byte offsets, that a match iterator over a
/// byte haystack has yet to yield, in the order it yields them.
pub uninterp spec fn bytes_pending(it: regex::bytes::Matches) -> Seq<(usize, usize)>;

/// The first match of `rex` in the `str` haystack whose UTF-8 bytes are
/// `text`, as byte offsets.
pub uninterp spec fn str_first_of(rex: regex::Regex, text: Seq<u8>) -> Option<(usize, usize)>;

/// The successive non-overlapping matches of `rex` in the `str` haystack
/// whose UTF-8 bytes are `text`, as byte offsets, in order.
pub uninterp spec fn str_matches_of(rex: regex::Regex, text: Seq<u8>) -> Seq<(usize, usize)>;

/// The first match of `rex` in the byte haystack `text`, as offsets.
pub uninterp spec fn bytes_first_of(rex: regex::bytes::Regex, text: Seq<u8>) -> Option<(usize, usize)>;

/// The successive non-overlapping matches of `rex` in the byte haystack
/// `text`, as offsets, in order.
pub uninterp spec fn bytes_matches_of(rex: regex::bytes::Regex, text: Seq<u8>) -> Seq<(usize, usize)>;

/// Relies on `regex::Regex::find`: the first match, if any, as a range of
/// byte offsets into the haystack that fall on character boundaries.
#[verifier::external_body]
pub(crate) fn str_find(rex: &regex::Regex, text: &str) -> (r: Option<(usize, usize)>)
    ensures
        r == str_first_of(*rex, text.spec_bytes()),
        r matches Some(m) ==> m.0 <= m.1 <= text.spec_bytes().len()
            && on_char_boundaries(seq![m], text.spec_bytes()),
{
    rex.find(text).map(|m| (m.start(), m.end()))
}

/// Relies on `regex::Regex::find_iter`: it yields successive
/// non-overlapping matches of the haystack, each a range of byte offsets
/// that fall on character boundaries.
#[verifier::external_body]
pub(crate) fn str_find_iter<'r, 'h>(rex: &'r regex::Regex, text: &'h str) -> (it: regex::Matches<'r, 'h>)
    ensures
        str_pending(it) == str_matches_of(*rex, text.spec_bytes()),
        spans_ordered(str_pending(it), text.spec_bytes().len() as int),
        on_char_boundaries(str_pending(it), text.spec_bytes()),
{
    rex.find_iter(text)
}

/// Relies on `Iterator::next` of `regex::Matches`: the next match's byte
/// range, or `None` once the matches are exhausted.
#[verifier::external_body]
pub(crate) fn str_next(it: &mut regex::Matches) -> (r: Option<(usize, usize)>)
    ensures
        str_pending(*old(it)).len() == 0 ==> r is None
            && str_pending(*final(it)) == str_pending(*old(it)),
        str_pending(*old(it)).len() > 0 ==> r == Some(str_pending(*old(it))[0])
            && str_pending(*final(it)) == str_pending(*old(it)).drop_first(),
{
    it.next().map(|m| (m.start(), m.end()))
}

/// Relies on `regex::bytes::Regex::find`: the first match, if any, as a
/// range of offsets into the haystack.
#[verifier::external_body]
pub(crate) fn bytes_find(rex: &regex::bytes::Regex, text: &[u8]) -> (r: Option<(usize, usize)>)
    ensures
        r == bytes_first_of(*rex, text@),
        r matches Some(m) ==> m.0 <= m.1 <= text@.len(),
{
    rex.find(text).map(|m| (m.start(), m.end()))
}

/// Relies on `regex::bytes::Regex::find_iter`: it yields successive
/// non-overlapping matches of the haystack, each a range of offsets into it.
#[verifier::external_body]
pub(crate) fn bytes_find_iter<'r, 'h>(rex: &'r regex::bytes::Regex, text: &'h [u8]) -> (it: regex::bytes::Matches<'r, 'h>)
    ensures
        bytes_pending(it) == bytes_matches_of(*rex, text@),
        spans_ordered(bytes_pending(it), text@.len() as int),
{
    rex.find_iter(text)
}

/// Relies on `Iterator::next` of `regex::bytes::Matches`: the next match's
/// range, or `None` once the matches are exhausted.
#[verifier::external_body]
pub(crate) fn bytes_next(it: &mut regex::bytes::Matches) -> (r: Option<(usize, usize)>)
    ensures
        bytes_pending(*old(it)).len() == 0 ==> r is None
            && bytes_pending(*final(it)) == bytes_pending(*old(it)),
        bytes_pending(*old(it)).len() > 0 ==> r == Some(bytes_pending(*old(it))[0])
            && bytes_pending(*final(it)) == bytes_pending(*old(it)).drop_first(),
{
    it.next().map(|m| (m.start(), m.end()))
}

impl<'r, 'h> SpanSource for regex::Matches<'r, 'h> {
    open spec fn pending(&self) -> Seq<(usize, usize)> {
        str_pending(*self)
    }

    fn next_span(&mut self) -> (r: Option<(usize, usize)>) {
        str_next(self)
    }
}

impl<'r, 'h> SpanSource for regex::bytes::Matches<'r, 'h> {
    open spec fn pending(&self) -> Seq<(usize, usize)> {
        bytes_pending(*self)
    }

    fn next_span(&mut self) -> (r: Option<(usize, usize)>) {
        bytes_next(self)
    }
}

} // verus!
