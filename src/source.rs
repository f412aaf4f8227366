//! Sources of spans: anything that hands out, one at a time and in order,
//! the spans to remove from a text.

use vstd::prelude::*;

verus! {

/// A forward-only supply of spans, consumed once.
pub(crate) trait SpanSource {
    /// The spans this source has yet to hand out, in the order it will.
    spec fn pending(&self) -> Seq<(usize, usize)>;

    /// Hands out the next span, or `None` once there is none left.
    fn next_span(&mut self) -> (r: Option<(usize, usize)>)
        ensures
            old(self).pending().len() == 0 ==> r is None
                && final(self).pending() == old(self).pending(),
            old(self).pending().len() > 0 ==> r == Some(old(self).pending()[0])
                && final(self).pending() == old(self).pending().drop_first(),
    ;
}

/// The spans of a slice, handed out from its front.
pub(crate) struct SliceSpans<'a> {
    pub(crate) spans: &'a [(usize, usize)],
    pub(crate) next: usize,
}

impl<'a> SliceSpans<'a> {
    pub(crate) fn new(spans: &'a [(usize, usize)]) -> (r: SliceSpans<'a>)
        ensures
            r.pending() == spans@,
    {
        let r = SliceSpans { spans, next: 0 };
        assert(r.spans@.subrange(0, r.spans@.len() as int) =~= spans@);
        r
    }
}

impl<'a> SpanSource for SliceSpans<'a> {
    open spec fn pending(&self) -> Seq<(usize, usize)> {
        if self.next <= self.spans@.len() {
            self.spans@.subrange(self.next as int, self.spans@.len() as int)
        } else {
            Seq::empty()
        }
    }

    fn next_span(&mut self) -> (r: Option<(usize, usize)>) {
        if self.next < self.spans.len() {
            let s = self.spans[self.next];
            self.next = self.next + 1;
            assert(self.pending() =~= old(self).pending().drop_first());
            Some(s)
        } else {
            None
        }
    }
}

} // verus!
