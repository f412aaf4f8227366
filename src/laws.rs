//! Facts about removal that hold for every text and every ordered set of
//! spans, stated over the model that the removal functions' contracts use.

use vstd::prelude::*;

use crate::spans::{
    abutting, covered, kept_from, single_kept_run, span_at_an_end, span_fits, spans_ordered,
    without_span, without_spans,
};

verus! {

/// The spans of `found` as a sequence: none, or the one span.
pub open spec fn spans_of(found: Option<(usize, usize)>) -> Seq<(usize, usize)> {
    match found {
        None => Seq::empty(),
        Some(m) => seq![m],
    }
}

/// The pieces of a text of length `len` that survive removing `sp`, from
/// `from` on: the one before the first span, those between two spans, and
/// the one after the last span, as ranges `(start, end)`.
pub open spec fn segments_from(sp: Seq<(usize, usize)>, from: int, len: int) -> Seq<(int, int)> {
    Seq::new(
        sp.len() + 1,
        |i: int|
            (
                if i == 0 {
                    from
                } else {
                    sp[i - 1].1 as int
                },
                if i == sp.len() {
                    len
                } else {
                    sp[i].0 as int
                },
            ),
    )
}

/// The pieces of `t` in the ranges `segs`, one after the other.
pub open spec fn concat_pieces(t: Seq<u8>, segs: Seq<(int, int)>) -> Seq<u8>
    decreases segs.len(),
{
    if segs.len() == 0 {
        Seq::empty()
    } else {
        t.subrange(segs[0].0, segs[0].1) + concat_pieces(t, segs.drop_first())
    }
}

proof fn kept_from_is_pieces(t: Seq<u8>, sp: Seq<(usize, usize)>, from: int)
    ensures
        kept_from(t, sp, from) == concat_pieces(t, segments_from(sp, from, t.len() as int)),
    decreases sp.len(),
{
    let len = t.len() as int;
    let segs = segments_from(sp, from, len);
    if sp.len() == 0 {
        assert(segs.drop_first() =~= Seq::<(int, int)>::empty());
        assert(segs[0] == (from, len));
        assert(concat_pieces(t, segs.drop_first()) == Seq::<u8>::empty());
        assert(t.subrange(from, len) + Seq::<u8>::empty() =~= t.subrange(from, len));
    } else {
        kept_from_is_pieces(t, sp.drop_first(), sp[0].1 as int);
        assert(segs.drop_first() =~= segments_from(sp.drop_first(), sp[0].1 as int, len));
    }
}

/// What removal leaves is the pieces between the spans, in their order in
/// the text, joined together.
pub proof fn removal_keeps_pieces_in_order(t: Seq<u8>, sp: Seq<(usize, usize)>)
    ensures
        without_spans(t, sp) == concat_pieces(t, segments_from(sp, 0, t.len() as int)),
{
    kept_from_is_pieces(t, sp, 0);
}

/// With no span to remove, the text comes back whole, and it is one
/// contiguous run of itself (so the removal borrows it).
pub proof fn no_spans_keep_the_text(t: Seq<u8>)
    ensures
        without_spans(t, Seq::empty()) == t,
        single_kept_run(Seq::empty(), t.len() as int),
{
    assert(t.subrange(0, t.len() as int) =~= t);
    let e = Seq::<(usize, usize)>::empty();
    assert(e.subrange(0, 0) =~= e);
    assert(abutting(e.subrange(0, 0), 0, 0));
    assert(abutting(e.subrange(0, 0), t.len() as int, t.len() as int));
}

/// What is left from `from` on is as long as the rest of the text less what
/// the spans cover.
proof fn kept_from_len(t: Seq<u8>, sp: Seq<(usize, usize)>, from: int)
    requires
        spans_ordered(sp, t.len() as int),
        0 <= from <= t.len(),
        sp.len() > 0 ==> from <= sp[0].0,
    ensures
        kept_from(t, sp, from).len() == t.len() - from - covered(sp),
    decreases sp.len(),
{
    if sp.len() > 0 {
        let rest = sp.drop_first();
        assert forall|i: int, j: int| 0 <= i < j < rest.len() implies #[trigger] rest[i].1
            <= #[trigger] rest[j].0 by {
            assert(rest[i] == sp[i + 1]);
            assert(rest[j] == sp[j + 1]);
        }
        assert(spans_ordered(rest, t.len() as int));
        if rest.len() > 0 {
            assert(rest[0] == sp[1]);
            assert(sp[0].1 <= sp[1].0);
        }
        assert(sp[0].0 <= sp[0].1 <= t.len());
        kept_from_len(t, rest, sp[0].1 as int);
    }
}

/// The result is as long as the text less the total length of the spans.
pub proof fn removal_length(t: Seq<u8>, sp: Seq<(usize, usize)>)
    requires
        spans_ordered(sp, t.len() as int),
    ensures
        without_spans(t, sp).len() == t.len() - covered(sp),
{
    kept_from_len(t, sp, 0);
}

/// Removing spans again from a result, with spans that no longer match
/// anything, gives that result back unchanged, and borrowed.
pub proof fn removal_again_without_spans(t: Seq<u8>, sp: Seq<(usize, usize)>)
    ensures
        without_spans(without_spans(t, sp), Seq::empty()) == without_spans(t, sp),
        single_kept_run(Seq::empty(), without_spans(t, sp).len() as int),
{
    no_spans_keep_the_text(without_spans(t, sp));
}

/// Removing the one span, if any, that a first match finds agrees with
/// removing all spans when there is at most that one: same content, and a
/// borrowed result in the same cases.
pub proof fn first_span_removal_agrees(t: Seq<u8>, found: Option<(usize, usize)>)
    requires
        span_fits(found, t.len() as int),
    ensures
        without_span(t, found) == without_spans(t, spans_of(found)),
        span_at_an_end(found, t.len() as int) <==> single_kept_run(
            spans_of(found),
            t.len() as int,
        ),
{
    let len = t.len() as int;
    match found {
        None => {
            no_spans_keep_the_text(t);
        },
        Some(m) => {
            let sp = seq![m];
            assert(sp.drop_first() =~= Seq::<(usize, usize)>::empty());
            assert(kept_from(t, sp, 0) == t.subrange(0, m.0 as int) + kept_from(
                t,
                sp.drop_first(),
                m.1 as int,
            ));
            if m.0 == 0 {
                assert(sp.subrange(0, 1) =~= sp);
                assert(sp.subrange(1, 1) =~= Seq::<(usize, usize)>::empty());
                assert(abutting(sp.subrange(0, 1), 0, m.1 as int));
                assert(abutting(sp.subrange(1, 1), len, len));
            } else if m.1 == len {
                assert(sp.subrange(0, 0) =~= Seq::<(usize, usize)>::empty());
                assert(sp.subrange(0, 1) =~= sp);
                assert(abutting(sp.subrange(0, 0), 0, 0));
                assert(abutting(sp.subrange(0, 1), m.0 as int, len));
            } else {
                if single_kept_run(sp, len) {
                    let (j, a, b) = choose|j: int, a: int, b: int|
                        0 <= j <= sp.len() && #[trigger] abutting(sp.subrange(0, j), 0, a)
                            && #[trigger] abutting(sp.subrange(j, sp.len() as int), b, len);
                    assert(sp.subrange(0, 1) =~= sp);
                }
            }
        },
    }
}

} // verus!
