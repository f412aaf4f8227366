//! The mathematical model of removing spans from a sequence.
//!
//! A span is a half-open range `(start, end)` of offsets into a sequence.
//! The spans that a matcher reports over one sequence come in ascending
//! order and do not overlap; removing them keeps the gaps between them.

use vstd::prelude::*;
use vstd::utf8::{encode_scalar, encode_utf8, encode_utf8_decode_utf8, is_char_boundary};

verus! {

/// Every span lies inside `0..len` with `start <= end`, and none starts
/// before the previous one has ended.
pub open spec fn spans_ordered(sp: Seq<(usize, usize)>, len: int) -> bool {
    &&& forall|i: int| 0 <= i < sp.len() ==> #[trigger] sp[i].0 <= sp[i].1 <= len
    &&& forall|i: int, j: int| 0 <= i < j < sp.len() ==> #[trigger] sp[i].1 <= #[trigger] sp[j].0
}

/// What is left of `t` from offset `from` on, once every span of `sp` has
/// been cut out: the gap before each span, then what follows the last one.
pub open spec fn kept_from(t: Seq<u8>, sp: Seq<(usize, usize)>, from: int) -> Seq<u8>
    decreases sp.len(),
{
    if sp.len() == 0 {
        t.subrange(from, t.len() as int)
    } else {
        t.subrange(from, sp[0].0 as int) + kept_from(t, sp.drop_first(), sp[0].1 as int)
    }
}

/// The content of `t` with every span of `sp` removed.
pub open spec fn without_spans(t: Seq<u8>, sp: Seq<(usize, usize)>) -> Seq<u8> {
    kept_from(t, sp, 0)
}

/// The spans of `sp` follow one another with nothing between them, the
/// first starting at `from` and the last ending at `to` (for no span,
/// `from == to`).
pub open spec fn abutting(sp: Seq<(usize, usize)>, from: int, to: int) -> bool {
    if sp.len() == 0 {
        from == to
    } else {
        &&& sp[0].0 == from
        &&& sp.last().1 == to
        &&& forall|i: int| 0 < i < sp.len() ==> #[trigger] sp[i].0 == sp[i - 1].1
    }
}

/// Once abutting spans are merged, the spans form at most one run that
/// starts the text and one run that ends it: what survives is one
/// contiguous piece `a..b` of the text.
pub open spec fn single_kept_run(sp: Seq<(usize, usize)>, len: int) -> bool {
    exists|k: int, a: int, b: int|
        0 <= k <= sp.len() && #[trigger] abutting(sp.subrange(0, k), 0, a) && #[trigger] abutting(
            sp.subrange(k, sp.len() as int),
            b,
            len,
        )
}

/// The span `found`, if there is one, lies inside `0..len` with
/// `start <= end`.
pub open spec fn span_fits(found: Option<(usize, usize)>, len: int) -> bool {
    found matches Some(m) ==> m.0 <= m.1 <= len
}

/// The content of `t` with the span `found`, if any, removed.
pub open spec fn without_span(t: Seq<u8>, found: Option<(usize, usize)>) -> Seq<u8> {
    match found {
        None => t,
        Some(m) => t.subrange(0, m.0 as int) + t.subrange(m.1 as int, t.len() as int),
    }
}

/// What survives removing `found` is one contiguous piece of the text:
/// there is no span, or it touches the start or the end.
pub open spec fn span_at_an_end(found: Option<(usize, usize)>, len: int) -> bool {
    match found {
        None => true,
        Some(m) => m.0 == 0 || m.1 == len,
    }
}

/// Every span of `sp` starts and ends on a character boundary of the UTF-8
/// encoded `bytes`.
pub open spec fn on_char_boundaries(sp: Seq<(usize, usize)>, bytes: Seq<u8>) -> bool {
    forall|i: int|
        0 <= i < sp.len() ==> is_char_boundary(bytes, #[trigger] sp[i].0 as int)
            && is_char_boundary(bytes, sp[i].1 as int)
}

/// The number of elements that the spans of `sp` cover.
pub open spec fn covered(sp: Seq<(usize, usize)>) -> int
    decreases sp.len(),
{
    if sp.len() == 0 {
        0
    } else {
        (sp[0].1 - sp[0].0) + covered(sp.drop_first())
    }
}

/// The kept content from `from` on, once the first of the spans from index
/// `k` on has been passed.
pub(crate) proof fn lemma_kept_step(t: Seq<u8>, sp: Seq<(usize, usize)>, k: int, from: int)
    requires
        0 <= k < sp.len(),
    ensures
        kept_from(t, sp.subrange(k, sp.len() as int), from) == t.subrange(from, sp[k].0 as int)
            + kept_from(t, sp.subrange(k + 1, sp.len() as int), sp[k].1 as int),
{
    assert(sp.subrange(k, sp.len() as int).drop_first() =~= sp.subrange(k + 1, sp.len() as int));
}

/// Once a span has reached the end of the text, the spans after it are
/// empty spans at the end: they abut there and leave nothing.
pub(crate) proof fn lemma_rest_at_end(t: Seq<u8>, sp: Seq<(usize, usize)>, k: int)
    requires
        spans_ordered(sp, t.len() as int),
        0 < k <= sp.len(),
        sp[k - 1].1 == t.len(),
    ensures
        kept_from(t, sp.subrange(k, sp.len() as int), t.len() as int) == Seq::<u8>::empty(),
        abutting(sp.subrange(k, sp.len() as int), t.len() as int, t.len() as int),
    decreases sp.len() - k,
{
    let n = sp.len() as int;
    assert forall|i: int| k <= i < n implies sp[i].0 == t.len() && sp[i].1 == t.len() by {
        assert(sp[k - 1].1 <= sp[i].0);
        assert(sp[i].0 <= sp[i].1 <= t.len());
    }
    if k < n {
        lemma_kept_step(t, sp, k, t.len() as int);
        lemma_rest_at_end(t, sp, k + 1);
        assert(t.subrange(t.len() as int, t.len() as int) =~= Seq::<u8>::empty());
        assert(Seq::<u8>::empty() + Seq::<u8>::empty() =~= Seq::<u8>::empty());
    } else {
        assert(t.subrange(t.len() as int, t.len() as int) =~= Seq::<u8>::empty());
    }
}

/// Two runs of abutting spans, the second starting where the first ends,
/// make one run.
pub(crate) proof fn lemma_abutting_join(
    s1: Seq<(usize, usize)>,
    s2: Seq<(usize, usize)>,
    from: int,
    mid: int,
    to: int,
)
    requires
        abutting(s1, from, mid),
        abutting(s2, mid, to),
    ensures
        abutting(s1 + s2, from, to),
{
    let s = s1 + s2;
    if s1.len() == 0 {
        assert(s =~= s2);
    } else if s2.len() == 0 {
        assert(s =~= s1);
    } else {
        assert forall|i: int| 0 < i < s.len() implies #[trigger] s[i].0 == s[i - 1].1 by {
            if i < s1.len() {
            } else if i == s1.len() {
                assert(s[i] == s2[0]);
                assert(s[i - 1] == s1.last());
            } else {
                assert(s[i] == s2[i - s1.len()]);
                assert(s[i - 1] == s2[i - 1 - s1.len()]);
            }
        }
    }
}

/// A run that lies strictly inside the text, with something kept on each
/// side of it, cannot be part of a run touching either end.
pub(crate) proof fn lemma_two_kept_runs(
    sp: Seq<(usize, usize)>,
    len: int,
    k0: int,
    k: int,
    trim: int,
    hole_end: int,
)
    requires
        spans_ordered(sp, len),
        0 <= k0 < k <= sp.len(),
        abutting(sp.subrange(0, k0), 0, trim),
        sp[k0].0 != trim,
        abutting(sp.subrange(k0, k), sp[k0].0 as int, hole_end),
        (k == sp.len() && hole_end < len) || (k < sp.len() && sp[k].0 != hole_end),
    ensures
        !single_kept_run(sp, len),
{
    let n = sp.len() as int;
    if single_kept_run(sp, len) {
        let (j, a, b) = choose|j: int, a: int, b: int|
            0 <= j <= sp.len() && #[trigger] abutting(sp.subrange(0, j), 0, a) && #[trigger] abutting(
                sp.subrange(j, sp.len() as int),
                b,
                len,
            );
        let pre = sp.subrange(0, j);
        let suf = sp.subrange(j, n);
        if k0 > 0 {
            assert(sp.subrange(0, k0).last() == sp[k0 - 1]);
        }
        if j < k0 {
            assert(suf[k0 - j] == sp[k0]);
            assert(suf[k0 - j - 1] == sp[k0 - 1]);
        } else if j == k0 {
            let hole = sp.subrange(k0, k);
            assert(hole.last() == sp[k - 1]);
            if k == n {
                assert(suf.last() == sp[n - 1]);
            } else {
                assert(suf[k - j] == sp[k]);
                assert(suf[k - j - 1] == sp[k - 1]);
            }
        } else {
            assert(pre[k0] == sp[k0]);
            if k0 > 0 {
                assert(pre[k0 - 1] == sp[k0 - 1]);
            } else {
                assert(pre[0] == sp[0]);
            }
        }
    }
}

/// Two character sequences with the same UTF-8 encoding are equal.
pub(crate) proof fn lemma_same_bytes_same_chars(a: Seq<char>, b: Seq<char>)
    requires
        encode_utf8(a) == encode_utf8(b),
    ensures
        a == b,
{
    encode_utf8_decode_utf8(a);
    encode_utf8_decode_utf8(b);
}

/// UTF-8 encodes a concatenation piece by piece.
pub(crate) proof fn lemma_encode_concat(a: Seq<char>, b: Seq<char>)
    ensures
        encode_utf8(a + b) == encode_utf8(a) + encode_utf8(b),
    decreases a.len(),
{
    if a.len() == 0 {
        assert(a + b =~= b);
        assert(encode_utf8(a) + encode_utf8(b) =~= encode_utf8(b));
    } else {
        assert((a + b).drop_first() =~= a.drop_first() + b);
        assert((a + b)[0] == a[0]);
        lemma_encode_concat(a.drop_first(), b);
        let e = encode_scalar(a[0] as u32);
        assert(e + (encode_utf8(a.drop_first()) + encode_utf8(b))
            =~= (e + encode_utf8(a.drop_first())) + encode_utf8(b));
    }
}

} // verus!
