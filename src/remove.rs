//! Removal of matched spans from a text, borrowing the text where what
//! survives is one contiguous piece of it and copying it once otherwise.

use std::borrow::Cow;
use vstd::prelude::*;
use vstd::string::{StringExecFns, StringSliceAdditionalSpecFns};
use vstd::utf8::{
    encode_utf8, is_char_boundary, is_char_boundary_iff_not_is_continuation_byte,
    is_char_boundary_start_end_of_seq,
};

use crate::laws::{no_spans_keep_the_text, removal_length};
use crate::matcher::{
    bytes_find, bytes_find_iter, bytes_first_of, bytes_matches_of, str_find, str_find_iter,
    str_first_of, str_matches_of,
};
use crate::source::{SliceSpans, SpanSource};
use crate::spans::{
    abutting, covered, kept_from, lemma_abutting_join, lemma_encode_concat, lemma_kept_step,
    lemma_rest_at_end, lemma_same_bytes_same_chars, lemma_two_kept_runs, on_char_boundaries, single_kept_run, span_at_an_end,
    span_fits, spans_ordered, without_span, without_spans,
};

verus! {

/// Relies on `String::with_capacity`: the string it returns is empty.
#[verifier::external_body]
fn string_with_capacity(capacity: usize) -> (r: String)
    ensures
        r@ == Seq::<char>::empty(),
{
    String::with_capacity(capacity)
}

/// The part of `s` between the byte offsets `a` and `b`.
fn str_piece<'a>(s: &'a str, a: usize, b: usize) -> (r: &'a str)
    requires
        a <= b <= s.spec_bytes().len(),
        is_char_boundary(s.spec_bytes(), a as int),
        is_char_boundary(s.spec_bytes(), b as int),
    ensures
        r.spec_bytes() == s.spec_bytes().subrange(a as int, b as int),
{
    broadcast use vstd::utf8::encode_utf8_valid_utf8, vstd::utf8::valid_utf8_split;
    let (head, _) = s.split_at(b);
    proof {
        let hb = head.spec_bytes();
        if 0 < a < b {
            is_char_boundary_iff_not_is_continuation_byte(s.spec_bytes(), a as int);
            is_char_boundary_iff_not_is_continuation_byte(hb, a as int);
        } else if a == b {
            is_char_boundary_start_end_of_seq(hb);
        }
    }
    let (_, piece) = head.split_at(a);
    piece
}

/// Appends `s` to `buf`.
fn push_piece(buf: &mut String, s: &str)
    ensures
        encode_utf8(final(buf)@) == encode_utf8(old(buf)@) + s.spec_bytes(),
{
    buf.append(s);
    proof {
        lemma_encode_concat(old(buf)@, s@);
    }
}

/// Appends `s` to `buf`.
fn push_bytes(buf: &mut Vec<u8>, s: &[u8])
    ensures
        final(buf)@ == old(buf)@ + s@,
{
    buf.extend_from_slice(s);
    assert(buf@ =~= old(buf)@ + s@);
}

/// Removes the span `found`, if there is one, from `text`.
///
/// Without a span, or with one at the start or at the end of `text`, the
/// result borrows `text`; otherwise it is a new string holding what comes
/// before the span and then what comes after it.
pub fn remove_span<'s>(text: &'s str, found: Option<(usize, usize)>) -> (r: Cow<'s, str>)
    requires
        span_fits(found, text.spec_bytes().len() as int),
        found matches Some(m) ==> on_char_boundaries(seq![m], text.spec_bytes()),
    ensures
        encode_utf8(r@) == without_span(text.spec_bytes(), found),
        found is None ==> r@ == text@,
        r is Borrowed <==> span_at_an_end(found, text.spec_bytes().len() as int),
{
    let m = match found {
        None => {
            return Cow::Borrowed(text);
        },
        Some(m) => m,
    };
    let len = text.as_bytes().len();
    proof {
        broadcast use vstd::utf8::encode_utf8_valid_utf8;

        is_char_boundary_start_end_of_seq(text.spec_bytes());
        assert(seq![m][0] == m);
    }
    if m.0 == 0 {
        return Cow::Borrowed(str_piece(text, m.1, len));
    }
    if m.1 == len {
        return Cow::Borrowed(str_piece(text, 0, m.0));
    }
    let mut s = string_with_capacity(len - (m.1 - m.0));
    push_piece(&mut s, str_piece(text, 0, m.0));
    push_piece(&mut s, str_piece(text, m.1, len));
    Cow::Owned(s)
}

/// Removes the span `found`, if there is one, from the bytes `text`.
///
/// Without a span, or with one at the start or at the end of `text`, the
/// result borrows `text`; otherwise it is a new vector holding what comes
/// before the span and then what comes after it.
pub fn bytes_remove_span<'s>(text: &'s [u8], found: Option<(usize, usize)>) -> (r: Cow<'s, [u8]>)
    requires
        span_fits(found, text@.len() as int),
    ensures
        r@ == without_span(text@, found),
        r is Borrowed <==> span_at_an_end(found, text@.len() as int),
{
    let m = match found {
        None => {
            return Cow::Borrowed(text);
        },
        Some(m) => m,
    };
    if m.0 == 0 {
        return Cow::Borrowed(&text[m.1..text.len()]);
    }
    if m.1 == text.len() {
        return Cow::Borrowed(&text[0..m.0]);
    }
    let mut s: Vec<u8> = Vec::with_capacity(text.len() - (m.1 - m.0));
    push_bytes(&mut s, &text[0..m.0]);
    push_bytes(&mut s, &text[m.1..text.len()]);
    Cow::Owned(s)
}

/// Removes the first match of `rex` from `text`.
///
/// If there is no match, or the match is at the start or at the end of
/// `text`, no string is allocated and a borrowed slice is returned.
pub fn remove_match<'s>(rex: &regex::Regex, text: &'s str) -> (r: Cow<'s, str>)
    ensures
        span_fits(str_first_of(*rex, text.spec_bytes()), text.spec_bytes().len() as int),
        encode_utf8(r@) == without_span(text.spec_bytes(), str_first_of(*rex, text.spec_bytes())),
        str_first_of(*rex, text.spec_bytes()) is None ==> r@ == text@,
        r is Borrowed <==> span_at_an_end(
            str_first_of(*rex, text.spec_bytes()),
            text.spec_bytes().len() as int,
        ),
{
    let found = str_find(rex, text);
    remove_span(text, found)
}

/// Removes the first match of `rex` from the bytes `text`.
///
/// If there is no match, or the match is at the start or at the end of
/// `text`, no vector is allocated and a borrowed slice is returned.
pub fn bytes_remove_match<'s>(rex: &regex::bytes::Regex, text: &'s [u8]) -> (r: Cow<'s, [u8]>)
    ensures
        span_fits(bytes_first_of(*rex, text@), text@.len() as int),
        r@ == without_span(text@, bytes_first_of(*rex, text@)),
        r is Borrowed <==> span_at_an_end(bytes_first_of(*rex, text@), text@.len() as int),
{
    let found = bytes_find(rex, text);
    bytes_remove_span(text, found)
}

/// Removes every span of `spans` from `text`.
///
/// When what survives is one contiguous piece of `text` (the spans, once
/// abutting ones are merged, only touch its start and its end), no string
/// is allocated and a borrowed slice is returned; otherwise the surviving
/// pieces are copied, in order, into one new string.
pub fn remove_spans<'s>(text: &'s str, spans: &[(usize, usize)]) -> (r: Cow<'s, str>)
    requires
        spans_ordered(spans@, text.spec_bytes().len() as int),
        on_char_boundaries(spans@, text.spec_bytes()),
    ensures
        encode_utf8(r@) == without_spans(text.spec_bytes(), spans@),
        encode_utf8(r@).len() == text.spec_bytes().len() - covered(spans@),
        spans@.len() == 0 ==> r@ == text@,
        r is Borrowed <==> single_kept_run(spans@, text.spec_bytes().len() as int),
{
    let mut src = SliceSpans::new(spans);
    let r = remove_all_from(text, &mut src);
    proof {
        removal_length(text.spec_bytes(), spans@);
        if spans@.len() == 0 {
            no_spans_keep_the_text(text.spec_bytes());
            assert(spans@ =~= Seq::<(usize, usize)>::empty());
            lemma_same_bytes_same_chars(r@, text@);
        }
    }
    r
}

/// Removes every span of `spans` from the bytes `text`.
///
/// When what survives is one contiguous piece of `text` (the spans, once
/// abutting ones are merged, only touch its start and its end), no vector
/// is allocated and a borrowed slice is returned; otherwise the surviving
/// pieces are copied, in order, into one new vector.
pub fn bytes_remove_spans<'s>(text: &'s [u8], spans: &[(usize, usize)]) -> (r: Cow<'s, [u8]>)
    requires
        spans_ordered(spans@, text@.len() as int),
    ensures
        r@ == without_spans(text@, spans@),
        r@.len() == text@.len() - covered(spans@),
        r is Borrowed <==> single_kept_run(spans@, text@.len() as int),
{
    let mut src = SliceSpans::new(spans);
    let r = bytes_remove_all_from(text, &mut src);
    proof {
        removal_length(text@, spans@);
    }
    r
}

/// Removes every match of `rex` from `text`.
///
/// When all matches are at the start or at the end of `text`, no string is
/// allocated and a borrowed slice is returned; otherwise the pieces between
/// the matches are copied, in order, into one new string.
pub fn remove_all_matches<'s>(rex: &regex::Regex, text: &'s str) -> (r: Cow<'s, str>)
    ensures
        spans_ordered(str_matches_of(*rex, text.spec_bytes()), text.spec_bytes().len() as int),
        on_char_boundaries(str_matches_of(*rex, text.spec_bytes()), text.spec_bytes()),
        encode_utf8(r@) == without_spans(text.spec_bytes(), str_matches_of(*rex, text.spec_bytes())),
        encode_utf8(r@).len() == text.spec_bytes().len() - covered(
            str_matches_of(*rex, text.spec_bytes()),
        ),
        str_matches_of(*rex, text.spec_bytes()).len() == 0 ==> r is Borrowed && r@ == text@,
        r is Borrowed <==> single_kept_run(
            str_matches_of(*rex, text.spec_bytes()),
            text.spec_bytes().len() as int,
        ),
{
    let mut it = str_find_iter(rex, text);
    let r = remove_all_from(text, &mut it);
    proof {
        let sp = str_matches_of(*rex, text.spec_bytes());
        removal_length(text.spec_bytes(), sp);
        if sp.len() == 0 {
            no_spans_keep_the_text(text.spec_bytes());
            assert(sp =~= Seq::<(usize, usize)>::empty());
            lemma_same_bytes_same_chars(r@, text@);
        }
    }
    r
}

/// Removes every match of `rex` from the bytes `text`.
///
/// When all matches are at the start or at the end of `text`, no vector is
/// allocated and a borrowed slice is returned; otherwise the pieces between
/// the matches are copied, in order, into one new vector.
pub fn bytes_remove_all_matches<'s>(rex: &regex::bytes::Regex, text: &'s [u8]) -> (r: Cow<'s, [u8]>)
    ensures
        spans_ordered(bytes_matches_of(*rex, text@), text@.len() as int),
        r@ == without_spans(text@, bytes_matches_of(*rex, text@)),
        r@.len() == text@.len() - covered(bytes_matches_of(*rex, text@)),
        bytes_matches_of(*rex, text@).len() == 0 ==> r is Borrowed && r@ == text@,
        r is Borrowed <==> single_kept_run(bytes_matches_of(*rex, text@), text@.len() as int),
{
    let mut it = bytes_find_iter(rex, text);
    let r = bytes_remove_all_from(text, &mut it);
    proof {
        let sp = bytes_matches_of(*rex, text@);
        removal_length(text@, sp);
        if sp.len() == 0 {
            no_spans_keep_the_text(text@);
            assert(sp =~= Seq::<(usize, usize)>::empty());
        }
    }
    r
}

/// Removes every span that `src` hands out from `text`.
fn bytes_remove_all_from<'s, S: SpanSource>(text: &'s [u8], src: &mut S) -> (r: Cow<'s, [u8]>)
    requires
        spans_ordered(old(src).pending(), text@.len() as int),
    ensures
        r@ == without_spans(text@, old(src).pending()),
        r is Borrowed <==> single_kept_run(old(src).pending(), text@.len() as int),
{
    let ghost all = src.pending();
    let ghost n = all.len() as int;
    let ghost len = text@.len() as int;
    let ghost mut k: int = 0;
    let mut trim: usize = 0;
    assert(all.subrange(0, n) =~= all);
    loop
        invariant
            spans_ordered(all, len),
            all == old(src).pending(),
            n == all.len(),
            len == text@.len(),
            0 <= k <= n,
            src.pending() == all.subrange(k, n),
            abutting(all.subrange(0, k), 0, trim as int),
            trim <= len,
            k < n ==> trim <= all[k].0,
            kept_from(text@, all.subrange(k, n), trim as int) == without_spans(text@, all),
        decreases n - k,
    {
        let m = match src.next_span() {
            None => {
                assert(abutting(all.subrange(n, n), len, len));
                assert(all.subrange(0, n) =~= all);
                return Cow::Borrowed(&text[trim..text.len()]);
            },
            Some(m) => m,
        };
        proof {
            lemma_kept_step(text@, all, k, trim as int);
        }
        if m.0 == trim {
            proof {
                assert(all.subrange(0, k + 1) =~= all.subrange(0, k) + seq![all[k]]);
                lemma_abutting_join(all.subrange(0, k), seq![all[k]], 0, trim as int, m.1 as int);
                assert(text@.subrange(trim as int, trim as int) =~= Seq::<u8>::empty());
                assert(Seq::<u8>::empty() + kept_from(text@, all.subrange(k + 1, n), m.1 as int)
                    =~= kept_from(text@, all.subrange(k + 1, n), m.1 as int));
                k = k + 1;
            }
            trim = m.1;
            continue;
        }
        // A piece is kept before this match: what follows decides whether
        // the matches after it all run on to the end of the text.
        let rem_start = m.0;
        let mut hole_end = m.1;
        let ghost k0 = k;
        proof {
            assert(all.subrange(k0, k0 + 1) =~= seq![all[k0]]);
            k = k + 1;
        }
        loop
            invariant
                spans_ordered(all, len),
                all == old(src).pending(),
                n == all.len(),
                len == text@.len(),
                0 <= k0 < k <= n,
                src.pending() == all.subrange(k, n),
                abutting(all.subrange(0, k0), 0, trim as int),
                all[k0].0 == rem_start,
                rem_start != trim,
                trim <= rem_start <= hole_end <= len,
                abutting(all.subrange(k0, k), rem_start as int, hole_end as int),
                all[k - 1].1 == hole_end,
                text@.subrange(trim as int, rem_start as int) + kept_from(
                    text@,
                    all.subrange(k, n),
                    hole_end as int,
                ) == without_spans(text@, all),
            decreases n - k,
        {
            if hole_end == text.len() {
                proof {
                    lemma_rest_at_end(text@, all, k);
                    lemma_abutting_join(
                        all.subrange(k0, k),
                        all.subrange(k, n),
                        rem_start as int,
                        len,
                        len,
                    );
                    assert(all.subrange(k0, k) + all.subrange(k, n) =~= all.subrange(k0, n));
                    assert(abutting(all.subrange(0, k0), 0, trim as int));
                    assert(text@.subrange(trim as int, rem_start as int) + Seq::<u8>::empty()
                        =~= text@.subrange(trim as int, rem_start as int));
                }
                return Cow::Borrowed(&text[trim..rem_start]);
            }
            match src.next_span() {
                Some(nm) => {
                    proof {
                        lemma_kept_step(text@, all, k, hole_end as int);
                    }
                    if nm.0 != hole_end {
                        // At least two pieces are kept: copy them into one buffer.
                        proof {
                            lemma_two_kept_runs(all, len, k0, k, trim as int, hole_end as int);
                        }
                        let mut buf: Vec<u8> = Vec::with_capacity(text.len() - trim);
                        push_bytes(&mut buf, &text[trim..rem_start]);
                        push_bytes(&mut buf, &text[hole_end..nm.0]);
                        let mut last_end = nm.1;
                        proof {
                            k = k + 1;
                        }
                        loop
                            invariant
                                spans_ordered(all, len),
                                all == old(src).pending(),
                                !single_kept_run(all, len),
                                n == all.len(),
                                len == text@.len(),
                                0 < k <= n,
                                src.pending() == all.subrange(k, n),
                                all[k - 1].1 == last_end,
                                last_end <= len,
                                buf@ + kept_from(text@, all.subrange(k, n), last_end as int)
                                    == without_spans(text@, all),
                            decreases n - k,
                        {
                            match src.next_span() {
                                None => {
                                    push_bytes(&mut buf, &text[last_end..text.len()]);
                                    return Cow::Owned(buf);
                                },
                                Some(m) => {
                                    proof {
                                        lemma_kept_step(text@, all, k, last_end as int);
                                        assert(all[k - 1].1 <= all[k].0);
                                    }
                                    let ghost before = buf@;
                                    push_bytes(&mut buf, &text[last_end..m.0]);
                                    proof {
                                        assert(before + (text@.subrange(
                                            last_end as int,
                                            m.0 as int,
                                        ) + kept_from(text@, all.subrange(k + 1, n), m.1 as int))
                                            =~= buf@ + kept_from(
                                            text@,
                                            all.subrange(k + 1, n),
                                            m.1 as int,
                                        ));
                                        k = k + 1;
                                    }
                                    last_end = m.1;
                                },
                            }
                        }
                    }
                    // The next match starts where this one ends: one hole.
                    proof {
                        assert(all.subrange(k0, k + 1) =~= all.subrange(k0, k) + seq![all[k]]);
                        lemma_abutting_join(
                            all.subrange(k0, k),
                            seq![all[k]],
                            rem_start as int,
                            hole_end as int,
                            nm.1 as int,
                        );
                        assert(text@.subrange(hole_end as int, hole_end as int)
                            =~= Seq::<u8>::empty());
                        assert(Seq::<u8>::empty() + kept_from(text@, all.subrange(k + 1, n), nm.1 as int)
                            =~= kept_from(text@, all.subrange(k + 1, n), nm.1 as int));
                        k = k + 1;
                    }
                    hole_end = nm.1;
                },
                None => {
                    // A hole in the middle and nothing after it: two pieces.
                    proof {
                        lemma_two_kept_runs(all, len, k0, k, trim as int, hole_end as int);
                    }
                    let size = (rem_start - trim) + (text.len() - hole_end);
                    let mut buf: Vec<u8> = Vec::with_capacity(size);
                    push_bytes(&mut buf, &text[trim..rem_start]);
                    push_bytes(&mut buf, &text[hole_end..text.len()]);
                    return Cow::Owned(buf);
                },
            }
        }
    }
}

/// Removes every span that `src` hands out from `text`.
fn remove_all_from<'s, S: SpanSource>(text: &'s str, src: &mut S) -> (r: Cow<'s, str>)
    requires
        spans_ordered(old(src).pending(), text.spec_bytes().len() as int),
        on_char_boundaries(old(src).pending(), text.spec_bytes()),
    ensures
        encode_utf8(r@) == without_spans(text.spec_bytes(), old(src).pending()),
        r is Borrowed <==> single_kept_run(old(src).pending(), text.spec_bytes().len() as int),
{
    let ghost all = src.pending();
    let ghost n = all.len() as int;
    let ghost len = text.spec_bytes().len() as int;
    let tlen = text.as_bytes().len();
    proof {
        broadcast use vstd::utf8::encode_utf8_valid_utf8;

        is_char_boundary_start_end_of_seq(text.spec_bytes());
    }
    let ghost mut k: int = 0;
    let mut trim: usize = 0;
    assert(all.subrange(0, n) =~= all);
    loop
        invariant
            spans_ordered(all, len),
            all == old(src).pending(),
            n == all.len(),
            len == text.spec_bytes().len(),
            tlen == len,
            on_char_boundaries(all, text.spec_bytes()),
            is_char_boundary(text.spec_bytes(), len),
            is_char_boundary(text.spec_bytes(), trim as int),
            0 <= k <= n,
            src.pending() == all.subrange(k, n),
            abutting(all.subrange(0, k), 0, trim as int),
            trim <= len,
            k < n ==> trim <= all[k].0,
            kept_from(text.spec_bytes(), all.subrange(k, n), trim as int) == without_spans(text.spec_bytes(), all),
        decreases n - k,
    {
        let m = match src.next_span() {
            None => {
                assert(abutting(all.subrange(n, n), len, len));
                assert(all.subrange(0, n) =~= all);
                return Cow::Borrowed(str_piece(text, trim, tlen));
            },
            Some(m) => m,
        };
        proof {
            lemma_kept_step(text.spec_bytes(), all, k, trim as int);
        }
        if m.0 == trim {
            proof {
                assert(all.subrange(0, k + 1) =~= all.subrange(0, k) + seq![all[k]]);
                lemma_abutting_join(all.subrange(0, k), seq![all[k]], 0, trim as int, m.1 as int);
                assert(text.spec_bytes().subrange(trim as int, trim as int) =~= Seq::<u8>::empty());
                assert(Seq::<u8>::empty() + kept_from(text.spec_bytes(), all.subrange(k + 1, n), m.1 as int)
                    =~= kept_from(text.spec_bytes(), all.subrange(k + 1, n), m.1 as int));
                k = k + 1;
            }
            trim = m.1;
            continue;
        }
        // A piece is kept before this match: what follows decides whether
        // the matches after it all run on to the end of the text.
        let rem_start = m.0;
        let mut hole_end = m.1;
        let ghost k0 = k;
        proof {
            assert(all.subrange(k0, k0 + 1) =~= seq![all[k0]]);
            k = k + 1;
        }
        loop
            invariant
                spans_ordered(all, len),
                all == old(src).pending(),
                n == all.len(),
                len == text.spec_bytes().len(),
                tlen == len,
                on_char_boundaries(all, text.spec_bytes()),
                is_char_boundary(text.spec_bytes(), len),
                is_char_boundary(text.spec_bytes(), trim as int),
                is_char_boundary(text.spec_bytes(), rem_start as int),
                is_char_boundary(text.spec_bytes(), hole_end as int),
                0 <= k0 < k <= n,
                src.pending() == all.subrange(k, n),
                abutting(all.subrange(0, k0), 0, trim as int),
                all[k0].0 == rem_start,
                rem_start != trim,
                trim <= rem_start <= hole_end <= len,
                abutting(all.subrange(k0, k), rem_start as int, hole_end as int),
                all[k - 1].1 == hole_end,
                text.spec_bytes().subrange(trim as int, rem_start as int) + kept_from(
                    text.spec_bytes(),
                    all.subrange(k, n),
                    hole_end as int,
                ) == without_spans(text.spec_bytes(), all),
            decreases n - k,
        {
            if hole_end == tlen {
                proof {
                    lemma_rest_at_end(text.spec_bytes(), all, k);
                    lemma_abutting_join(
                        all.subrange(k0, k),
                        all.subrange(k, n),
                        rem_start as int,
                        len,
                        len,
                    );
                    assert(all.subrange(k0, k) + all.subrange(k, n) =~= all.subrange(k0, n));
                    assert(abutting(all.subrange(0, k0), 0, trim as int));
                    assert(text.spec_bytes().subrange(trim as int, rem_start as int) + Seq::<u8>::empty()
                        =~= text.spec_bytes().subrange(trim as int, rem_start as int));
                }
                return Cow::Borrowed(str_piece(text, trim, rem_start));
            }
            match src.next_span() {
                Some(nm) => {
                    proof {
                        lemma_kept_step(text.spec_bytes(), all, k, hole_end as int);
                    }
                    if nm.0 != hole_end {
                        // At least two pieces are kept: copy them into one buffer.
                        proof {
                            lemma_two_kept_runs(all, len, k0, k, trim as int, hole_end as int);
                        }
                        let mut buf: String = string_with_capacity(tlen - trim);
                        push_piece(&mut buf, str_piece(text, trim, rem_start));
                        push_piece(&mut buf, str_piece(text, hole_end, nm.0));
                        let mut last_end = nm.1;
                        proof {
                            k = k + 1;
                        }
                        loop
                            invariant
                                spans_ordered(all, len),
                                all == old(src).pending(),
                                !single_kept_run(all, len),
                                n == all.len(),
                                len == text.spec_bytes().len(),
                                tlen == len,
                                on_char_boundaries(all, text.spec_bytes()),
                                is_char_boundary(text.spec_bytes(), len),
                                is_char_boundary(text.spec_bytes(), last_end as int),
                                0 < k <= n,
                                src.pending() == all.subrange(k, n),
                                all[k - 1].1 == last_end,
                                last_end <= len,
                                encode_utf8(buf@) + kept_from(text.spec_bytes(), all.subrange(k, n), last_end as int)
                                    == without_spans(text.spec_bytes(), all),
                            decreases n - k,
                        {
                            match src.next_span() {
                                None => {
                                    push_piece(&mut buf, str_piece(text, last_end, tlen));
                                    return Cow::Owned(buf);
                                },
                                Some(m) => {
                                    proof {
                                        lemma_kept_step(text.spec_bytes(), all, k, last_end as int);
                                        assert(all[k - 1].1 <= all[k].0);
                                    }
                                    let ghost before = encode_utf8(buf@);
                                    push_piece(&mut buf, str_piece(text, last_end, m.0));
                                    proof {
                                        assert(before + (text.spec_bytes().subrange(
                                            last_end as int,
                                            m.0 as int,
                                        ) + kept_from(text.spec_bytes(), all.subrange(k + 1, n), m.1 as int))
                                            =~= encode_utf8(buf@) + kept_from(
                                            text.spec_bytes(),
                                            all.subrange(k + 1, n),
                                            m.1 as int,
                                        ));
                                        k = k + 1;
                                    }
                                    last_end = m.1;
                                },
                            }
                        }
                    }
                    // The next match starts where this one ends: one hole.
                    proof {
                        assert(all.subrange(k0, k + 1) =~= all.subrange(k0, k) + seq![all[k]]);
                        lemma_abutting_join(
                            all.subrange(k0, k),
                            seq![all[k]],
                            rem_start as int,
                            hole_end as int,
                            nm.1 as int,
                        );
                        assert(text.spec_bytes().subrange(hole_end as int, hole_end as int)
                            =~= Seq::<u8>::empty());
                        assert(Seq::<u8>::empty() + kept_from(text.spec_bytes(), all.subrange(k + 1, n), nm.1 as int)
                            =~= kept_from(text.spec_bytes(), all.subrange(k + 1, n), nm.1 as int));
                        k = k + 1;
                    }
                    hole_end = nm.1;
                },
                None => {
                    // A hole in the middle and nothing after it: two pieces.
                    proof {
                        lemma_two_kept_runs(all, len, k0, k, trim as int, hole_end as int);
                    }
                    let size = (rem_start - trim) + (tlen - hole_end);
                    let mut buf: String = string_with_capacity(size);
                    push_piece(&mut buf, str_piece(text, trim, rem_start));
                    push_piece(&mut buf, str_piece(text, hole_end, tlen));
                    return Cow::Owned(buf);
                },
            }
        }
    }
}

} // verus!
