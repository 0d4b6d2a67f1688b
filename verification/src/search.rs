//! What a search over a guarded buffer reports.
//!
//! A search finds the matches of a pattern in the raw bytes and reports the
//! names that own them. The statements here say which names those are, for
//! patterns made of a guard-free text with or without a guard on either
//! side.

use crate::memmem::{is_match_list, lemma_occurrences, occurrences, occurs_at, stride};
use crate::span::{
    guard_free, is_span, lemma_span, lemma_span_shared, lemma_span_unique, span_begin, span_bytes,
    span_end, GUARD,
};
use vstd::prelude::*;

verus! {

/// The probes `found[i] + shift` that name a string not named before: a
/// probe is kept where it lies within the buffer and behind the end of the
/// string that the probe kept before it belongs to (behind `last_end`, for
/// the first one).
pub open spec fn kept_probes(b: Seq<u8>, found: Seq<usize>, shift: int, last_end: int) -> Seq<int>
    decreases found.len(),
{
    if found.len() == 0 {
        Seq::empty()
    } else {
        let p = found[0] + shift;
        if last_end < p < b.len() {
            seq![p] + kept_probes(b, found.drop_first(), shift, span_end(b, p))
        } else {
            kept_probes(b, found.drop_first(), shift, last_end)
        }
    }
}

/// All the probes `found[i] + shift`.
pub open spec fn all_probes(found: Seq<usize>, shift: int) -> Seq<int> {
    Seq::new(found.len(), |i: int| found[i] + shift)
}

/// Whether a name begins at offset `h`: the byte before it is a guard.
pub open spec fn is_start(b: Seq<u8>, h: int) -> bool {
    1 <= h < b.len() && b[h - 1] == GUARD
}

/// Whether a buffer begins and ends with a guard.
pub open spec fn is_fenced(b: Seq<u8>) -> bool {
    b.len() >= 1 && b[0] == GUARD && b.last() == GUARD
}

/// Whether `p` is one of the probes `found[i] + shift`.
pub open spec fn is_probe(found: Seq<usize>, shift: int, p: int) -> bool {
    exists|i: int| 0 <= i < found.len() && #[trigger] found[i] + shift == p
}

/// Whether the entries of `found` never go down.
pub open spec fn is_ascending(found: Seq<usize>) -> bool {
    forall|i: int, j: int| 0 <= i <= j < found.len() ==> found[i] <= found[j]
}

/// In a fenced buffer a name that begins at `h` ends at a guard within the
/// buffer, and owns every offset from `h` to that guard.
pub proof fn lemma_start(b: Seq<u8>, h: int)
    requires
        is_fenced(b),
        is_start(b, h),
    ensures
        span_begin(b, h) == h,
        h <= span_end(b, h) < b.len(),
        b[span_end(b, h)] == GUARD,
        forall|j: int| h <= j < span_end(b, h) ==> b[j] != GUARD,
{
    lemma_span(b, h);
    if span_end(b, h) == b.len() {
        assert(b[b.len() - 1] == GUARD);
    }
    if span_begin(b, h) < h {
        assert(b[h - 1] != GUARD);
    }
}

/// A name pushed onto a fenced buffer is read back at the offset at which
/// it was stored, provided that it holds no guard byte.
pub proof fn lemma_round_trip(b: Seq<u8>, name: Seq<u8>)
    requires
        is_fenced(b),
        guard_free(name),
    ensures
        is_fenced(b + name + seq![GUARD]),
        is_start(b + name + seq![GUARD], b.len() as int),
        span_bytes(b + name + seq![GUARD], b.len() as int) == name,
        span_end(b + name + seq![GUARD], b.len() as int) == b.len() + name.len(),
{
    let after = b + name + seq![GUARD];
    let h = b.len() as int;
    let e = h + name.len();
    assert(after[h - 1] == b[h - 1]);
    assert(after[e] == GUARD);
    assert forall|j: int| h <= j < e implies after[j] != GUARD by {
        assert(after[j] == name[j - h]);
    }
    assert(is_span(after, h, h, e));
    lemma_span_unique(after, h, h, e);
    assert(after.subrange(h, e) =~= name);
}

/// Whatever is appended to a fenced buffer, every offset in it keeps the
/// name that it had.
pub proof fn lemma_append_keeps_names(b: Seq<u8>, tail: Seq<u8>, o: int)
    requires
        is_fenced(b),
        0 <= o < b.len(),
    ensures
        span_begin(b + tail, o) == span_begin(b, o),
        span_end(b + tail, o) == span_end(b, o),
        span_bytes(b + tail, o) == span_bytes(b, o),
{
    lemma_span(b, o);
    if span_end(b, o) == b.len() {
        assert(b[b.len() - 1] == GUARD);
    }
    crate::span::lemma_span_append(b, tail, o);
}

/// What is kept are probes, each within the buffer and beyond the end of
/// the name that the one before it belongs to: no name is reported twice.
pub proof fn lemma_kept_once(b: Seq<u8>, found: Seq<usize>, shift: int, last_end: int)
    requires
        0 <= last_end,
        0 <= shift,
    ensures
        forall|k: int|
            0 <= k < kept_probes(b, found, shift, last_end).len() ==> last_end < (
            #[trigger] kept_probes(b, found, shift, last_end)[k]) < b.len(),
        forall|k: int|
            0 <= k < kept_probes(b, found, shift, last_end).len() ==> is_probe(
                found,
                shift,
                #[trigger] kept_probes(b, found, shift, last_end)[k],
            ),
        forall|k: int, l: int|
            0 <= k < l < kept_probes(b, found, shift, last_end).len() ==> span_end(
                b,
                #[trigger] kept_probes(b, found, shift, last_end)[k],
            ) < span_begin(b, #[trigger] kept_probes(b, found, shift, last_end)[l]),
    decreases found.len(),
{
    let kept = kept_probes(b, found, shift, last_end);
    if found.len() > 0 {
        let p = found[0] + shift;
        let rest = found.drop_first();
        if last_end < p < b.len() {
            let tail = kept_probes(b, rest, shift, span_end(b, p));
            lemma_span(b, p);
            lemma_kept_once(b, rest, shift, span_end(b, p));
            assert(kept == seq![p] + tail);
            assert forall|k: int| 0 <= k < kept.len() implies last_end < (#[trigger] kept[k])
                < b.len() by {
                if k > 0 {
                    assert(kept[k] == tail[k - 1]);
                }
            }
            assert forall|k: int| 0 <= k < kept.len() implies is_probe(
                found,
                shift,
                #[trigger] kept[k],
            ) by {
                if k > 0 {
                    assert(kept[k] == tail[k - 1]);
                    assert(is_probe(rest, shift, tail[k - 1]));
                    let i = choose|i: int| 0 <= i < rest.len() && #[trigger] rest[i] + shift == tail[k - 1];
                    assert(found[i + 1] + shift == kept[k]);
                } else {
                    assert(found[0] + shift == kept[0]);
                }
            }
            assert forall|k: int, l: int| 0 <= k < l < kept.len() implies span_end(
                b,
                #[trigger] kept[k],
            ) < span_begin(b, #[trigger] kept[l]) by {
                assert(kept[l] == tail[l - 1]);
                lemma_span(b, kept[l]);
                if k > 0 {
                    assert(kept[k] == tail[k - 1]);
                } else {
                    lemma_begin_beyond_guard(b, span_end(b, p), kept[l]);
                }
            }
        } else {
            lemma_kept_once(b, rest, shift, last_end);
            assert(kept == kept_probes(b, rest, shift, last_end));
            assert forall|k: int| 0 <= k < kept.len() implies is_probe(
                found,
                shift,
                #[trigger] kept[k],
            ) by {
                assert(is_probe(rest, shift, kept[k]));
                let i = choose|i: int| 0 <= i < rest.len() && #[trigger] rest[i] + shift == kept[k];
                assert(found[i + 1] + shift == kept[k]);
            }
        }
    }
}

/// A name that owns an offset beyond a guard begins beyond that guard.
proof fn lemma_begin_beyond_guard(b: Seq<u8>, g: int, o: int)
    requires
        0 <= g < o <= b.len(),
        b[g] == GUARD,
    ensures
        g < span_begin(b, o),
{
    lemma_span(b, o);
    if span_begin(b, o) <= g {
        assert(b[g] != GUARD);
    }
}

/// Every probe within the buffer and beyond `last_end` has its name
/// reported, where the probes never go down.
pub proof fn lemma_kept_all(b: Seq<u8>, found: Seq<usize>, shift: int, last_end: int, i: int)
    requires
        0 <= last_end,
        0 <= shift,
        is_ascending(found),
        0 <= i < found.len(),
        last_end < found[i] + shift < b.len(),
    ensures
        exists|k: int|
            0 <= k < kept_probes(b, found, shift, last_end).len() && span_begin(
                b,
                #[trigger] kept_probes(b, found, shift, last_end)[k],
            ) == span_begin(b, found[i] + shift) && span_end(
                b,
                kept_probes(b, found, shift, last_end)[k],
            ) == span_end(b, found[i] + shift),
    decreases found.len(),
{
    let kept = kept_probes(b, found, shift, last_end);
    let q = found[i] + shift;
    let p = found[0] + shift;
    let rest = found.drop_first();
    assert forall|x: int, y: int| 0 <= x <= y < rest.len() implies rest[x] <= rest[y] by {
        assert(rest[x] == found[x + 1] && rest[y] == found[y + 1]);
    }
    if last_end < p < b.len() {
        let tail = kept_probes(b, rest, shift, span_end(b, p));
        assert(kept == seq![p] + tail);
        lemma_span(b, p);
        if i == 0 {
            assert(kept[0] == q);
        } else if q <= span_end(b, p) {
            assert(found[0] <= found[i]);
            lemma_span_shared(b, p, q);
            assert(kept[0] == p);
        } else {
            assert(rest[i - 1] == found[i]);
            lemma_kept_all(b, rest, shift, span_end(b, p), i - 1);
            let k = choose|k: int|
                0 <= k < tail.len() && span_begin(b, #[trigger] tail[k]) == span_begin(b, q)
                    && span_end(b, tail[k]) == span_end(b, q);
            assert(kept[k + 1] == tail[k]);
        }
    } else {
        assert(i > 0) by {
            if i == 0 {
                assert(p == q);
            }
        }
        assert(rest[i - 1] == found[i]);
        assert(kept == kept_probes(b, rest, shift, last_end));
        lemma_kept_all(b, rest, shift, last_end, i - 1);
    }
}

/// A list of matches never goes down.
pub proof fn lemma_matches_ascending(hay: Seq<u8>, needle: Seq<u8>, found: Seq<usize>)
    requires
        is_match_list(hay, needle, found),
    ensures
        is_ascending(found),
{
    assert forall|i: int, j: int| 0 <= i <= j < found.len() implies found[i] <= found[j] by {
        if i < j {
            assert(found[i] + stride(needle) <= found[j]);
        }
    }
}

/// A match of a guard-free pattern lies within one name.
proof fn lemma_match_within_name(b: Seq<u8>, needle: Seq<u8>, p: int)
    requires
        guard_free(needle),
        occurs_at(b, needle, p),
    ensures
        p + needle.len() <= span_end(b, p),
{
    lemma_span(b, p);
    let e = span_end(b, p);
    if e < p + needle.len() {
        assert(b.subrange(p, p + needle.len())[e - p] == b[e]);
        assert(needle[e - p] != GUARD);
    }
}

/// Substring search. For a pattern that is not empty and holds no guard,
/// the names reported are those in which the pattern occurs: each name
/// reported holds a match, each name that holds a match is reported, and
/// none is reported twice.
pub proof fn lemma_substring_search(b: Seq<u8>, needle: Seq<u8>, found: Seq<usize>)
    requires
        is_fenced(b),
        needle.len() > 0,
        guard_free(needle),
        is_match_list(b, needle, found),
    ensures
        forall|k: int|
            0 <= k < kept_probes(b, found, 0, 0).len() ==> {
                let p = #[trigger] kept_probes(b, found, 0, 0)[k];
                occurs_at(b, needle, p) && p + needle.len() <= span_end(b, p)
            },
        forall|p: int| #[trigger]
            occurs_at(b, needle, p) ==> exists|k: int|
                0 <= k < kept_probes(b, found, 0, 0).len() && span_begin(
                    b,
                    #[trigger] kept_probes(b, found, 0, 0)[k],
                ) == span_begin(b, p) && span_end(b, kept_probes(b, found, 0, 0)[k]) == span_end(
                    b,
                    p,
                ),
        forall|k: int, l: int|
            0 <= k < l < kept_probes(b, found, 0, 0).len() ==> span_end(
                b,
                #[trigger] kept_probes(b, found, 0, 0)[k],
            ) < span_begin(b, #[trigger] kept_probes(b, found, 0, 0)[l]),
{
    let kept = kept_probes(b, found, 0, 0);
    lemma_kept_once(b, found, 0, 0);
    lemma_matches_ascending(b, needle, found);
    assert forall|k: int| 0 <= k < kept.len() implies {
        let p = #[trigger] kept[k];
        occurs_at(b, needle, p) && p + needle.len() <= span_end(b, p)
    } by {
        let p = kept[k];
        assert(is_probe(found, 0, p));
        let i = choose|i: int| 0 <= i < found.len() && #[trigger] found[i] + 0 == p;
        assert(occurs_at(b, needle, found[i] as int));
        lemma_match_within_name(b, needle, p);
    }
    assert forall|p: int| #[trigger] occurs_at(b, needle, p) implies exists|k: int|
        0 <= k < kept.len() && span_begin(b, #[trigger] kept[k]) == span_begin(b, p) && span_end(
            b,
            kept[k],
        ) == span_end(b, p) by {
        let i = choose|i: int|
            0 <= i < found.len() && #[trigger] found[i] <= p < found[i] + stride(needle);
        let x = found[i] as int;
        assert(occurs_at(b, needle, x));
        lemma_match_within_name(b, needle, x);
        lemma_span(b, x);
        lemma_span_shared(b, x, p);
        if x == 0 {
            assert(b.subrange(0, needle.len() as int)[0] == b[0]);
            assert(needle[0] != GUARD);
        }
        lemma_kept_all(b, found, 0, 0, i);
    }
}

/// Suffix search. For a pattern made of a guard-free text and a closing
/// guard, the names reported are those that end with the text. The name
/// that owns a match ends where the match ends.
pub proof fn lemma_suffix_search(b: Seq<u8>, text: Seq<u8>, found: Seq<usize>)
    requires
        is_fenced(b),
        guard_free(text),
        is_match_list(b, text + seq![GUARD], found),
    ensures
        forall|k: int|
            0 <= k < kept_probes(b, found, 0, 0).len() ==> {
                let p = #[trigger] kept_probes(b, found, 0, 0)[k];
                span_end(b, p) == p + text.len() && b.subrange(p, p + text.len()) == text
            },
        forall|h: int|
            is_start(b, h) && h + text.len() <= span_end(b, h) && b.subrange(
                span_end(b, h) - text.len(),
                span_end(b, h),
            ) == text ==> exists|k: int|
                0 <= k < kept_probes(b, found, 0, 0).len() && span_begin(
                    b,
                    #[trigger] kept_probes(b, found, 0, 0)[k],
                ) == h,
        forall|k: int, l: int|
            0 <= k < l < kept_probes(b, found, 0, 0).len() ==> span_end(
                b,
                #[trigger] kept_probes(b, found, 0, 0)[k],
            ) < span_begin(b, #[trigger] kept_probes(b, found, 0, 0)[l]),
{
    let kept = kept_probes(b, found, 0, 0);
    lemma_kept_once(b, found, 0, 0);
    assert forall|k: int| 0 <= k < kept.len() implies {
        let p = #[trigger] kept[k];
        span_end(b, p) == p + text.len() && b.subrange(p, p + text.len()) == text
    } by {
        lemma_suffix_reported(b, text, found, kept[k]);
    }
    assert forall|h: int|
        is_start(b, h) && h + text.len() <= span_end(b, h) && b.subrange(
            span_end(b, h) - text.len(),
            span_end(b, h),
        ) == text implies exists|k: int|
        0 <= k < kept.len() && span_begin(b, #[trigger] kept[k]) == h by {
        lemma_suffix_found(b, text, found, h);
    }
}

proof fn lemma_suffix_reported(b: Seq<u8>, text: Seq<u8>, found: Seq<usize>, p: int)
    requires
        guard_free(text),
        is_match_list(b, text + seq![GUARD], found),
        is_probe(found, 0, p),
    ensures
        span_end(b, p) == p + text.len(),
        b.subrange(p, p + text.len()) == text,
{
    let i = choose|i: int| 0 <= i < found.len() && #[trigger] found[i] + 0 == p;
    assert(occurs_at(b, text + seq![GUARD], found[i] as int));
    lemma_suffix_match(b, text, p);
}

proof fn lemma_suffix_found(b: Seq<u8>, text: Seq<u8>, found: Seq<usize>, h: int)
    requires
        is_fenced(b),
        guard_free(text),
        is_match_list(b, text + seq![GUARD], found),
        is_start(b, h),
        h + text.len() <= span_end(b, h),
        b.subrange(span_end(b, h) - text.len(), span_end(b, h)) == text,
    ensures
        exists|k: int|
            0 <= k < kept_probes(b, found, 0, 0).len() && span_begin(
                b,
                #[trigger] kept_probes(b, found, 0, 0)[k],
            ) == h,
{
    let pattern = text + seq![GUARD];
    let n = text.len() as int;
    lemma_start(b, h);
    let e = span_end(b, h);
    let q = e - n;
    assert(b.subrange(q, e + 1) =~= b.subrange(q, e) + seq![GUARD]);
    assert(occurs_at(b, pattern, q));
    let i = choose|i: int|
        0 <= i < found.len() && #[trigger] found[i] <= q < found[i] + stride(pattern);
    let x = found[i] as int;
    assert(occurs_at(b, pattern, x));
    lemma_suffix_match(b, text, x);
    if x < q {
        // the guard that closes the match at `x` would stand within the text
        assert(b.subrange(q, e)[x + n - q] == b[x + n]);
        assert(text[x + n - q] != GUARD);
    }
    lemma_span_shared(b, h, q);
    lemma_matches_ascending(b, pattern, found);
    lemma_kept_all(b, found, 0, 0, i);
}

/// Where a guard-free text and a guard stand at `p`, the name that owns
/// `p` ends with that guard.
proof fn lemma_suffix_match(b: Seq<u8>, text: Seq<u8>, p: int)
    requires
        guard_free(text),
        occurs_at(b, text + seq![GUARD], p),
    ensures
        span_end(b, p) == p + text.len(),
        b.subrange(p, p + text.len()) == text,
        b[p + text.len()] == GUARD,
{
    let pattern = text + seq![GUARD];
    let n = text.len() as int;
    assert(b.subrange(p, p + pattern.len())[n] == b[p + n]);
    assert(pattern[n] == GUARD);
    assert forall|j: int| p <= j < p + n implies b[j] != GUARD by {
        assert(b.subrange(p, p + pattern.len())[j - p] == b[j]);
        assert(pattern[j - p] == text[j - p]);
    }
    lemma_span(b, p);
    let e = span_end(b, p);
    if e < p + n {
        assert(b[e] != GUARD);
    }
    if e > p + n {
        assert(b[p + n] != GUARD);
    }
    assert(b.subrange(p, p + n) =~= text) by {
        assert forall|j: int| 0 <= j < n implies b.subrange(p, p + n)[j] == text[j] by {
            assert(b.subrange(p, p + pattern.len())[j] == b[p + j]);
            assert(pattern[j] == text[j]);
        }
    }
}

/// Where a guard and a guard-free text stand at `x`, a name begins behind
/// that guard, and it begins with the text.
proof fn lemma_prefix_match(b: Seq<u8>, text: Seq<u8>, x: int)
    requires
        guard_free(text),
        occurs_at(b, seq![GUARD] + text, x),
    ensures
        b[x] == GUARD,
        b.subrange(x + 1, x + 1 + text.len()) == text,
        forall|j: int| x + 1 <= j < x + 1 + text.len() ==> b[j] != GUARD,
        text.len() > 0 ==> span_begin(b, x + text.len()) == x + 1,
        x + 1 + text.len() <= span_end(b, x + 1),
{
    let pattern = seq![GUARD] + text;
    let n = text.len() as int;
    assert(b.subrange(x, x + pattern.len())[0] == b[x]);
    assert(pattern[0] == GUARD);
    assert forall|j: int| x + 1 <= j < x + 1 + n implies b[j] != GUARD by {
        assert(b.subrange(x, x + pattern.len())[j - x] == b[j]);
        assert(pattern[j - x] == text[j - x - 1]);
    }
    assert(b.subrange(x + 1, x + 1 + n) =~= text) by {
        assert forall|j: int| 0 <= j < n implies b.subrange(x + 1, x + 1 + n)[j] == text[j] by {
            assert(b.subrange(x, x + pattern.len())[j + 1] == b[x + 1 + j]);
            assert(pattern[j + 1] == text[j]);
        }
    }
    lemma_span(b, x + 1);
    if span_end(b, x + 1) < x + 1 + n {
        assert(b[span_end(b, x + 1)] != GUARD);
    }
    if n > 0 {
        lemma_span(b, x + n);
        let s = span_begin(b, x + n);
        if s <= x {
            assert(b[x] != GUARD);
        }
        if s > x + 1 {
            assert(b[s - 1] != GUARD);
        }
    }
}

/// Prefix search. For a pattern made of a guard and a guard-free text that
/// is not empty, the names reported are those that begin with the text.
pub proof fn lemma_prefix_search(b: Seq<u8>, text: Seq<u8>, found: Seq<usize>)
    requires
        is_fenced(b),
        text.len() > 0,
        guard_free(text),
        is_match_list(b, seq![GUARD] + text, found),
    ensures
        forall|k: int|
            0 <= k < kept_probes(b, found, text.len() as int, 0).len() ==> {
                let h = span_begin(b, #[trigger] kept_probes(b, found, text.len() as int, 0)[k]);
                is_start(b, h) && h + text.len() <= span_end(b, h) && b.subrange(
                    h,
                    h + text.len(),
                ) == text
            },
        forall|h: int|
            is_start(b, h) && h + text.len() <= span_end(b, h) && b.subrange(h, h + text.len())
                == text ==> exists|k: int|
                0 <= k < kept_probes(b, found, text.len() as int, 0).len() && span_begin(
                    b,
                    #[trigger] kept_probes(b, found, text.len() as int, 0)[k],
                ) == h,
        forall|k: int, l: int|
            0 <= k < l < kept_probes(b, found, text.len() as int, 0).len() ==> span_end(
                b,
                #[trigger] kept_probes(b, found, text.len() as int, 0)[k],
            ) < span_begin(b, #[trigger] kept_probes(b, found, text.len() as int, 0)[l]),
{
    let n = text.len() as int;
    let kept = kept_probes(b, found, n, 0);
    let pattern = seq![GUARD] + text;
    lemma_kept_once(b, found, n, 0);
    lemma_matches_ascending(b, pattern, found);
    assert forall|k: int| 0 <= k < kept.len() implies {
        let h = span_begin(b, #[trigger] kept[k]);
        is_start(b, h) && h + text.len() <= span_end(b, h) && b.subrange(h, h + text.len())
            == text
    } by {
        let p = kept[k];
        assert(is_probe(found, n, p));
        let i = choose|i: int| 0 <= i < found.len() && #[trigger] found[i] + n == p;
        let x = found[i] as int;
        assert(occurs_at(b, pattern, x));
        lemma_prefix_match(b, text, x);
    }
    assert forall|h: int|
        is_start(b, h) && h + text.len() <= span_end(b, h) && b.subrange(h, h + text.len())
            == text implies exists|k: int|
        0 <= k < kept.len() && span_begin(b, #[trigger] kept[k]) == h by {
        lemma_start(b, h);
        assert(b.subrange(h - 1, h + n) =~= seq![GUARD] + b.subrange(h, h + n));
        assert(occurs_at(b, pattern, h - 1));
        let i = choose|i: int|
            0 <= i < found.len() && #[trigger] found[i] <= h - 1 < found[i] + stride(pattern);
        let x = found[i] as int;
        assert(occurs_at(b, pattern, x));
        lemma_prefix_match(b, text, x);
        if x < h - 1 {
            assert(b[h - 1] != GUARD);
        }
        lemma_kept_all(b, found, n, 0, i);
    }
}

/// Where a guard-free text stands between two guards, from `x` on, the
/// text is a name of its own.
proof fn lemma_exact_match(b: Seq<u8>, text: Seq<u8>, x: int)
    requires
        guard_free(text),
        occurs_at(b, seq![GUARD] + text + seq![GUARD], x),
    ensures
        is_start(b, x + 1),
        b[x] == GUARD,
        b[x + 1 + text.len()] == GUARD,
        forall|j: int| x + 1 <= j < x + 1 + text.len() ==> b[j] != GUARD,
        span_begin(b, x + 1 + text.len()) == x + 1,
        span_end(b, x + 1 + text.len()) == x + 1 + text.len(),
        span_bytes(b, x + 1 + text.len()) == text,
{
    let pattern = seq![GUARD] + text + seq![GUARD];
    let n = text.len() as int;
    let window = b.subrange(x, x + pattern.len());
    assert(window[0] == b[x]);
    assert(pattern[0] == GUARD);
    assert(window[n + 1] == b[x + n + 1]);
    assert(pattern[n + 1] == GUARD);
    assert forall|j: int| x + 1 <= j < x + 1 + n implies b[j] != GUARD by {
        assert(window[j - x] == b[j]);
        assert(pattern[j - x] == text[j - x - 1]);
    }
    assert(is_span(b, x + 1 + n, x + 1, x + 1 + n));
    lemma_span_unique(b, x + 1 + n, x + 1, x + 1 + n);
    assert(b.subrange(x + 1, x + 1 + n) =~= text) by {
        assert forall|j: int| 0 <= j < n implies b.subrange(x + 1, x + 1 + n)[j] == text[j] by {
            assert(window[j + 1] == b[x + 1 + j]);
            assert(pattern[j + 1] == text[j]);
        }
    }
}

/// Whether `found` lists the names of the buffer that are equal to `text`,
/// each by the guard in front of it: every entry stands in front of such a
/// name, which the guard `text.len() + 1` bytes on closes; every such name
/// has its entry; and the entries go up, so that each name is listed once,
/// and in the order of the buffer.
pub open spec fn lists_names_equal(b: Seq<u8>, text: Seq<u8>, found: Seq<usize>) -> bool {
    &&& forall|i: int|
        0 <= i < found.len() ==> {
            let h = #[trigger] found[i] + 1;
            &&& is_start(b, h)
            &&& span_bytes(b, h) == text
            &&& span_begin(b, h + text.len()) == h
            &&& span_end(b, h + text.len()) == h + text.len()
        }
    &&& forall|h: int|
        is_start(b, h) && #[trigger] span_bytes(b, h) == text ==> found.contains((h - 1) as usize)
    &&& forall|i: int, j: int| 0 <= i < j < found.len() ==> #[trigger] found[i] < #[trigger] found[j]
}

/// Exact search. For a pattern made of a guard-free text between two
/// guards, the occurrences of the pattern are the names equal to the text:
/// all of them, whatever other names hold the text within them, and two
/// equal names that stand side by side and share a guard both.
pub proof fn lemma_exact_search(b: Seq<u8>, text: Seq<u8>)
    requires
        b.len() <= usize::MAX,
        b.len() > 0 ==> b.last() == GUARD,
        guard_free(text),
    ensures
        lists_names_equal(b, text, occurrences(b, seq![GUARD] + text + seq![GUARD])),
{
    let pattern = seq![GUARD] + text + seq![GUARD];
    let found = occurrences(b, pattern);
    let n = text.len() as int;
    lemma_occurrences(b, pattern);
    assert forall|i: int| 0 <= i < found.len() implies {
        let h = #[trigger] found[i] + 1;
        &&& is_start(b, h)
        &&& span_bytes(b, h) == text
        &&& span_begin(b, h + text.len()) == h
        &&& span_end(b, h + text.len()) == h + text.len()
    } by {
        let x = found[i] as int;
        assert(occurs_at(b, pattern, x));
        lemma_exact_match(b, text, x);
        lemma_span_shared(b, x + 1 + n, x + 1);
    }
    assert forall|h: int| is_start(b, h) && #[trigger] span_bytes(b, h) == text implies found.contains(
        (h - 1) as usize,
    ) by {
        lemma_span(b, h);
        let e = span_end(b, h);
        if span_begin(b, h) < h {
            assert(b[h - 1] != GUARD);
        }
        if e == b.len() {
            assert(b[b.len() - 1] == GUARD);
        }
        assert(b.subrange(h, e).len() == n);
        assert(b.subrange(h - 1, e + 1) =~= seq![GUARD] + b.subrange(h, e) + seq![GUARD]);
        assert(occurs_at(b, pattern, h - 1));
    }
}

} // verus!
