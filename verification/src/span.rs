//! Strings in a guarded byte buffer.
//!
//! A buffer holds strings one after another, each closed by a guard byte of
//! value 0. The string that owns an offset runs from just behind the nearest
//! guard before the offset up to the first guard at or after it. An offset
//! that points at a guard is owned by the string which that guard closes.

use vstd::prelude::*;

verus! {

/// The byte that delimits strings.
pub const GUARD: u8 = 0;

/// Where the string that owns offset `o` begins: just behind the nearest
/// guard before `o`, or at 0 where there is none.
pub open spec fn span_begin(b: Seq<u8>, o: int) -> int
    decreases o,
{
    if o <= 0 {
        0
    } else if b[o - 1] == GUARD {
        o
    } else {
        span_begin(b, o - 1)
    }
}

/// Where the string that owns offset `o` ends: at the first guard at or
/// after `o`, or at the end of the buffer where there is none.
pub open spec fn span_end(b: Seq<u8>, o: int) -> int
    decreases b.len() - o,
{
    if o >= b.len() {
        b.len() as int
    } else if b[o] == GUARD {
        o
    } else {
        span_end(b, o + 1)
    }
}

/// The bytes of the string that owns offset `o`.
pub open spec fn span_bytes(b: Seq<u8>, o: int) -> Seq<u8> {
    b.subrange(span_begin(b, o), span_end(b, o))
}

/// Whether `[begin, end)` is a string of the buffer that owns `o`: it is
/// free of guards, and a guard or an edge of the buffer stands on each side.
pub open spec fn is_span(b: Seq<u8>, o: int, begin: int, end: int) -> bool {
    &&& 0 <= begin <= o <= end <= b.len()
    &&& begin == 0 || b[begin - 1] == GUARD
    &&& end == b.len() || b[end] == GUARD
    &&& forall|j: int| begin <= j < end ==> b[j] != GUARD
}

/// The string that owns an offset within the buffer is a string of the
/// buffer in the sense of `is_span`.
pub proof fn lemma_span(b: Seq<u8>, o: int)
    requires
        0 <= o <= b.len(),
    ensures
        is_span(b, o, span_begin(b, o), span_end(b, o)),
{
    lemma_span_begin(b, o);
    lemma_span_end(b, o);
}

proof fn lemma_span_begin(b: Seq<u8>, o: int)
    requires
        0 <= o <= b.len(),
    ensures
        0 <= span_begin(b, o) <= o,
        span_begin(b, o) == 0 || b[span_begin(b, o) - 1] == GUARD,
        forall|j: int| span_begin(b, o) <= j < o ==> b[j] != GUARD,
    decreases o,
{
    if o > 0 && b[o - 1] != GUARD {
        lemma_span_begin(b, o - 1);
    }
}

proof fn lemma_span_end(b: Seq<u8>, o: int)
    requires
        0 <= o <= b.len(),
    ensures
        o <= span_end(b, o) <= b.len(),
        span_end(b, o) == b.len() || b[span_end(b, o)] == GUARD,
        forall|j: int| o <= j < span_end(b, o) ==> b[j] != GUARD,
    decreases b.len() - o,
{
    if o < b.len() && b[o] != GUARD {
        lemma_span_end(b, o + 1);
    }
}

/// Only one string owns an offset.
pub proof fn lemma_span_unique(b: Seq<u8>, o: int, begin: int, end: int)
    requires
        is_span(b, o, begin, end),
    ensures
        begin == span_begin(b, o),
        end == span_end(b, o),
{
    lemma_span(b, o);
    let sb = span_begin(b, o);
    let se = span_end(b, o);
    if begin < sb {
        assert(b[sb - 1] != GUARD);
    }
    if sb < begin {
        assert(b[begin - 1] != GUARD);
    }
    if end < se {
        assert(b[end] != GUARD);
    }
    if se < end {
        assert(b[se] != GUARD);
    }
}

/// Every offset from the beginning of a string up to the guard that closes
/// it is owned by that string.
pub proof fn lemma_span_shared(b: Seq<u8>, o: int, p: int)
    requires
        0 <= o <= b.len(),
        span_begin(b, o) <= p <= span_end(b, o),
    ensures
        span_begin(b, p) == span_begin(b, o),
        span_end(b, p) == span_end(b, o),
{
    lemma_span(b, o);
    lemma_span_unique(b, p, span_begin(b, o), span_end(b, o));
}

/// Bytes appended to a buffer leave every string alone that a guard closes
/// within the old buffer.
pub proof fn lemma_span_append(b: Seq<u8>, tail: Seq<u8>, o: int)
    requires
        0 <= o <= b.len(),
        span_end(b, o) < b.len(),
    ensures
        span_begin(b + tail, o) == span_begin(b, o),
        span_end(b + tail, o) == span_end(b, o),
        span_bytes(b + tail, o) == span_bytes(b, o),
{
    lemma_span(b, o);
    let begin = span_begin(b, o);
    let end = span_end(b, o);
    assert(is_span(b + tail, o, begin, end));
    lemma_span_unique(b + tail, o, begin, end);
    assert((b + tail).subrange(begin, end) =~= b.subrange(begin, end));
}

/// Finds the string that owns `offset`: where it begins and where it ends.
pub fn locate(bytes: &[u8], offset: usize) -> (r: (usize, usize))
    requires
        offset <= bytes@.len(),
    ensures
        r.0 == span_begin(bytes@, offset as int),
        r.1 == span_end(bytes@, offset as int),
        r.0 <= offset <= r.1 <= bytes@.len(),
{
    let mut begin = offset;
    while begin > 0 && bytes[begin - 1] != GUARD
        invariant
            begin <= offset <= bytes@.len(),
            span_begin(bytes@, offset as int) == span_begin(bytes@, begin as int),
        decreases begin,
    {
        begin -= 1;
    }
    let mut end = offset;
    while end < bytes.len() && bytes[end] != GUARD
        invariant
            offset <= end <= bytes@.len(),
            span_end(bytes@, offset as int) == span_end(bytes@, end as int),
        decreases bytes@.len() - end,
    {
        end += 1;
    }
    (begin, end)
}

/// Whether a text holds no guard byte.
pub open spec fn guard_free(s: Seq<u8>) -> bool {
    forall|i: int| 0 <= i < s.len() ==> s[i] != GUARD
}

/// Whether a text holds no guard byte, and so can be stored as one name.
pub fn is_guard_free(text: &[u8]) -> (r: bool)
    ensures
        r == guard_free(text@),
{
    let mut i: usize = 0;
    while i < text.len()
        invariant
            i <= text@.len(),
            forall|j: int| 0 <= j < i ==> text@[j] != GUARD,
        decreases text@.len() - i,
    {
        if text[i] == GUARD {
            return false;
        }
        i += 1;
    }
    true
}

} // verus!
