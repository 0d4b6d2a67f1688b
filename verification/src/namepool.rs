//! A growable pool of interned names.
//!
//! The pool is one byte buffer: a leading guard byte, then each name
//! followed by a guard byte, as in `\0aaa\0bbb\0ccc\0`. A name is handed out
//! as the offset at which it begins. The buffer only grows, so an offset
//! stays good for as long as the pool lives. Nothing is deduplicated: a name
//! pushed twice is stored twice.

use crate::memmem::{
    find_matches, find_occurrences, is_match_list, lemma_occurrences, match_list, occurrences,
    occurs_at,
};
use crate::search::{
    all_probes, is_fenced, kept_probes, lemma_append_keeps_names, lemma_exact_search,
    lemma_round_trip, lists_names_equal,
};
use crate::span::{guard_free, lemma_span, locate, span_begin, span_bytes, span_end, GUARD};
use vstd::prelude::*;
use vstd::slice::slice_subrange;
use vstd::string::StringSliceAdditionalSpecFns;
use vstd::utf8::{
    decode_utf8, encode_utf8_decode_utf8, encode_utf8_valid_utf8,
    is_char_boundary_iff_not_is_continuation_byte, is_char_boundary_start_end_of_seq, valid_utf8,
    valid_utf8_concat, valid_utf8_split,
};

verus! {

/// `core::str::Utf8Error`, which `core::str::from_utf8` fails with. It is
/// handed on and never looked into.
#[verifier::external_type_specification]
#[verifier::external_body]
pub struct ExUtf8Error(core::str::Utf8Error);

/// `core::str::from_utf8` succeeds exactly on well-formed UTF-8, and the
/// string slice it returns is made of the bytes it was given.
pub assume_specification[ core::str::from_utf8 ](v: &[u8]) -> (r: Result<
    &str,
    core::str::Utf8Error,
>)
    ensures
        r is Ok <==> valid_utf8(v@),
        r matches Ok(s) ==> s.spec_bytes() == v@,
;

/// Whether `s` is the text that `bytes` encode.
pub open spec fn is_text_of(s: &str, bytes: Seq<u8>) -> bool {
    &&& s.spec_bytes() == bytes
    &&& s@ == decode_utf8(bytes)
}

/// Whether the strings of `out` are, one for one, the strings that own the
/// offsets `probes` in the buffer `b`.
pub open spec fn resolves(b: Seq<u8>, out: Seq<&str>, probes: Seq<int>) -> bool {
    &&& out.len() == probes.len()
    &&& forall|i: int| 0 <= i < out.len() ==> is_text_of(#[trigger] out[i], span_bytes(b, probes[i]))
}

/// A string between two guards of a well-formed UTF-8 buffer is itself
/// well-formed UTF-8.
pub proof fn lemma_span_valid_utf8(b: Seq<u8>, o: int)
    requires
        valid_utf8(b),
        0 <= o <= b.len(),
    ensures
        valid_utf8(span_bytes(b, o)),
{
    lemma_span(b, o);
    let begin = span_begin(b, o);
    let end = span_end(b, o);
    if end == b.len() {
        is_char_boundary_start_end_of_seq(b);
    } else {
        is_char_boundary_iff_not_is_continuation_byte(b, end);
    }
    valid_utf8_split(b, end);
    let head = b.subrange(0, end);
    if begin == 0 {
        assert(span_bytes(b, o) =~= head);
    } else {
        let g = begin - 1;
        assert(head[g] == GUARD);
        is_char_boundary_iff_not_is_continuation_byte(head, g);
        valid_utf8_split(head, g);
        let tail = head.subrange(g, head.len() as int);
        assert(tail[0] == GUARD);
        assert(valid_utf8(tail));
        assert(span_bytes(b, o) =~= tail.subrange(1, tail.len() as int));
    }
}

proof fn lemma_guard_valid_utf8()
    ensures
        valid_utf8(seq![GUARD]),
{
    let s = seq![GUARD];
    assert(0u8 & 0x7F == 0) by (bit_vector);
    assert(s.subrange(1, 1) =~= Seq::<u8>::empty());
    assert(valid_utf8(Seq::<u8>::empty()));
    assert(valid_utf8(s)) by {
        reveal_with_fuel(valid_utf8, 2);
    }
}

/// Whether a buffer begins and ends with a guard and is well-formed UTF-8.
pub open spec fn is_guarded(b: Seq<u8>) -> bool {
    &&& b.len() >= 1
    &&& b[0] == GUARD
    &&& b.last() == GUARD
    &&& valid_utf8(b)
}

/// A name that holds no guard byte is read back as it was pushed: at the
/// offset that `push` returned, `get` finds the text of the name.
pub proof fn lemma_push_then_get(before: &NamePool, after: &NamePool, name: &str)
    requires
        before.wf(),
        guard_free(name.spec_bytes()),
        after@ == before@ + name.spec_bytes() + seq![GUARD],
    ensures
        after.wf(),
        after.text_at(before@.len() as int) == name@,
        span_end(after@, before@.len() as int) == before@.len() + name.spec_bytes().len(),
{
    lemma_round_trip(before@, name.spec_bytes());
    encode_utf8_decode_utf8(name@);
    lemma_guard_valid_utf8();
    encode_utf8_valid_utf8(name@);
    valid_utf8_concat(before@, name.spec_bytes());
    valid_utf8_concat(before@ + name.spec_bytes(), seq![GUARD]);
}

/// A pool only grows at its end, and an offset keeps its name: whatever
/// is pushed later, `get` finds at an offset what it found there before.
pub proof fn lemma_names_stay(before: &NamePool, after: &NamePool, pushed: Seq<u8>, o: int)
    requires
        before.wf(),
        after@ == before@ + pushed,
        0 <= o < before@.len(),
    ensures
        after.text_at(o) == before.text_at(o),
        span_bytes(after@, o) == span_bytes(before@, o),
        span_end(after@, o) == span_end(before@, o),
{
    lemma_append_keeps_names(before@, pushed, o);
}

/// A pool of names that grows as names are pushed.
pub struct NamePool {
    // e.g. `\0aaa\0bbb\0ccc\0`
    pool: Vec<u8>,
}

impl View for NamePool {
    type V = Seq<u8>;

    /// The bytes of the pool.
    closed spec fn view(&self) -> Seq<u8> {
        self.pool@
    }
}

impl NamePool {
    /// The pool begins and ends with a guard, and is well-formed UTF-8.
    pub open spec fn wf(&self) -> bool {
        is_guarded(self@)
    }

    /// A pool begins and ends with a guard.
    pub proof fn lemma_fenced(&self)
        requires
            self.wf(),
        ensures
            is_fenced(self@),
    {
    }

    /// The text of the name that owns offset `o`.
    pub open spec fn text_at(&self, o: int) -> Seq<char> {
        decode_utf8(span_bytes(self@, o))
    }

    /// A pool that holds no name: the leading guard alone.
    pub fn new() -> (r: Self)
        ensures
            r@ == seq![GUARD],
            r.wf(),
    {
        let mut pool = Vec::new();
        pool.push(GUARD);
        proof {
            lemma_guard_valid_utf8();
            assert(pool@ =~= seq![GUARD]);
        }
        Self { pool }
    }

    /// The number of bytes in the pool, the guards included.
    pub fn len(&self) -> (r: usize)
        ensures
            r == self@.len(),
    {
        self.pool.len()
    }

    /// Stores `name` at the end of the pool and returns the offset at which
    /// it begins.
    pub fn push(&mut self, name: &str) -> (start: usize)
        requires
            old(self).wf(),
        ensures
            final(self).wf(),
            start == old(self)@.len(),
            final(self)@ == old(self)@ + name.spec_bytes() + seq![GUARD],
    {
        let start = self.pool.len();
        self.pool.extend_from_slice(name.as_bytes());
        self.pool.push(GUARD);
        proof {
            lemma_guard_valid_utf8();
            encode_utf8_valid_utf8(name@);
            valid_utf8_concat(old(self)@, name.spec_bytes());
            valid_utf8_concat(old(self)@ + name.spec_bytes(), seq![GUARD]);
            assert(self.pool@ =~= old(self)@ + name.spec_bytes() + seq![GUARD]);
        }
        start
    }

    /// The name that owns `offset`, with the offset of the guard that closes
    /// it.
    pub fn get(&self, offset: usize) -> (r: (usize, &str))
        requires
            self.wf(),
            offset < self@.len(),
        ensures
            r.0 == span_end(self@, offset as int),
            is_text_of(r.1, span_bytes(self@, offset as int)),
            r.1@ == self.text_at(offset as int),
    {
        proof {
            lemma_span_valid_utf8(self@, offset as int);
        }
        let bytes = self.pool.as_slice();
        let (begin, end) = locate(bytes, offset);
        let name = slice_subrange(bytes, begin, end);
        match core::str::from_utf8(name) {
            Ok(s) => {
                proof {
                    encode_utf8_decode_utf8(s@);
                }
                (end, s)
            },
            Err(_) => (end, ""),
        }
    }

    /// The name that owns `offset`: the name that was pushed there, where
    /// `offset` is what `push` returned.
    pub fn resolve(&self, offset: usize) -> (name: &str)
        requires
            self.wf(),
            offset < self@.len(),
        ensures
            is_text_of(name, span_bytes(self@, offset as int)),
            name@ == self.text_at(offset as int),
    {
        self.get(offset).1
    }

    /// The names that own the offsets `found[i] + shift`, each name once:
    /// an offset is passed over where it lies at or before the end of the
    /// name reported last, or outside the pool.
    pub fn owners<'a>(&'a self, found: &[usize], shift: usize) -> (out: Vec<&'a str>)
        requires
            self.wf(),
        ensures
            resolves(self@, out@, kept_probes(self@, found@, shift as int, 0)),
    {
        let n = self.pool.len();
        let mut out: Vec<&'a str> = Vec::new();
        let mut last_end: usize = 0;
        let mut i: usize = 0;
        let ghost mut kept: Seq<int> = Seq::empty();
        proof {
            assert(found@.skip(0) =~= found@);
            assert(kept + kept_probes(self@, found@, shift as int, 0) =~= kept_probes(
                self@,
                found@,
                shift as int,
                0,
            ));
        }
        while i < found.len()
            invariant
                self.wf(),
                n == self@.len(),
                i <= found@.len(),
                last_end <= n,
                resolves(self@, out@, kept),
                kept_probes(self@, found@, shift as int, 0) == kept + kept_probes(
                    self@,
                    found@.skip(i as int),
                    shift as int,
                    last_end as int,
                ),
            decreases found@.len() - i,
        {
            let x = found[i];
            proof {
                assert(found@.skip(i as int)[0] == x);
                assert(found@.skip(i as int).drop_first() =~= found@.skip(i + 1));
            }
            if x < n && shift < n - x && x + shift > last_end {
                let p = x + shift;
                let (end, name) = self.get(p);
                proof {
                    lemma_span(self@, p as int);
                    let rest = kept_probes(
                        self@,
                        found@.skip(i + 1),
                        shift as int,
                        span_end(self@, p as int),
                    );
                    assert(kept + (seq![p as int] + rest) =~= kept.push(p as int) + rest);
                    kept = kept.push(p as int);
                }
                out.push(name);
                last_end = end;
            }
            i += 1;
        }
        proof {
            assert(found@.skip(found@.len() as int) =~= Seq::<usize>::empty());
            assert(kept + Seq::<int>::empty() =~= kept);
        }
        out
    }

    /// The names that own the offsets `found[i] + shift`, one for each
    /// offset, repeated or not.
    pub fn owners_each<'a>(&'a self, found: &[usize], shift: usize) -> (out: Vec<&'a str>)
        requires
            self.wf(),
            forall|i: int| 0 <= i < found@.len() ==> #[trigger] found@[i] + shift < self@.len(),
        ensures
            resolves(self@, out@, all_probes(found@, shift as int)),
    {
        let n = self.pool.len();
        let mut out: Vec<&'a str> = Vec::new();
        let mut i: usize = 0;
        while i < found.len()
            invariant
                self.wf(),
                n == self@.len(),
                i <= found@.len(),
                forall|k: int| 0 <= k < found@.len() ==> #[trigger] found@[k] + shift < self@.len(),
                resolves(self@, out@, all_probes(found@, shift as int).take(i as int)),
            decreases found@.len() - i,
        {
            let x = found[i];
            assert(found@[i as int] + shift < self@.len());
            let (_, name) = self.get(x + shift);
            proof {
                assert(all_probes(found@, shift as int).take(i + 1) =~= all_probes(
                    found@,
                    shift as int,
                ).take(i as int).push(x + shift));
            }
            out.push(name);
            i += 1;
        }
        proof {
            assert(all_probes(found@, shift as int).take(found@.len() as int) =~= all_probes(
                found@,
                shift as int,
            ));
        }
        out
    }

    /// The names in which `substr` occurs, in the order in which they were
    /// pushed, each once.
    pub fn search_substr<'a>(&'a self, substr: &str) -> (out: Vec<&'a str>)
        requires
            self.wf(),
        ensures
            is_match_list(self@, substr.spec_bytes(), match_list(self@, substr.spec_bytes())),
            resolves(
                self@,
                out@,
                kept_probes(self@, match_list(self@, substr.spec_bytes()), 0, 0),
            ),
    {
        let found = find_matches(self.pool.as_slice(), substr.as_bytes());
        self.owners(found.as_slice(), 0)
    }

    /// The names in which the bytes `subslice` occur, in the order in which
    /// they were pushed, each once.
    pub fn search_subslice<'a>(&'a self, subslice: &[u8]) -> (out: Vec<&'a str>)
        requires
            self.wf(),
        ensures
            is_match_list(self@, subslice@, match_list(self@, subslice@)),
            resolves(self@, out@, kept_probes(self@, match_list(self@, subslice@), 0, 0)),
    {
        let found = find_matches(self.pool.as_slice(), subslice);
        self.owners(found.as_slice(), 0)
    }

    /// The names that end with a suffix. `suffix` is the suffix followed by
    /// the guard byte, as in `b"world\0"`.
    pub fn search_suffix<'a>(&'a self, suffix: &[u8]) -> (out: Vec<&'a str>)
        requires
            self.wf(),
            suffix@.len() > 0,
            suffix@.last() == GUARD,
        ensures
            is_match_list(self@, suffix@, match_list(self@, suffix@)),
            resolves(self@, out@, kept_probes(self@, match_list(self@, suffix@), 0, 0)),
    {
        let found = find_matches(self.pool.as_slice(), suffix);
        self.owners(found.as_slice(), 0)
    }

    /// The names that begin with a prefix. `prefix` is the guard byte
    /// followed by the prefix, as in `b"\0hello"`.
    pub fn search_prefix<'a>(&'a self, prefix: &[u8]) -> (out: Vec<&'a str>)
        requires
            self.wf(),
            prefix@.len() > 0,
            prefix@[0] == GUARD,
        ensures
            is_match_list(self@, prefix@, match_list(self@, prefix@)),
            resolves(
                self@,
                out@,
                kept_probes(self@, match_list(self@, prefix@), prefix@.len() - 1, 0),
            ),
    {
        let found = find_matches(self.pool.as_slice(), prefix);
        // A match begins at the guard in front of a name. The probe is the
        // last byte of the match, which lies within that name.
        self.owners(found.as_slice(), prefix.len() - 1)
    }

    /// The names that are equal to a given one, in the order in which they
    /// were pushed, and a name that was pushed several times as often as it
    /// was pushed. `exact` is that name between two guard bytes, as in
    /// `b"\0hello\0"`.
    pub fn search_exact<'a>(&'a self, exact: &[u8]) -> (out: Vec<&'a str>)
        requires
            self.wf(),
            exact@.len() > 0,
            exact@[0] == GUARD,
            exact@.last() == GUARD,
        ensures
            resolves(self@, out@, all_probes(occurrences(self@, exact@), exact@.len() - 1)),
            exact@.len() >= 2 && guard_free(exact@.subrange(1, exact@.len() - 1))
                ==> lists_names_equal(
                self@,
                exact@.subrange(1, exact@.len() - 1),
                occurrences(self@, exact@),
            ),
    {
        let bound = self.pool.len();
        let found = find_occurrences(self.pool.as_slice(), exact);
        proof {
            lemma_occurrences(self@, exact@);
            if exact@.len() >= 2 && guard_free(exact@.subrange(1, exact@.len() - 1)) {
                let text = exact@.subrange(1, exact@.len() - 1);
                assert(exact@ =~= seq![GUARD] + text + seq![GUARD]);
                lemma_exact_search(self@, text);
            }
        }
        assert forall|i: int| 0 <= i < found@.len() implies #[trigger] found@[i] + (exact.len()
            - 1) < self@.len() by {
            assert(occurs_at(self@, exact@, found@[i] as int));
        }
        self.owners_each(found.as_slice(), exact.len() - 1)
    }
}

} // verus!
