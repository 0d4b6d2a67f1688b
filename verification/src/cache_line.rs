//! A pool of names in a buffer of fixed size.
//!
//! The buffer is allocated once, filled with guard bytes, and never grows:
//! `push` fails when a name no longer fits. A name is handed out as the
//! offset at which it begins and its length, and both stay good for as long
//! as the pool lives. Searches run over the whole buffer, the unused part
//! included.

use crate::memmem::{
    find_matches, find_occurrences, is_match_list, lemma_occurrences, match_list, occurrences,
    occurs_at,
};
use crate::search::{all_probes, lemma_exact_search, lists_names_equal};
use crate::span::{guard_free, lemma_span, locate, span_begin, span_end, GUARD};
use itertools::Itertools;
use vstd::prelude::*;
use vstd::slice::slice_subrange;
use vstd::string::StringSliceAdditionalSpecFns;

verus! {

/// A name in the buffer: the offset at which it begins, and its length.
pub type Span = (usize, usize);

/// A name together with the offset of the guard that closes it.
pub type Hit = (usize, Span);

/// The name that owns offset `o` of the buffer `b`.
pub open spec fn hit_at(b: Seq<u8>, o: int) -> Hit {
    (
        span_end(b, o) as usize,
        (span_begin(b, o) as usize, (span_end(b, o) - span_begin(b, o)) as usize),
    )
}

/// The names that own the offsets `probes`, one for each offset.
pub open spec fn hits_of(b: Seq<u8>, probes: Seq<int>) -> Seq<Hit> {
    Seq::new(probes.len(), |i: int| hit_at(b, probes[i]))
}

/// A sequence of hits without repetitions in a row: of hits that follow one
/// another and end at the same guard, the first stays.
pub open spec fn dedup_runs(hits: Seq<Hit>) -> Seq<Hit>
    decreases hits.len(),
{
    if hits.len() <= 1 {
        hits
    } else if hits[0].0 == hits[1].0 {
        dedup_runs(seq![hits[0]] + hits.skip(2))
    } else {
        seq![hits[0]] + dedup_runs(hits.drop_first())
    }
}

/// The names of a sequence of hits.
pub open spec fn spans_of(hits: Seq<Hit>) -> Seq<Span> {
    Seq::new(hits.len(), |i: int| hits[i].1)
}

/// What a search reports for the matches `found`, each taken `shift` bytes
/// further on: the names that own those offsets, without repetitions in a
/// row.
pub open spec fn reported(b: Seq<u8>, found: Seq<usize>, shift: int) -> Seq<Span> {
    spans_of(dedup_runs(hits_of(b, all_probes(found, shift))))
}

/// Whether one of the hits ends at the guard `end`.
pub open spec fn has_end(hits: Seq<Hit>, end: usize) -> bool {
    exists|i: int| 0 <= i < hits.len() && (#[trigger] hits[i]).0 == end
}

/// Whether the guards at which the hits end never go back.
pub open spec fn ends_ascend(hits: Seq<Hit>) -> bool {
    forall|i: int, j: int| 0 <= i <= j < hits.len() ==> (#[trigger] hits[i]).0 <= (
    #[trigger] hits[j]).0
}

/// Where the hits come in the order of the buffer, what stays after the
/// repetitions in a row are taken out names no string twice: the hits that
/// stay end at guards further and further on, each is one of the hits
/// given, and each hit given ends where one that stays ends.
pub proof fn lemma_dedup_runs(hits: Seq<Hit>)
    requires
        ends_ascend(hits),
    ensures
        forall|k: int, l: int|
            0 <= k < l < dedup_runs(hits).len() ==> (#[trigger] dedup_runs(hits)[k]).0 < (
            #[trigger] dedup_runs(hits)[l]).0,
        forall|k: int|
            0 <= k < dedup_runs(hits).len() ==> hits.contains(#[trigger] dedup_runs(hits)[k]),
        forall|i: int| 0 <= i < hits.len() ==> has_end(dedup_runs(hits), (#[trigger] hits[i]).0),
        hits.len() > 0 ==> dedup_runs(hits).len() > 0 && dedup_runs(hits)[0] == hits[0],
    decreases hits.len(),
{
    let out = dedup_runs(hits);
    if hits.len() <= 1 {
        assert forall|i: int| 0 <= i < hits.len() implies has_end(out, (#[trigger] hits[i]).0) by {
            assert(out[i].0 == hits[i].0);
        }
    } else if hits[0].0 == hits[1].0 {
        let rest = seq![hits[0]] + hits.skip(2);
        assert forall|i: int, j: int| 0 <= i <= j < rest.len() implies (#[trigger] rest[i]).0 <= (
        #[trigger] rest[j]).0 by {
            let a = if i == 0 { 0 } else { i + 1 };
            let c = if j == 0 { 0 } else { j + 1 };
            assert(rest[i] == hits[a] && rest[j] == hits[c]);
        }
        lemma_dedup_runs(rest);
        assert(out == dedup_runs(rest));
        assert forall|k: int| 0 <= k < out.len() implies hits.contains(#[trigger] out[k]) by {
            assert(rest.contains(out[k]));
            let i = choose|i: int| 0 <= i < rest.len() && rest[i] == out[k];
            let a = if i == 0 { 0 } else { i + 1 };
            assert(hits[a] == out[k]);
        }
        assert forall|i: int| 0 <= i < hits.len() implies has_end(out, (#[trigger] hits[i]).0) by {
            if i <= 1 {
                assert(rest[0] == hits[0]);
                assert(has_end(out, rest[0].0));
            } else {
                assert(rest[i - 1] == hits[i]);
                assert(has_end(out, rest[i - 1].0));
            }
        }
    } else {
        let rest = hits.drop_first();
        assert forall|i: int, j: int| 0 <= i <= j < rest.len() implies (#[trigger] rest[i]).0 <= (
        #[trigger] rest[j]).0 by {
            assert(rest[i] == hits[i + 1] && rest[j] == hits[j + 1]);
        }
        lemma_dedup_runs(rest);
        let tail = dedup_runs(rest);
        assert(out == seq![hits[0]] + tail);
        assert forall|k: int| 0 <= k < out.len() implies hits.contains(#[trigger] out[k]) by {
            if k == 0 {
                assert(hits[0] == out[0]);
            } else {
                assert(out[k] == tail[k - 1]);
                assert(rest.contains(tail[k - 1]));
                let i = choose|i: int| 0 <= i < rest.len() && rest[i] == tail[k - 1];
                assert(hits[i + 1] == out[k]);
            }
        }
        assert forall|k: int, l: int| 0 <= k < l < out.len() implies (#[trigger] out[k]).0 < (
        #[trigger] out[l]).0 by {
            assert(out[l] == tail[l - 1]);
            if k == 0 {
                assert(rest.contains(tail[l - 1]));
                let i = choose|i: int| 0 <= i < rest.len() && rest[i] == tail[l - 1];
                assert(hits[i + 1] == out[l]);
                assert(hits[1].0 <= hits[i + 1].0);
                assert(hits[0].0 <= hits[1].0);
            } else {
                assert(out[k] == tail[k - 1]);
            }
        }
        assert forall|i: int| 0 <= i < hits.len() implies has_end(out, (#[trigger] hits[i]).0) by {
            if i == 0 {
                assert(out[0].0 == hits[0].0);
            } else {
                assert(rest[i - 1] == hits[i]);
                assert(has_end(tail, rest[i - 1].0));
                let k = choose|k: int| 0 <= k < tail.len() && (#[trigger] tail[k]).0 == hits[i].0;
                assert(out[k + 1] == tail[k]);
            }
        }
    }
}

/// The later of two offsets is owned by a name that ends no earlier.
pub proof fn lemma_span_end_ascends(b: Seq<u8>, o: int, p: int)
    requires
        0 <= o <= p <= b.len(),
    ensures
        span_end(b, o) <= span_end(b, p),
{
    lemma_span(b, o);
    lemma_span(b, p);
    if span_end(b, p) < span_end(b, o) {
        assert(b[span_end(b, p)] != GUARD);
    }
}

/// What a search reports for a list of matches names no string twice.
pub proof fn lemma_reported_once(b: Seq<u8>, needle: Seq<u8>, found: Seq<usize>, shift: int)
    requires
        is_match_list(b, needle, found),
        0 <= shift,
        forall|i: int| 0 <= i < found.len() ==> #[trigger] found[i] + shift <= b.len() <= usize::MAX,
    ensures
        forall|k: int, l: int|
            0 <= k < l < reported(b, found, shift).len() ==> (#[trigger] reported(
                b,
                found,
                shift,
            )[k]).0 + reported(b, found, shift)[k].1 < (#[trigger] reported(b, found, shift)[l]).0
                + reported(b, found, shift)[l].1,
{
    let probes = all_probes(found, shift);
    let hits = hits_of(b, probes);
    crate::search::lemma_matches_ascending(b, needle, found);
    assert forall|i: int, j: int| 0 <= i <= j < hits.len() implies (#[trigger] hits[i]).0 <= (
    #[trigger] hits[j]).0 by {
        assert(found[i] <= found[j]);
        lemma_span_end_ascends(b, probes[i], probes[j]);
        lemma_span(b, probes[i]);
        lemma_span(b, probes[j]);
    }
    lemma_dedup_runs(hits);
    let out = dedup_runs(hits);
    let spans = reported(b, found, shift);
    assert forall|k: int, l: int| 0 <= k < l < spans.len() implies (#[trigger] spans[k]).0
        + spans[k].1 < (#[trigger] spans[l]).0 + spans[l].1 by {
        assert(hits.contains(out[k]));
        assert(hits.contains(out[l]));
        let i = choose|i: int| 0 <= i < hits.len() && hits[i] == out[k];
        let j = choose|j: int| 0 <= j < hits.len() && hits[j] == out[l];
        lemma_span(b, probes[i]);
        lemma_span(b, probes[j]);
        assert(out[k].0 < out[l].0);
    }
}

/// Two offsets whose names end at the same guard are owned by one name.
proof fn lemma_same_end_same_name(b: Seq<u8>, o: int, p: int)
    requires
        0 <= o <= b.len(),
        0 <= p <= b.len(),
        span_end(b, o) == span_end(b, p),
    ensures
        span_begin(b, o) == span_begin(b, p),
{
    lemma_span(b, o);
    lemma_span(b, p);
    if span_begin(b, o) < span_begin(b, p) {
        assert(b[span_begin(b, p) - 1] != GUARD);
    }
    if span_begin(b, p) < span_begin(b, o) {
        assert(b[span_begin(b, o) - 1] != GUARD);
    }
}

/// What a search reports leaves no match out: the name that owns a match
/// is among the names reported.
pub proof fn lemma_reported_all(
    b: Seq<u8>,
    needle: Seq<u8>,
    found: Seq<usize>,
    shift: int,
    i: int,
)
    requires
        is_match_list(b, needle, found),
        0 <= shift,
        forall|i: int| 0 <= i < found.len() ==> #[trigger] found[i] + shift <= b.len() <= usize::MAX,
        0 <= i < found.len(),
    ensures
        reported(b, found, shift).contains(hit_at(b, found[i] + shift).1),
{
    let probes = all_probes(found, shift);
    let hits = hits_of(b, probes);
    crate::search::lemma_matches_ascending(b, needle, found);
    assert forall|x: int, y: int| 0 <= x <= y < hits.len() implies (#[trigger] hits[x]).0 <= (
    #[trigger] hits[y]).0 by {
        assert(found[x] <= found[y]);
        lemma_span_end_ascends(b, probes[x], probes[y]);
        lemma_span(b, probes[x]);
        lemma_span(b, probes[y]);
    }
    lemma_dedup_runs(hits);
    let out = dedup_runs(hits);
    assert(has_end(out, hits[i].0));
    let k = choose|k: int| 0 <= k < out.len() && (#[trigger] out[k]).0 == hits[i].0;
    assert(hits.contains(out[k]));
    let m = choose|m: int| 0 <= m < hits.len() && hits[m] == out[k];
    lemma_span(b, probes[i]);
    lemma_span(b, probes[m]);
    lemma_same_end_same_name(b, probes[i], probes[m]);
    assert(reported(b, found, shift)[k] == out[k].1);
}

/// A name that holds no guard byte is read back as it was pushed: in the
/// buffer that `push` leaves, the name stands at the offset handed out,
/// and that offset is owned by it.
pub proof fn lemma_push_then_get(before: Seq<u8>, used: int, name: Seq<u8>)
    requires
        1 <= used,
        used + name.len() < before.len(),
        before[used - 1] == GUARD,
        before[used + name.len()] == GUARD,
        forall|i: int| 0 <= i < name.len() ==> name[i] != GUARD,
    ensures
        ({
            let after = before.subrange(0, used) + name + before.subrange(
                used + name.len(),
                before.len() as int,
            );
            &&& after.len() == before.len()
            &&& after.subrange(used, used + name.len()) == name
            &&& span_begin(after, used) == used
            &&& span_end(after, used) == used + name.len()
        }),
{
    let after = before.subrange(0, used) + name + before.subrange(
        used + name.len(),
        before.len() as int,
    );
    let end = used + name.len();
    assert(after[used - 1] == before[used - 1]);
    assert(after[end] == before[end]);
    assert forall|j: int| used <= j < end implies after[j] != GUARD by {
        assert(after[j] == name[j - used]);
    }
    assert(crate::span::is_span(after, used, used, end));
    crate::span::lemma_span_unique(after, used, used, end);
    assert(after.subrange(used, end) =~= name);
}

/// The names of `len` bytes that begin behind the positions `found`.
pub open spec fn names_behind(found: Seq<usize>, len: int) -> Seq<Span> {
    Seq::new(found.len(), |i: int| ((found[i] + 1) as usize, len as usize))
}

/// Hits of which no two in a row end at the same guard all stay.
pub proof fn lemma_dedup_keeps_distinct(hits: Seq<Hit>)
    requires
        forall|i: int| 0 <= i < hits.len() - 1 ==> (#[trigger] hits[i]).0 != hits[i + 1].0,
    ensures
        dedup_runs(hits) == hits,
    decreases hits.len(),
{
    if hits.len() > 1 {
        let rest = hits.drop_first();
        assert(hits[0].0 != hits[1].0);
        assert forall|i: int| 0 <= i < rest.len() - 1 implies (#[trigger] rest[i]).0 != rest[i
            + 1].0 by {
            assert(rest[i] == hits[i + 1] && rest[i + 1] == hits[i + 2]);
        }
        lemma_dedup_keeps_distinct(rest);
        assert(seq![hits[0]] + rest =~= hits);
    }
}

/// Whether two hits end at the same guard.
pub fn same_end(a: &Hit, b: &Hit) -> (r: bool)
    ensures
        r == (a.0 == b.0),
{
    a.0 == b.0
}

/// Calls `Itertools::dedup_by` on the hits, with `same_end` to compare. The
/// adaptor is documented to remove duplicates from sections of consecutive
/// identical elements; it holds on to the first element of a section and
/// compares each later one with it.
#[verifier::external_body]
pub(crate) fn dedup_hits(hits: Vec<Hit>) -> (out: Vec<Hit>)
    ensures
        out@ == dedup_runs(hits@),
{
    hits.into_iter().dedup_by(|a, b| same_end(a, b)).collect()
}

/// A pool of names in a buffer of `CAPACITY` bytes.
pub struct CacheLine<const CAPACITY: usize> {
    // len: 9
    // data: b"\0aaa\0bbb\0"
    len: usize,
    data: Vec<u8>,
}

impl<const CAPACITY: usize> View for CacheLine<CAPACITY> {
    type V = Seq<u8>;

    /// The whole buffer.
    closed spec fn view(&self) -> Seq<u8> {
        self.data@
    }
}

impl<const CAPACITY: usize> CacheLine<CAPACITY> {
    /// How much of the buffer is in use, the leading guard included.
    pub closed spec fn used(&self) -> int {
        self.len as int
    }

    /// The buffer has its fixed size, its first byte is a guard, and so is
    /// every byte from the last one in use onwards.
    pub open spec fn wf(&self) -> bool {
        &&& self@.len() == CAPACITY
        &&& 1 <= self.used()
        &&& CAPACITY >= 1 ==> self.used() <= CAPACITY && self@[0] == GUARD
        &&& forall|j: int| self.used() - 1 <= j < CAPACITY ==> self@[j] == GUARD
    }

    /// A pool that holds no name: a buffer of guard bytes, the first of
    /// which is in use.
    pub fn new() -> (r: Self)
        ensures
            r.wf(),
            r.used() == 1,
            r@ == Seq::new(CAPACITY as nat, |i: int| GUARD),
    {
        let data = vec![GUARD; CAPACITY];
        proof {
            assert(data@ =~= Seq::new(CAPACITY as nat, |i: int| GUARD));
        }
        Self {
            len: 1,  // reserve a leading \0 guard
            data,
        }
    }

    /// How much of the buffer is in use, the leading guard included.
    pub fn len(&self) -> (r: usize)
        ensures
            r == self.used(),
    {
        self.len
    }

    /// The whole buffer.
    pub fn data(&self) -> (r: &[u8])
        ensures
            r@ == self@,
    {
        self.data.as_slice()
    }

    /// The bytes of a name.
    pub fn bytes(&self, span: Span) -> (r: &[u8])
        requires
            self.wf(),
            span.0 + span.1 <= CAPACITY,
        ensures
            r@ == self@.subrange(span.0 as int, span.0 + span.1),
    {
        slice_subrange(self.data.as_slice(), span.0, span.0 + span.1)
    }

    /// Stores `name` behind the names stored so far. Fails, and leaves the
    /// pool as it is, where the name and the guard that closes it do not
    /// fit in what is left of the buffer.
    pub fn push(&mut self, name: &str) -> (r: Option<Span>)
        requires
            old(self).wf(),
        ensures
            final(self).wf(),
            r is None <==> old(self).used() + name.spec_bytes().len() + 1 > CAPACITY,
            r is None ==> final(self)@ == old(self)@ && final(self).used() == old(self).used(),
            r matches Some(span) ==> {
                &&& span.0 == old(self).used()
                &&& span.1 == name.spec_bytes().len()
                &&& final(self).used() == old(self).used() + name.spec_bytes().len() + 1
                &&& final(self)@ == old(self)@.subrange(0, span.0 as int) + name.spec_bytes()
                    + old(self)@.subrange(span.0 + span.1, CAPACITY as int)
            },
    {
        let len = self.len;
        let bytes = name.as_bytes();
        let name_len = bytes.len();
        // reserve an ending \0 guard
        if len > CAPACITY || name_len >= CAPACITY - len {
            return None;
        }
        let mut i: usize = 0;
        while i < name_len
            invariant
                i <= name_len,
                len + name_len < CAPACITY,
                old(self).wf(),
                len == old(self).used(),
                self.len == len,
                bytes@ == name.spec_bytes(),
                name_len == bytes@.len(),
                self.data@.len() == CAPACITY,
                self.data@ == old(self)@.subrange(0, len as int) + bytes@.subrange(0, i as int)
                    + old(self)@.subrange(len + i, CAPACITY as int),
            decreases name_len - i,
        {
            self.data[len + i] = bytes[i];
            proof {
                assert(self.data@ =~= old(self)@.subrange(0, len as int) + bytes@.subrange(
                    0,
                    i + 1,
                ) + old(self)@.subrange(len + i + 1, CAPACITY as int));
            }
            i += 1;
        }
        proof {
            assert(bytes@.subrange(0, name_len as int) =~= bytes@);
        }
        self.len = len + name_len + 1;
        Some((len, name_len))
    }

    /// The name that owns `offset`, with the offset of the guard that closes
    /// it.
    pub fn get(&self, offset: usize) -> (r: Hit)
        requires
            self.wf(),
            offset < CAPACITY,
        ensures
            r == hit_at(self@, offset as int),
            r.1.0 <= offset <= r.0 <= CAPACITY,
            r.1.0 + r.1.1 == r.0,
    {
        // offset seperates string like this `\0 aaa\0 bbb\0 ccc\0`
        let (begin, end) = locate(self.data.as_slice(), offset);
        (end, (begin, end - begin))
    }

    /// The names that own the offsets `found[i] + shift`, without
    /// repetitions in a row.
    pub fn spans_of_matches(&self, found: &[usize], shift: usize) -> (out: Vec<Span>)
        requires
            self.wf(),
            forall|i: int| 0 <= i < found@.len() ==> #[trigger] found@[i] + shift <= CAPACITY,
        ensures
            out@ == reported(self@, found@, shift as int),
    {
        let ghost probes = all_probes(found@, shift as int);
        let mut hits: Vec<Hit> = Vec::new();
        let mut i: usize = 0;
        while i < found.len()
            invariant
                self.wf(),
                i <= found@.len(),
                probes == all_probes(found@, shift as int),
                forall|k: int| 0 <= k < found@.len() ==> #[trigger] found@[k] + shift <= CAPACITY,
                hits@ == hits_of(self@, probes.take(i as int)),
            decreases found@.len() - i,
        {
            assert(found@[i as int] + shift <= CAPACITY);
            let p = found[i] + shift;
            let (begin, end) = locate(self.data.as_slice(), p);
            proof {
                assert(probes.take(i + 1) =~= probes.take(i as int).push(p as int));
                assert(hits_of(self@, probes.take(i + 1)) =~= hits_of(
                    self@,
                    probes.take(i as int),
                ).push(hit_at(self@, p as int)));
            }
            hits.push((end, (begin, end - begin)));
            i += 1;
        }
        proof {
            assert(probes.take(found@.len() as int) =~= probes);
        }
        let kept = dedup_hits(hits);
        let mut out: Vec<Span> = Vec::new();
        let mut k: usize = 0;
        while k < kept.len()
            invariant
                k <= kept@.len(),
                out@ == spans_of(kept@.take(k as int)),
            decreases kept@.len() - k,
        {
            proof {
                assert(spans_of(kept@.take(k + 1)) =~= spans_of(kept@.take(k as int)).push(
                    kept@[k as int].1,
                ));
            }
            out.push(kept[k].1);
            k += 1;
        }
        proof {
            assert(kept@.take(kept@.len() as int) =~= kept@);
        }
        out
    }

    /// The names in which `substr` occurs.
    pub fn search_substr(&self, substr: &str) -> (out: Vec<Span>)
        requires
            self.wf(),
        ensures
            is_match_list(self@, substr.spec_bytes(), match_list(self@, substr.spec_bytes())),
            out@ == reported(self@, match_list(self@, substr.spec_bytes()), 0),
    {
        self.search_subslice(substr.as_bytes())
    }

    /// The names in which the bytes `subslice` occur.
    pub fn search_subslice(&self, subslice: &[u8]) -> (out: Vec<Span>)
        requires
            self.wf(),
        ensures
            is_match_list(self@, subslice@, match_list(self@, subslice@)),
            out@ == reported(self@, match_list(self@, subslice@), 0),
    {
        let found = find_matches(self.data.as_slice(), subslice);
        assert forall|i: int| 0 <= i < found@.len() implies #[trigger] found@[i] + 0
            <= CAPACITY by {
            assert(occurs_at(self@, subslice@, found@[i] as int));
        }
        self.spans_of_matches(found.as_slice(), 0)
    }

    /// The names that end with a suffix. `suffix` is the suffix followed by
    /// the guard byte, as in `b".txt\\0"`.
    pub fn search_suffix(&self, suffix: &[u8]) -> (out: Vec<Span>)
        requires
            self.wf(),
            suffix@.len() > 0,
            suffix@.last() == GUARD,
        ensures
            is_match_list(self@, suffix@, match_list(self@, suffix@)),
            out@ == reported(self@, match_list(self@, suffix@), 0),
    {
        self.search_subslice(suffix)
    }

    /// The names that begin with a prefix. `prefix` is the guard byte
    /// followed by the prefix, as in `b"\\0hel"`.
    pub fn search_prefix(&self, prefix: &[u8]) -> (out: Vec<Span>)
        requires
            self.wf(),
            prefix@.len() > 0,
            prefix@[0] == GUARD,
        ensures
            is_match_list(self@, prefix@, match_list(self@, prefix@)),
            out@ == reported(self@, match_list(self@, prefix@), prefix@.len() - 1),
    {
        let found = find_matches(self.data.as_slice(), prefix);
        assert forall|i: int| 0 <= i < found@.len() implies #[trigger] found@[i] + (prefix.len()
            - 1) <= CAPACITY by {
            assert(occurs_at(self@, prefix@, found@[i] as int));
        }
        // A match begins at the guard in front of a name. The probe is the
        // last byte of the match, which lies within that name.
        self.spans_of_matches(found.as_slice(), prefix.len() - 1)
    }

    /// The names that are equal to a given one, in the order of the
    /// buffer, and a name that was pushed several times as often as it was
    /// pushed. `exact` is that name between two guard bytes, as in
    /// `b"\0exact\0"`.
    pub fn search_exact(&self, exact: &[u8]) -> (out: Vec<Span>)
        requires
            self.wf(),
            exact@.len() > 0,
            exact@[0] == GUARD,
            exact@.last() == GUARD,
        ensures
            out@ == reported(self@, occurrences(self@, exact@), exact@.len() - 1),
            exact@.len() >= 2 && guard_free(exact@.subrange(1, exact@.len() - 1)) ==> {
                &&& lists_names_equal(
                    self@,
                    exact@.subrange(1, exact@.len() - 1),
                    occurrences(self@, exact@),
                )
                &&& out@ == names_behind(occurrences(self@, exact@), exact@.len() - 2)
            },
    {
        let found = find_occurrences(self.data.as_slice(), exact);
        proof {
            lemma_occurrences(self@, exact@);
        }
        assert forall|i: int| 0 <= i < found@.len() implies #[trigger] found@[i] + (exact.len()
            - 1) <= CAPACITY by {
            assert(occurs_at(self@, exact@, found@[i] as int));
        }
        proof {
            if exact@.len() >= 2 && guard_free(exact@.subrange(1, exact@.len() - 1)) {
                let text = exact@.subrange(1, exact@.len() - 1);
                let n = text.len() as int;
                assert(exact@ =~= seq![GUARD] + text + seq![GUARD]);
                if CAPACITY > 0 {
                    assert(self@[CAPACITY - 1] == GUARD);
                }
                lemma_exact_search(self@, text);
                let probes = all_probes(found@, exact@.len() - 1);
                let hits = hits_of(self@, probes);
                assert forall|i: int| 0 <= i < hits.len() implies #[trigger] hits[i] == (
                    (found@[i] + 1 + n) as usize,
                    ((found@[i] + 1) as usize, n as usize),
                ) by {
                    assert(probes[i] == found@[i] + 1 + n);
                    assert(occurs_at(self@, exact@, found@[i] as int));
                }
                assert forall|i: int| 0 <= i < hits.len() - 1 implies (#[trigger] hits[i]).0
                    != hits[i + 1].0 by {
                    assert(found@[i] < found@[i + 1]);
                    assert(hits[i + 1] == (
                        (found@[i + 1] + 1 + n) as usize,
                        ((found@[i + 1] + 1) as usize, n as usize),
                    ));
                }
                lemma_dedup_keeps_distinct(hits);
                assert(spans_of(hits) =~= names_behind(found@, n));
            }
        }
        self.spans_of_matches(found.as_slice(), exact.len() - 1)
    }
}

} // verus!
