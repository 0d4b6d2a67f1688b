//! Substring search over bytes.

use vstd::prelude::*;
use vstd::slice::slice_subrange;

verus! {

/// Whether `needle` stands in `hay` at position `p`.
pub open spec fn occurs_at(hay: Seq<u8>, needle: Seq<u8>, p: int) -> bool {
    &&& 0 <= p
    &&& p + needle.len() <= hay.len()
    &&& hay.subrange(p, p + needle.len()) == needle
}

/// How far the search moves on behind a match: the length of the needle,
/// and one byte for the empty needle.
pub open spec fn stride(needle: Seq<u8>) -> int {
    if needle.len() == 0 {
        1
    } else {
        needle.len() as int
    }
}

/// Whether `found` lists the occurrences of `needle` in `hay` that do not
/// overlap, from the left: each entry is an occurrence, each begins behind
/// the end of the one before, and every occurrence there is begins within
/// a listed one.
pub open spec fn is_match_list(hay: Seq<u8>, needle: Seq<u8>, found: Seq<usize>) -> bool {
    &&& forall|i: int| 0 <= i < found.len() ==> occurs_at(hay, needle, #[trigger] found[i] as int)
    &&& forall|i: int, j: int|
        0 <= i < j < found.len() ==> #[trigger] found[i] + stride(needle) <= #[trigger] found[j]
    &&& forall|p: int| #[trigger]
        occurs_at(hay, needle, p) ==> exists|i: int|
            0 <= i < found.len() && #[trigger] found[i] <= p < found[i] + stride(needle)
}

/// The positions that a search for `needle` in `hay` reports: the one list
/// of matches there is.
pub open spec fn match_list(hay: Seq<u8>, needle: Seq<u8>) -> Seq<usize> {
    choose|found: Seq<usize>| is_match_list(hay, needle, found)
}

/// Two lists of the matches of one needle in one haystack agree as far as
/// both reach.
proof fn lemma_match_lists_agree(hay: Seq<u8>, needle: Seq<u8>, a: Seq<usize>, b: Seq<usize>, n: int)
    requires
        is_match_list(hay, needle, a),
        is_match_list(hay, needle, b),
        0 <= n <= a.len(),
        n <= b.len(),
    ensures
        forall|i: int| 0 <= i < n ==> a[i] == b[i],
    decreases n,
{
    if n > 0 {
        lemma_match_lists_agree(hay, needle, a, b, n - 1);
        let i = n - 1;
        lemma_not_behind(hay, needle, a, b, i);
        lemma_not_behind(hay, needle, b, a, i);
    }
}

/// Where two lists of matches agree on their first `i` entries, entry `i`
/// of the second does not come behind entry `i` of the first.
proof fn lemma_not_behind(hay: Seq<u8>, needle: Seq<u8>, a: Seq<usize>, b: Seq<usize>, i: int)
    requires
        is_match_list(hay, needle, a),
        is_match_list(hay, needle, b),
        0 <= i < a.len(),
        i < b.len(),
        forall|x: int| 0 <= x < i ==> a[x] == b[x],
    ensures
        b[i] <= a[i],
{
    assert(occurs_at(hay, needle, a[i] as int));
    let j = choose|j: int| 0 <= j < b.len() && #[trigger] b[j] <= a[i] < b[j] + stride(needle);
    if j < i {
        assert(a[j] == b[j]);
        assert(a[j] + stride(needle) <= a[i]);
    } else if j > i {
        assert(b[i] + stride(needle) <= b[j]);
    }
}

/// There is but one list of the matches of a needle in a haystack.
pub proof fn lemma_match_list_unique(hay: Seq<u8>, needle: Seq<u8>, a: Seq<usize>, b: Seq<usize>)
    requires
        is_match_list(hay, needle, a),
        is_match_list(hay, needle, b),
    ensures
        a == b,
{
    let n = if a.len() <= b.len() { a.len() as int } else { b.len() as int };
    lemma_match_lists_agree(hay, needle, a, b, n);
    lemma_no_more(hay, needle, a, b);
    lemma_no_more(hay, needle, b, a);
    assert(a =~= b);
}

/// A list of matches does not go on behind another that it agrees with.
proof fn lemma_no_more(hay: Seq<u8>, needle: Seq<u8>, a: Seq<usize>, b: Seq<usize>)
    requires
        is_match_list(hay, needle, a),
        is_match_list(hay, needle, b),
        forall|x: int| 0 <= x < a.len() && x < b.len() ==> a[x] == b[x],
    ensures
        a.len() <= b.len(),
{
    if b.len() < a.len() {
        let n = b.len() as int;
        assert(occurs_at(hay, needle, a[n] as int));
        let j = choose|j: int| 0 <= j < b.len() && #[trigger] b[j] <= a[n] < b[j] + stride(needle);
        assert(a[j] == b[j]);
        assert(a[j] + stride(needle) <= a[n]);
    }
}

/// Calls `memchr::memmem::find_iter` and collects what it yields. That
/// iterator is documented to yield all non-overlapping occurrences of the
/// needle; its `next` searches for the first occurrence at or behind its
/// position and then moves its position behind that occurrence, by one byte
/// for an empty needle. The contract states just that.
#[verifier::external_body]
fn find_all(hay: &[u8], needle: &[u8]) -> (found: Vec<usize>)
    ensures
        is_match_list(hay@, needle@, found@),
{
    memchr::memmem::find_iter(hay, needle).collect()
}

/// The matches of `needle` in `hay` that do not overlap, from the left.
pub fn find_matches(hay: &[u8], needle: &[u8]) -> (found: Vec<usize>)
    ensures
        found@ == match_list(hay@, needle@),
        is_match_list(hay@, needle@, found@),
{
    let found = find_all(hay, needle);
    proof {
        lemma_match_list_unique(hay@, needle@, found@, match_list(hay@, needle@));
    }
    found
}

/// The positions below `n` at which `needle` stands in `hay`, from the
/// left. Occurrences may overlap.
pub open spec fn occurrences_below(hay: Seq<u8>, needle: Seq<u8>, n: int) -> Seq<usize>
    decreases n,
{
    if n <= 0 {
        Seq::empty()
    } else if occurs_at(hay, needle, n - 1) {
        occurrences_below(hay, needle, n - 1).push((n - 1) as usize)
    } else {
        occurrences_below(hay, needle, n - 1)
    }
}

/// All the positions at which `needle` stands in `hay`, from the left.
pub open spec fn occurrences(hay: Seq<u8>, needle: Seq<u8>) -> Seq<usize> {
    occurrences_below(hay, needle, hay.len() as int + 1)
}

/// The occurrences below `n` are occurrences, go up from one to the next,
/// and leave out no occurrence below `n`.
pub proof fn lemma_occurrences_below(hay: Seq<u8>, needle: Seq<u8>, n: int)
    requires
        hay.len() <= usize::MAX,
    ensures
        forall|i: int|
            0 <= i < occurrences_below(hay, needle, n).len() ==> occurs_at(
                hay,
                needle,
                #[trigger] occurrences_below(hay, needle, n)[i] as int,
            ) && occurrences_below(hay, needle, n)[i] < n,
        forall|i: int, j: int|
            0 <= i < j < occurrences_below(hay, needle, n).len() ==> #[trigger] occurrences_below(
                hay,
                needle,
                n,
            )[i] < #[trigger] occurrences_below(hay, needle, n)[j],
        forall|p: int| #[trigger]
            occurs_at(hay, needle, p) && p < n ==> occurrences_below(hay, needle, n).contains(
                p as usize,
            ),
    decreases n,
{
    let all = occurrences_below(hay, needle, n);
    if n > 0 {
        lemma_occurrences_below(hay, needle, n - 1);
        let before = occurrences_below(hay, needle, n - 1);
        assert forall|p: int| #[trigger] occurs_at(hay, needle, p) && p < n implies all.contains(
            p as usize,
        ) by {
            if p < n - 1 {
                assert(before.contains(p as usize));
                let i = choose|i: int| 0 <= i < before.len() && before[i] == p as usize;
                assert(all[i] == p as usize);
            } else {
                assert(all[all.len() - 1] == p as usize);
            }
        }
    }
}

/// All the occurrences are occurrences, go up from one to the next, and
/// leave out no occurrence.
pub proof fn lemma_occurrences(hay: Seq<u8>, needle: Seq<u8>)
    requires
        hay.len() <= usize::MAX,
    ensures
        forall|i: int|
            0 <= i < occurrences(hay, needle).len() ==> occurs_at(
                hay,
                needle,
                #[trigger] occurrences(hay, needle)[i] as int,
            ),
        forall|i: int, j: int|
            0 <= i < j < occurrences(hay, needle).len() ==> #[trigger] occurrences(hay, needle)[i]
                < #[trigger] occurrences(hay, needle)[j],
        forall|p: int| #[trigger]
            occurs_at(hay, needle, p) ==> occurrences(hay, needle).contains(p as usize),
{
    lemma_occurrences_below(hay, needle, hay.len() as int + 1);
}

/// Where `needle` stands nowhere from `from` up to `to`, the occurrences
/// below `to` are those below `from`.
proof fn lemma_none_between(hay: Seq<u8>, needle: Seq<u8>, from: int, to: int)
    requires
        from <= to,
        forall|q: int| from <= q < to ==> !occurs_at(hay, needle, q),
    ensures
        occurrences_below(hay, needle, to) == occurrences_below(hay, needle, from),
    decreases to - from,
{
    if from < to {
        lemma_none_between(hay, needle, from, to - 1);
    }
}

/// An occurrence in what is left of `hay` from `from` on is an occurrence
/// in `hay`, `from` bytes further on.
proof fn lemma_occurs_in_rest(hay: Seq<u8>, needle: Seq<u8>, from: int, q: int)
    requires
        0 <= from <= hay.len(),
        0 <= q,
    ensures
        occurs_at(hay.subrange(from, hay.len() as int), needle, q) <==> occurs_at(
            hay,
            needle,
            from + q,
        ),
{
    let rest = hay.subrange(from, hay.len() as int);
    if q + needle.len() <= rest.len() {
        assert(rest.subrange(q, q + needle.len()) =~= hay.subrange(
            from + q,
            from + q + needle.len(),
        ));
    }
}

/// Calls `memchr::memmem::find`, which is documented to return the index
/// of the first occurrence of the needle, and nothing where there is none.
#[verifier::external_body]
fn find_first(hay: &[u8], needle: &[u8]) -> (r: Option<usize>)
    ensures
        match r {
            Some(p) => occurs_at(hay@, needle@, p as int) && forall|q: int|
                0 <= q < p ==> !occurs_at(hay@, needle@, q),
            None => forall|q: int| !occurs_at(hay@, needle@, q),
        },
{
    memchr::memmem::find(hay, needle)
}

/// All the positions at which `needle` stands in `hay`, from the left,
/// those that overlap an earlier one too. The search is taken up again one
/// byte behind the beginning of each occurrence that it finds.
pub fn find_occurrences(hay: &[u8], needle: &[u8]) -> (found: Vec<usize>)
    ensures
        found@ == occurrences(hay@, needle@),
{
    let n = hay.len();
    let mut found: Vec<usize> = Vec::new();
    let mut pos: usize = 0;
    loop
        invariant_except_break
            found@ == occurrences_below(hay@, needle@, pos as int),
        invariant
            n == hay@.len(),
            pos <= n,
        ensures
            found@ == occurrences(hay@, needle@),
        decreases n - pos,
    {
        let rest = slice_subrange(hay, pos, n);
        let first = find_first(rest, needle);
        match first {
            None => {
                proof {
                    assert forall|q: int| pos <= q < n + 1 implies !occurs_at(hay@, needle@, q) by {
                        lemma_occurs_in_rest(hay@, needle@, pos as int, q - pos);
                    }
                    lemma_none_between(hay@, needle@, pos as int, n + 1);
                }
                break ;
            },
            Some(i) => {
                proof {
                    lemma_occurs_in_rest(hay@, needle@, pos as int, i as int);
                    assert forall|q: int| pos <= q < pos + i implies !occurs_at(
                        hay@,
                        needle@,
                        q,
                    ) by {
                        lemma_occurs_in_rest(hay@, needle@, pos as int, q - pos);
                    }
                    lemma_none_between(hay@, needle@, pos as int, pos + i);
                }
                let at = pos + i;
                found.push(at);
                if at >= n {
                    proof {
                        assert forall|q: int| at < q < n + 1 implies !occurs_at(
                            hay@,
                            needle@,
                            q,
                        ) by {}
                        lemma_none_between(hay@, needle@, at + 1, n + 1);
                    }
                    break ;
                }
                pos = at + 1;
            },
        }
    }
    found
}

} // verus!
