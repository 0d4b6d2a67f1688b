//! The order of names: byte by byte, a proper prefix before what it is a
//! prefix of.

use vstd::prelude::*;

verus! {

/// How one name stands to another in the order of names.
#[derive(Clone, Copy, Debug, PartialEq, Eq, Structural)]
pub enum Rank {
    Before,
    Same,
    After,
}

/// Whether `a` and `b` agree on their first `k` bytes and `a` is the lesser
/// from there: `a` ends at `k` and `b` goes on, or `a` has the lesser byte
/// at `k`.
pub open spec fn parts_at(a: Seq<u8>, b: Seq<u8>, k: int) -> bool {
    &&& 0 <= k <= a.len()
    &&& k <= b.len()
    &&& forall|i: int| 0 <= i < k ==> a[i] == b[i]
    &&& if k == a.len() {
        k < b.len()
    } else {
        k < b.len() && a[k] < b[k]
    }
}

/// Whether `a` comes before `b` in the order of names.
pub open spec fn bytes_lt(a: Seq<u8>, b: Seq<u8>) -> bool {
    exists|k: int| parts_at(a, b, k)
}

/// How `a` stands to `b`.
pub open spec fn rank_of(a: Seq<u8>, b: Seq<u8>) -> Rank {
    if a == b {
        Rank::Same
    } else if bytes_lt(a, b) {
        Rank::Before
    } else {
        Rank::After
    }
}

/// No name comes before itself, and of two names at most one comes before
/// the other.
pub proof fn lemma_lt_asymmetric(a: Seq<u8>, b: Seq<u8>)
    requires
        bytes_lt(a, b),
    ensures
        a != b,
        !bytes_lt(b, a),
{
    let k = choose|k: int| parts_at(a, b, k);
    if a == b {
        assert(false);
    }
    if bytes_lt(b, a) {
        let l = choose|l: int| parts_at(b, a, l);
        if k < l {
            assert(b[k] == a[k]);
        } else if l < k {
            assert(a[l] == b[l]);
        }
    }
}

/// The order of names is transitive.
pub proof fn lemma_lt_transitive(a: Seq<u8>, b: Seq<u8>, c: Seq<u8>)
    requires
        bytes_lt(a, b),
        bytes_lt(b, c),
    ensures
        bytes_lt(a, c),
{
    let k = choose|k: int| parts_at(a, b, k);
    let l = choose|l: int| parts_at(b, c, l);
    let m = if k <= l {
        k
    } else {
        l
    };
    assert forall|i: int| 0 <= i < m implies a[i] == c[i] by {
        assert(a[i] == b[i]);
        assert(b[i] == c[i]);
    }
    if k < l {
        assert(b[k] == c[k]);
    }
    if l < k {
        assert(a[l] == b[l]);
    }
    assert(parts_at(a, c, m));
}

/// Of two names that differ, one comes before the other.
pub proof fn lemma_lt_total(a: Seq<u8>, b: Seq<u8>)
    ensures
        a == b || bytes_lt(a, b) || bytes_lt(b, a),
{
    lemma_lt_total_from(a, b, 0);
}

proof fn lemma_lt_total_from(a: Seq<u8>, b: Seq<u8>, k: int)
    requires
        0 <= k <= a.len(),
        k <= b.len(),
        forall|i: int| 0 <= i < k ==> a[i] == b[i],
    ensures
        a == b || bytes_lt(a, b) || bytes_lt(b, a),
    decreases a.len() - k,
{
    if k == a.len() {
        if k == b.len() {
            assert(a =~= b);
        } else {
            assert(parts_at(a, b, k));
        }
    } else if k == b.len() {
        assert(parts_at(b, a, k));
    } else if a[k] < b[k] {
        assert(parts_at(a, b, k));
    } else if b[k] < a[k] {
        assert(parts_at(b, a, k));
    } else {
        lemma_lt_total_from(a, b, k + 1);
    }
}

/// Compares two names.
pub fn compare(a: &[u8], b: &[u8]) -> (r: Rank)
    ensures
        r == rank_of(a@, b@),
        r == Rank::After <==> bytes_lt(b@, a@),
{
    let mut k: usize = 0;
    while k < a.len() && k < b.len()
        invariant
            k <= a@.len(),
            k <= b@.len(),
            forall|i: int| 0 <= i < k ==> a@[i] == b@[i],
        decreases a@.len() - k,
    {
        if a[k] < b[k] {
            proof {
                assert(parts_at(a@, b@, k as int));
                lemma_lt_asymmetric(a@, b@);
            }
            return Rank::Before;
        }
        if a[k] > b[k] {
            proof {
                assert(parts_at(b@, a@, k as int));
                lemma_lt_asymmetric(b@, a@);
            }
            return Rank::After;
        }
        k += 1;
    }
    if k < b.len() {
        proof {
            assert(parts_at(a@, b@, k as int));
            lemma_lt_asymmetric(a@, b@);
        }
        Rank::Before
    } else if k < a.len() {
        proof {
            assert(parts_at(b@, a@, k as int));
            lemma_lt_asymmetric(b@, a@);
        }
        Rank::After
    } else {
        proof {
            assert(a@ =~= b@);
            if bytes_lt(b@, a@) {
                lemma_lt_asymmetric(b@, a@);
            }
        }
        Rank::Same
    }
}

} // verus!
