//! Byte-lexicographic order on byte strings, as the underlying ordered store
//! compares its raw keys, with the lemmas the codec's ordering laws rest on.

use vstd::prelude::*;

verus! {

/// Strict lexicographic order on byte strings: the empty string comes first,
/// otherwise the first differing byte decides, and a proper prefix precedes
/// every extension of it.
pub open spec fn lex_lt(a: Seq<u8>, b: Seq<u8>) -> bool
    decreases a.len(),
{
    if b.len() == 0 {
        false
    } else if a.len() == 0 {
        true
    } else if a[0] < b[0] {
        true
    } else if a[0] > b[0] {
        false
    } else {
        lex_lt(a.skip(1), b.skip(1))
    }
}

pub open spec fn lex_le(a: Seq<u8>, b: Seq<u8>) -> bool {
    lex_lt(a, b) || a == b
}

/// `a` is a (not necessarily proper) prefix of `b`.
pub open spec fn is_prefix_of(a: Seq<u8>, b: Seq<u8>) -> bool {
    a.len() <= b.len() && b.take(a.len() as int) == a
}

pub proof fn lemma_lex_irrefl(a: Seq<u8>)
    ensures
        !lex_lt(a, a),
    decreases a.len(),
{
    if a.len() > 0 {
        lemma_lex_irrefl(a.skip(1));
    }
}

pub proof fn lemma_lex_total(a: Seq<u8>, b: Seq<u8>)
    ensures
        lex_lt(a, b) || lex_lt(b, a) || a == b,
    decreases a.len(),
{
    if a.len() == 0 && b.len() == 0 {
        assert(a =~= b);
    } else if a.len() > 0 && b.len() > 0 && a[0] == b[0] {
        lemma_lex_total(a.skip(1), b.skip(1));
        if a.skip(1) == b.skip(1) {
            assert(a.skip(1).len() == a.len() - 1);
            assert(b.skip(1).len() == b.len() - 1);
            assert forall|i: int| 0 <= i < a.len() implies a[i] == b[i] by {
                if i >= 1 {
                    assert(a[i] == a.skip(1)[i - 1]);
                    assert(b[i] == b.skip(1)[i - 1]);
                }
            }
            assert(a =~= b);
        }
    }
}

pub proof fn lemma_lex_asym(a: Seq<u8>, b: Seq<u8>)
    requires
        lex_lt(a, b),
    ensures
        !lex_lt(b, a),
    decreases a.len(),
{
    if a.len() > 0 && b.len() > 0 && a[0] == b[0] {
        lemma_lex_asym(a.skip(1), b.skip(1));
    }
}

pub proof fn lemma_lex_trans(a: Seq<u8>, b: Seq<u8>, c: Seq<u8>)
    requires
        lex_lt(a, b),
        lex_lt(b, c),
    ensures
        lex_lt(a, c),
    decreases a.len(),
{
    if a.len() > 0 && b.len() > 0 && c.len() > 0 && a[0] == b[0] && b[0] == c[0] {
        lemma_lex_trans(a.skip(1), b.skip(1), c.skip(1));
    }
}

/// Appending a common prefix on the left does not change the order.
pub proof fn lemma_lex_append_cancel(a: Seq<u8>, c: Seq<u8>, d: Seq<u8>)
    ensures
        lex_lt(a + c, a + d) == lex_lt(c, d),
    decreases a.len(),
{
    if a.len() == 0 {
        assert(a + c =~= c);
        assert(a + d =~= d);
    } else {
        lemma_lex_append_cancel(a.skip(1), c, d);
        assert((a + c).skip(1) =~= a.skip(1) + c);
        assert((a + d).skip(1) =~= a.skip(1) + d);
        assert((a + c)[0] == a[0] && (a + d)[0] == a[0]);
    }
}

/// A proper prefix sorts strictly before every extension of it.
pub proof fn lemma_lex_proper_prefix_lt(a: Seq<u8>, b: Seq<u8>)
    requires
        is_prefix_of(a, b),
        a.len() < b.len(),
    ensures
        lex_lt(a, b),
{
    let rest = b.skip(a.len() as int);
    assert(b =~= a + rest);
    assert(a =~= a + Seq::<u8>::empty());
    lemma_lex_append_cancel(a, Seq::<u8>::empty(), rest);
    assert(lex_lt(Seq::<u8>::empty(), rest));
}

/// If two strings agree on their first `i` bytes and differ in `a`'s favour at
/// index `i`, then `a` sorts strictly before `b`.
pub proof fn lemma_lex_from_diff(a: Seq<u8>, b: Seq<u8>, i: int)
    requires
        0 <= i < a.len(),
        i < b.len(),
        a.take(i) == b.take(i),
        a[i] < b[i],
    ensures
        lex_lt(a, b),
    decreases i,
{
    if i == 0 {
    } else {
        assert(a[0] == a.take(i)[0] && b[0] == b.take(i)[0]);
        assert(a.skip(1).take(i - 1) =~= b.skip(1).take(i - 1)) by {
            assert(forall|j: int| 0 <= j < i - 1 ==>
                #[trigger] a.skip(1).take(i - 1)[j] == a.take(i)[j + 1]);
            assert(forall|j: int| 0 <= j < i - 1 ==>
                #[trigger] b.skip(1).take(i - 1)[j] == b.take(i)[j + 1]);
        }
        assert(a.skip(1)[i - 1] == a[i] && b.skip(1)[i - 1] == b[i]);
        lemma_lex_from_diff(a.skip(1), b.skip(1), i - 1);
    }
}

/// A string sorts strictly before another exactly when it is a proper prefix
/// of it, or the two differ somewhere after a common prefix: this turns the
/// recursive order into a witness for the first differing index.
pub proof fn lemma_lex_lt_characterize(a: Seq<u8>, b: Seq<u8>)
    requires
        lex_lt(a, b),
    ensures
        (is_prefix_of(a, b) && a.len() < b.len()) || exists|i: int|
            0 <= i < a.len() && i < b.len() && a.take(i) == b.take(i) && a[i] < b[i],
    decreases a.len(),
{
    if a.len() == 0 {
        assert(b.take(a.len() as int) =~= a);
    } else if a[0] < b[0] {
        assert(a.take(0) =~= b.take(0));
        assert(0 <= 0 < a.len() && 0 < b.len() && a.take(0) == b.take(0) && a[0] < b[0]);
    } else {
        lemma_lex_lt_characterize(a.skip(1), b.skip(1));
        if is_prefix_of(a.skip(1), b.skip(1)) && a.skip(1).len() < b.skip(1).len() {
            assert(b.take(a.len() as int) =~= a) by {
                assert(forall|j: int| 1 <= j < a.len() ==>
                    #[trigger] b[j] == b.skip(1).take(a.skip(1).len() as int)[j - 1]);
                assert(forall|j: int| 1 <= j < a.len() ==>
                    #[trigger] a[j] == a.skip(1)[j - 1]);
            }
        } else {
            let i = choose|i: int|
                0 <= i < a.skip(1).len() && i < b.skip(1).len() && a.skip(1).take(i) == b.skip(
                    1,
                ).take(i) && a.skip(1)[i] < b.skip(1)[i];
            assert(a.take(i + 1) =~= b.take(i + 1)) by {
                assert(forall|j: int| 1 <= j < i + 1 ==>
                    #[trigger] a.take(i + 1)[j] == a.skip(1).take(i)[j - 1]);
                assert(forall|j: int| 1 <= j < i + 1 ==>
                    #[trigger] b.take(i + 1)[j] == b.skip(1).take(i)[j - 1]);
            }
            assert(a[i + 1] == a.skip(1)[i] && b[i + 1] == b.skip(1)[i]);
            assert(0 <= i + 1 < a.len() && i + 1 < b.len() && a.take(i + 1) == b.take(i + 1)
                && a[i + 1] < b[i + 1]);
        }
    }
}

/// Anything sorted between two strings that share a common prefix shares that
/// prefix as well.
pub proof fn lemma_lex_between_common_prefix(lo: Seq<u8>, mid: Seq<u8>, hi: Seq<u8>, p: int)
    requires
        lex_le(lo, mid),
        lex_le(mid, hi),
        0 <= p <= lo.len(),
        p <= hi.len(),
        lo.take(p) == hi.take(p),
    ensures
        p <= mid.len(),
        mid.take(p) == lo.take(p),
    decreases p,
{
    if p == 0 {
        assert(mid.take(0) =~= lo.take(0));
    } else {
        assert(lo[0] == lo.take(p)[0] && hi[0] == hi.take(p)[0]);
        if mid.len() == 0 {
            assert(!lex_lt(lo, mid));
            assert(lo != mid);
            assert(false);
        }
        if mid[0] < lo[0] {
            assert(!lex_lt(lo, mid));
            assert(lo != mid);
            assert(false);
        }
        if mid[0] > hi[0] {
            assert(!lex_lt(mid, hi));
            assert(mid != hi);
            assert(false);
        }
        assert(mid[0] == lo[0]);
        assert(lex_le(lo.skip(1), mid.skip(1))) by {
            if lo == mid {
                assert(lo.skip(1) == mid.skip(1));
            }
        }
        assert(lex_le(mid.skip(1), hi.skip(1))) by {
            if mid == hi {
                assert(mid.skip(1) == hi.skip(1));
            }
        }
        assert(lo.skip(1).take(p - 1) =~= hi.skip(1).take(p - 1)) by {
            assert(forall|j: int| 0 <= j < p - 1 ==>
                #[trigger] lo.skip(1).take(p - 1)[j] == lo.take(p)[j + 1]);
            assert(forall|j: int| 0 <= j < p - 1 ==>
                #[trigger] hi.skip(1).take(p - 1)[j] == hi.take(p)[j + 1]);
        }
        lemma_lex_between_common_prefix(lo.skip(1), mid.skip(1), hi.skip(1), p - 1);
        assert(mid.take(p) =~= lo.take(p)) by {
            assert(forall|j: int| 1 <= j < p ==>
                #[trigger] mid.take(p)[j] == mid.skip(1).take(p - 1)[j - 1]);
            assert(forall|j: int| 1 <= j < p ==>
                #[trigger] lo.take(p)[j] == lo.skip(1).take(p - 1)[j - 1]);
        }
    }
}

/// Exact comparator for the strict order `lex_lt`.
pub fn bytes_lt(a: &[u8], b: &[u8]) -> (r: bool)
    ensures
        r == lex_lt(a@, b@),
{
    let mut i: usize = 0;
    while i < a.len() && i < b.len()
        invariant
            i <= a@.len(),
            i <= b@.len(),
            a@.take(i as int) == b@.take(i as int),
        decreases a@.len() - i,
    {
        if a[i] < b[i] {
            proof {
                lemma_lex_from_diff(a@, b@, i as int);
            }
            return true;
        }
        if a[i] > b[i] {
            proof {
                lemma_lex_from_diff(b@, a@, i as int);
                lemma_lex_asym(b@, a@);
            }
            return false;
        }
        proof {
            assert(a@.take(i + 1) =~= b@.take(i + 1));
        }
        i = i + 1;
    }
    if a.len() < b.len() {
        proof {
            assert(is_prefix_of(a@, b@)) by {
                assert(b@.take(a@.len() as int) =~= a@);
            }
            lemma_lex_proper_prefix_lt(a@, b@);
        }
        true
    } else if a.len() > b.len() {
        proof {
            assert(is_prefix_of(b@, a@)) by {
                assert(a@.take(b@.len() as int) =~= b@);
            }
            lemma_lex_proper_prefix_lt(b@, a@);
            lemma_lex_asym(b@, a@);
        }
        false
    } else {
        proof {
            assert(a@.take(i as int) =~= a@);
            assert(b@.take(i as int) =~= b@);
            lemma_lex_irrefl(a@);
        }
        false
    }
}

/// Exact byte-string equality test.
pub fn bytes_eq(a: &[u8], b: &[u8]) -> (r: bool)
    ensures
        r == (a@ == b@),
{
    if a.len() != b.len() {
        return false;
    }
    let mut i: usize = 0;
    while i < a.len()
        invariant
            i <= a@.len(),
            a@.len() == b@.len(),
            a@.take(i as int) == b@.take(i as int),
        decreases a@.len() - i,
    {
        if a[i] != b[i] {
            return false;
        }
        proof {
            assert(a@.take(i + 1) =~= b@.take(i + 1));
        }
        i = i + 1;
    }
    proof {
        assert(a@.take(i as int) =~= a@);
        assert(b@.take(i as int) =~= b@);
    }
    true
}

/// Exact comparator for the reflexive order `lex_le`.
pub fn bytes_le(a: &[u8], b: &[u8]) -> (r: bool)
    ensures
        r == lex_le(a@, b@),
{
    let r = bytes_lt(b, a);
    proof {
        if lex_lt(b@, a@) {
            lemma_lex_asym(b@, a@);
            lemma_lex_irrefl(a@);
        } else {
            lemma_lex_total(a@, b@);
        }
    }
    !r
}

} // verus!
