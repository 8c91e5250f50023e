//! Byte-string order and prefix predicates: the vocabulary in which the
//! tree contracts speak about keys.

use vstd::prelude::*;

verus! {

/// The empty byte string.
pub open spec fn empty_bytes() -> Seq<u8> {
    Seq::empty()
}

/// `p` is a prefix of `s`.
pub open spec fn is_prefix_of(p: Seq<u8>, s: Seq<u8>) -> bool {
    p.len() <= s.len() && s.subrange(0, p.len() as int) == p
}

/// Strict byte-lexicographic order, the order in which a tree stores keys.
pub open spec fn lex_lt(a: Seq<u8>, b: Seq<u8>) -> bool
    decreases a.len(),
{
    if b.len() == 0 {
        false
    } else if a.len() == 0 {
        true
    } else if a[0] < b[0] {
        true
    } else if a[0] > b[0] {
        false
    } else {
        lex_lt(a.drop_first(), b.drop_first())
    }
}

pub open spec fn lex_le(a: Seq<u8>, b: Seq<u8>) -> bool {
    lex_lt(a, b) || a == b
}

pub proof fn lemma_lex_lt_irrefl(a: Seq<u8>)
    ensures
        !lex_lt(a, a),
    decreases a.len(),
{
    if a.len() > 0 {
        lemma_lex_lt_irrefl(a.drop_first());
    }
}

/// The empty string is below every key: a scan from it sees the whole tree.
pub proof fn lemma_lex_le_empty(a: Seq<u8>)
    ensures
        lex_le(Seq::<u8>::empty(), a),
{
    if a.len() == 0 {
        assert(Seq::<u8>::empty() =~= a);
    }
}

/// A string is a prefix of itself extended by anything.
pub proof fn lemma_prefix_concat(p: Seq<u8>, q: Seq<u8>)
    ensures
        is_prefix_of(p, p + q),
{
    assert((p + q).subrange(0, p.len() as int) =~= p);
}

/// An all-zero string is at or below every string at least as long.
pub proof fn lemma_lex_le_zeros(z: Seq<u8>, k: Seq<u8>)
    requires
        forall|i: int| 0 <= i < z.len() ==> z[i] == 0,
        z.len() <= k.len(),
    ensures
        lex_le(z, k),
    decreases z.len(),
{
    if z.len() == 0 {
        if k.len() == 0 {
            assert(z =~= k);
        }
    } else {
        if k[0] == 0 {
            lemma_lex_le_zeros(z.drop_first(), k.drop_first());
            if z.drop_first() == k.drop_first() {
                assert(z[0] == 0);
                assert forall|i: int| 0 <= i < z.len() implies z[i] == k[i] by {
                    if i > 0 {
                        assert(z.drop_first()[i - 1] == k.drop_first()[i - 1]);
                    }
                }
                assert(z =~= k);
            }
        }
    }
}

/// Strict order is decided past any shared prefix.
pub proof fn lemma_lex_lt_strip_prefix(p: Seq<u8>, x: Seq<u8>, y: Seq<u8>)
    requires
        lex_lt(p + x, p + y),
    ensures
        lex_lt(x, y),
    decreases p.len(),
{
    if p.len() == 0 {
        assert(p + x =~= x);
        assert(p + y =~= y);
    } else {
        assert((p + x).len() > 0 && (p + y).len() > 0);
        assert((p + x)[0] == p[0] && (p + y)[0] == p[0]);
        assert((p + x).drop_first() =~= p.drop_first() + x);
        assert((p + y).drop_first() =~= p.drop_first() + y);
        lemma_lex_lt_strip_prefix(p.drop_first(), x, y);
    }
}

/// Whether two byte vectors hold the same bytes.
pub fn bytes_eq(a: &Vec<u8>, b: &Vec<u8>) -> (r: bool)
    ensures
        r == (a@ == b@),
{
    if a.len() != b.len() {
        proof {
            assert(a@ != b@);
        }
        return false;
    }
    let mut i: usize = 0;
    while i < a.len()
        invariant
            i <= a@.len(),
            a@.len() == b@.len(),
            forall|j: int| 0 <= j < i ==> a@[j] == b@[j],
        decreases a@.len() - i,
    {
        if a[i] != b[i] {
            proof {
                assert(a@[i as int] != b@[i as int]);
            }
            return false;
        }
        i += 1;
    }
    proof {
        assert(a@ =~= b@);
    }
    true
}

} // verus!
