//! Lexicographic order on byte strings, used to keep target keys sorted so
//! that snapshots and exports come out in a deterministic order.

use vstd::prelude::*;

verus! {

/// Strict lexicographic order: `a` comes before `b`.
pub open spec fn lex_lt(a: Seq<u8>, b: Seq<u8>) -> bool
    decreases a.len(),
{
    if b.len() == 0 {
        false
    } else if a.len() == 0 {
        true
    } else if a[0] < b[0] {
        true
    } else if a[0] > b[0] {
        false
    } else {
        lex_lt(a.skip(1), b.skip(1))
    }
}

/// The order is irreflexive.
pub proof fn lemma_lex_irrefl(a: Seq<u8>)
    ensures
        !lex_lt(a, a),
    decreases a.len(),
{
    if a.len() > 0 {
        lemma_lex_irrefl(a.skip(1));
    }
}

/// Exactly one of `a < b`, `a == b`, `b < a` holds.
pub proof fn lemma_lex_trichotomy(a: Seq<u8>, b: Seq<u8>)
    ensures
        lex_lt(a, b) || lex_lt(b, a) || a == b,
        !(lex_lt(a, b) && lex_lt(b, a)),
        lex_lt(a, b) ==> a != b,
    decreases a.len(),
{
    lemma_lex_irrefl(a);
    lemma_lex_irrefl(b);
    if a.len() > 0 && b.len() > 0 && a[0] == b[0] {
        lemma_lex_trichotomy(a.skip(1), b.skip(1));
        if a.skip(1) == b.skip(1) {
            assert forall|i: int| 0 <= i < a.len() implies a[i] == b[i] by {
                if i > 0 {
                    assert(a[i] == a.skip(1)[i - 1]);
                    assert(b[i] == b.skip(1)[i - 1]);
                }
            }
            assert(a =~= b);
        }
    }
}

/// The order is transitive.
pub proof fn lemma_lex_trans(a: Seq<u8>, b: Seq<u8>, c: Seq<u8>)
    requires
        lex_lt(a, b),
        lex_lt(b, c),
    ensures
        lex_lt(a, c),
    decreases a.len(),
{
    if a.len() > 0 && b.len() > 0 && c.len() > 0 {
        if a[0] == b[0] && b[0] == c[0] {
            lemma_lex_trans(a.skip(1), b.skip(1), c.skip(1));
        }
    }
}

/// When two keys agree on a prefix and differ next, the order is decided
/// there.
pub proof fn lemma_lex_from_index(a: Seq<u8>, b: Seq<u8>, i: int)
    requires
        0 <= i < a.len(),
        i < b.len(),
        forall|j: int| 0 <= j < i ==> a[j] == b[j],
        a[i] < b[i],
    ensures
        lex_lt(a, b),
    decreases i,
{
    if i > 0 {
        lemma_lex_from_index(a.skip(1), b.skip(1), i - 1);
    }
}

/// A proper prefix comes first.
pub proof fn lemma_lex_prefix(a: Seq<u8>, b: Seq<u8>)
    requires
        a.len() < b.len(),
        forall|j: int| 0 <= j < a.len() ==> a[j] == b[j],
    ensures
        lex_lt(a, b),
    decreases a.len(),
{
    if a.len() > 0 {
        lemma_lex_prefix(a.skip(1), b.skip(1));
    }
}

/// How two keys compare.
pub enum KeyOrder {
    Before,
    Same,
    After,
}

/// Compare two keys; the result decides `lex_lt` in both directions.
pub fn key_cmp(a: &Vec<u8>, b: &Vec<u8>) -> (c: KeyOrder)
    ensures
        c is Before <==> lex_lt(a@, b@),
        c is Same <==> a@ == b@,
        c is After <==> lex_lt(b@, a@),
{
    proof {
        lemma_lex_trichotomy(a@, b@);
    }
    let n: usize = if a.len() < b.len() {
        a.len()
    } else {
        b.len()
    };
    let mut i: usize = 0;
    while i < n
        invariant
            i <= n,
            n <= a@.len(),
            n <= b@.len(),
            n == a@.len() || n == b@.len(),
            forall|j: int| 0 <= j < i ==> a@[j] == b@[j],
        decreases n - i,
    {
        if a[i] < b[i] {
            proof {
                lemma_lex_from_index(a@, b@, i as int);
                lemma_lex_trichotomy(a@, b@);
            }
            return KeyOrder::Before;
        }
        if a[i] > b[i] {
            proof {
                lemma_lex_from_index(b@, a@, i as int);
                lemma_lex_trichotomy(a@, b@);
            }
            return KeyOrder::After;
        }
        i = i + 1;
    }
    if a.len() < b.len() {
        proof {
            lemma_lex_prefix(a@, b@);
            lemma_lex_trichotomy(a@, b@);
        }
        KeyOrder::Before
    } else if a.len() > b.len() {
        proof {
            lemma_lex_prefix(b@, a@);
            lemma_lex_trichotomy(a@, b@);
        }
        KeyOrder::After
    } else {
        proof {
            assert(a@ =~= b@);
            lemma_lex_irrefl(a@);
        }
        KeyOrder::Same
    }
}

/// An independent copy of a key.
pub fn copy_key(k: &Vec<u8>) -> (r: Vec<u8>)
    ensures
        r@ == k@,
{
    let mut r: Vec<u8> = Vec::new();
    let mut i: usize = 0;
    while i < k.len()
        invariant
            i <= k.len(),
            r@ == k@.subrange(0, i as int),
        decreases k.len() - i,
    {
        r.push(k[i]);
        i = i + 1;
    }
    assert(r@ == k@);
    r
}

} // verus!
