//! Lexicographic order on byte strings.
use vstd::prelude::*;

verus! {

/// `a` sorts before `b` when, from position `i` on, the first differing
/// byte is smaller in `a`, or `a` ends first.
pub open spec fn lex_lt_from(a: Seq<u8>, b: Seq<u8>, i: int) -> bool
    decreases a.len() - i,
{
    if i < 0 || i >= a.len() {
        i >= 0 && i == a.len() && i < b.len()
    } else if i >= b.len() {
        false
    } else if a[i] != b[i] {
        a[i] < b[i]
    } else {
        lex_lt_from(a, b, i + 1)
    }
}

pub open spec fn lex_lt(a: Seq<u8>, b: Seq<u8>) -> bool {
    lex_lt_from(a, b, 0)
}

pub open spec fn lex_le(a: Seq<u8>, b: Seq<u8>) -> bool {
    !lex_lt(b, a)
}

proof fn lemma_lt_from_facts(a: Seq<u8>, b: Seq<u8>, c: Seq<u8>, i: int)
    requires
        0 <= i <= a.len(),
        i <= b.len(),
        i <= c.len(),
    ensures
        !(lex_lt_from(a, b, i) && lex_lt_from(b, a, i)),
        lex_lt_from(a, b, i) || lex_lt_from(b, a, i) || a.subrange(i, a.len() as int) == b.subrange(i, b.len() as int),
        lex_lt_from(a, b, i) && lex_lt_from(b, c, i) ==> lex_lt_from(a, c, i),
        !lex_lt_from(a, a, i),
    decreases a.len() - i,
{
    if i < a.len() && i < b.len() && i < c.len() {
        lemma_lt_from_facts(a, b, c, i + 1);
        if a[i] == b[i] {
            assert(a.subrange(i, a.len() as int) == seq![a[i]] + a.subrange(i + 1, a.len() as int));
            assert(b.subrange(i, b.len() as int) == seq![b[i]] + b.subrange(i + 1, b.len() as int));
        }
    } else if i < a.len() && i < b.len() {
        // c ends at i
        if a[i] == b[i] {
            lemma_lt_from_facts(a, b, a, i + 1);
            assert(a.subrange(i, a.len() as int) == seq![a[i]] + a.subrange(i + 1, a.len() as int));
            assert(b.subrange(i, b.len() as int) == seq![b[i]] + b.subrange(i + 1, b.len() as int));
        }
        if i + 1 <= a.len() {
            lemma_lt_from_facts(a, a, a, i + 1);
        }
    } else {
        if i == a.len() && i == b.len() {
            assert(a.subrange(i, a.len() as int) =~= b.subrange(i, b.len() as int));
        }
        if i < a.len() {
            lemma_lt_from_facts(a, a, a, i + 1);
        }
    }
}

/// The order is a strict total order on byte strings.
pub proof fn lemma_lex_order(a: Seq<u8>, b: Seq<u8>, c: Seq<u8>)
    ensures
        !lex_lt(a, a),
        !(lex_lt(a, b) && lex_lt(b, a)),
        lex_lt(a, b) || lex_lt(b, a) || a == b,
        lex_lt(a, b) && lex_lt(b, c) ==> lex_lt(a, c),
{
    lemma_lt_from_facts(a, b, c, 0);
    lemma_lt_from_facts(a, a, a, 0);
    assert(a.subrange(0, a.len() as int) =~= a);
    assert(b.subrange(0, b.len() as int) =~= b);
}

/// Compares two byte strings.
pub fn lex_less(a: &[u8], b: &[u8]) -> (r: bool)
    ensures
        r == lex_lt(a@, b@),
{
    let mut i: usize = 0;
    while i < a.len() && i < b.len()
        invariant
            i <= a@.len(),
            i <= b@.len(),
            lex_lt(a@, b@) == lex_lt_from(a@, b@, i as int),
        decreases a@.len() - i,
    {
        if a[i] != b[i] {
            return a[i] < b[i];
        }
        i = i + 1;
    }
    i == a.len() && i < b.len()
}

/// Whether two byte strings are equal.
pub fn bytes_equal(a: &[u8], b: &[u8]) -> (r: bool)
    ensures
        r == (a@ == b@),
{
    if a.len() != b.len() {
        return false;
    }
    let mut i: usize = 0;
    while i < a.len()
        invariant
            a@.len() == b@.len(),
            i <= a@.len(),
            forall|j: int| 0 <= j < i ==> a@[j] == b@[j],
        decreases a@.len() - i,
    {
        if a[i] != b[i] {
            return false;
        }
        i = i + 1;
    }
    assert(a@ =~= b@);
    true
}

} // verus!
