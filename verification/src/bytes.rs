//! Byte strings: prefixes and the lexicographic order.

use vstd::prelude::*;

verus! {

/// How one value stands to another in an order.
#[derive(Clone, Copy, Debug, PartialEq, Eq, Structural)]
pub enum Relation {
    Before,
    Same,
    After,
}

impl Relation {
    /// The relation seen from the other side.
    pub open spec fn reversed(self) -> Relation {
        match self {
            Relation::Before => Relation::After,
            Relation::Same => Relation::Same,
            Relation::After => Relation::Before,
        }
    }
}

/// Whether `p` is an initial segment of `s`.
pub open spec fn starts_with(s: Seq<u8>, p: Seq<u8>) -> bool {
    p.len() <= s.len() && s.subrange(0, p.len() as int) == p
}

/// `a` and `b` agree before position `i`, and there `a` ends or holds the smaller byte.
pub open spec fn less_at(a: Seq<u8>, b: Seq<u8>, i: int) -> bool {
    &&& 0 <= i <= a.len()
    &&& i < b.len()
    &&& forall|j: int| 0 <= j < i ==> a[j] == b[j]
    &&& i < a.len() ==> a[i] < b[i]
}

/// The strict lexicographic order on byte strings: `a` is a proper prefix of `b`, or
/// holds the smaller byte at the first position where the two differ.
pub open spec fn lex_less(a: Seq<u8>, b: Seq<u8>) -> bool {
    exists|i: int| less_at(a, b, i)
}

/// How `a` stands to `b` in the lexicographic order.
pub open spec fn relation(a: Seq<u8>, b: Seq<u8>) -> Relation {
    if a == b {
        Relation::Same
    } else if lex_less(a, b) {
        Relation::Before
    } else {
        Relation::After
    }
}

/// No byte string comes before itself, and no two come before each other.
pub proof fn lemma_lex_asymmetric(a: Seq<u8>, b: Seq<u8>)
    requires
        lex_less(a, b),
    ensures
        !lex_less(b, a),
        a != b,
{
    let i = choose|i: int| less_at(a, b, i);
    assert(less_at(a, b, i));
    if lex_less(b, a) {
        let j = choose|j: int| less_at(b, a, j);
        assert(less_at(b, a, j));
    }
}

/// The lexicographic order is transitive.
pub proof fn lemma_lex_transitive(a: Seq<u8>, b: Seq<u8>, c: Seq<u8>)
    requires
        lex_less(a, b),
        lex_less(b, c),
    ensures
        lex_less(a, c),
{
    let i = choose|i: int| less_at(a, b, i);
    let j = choose|j: int| less_at(b, c, j);
    assert(less_at(a, b, i) && less_at(b, c, j));
    if i <= j {
        assert(less_at(a, c, i));
    } else {
        assert(less_at(a, c, j));
    }
}

proof fn lemma_lex_total_from(a: Seq<u8>, b: Seq<u8>, i: int)
    requires
        0 <= i <= a.len(),
        i <= b.len(),
        forall|j: int| 0 <= j < i ==> a[j] == b[j],
        a != b,
    ensures
        lex_less(a, b) || lex_less(b, a),
    decreases a.len() - i,
{
    if i == a.len() {
        if i == b.len() {
            assert(a =~= b);
        } else {
            assert(less_at(a, b, i));
        }
    } else if i == b.len() {
        assert(less_at(b, a, i));
    } else if a[i] < b[i] {
        assert(less_at(a, b, i));
    } else if b[i] < a[i] {
        assert(less_at(b, a, i));
    } else {
        lemma_lex_total_from(a, b, i + 1);
    }
}

/// Of two different byte strings one comes before the other.
pub proof fn lemma_lex_total(a: Seq<u8>, b: Seq<u8>)
    requires
        a != b,
    ensures
        lex_less(a, b) || lex_less(b, a),
{
    lemma_lex_total_from(a, b, 0);
}

/// Seen from the other side, a relation is reversed.
pub proof fn lemma_relation_reversed(a: Seq<u8>, b: Seq<u8>)
    ensures
        relation(b, a) == relation(a, b).reversed(),
{
    if a != b {
        lemma_lex_total(a, b);
        if lex_less(a, b) {
            lemma_lex_asymmetric(a, b);
        } else {
            lemma_lex_asymmetric(b, a);
        }
    }
}

/// Tells whether the bytes of `s` begin with the bytes of `p`.
pub fn bytes_start_with(s: &[u8], p: &[u8]) -> (r: bool)
    ensures
        r == starts_with(s@, p@),
{
    if p.len() > s.len() {
        return false;
    }
    let mut i: usize = 0;
    while i < p.len()
        invariant
            i <= p.len() <= s.len(),
            forall|j: int| 0 <= j < i ==> s@[j] == p@[j],
        decreases p.len() - i,
    {
        if s[i] != p[i] {
            assert(s@.subrange(0, p.len() as int)[i as int] != p@[i as int]);
            return false;
        }
        i += 1;
    }
    assert(s@.subrange(0, p.len() as int) =~= p@);
    true
}

/// Compares two byte strings lexicographically.
pub fn compare_bytes(a: &[u8], b: &[u8]) -> (r: Relation)
    ensures
        r == relation(a@, b@),
{
    let mut i: usize = 0;
    while i < a.len() && i < b.len()
        invariant
            i <= a.len(),
            i <= b.len(),
            forall|j: int| 0 <= j < i ==> a@[j] == b@[j],
        decreases a.len() - i,
    {
        if a[i] < b[i] {
            proof {
                assert(less_at(a@, b@, i as int));
                lemma_lex_asymmetric(a@, b@);
            }
            return Relation::Before;
        }
        if a[i] > b[i] {
            proof {
                assert(less_at(b@, a@, i as int));
                lemma_lex_asymmetric(b@, a@);
            }
            return Relation::After;
        }
        i += 1;
    }
    if i < b.len() {
        proof {
            assert(less_at(a@, b@, i as int));
            lemma_lex_asymmetric(a@, b@);
        }
        Relation::Before
    } else if i < a.len() {
        proof {
            assert(less_at(b@, a@, i as int));
            lemma_lex_asymmetric(b@, a@);
        }
        Relation::After
    } else {
        assert(a@ =~= b@);
        Relation::Same
    }
}

} // verus!
