//! Byte-wise lexicographic ordering of keys, in spec and in exec code.
use vstd::prelude::*;

verus! {

/// `i` is the first position where `a` and `b` part ways and `a` is the smaller there.
pub open spec fn lex_lt_at(a: Seq<u8>, b: Seq<u8>, i: int) -> bool {
    &&& 0 <= i <= a.len()
    &&& i <= b.len()
    &&& (forall|j: int| 0 <= j < i ==> a[j] == b[j])
    &&& ((i == a.len() && i < b.len()) || (i < a.len() && i < b.len() && a[i] < b[i]))
}

/// Strict lexicographic order on byte strings (the order of `<[u8]>::cmp`).
pub open spec fn lex_lt(a: Seq<u8>, b: Seq<u8>) -> bool {
    exists|i: int| lex_lt_at(a, b, i)
}

pub open spec fn lex_le(a: Seq<u8>, b: Seq<u8>) -> bool {
    lex_lt(a, b) || a == b
}

pub proof fn lemma_lex_lt_irreflexive(a: Seq<u8>)
    ensures
        !lex_lt(a, a),
{
}

pub proof fn lemma_lex_lt_asymmetric(a: Seq<u8>, b: Seq<u8>)
    ensures
        !(lex_lt(a, b) && lex_lt(b, a)),
{
    if lex_lt(a, b) && lex_lt(b, a) {
        let i = choose|i: int| lex_lt_at(a, b, i);
        let k = choose|k: int| lex_lt_at(b, a, k);
        if i < k {
            assert(b[i] == a[i]);
        } else if k < i {
            assert(a[k] == b[k]);
        }
    }
}

pub proof fn lemma_lex_lt_transitive(a: Seq<u8>, b: Seq<u8>, c: Seq<u8>)
    requires
        lex_lt(a, b),
        lex_lt(b, c),
    ensures
        lex_lt(a, c),
{
    let i = choose|i: int| lex_lt_at(a, b, i);
    let k = choose|k: int| lex_lt_at(b, c, k);
    if i < k {
        assert(lex_lt_at(a, c, i));
    } else if k < i {
        assert(lex_lt_at(a, c, k));
    } else {
        assert(lex_lt_at(a, c, i));
    }
}

pub proof fn lemma_lex_trichotomy(a: Seq<u8>, b: Seq<u8>)
    ensures
        lex_lt(a, b) || a == b || lex_lt(b, a),
    decreases a.len(),
{
    if a.len() == 0 {
        if b.len() > 0 {
            assert(lex_lt_at(a, b, 0));
        } else {
            assert(a =~= b);
        }
    } else if b.len() == 0 {
        assert(lex_lt_at(b, a, 0));
    } else if a[0] < b[0] {
        assert(lex_lt_at(a, b, 0));
    } else if b[0] < a[0] {
        assert(lex_lt_at(b, a, 0));
    } else {
        let a1 = a.drop_first();
        let b1 = b.drop_first();
        lemma_lex_trichotomy(a1, b1);
        if lex_lt(a1, b1) {
            let i = choose|i: int| lex_lt_at(a1, b1, i);
            assert forall|j: int| 0 <= j < i + 1 implies a[j] == b[j] by {
                if j > 0 {
                    assert(a[j] == a1[j - 1] && b[j] == b1[j - 1]);
                }
            }
            assert(lex_lt_at(a, b, i + 1));
        } else if lex_lt(b1, a1) {
            let i = choose|i: int| lex_lt_at(b1, a1, i);
            assert forall|j: int| 0 <= j < i + 1 implies b[j] == a[j] by {
                if j > 0 {
                    assert(a[j] == a1[j - 1] && b[j] == b1[j - 1]);
                }
            }
            assert(lex_lt_at(b, a, i + 1));
        } else {
            assert(a =~= seq![a[0]] + a1);
            assert(b =~= seq![b[0]] + b1);
        }
    }
}

pub proof fn lemma_lex_le_lt_transitive(a: Seq<u8>, b: Seq<u8>, c: Seq<u8>)
    requires
        lex_le(a, b),
        lex_lt(b, c),
    ensures
        lex_lt(a, c),
{
    if a != b {
        lemma_lex_lt_transitive(a, b, c);
    }
}

/// The outcome of comparing two keys.
#[derive(PartialEq, Eq, Structural, Clone, Copy, Debug)]
pub enum KeyOrder {
    Less,
    Equal,
    Greater,
}

/// Compares two byte strings lexicographically.
pub fn compare_keys(a: &[u8], b: &[u8]) -> (r: KeyOrder)
    ensures
        (r == KeyOrder::Less) == lex_lt(a@, b@),
        (r == KeyOrder::Equal) == (a@ == b@),
        (r == KeyOrder::Greater) == lex_lt(b@, a@),
{
    let mut i: usize = 0;
    while i < a.len() && i < b.len()
        invariant
            i <= a.len(),
            i <= b.len(),
            forall|j: int| 0 <= j < i ==> a@[j] == b@[j],
        decreases a.len() - i,
    {
        if a[i] < b[i] {
            proof {
                assert(lex_lt_at(a@, b@, i as int));
                lemma_lex_lt_asymmetric(a@, b@);
            }
            return KeyOrder::Less;
        } else if b[i] < a[i] {
            proof {
                assert(lex_lt_at(b@, a@, i as int));
                lemma_lex_lt_asymmetric(a@, b@);
            }
            return KeyOrder::Greater;
        }
        i = i + 1;
    }
    if a.len() < b.len() {
        proof {
            assert(lex_lt_at(a@, b@, i as int));
            lemma_lex_lt_asymmetric(a@, b@);
        }
        KeyOrder::Less
    } else if b.len() < a.len() {
        proof {
            assert(lex_lt_at(b@, a@, i as int));
            lemma_lex_lt_asymmetric(a@, b@);
        }
        KeyOrder::Greater
    } else {
        proof {
            assert(a@ =~= b@);
            lemma_lex_lt_irreflexive(a@);
        }
        KeyOrder::Equal
    }
}

} // verus!
