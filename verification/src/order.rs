//! The lexicographic order of 32-byte strings.

use vstd::prelude::*;

verus! {

/// `a` and `b` first differ at `k`, where `a` has the smaller byte.
pub open spec fn less_at(a: Seq<u8>, b: Seq<u8>, k: int) -> bool {
    &&& 0 <= k < a.len()
    &&& k < b.len()
    &&& forall|j: int| 0 <= j < k ==> a[j] == b[j]
    &&& a[k] < b[k]
}

/// `a` comes before `b`.
pub open spec fn lex_less(a: Seq<u8>, b: Seq<u8>) -> bool {
    exists|k: int| less_at(a, b, k)
}

/// Each string of the list comes before every later one.
pub open spec fn ascending(s: Seq<Seq<u8>>) -> bool {
    forall|i: int, j: int| 0 <= i < j < s.len() ==> lex_less(#[trigger] s[i], #[trigger] s[j])
}

pub proof fn lemma_less_transitive(a: Seq<u8>, b: Seq<u8>, c: Seq<u8>)
    requires
        lex_less(a, b),
        lex_less(b, c),
    ensures
        lex_less(a, c),
{
    let p = choose|k: int| less_at(a, b, k);
    let q = choose|k: int| less_at(b, c, k);
    let m = if p <= q {
        p
    } else {
        q
    };
    assert(less_at(a, c, m));
}

pub proof fn lemma_less_asymmetric(a: Seq<u8>, b: Seq<u8>)
    requires
        lex_less(a, b),
    ensures
        !lex_less(b, a),
        a != b,
{
    if lex_less(b, a) {
        lemma_less_transitive(a, b, a);
    }
}

/// An ascending list names nothing twice.
pub proof fn lemma_ascending_distinct(s: Seq<Seq<u8>>)
    requires
        ascending(s),
    ensures
        s.no_duplicates(),
{
    assert forall|i: int, j: int| 0 <= i < s.len() && 0 <= j < s.len() && i != j implies s[i]
        != s[j] by {
        if i < j {
            lemma_less_asymmetric(s[i], s[j]);
        } else {
            lemma_less_asymmetric(s[j], s[i]);
        }
    }
}

/// How two strings stand to each other.
pub enum Place {
    Before,
    Same,
    After,
}

/// Where `a` stands relative to `b`.
pub fn place(a: &[u8; 32], b: &[u8; 32]) -> (r: Place)
    ensures
        match r {
            Place::Before => lex_less(a@, b@),
            Place::Same => a@ == b@,
            Place::After => lex_less(b@, a@),
        },
{
    let mut i: usize = 0;
    while i < 32
        invariant
            0 <= i <= 32,
            forall|j: int| 0 <= j < i ==> a@[j] == b@[j],
        decreases 32 - i,
    {
        if a[i] < b[i] {
            assert(less_at(a@, b@, i as int));
            return Place::Before;
        }
        if b[i] < a[i] {
            assert(less_at(b@, a@, i as int));
            return Place::After;
        }
        i = i + 1;
    }
    assert(a@ =~= b@);
    Place::Same
}

/// The members of a set in ascending order.
pub open spec fn listed(set: Set<Seq<u8>>) -> Seq<Seq<u8>> {
    choose|s: Seq<Seq<u8>>| ascending(s) && s.to_set() == set
}

/// There is one ascending list of a set's members.
pub proof fn lemma_ascending_unique(a: Seq<Seq<u8>>, b: Seq<Seq<u8>>)
    requires
        ascending(a),
        ascending(b),
        a.to_set() == b.to_set(),
    ensures
        a == b,
    decreases a.len(),
{
    if a.len() == 0 {
        if b.len() > 0 {
            assert(b.to_set().contains(b[0]));
            assert(a.contains(b[0]));
        }
        assert(a =~= b);
    } else {
        let x = a.last();
        assert(a.to_set().contains(x));
        assert(b.contains(x));
        assert(b.len() > 0);
        let y = b.last();
        assert(b.to_set().contains(y));
        assert(a.contains(y));
        if x != y {
            let i = choose|i: int| 0 <= i < a.len() && a[i] == y;
            assert(lex_less(a[i], a[a.len() - 1]));
            let j = choose|j: int| 0 <= j < b.len() && b[j] == x;
            assert(lex_less(b[j], b[b.len() - 1]));
            lemma_less_asymmetric(x, y);
        }
        let (a1, b1) = (a.drop_last(), b.drop_last());
        lemma_ascending_distinct(a);
        lemma_ascending_distinct(b);
        assert(a1.to_set() =~= b1.to_set()) by {
            assert forall|z: Seq<u8>| a1.to_set().contains(z) == b1.to_set().contains(z) by {
                if a1.contains(z) {
                    let i = choose|i: int| 0 <= i < a1.len() && a1[i] == z;
                    assert(a[i] == z && a[i] != a[a.len() - 1]);
                    assert(a.to_set().contains(z));
                    assert(b.contains(z));
                    let j = choose|j: int| 0 <= j < b.len() && b[j] == z;
                    assert(b1[j] == z);
                }
                if b1.contains(z) {
                    let i = choose|i: int| 0 <= i < b1.len() && b1[i] == z;
                    assert(b[i] == z && b[i] != b[b.len() - 1]);
                    assert(b.to_set().contains(z));
                    assert(a.contains(z));
                    let j = choose|j: int| 0 <= j < a.len() && a[j] == z;
                    assert(a1[j] == z);
                }
            }
        }
        assert(ascending(a1)) by {
            assert forall|i: int, j: int| 0 <= i < j < a1.len() implies lex_less(#[trigger] a1[i], #[trigger] a1[j]) by {
                assert(lex_less(a[i], a[j]));
            }
        }
        assert(ascending(b1)) by {
            assert forall|i: int, j: int| 0 <= i < j < b1.len() implies lex_less(#[trigger] b1[i], #[trigger] b1[j]) by {
                assert(lex_less(b[i], b[j]));
            }
        }
        lemma_ascending_unique(a1, b1);
        assert(a =~= a1.push(x));
        assert(b =~= b1.push(y));
    }
}

/// An ascending list is the list of its members.
pub proof fn lemma_listed(s: Seq<Seq<u8>>)
    requires
        ascending(s),
    ensures
        listed(s.to_set()) == s,
{
    let t = listed(s.to_set());
    assert(ascending(t) && t.to_set() == s.to_set());
    lemma_ascending_unique(t, s);
}

} // verus!
