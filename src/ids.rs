//! Fixed-size opaque identifiers and the operations on them that the ledger needs.
use vstd::prelude::*;

verus! {

broadcast use vstd::array::group_array_axioms;

/// Identifier of a registry: 32 raw bytes, never interpreted.
pub type RegistryId = [u8; 32];

/// Identifier of a revocable item (for instance a credential).
pub type ItemId = [u8; 32];

/// Identifier of a controller identity.
pub type Did = [u8; 32];

/// Lexicographic strict order on byte sequences of equal length, starting at `k`.
pub open spec fn lex_lt_from(a: Seq<u8>, b: Seq<u8>, k: int) -> bool
    decreases a.len() - k,
{
    if k < 0 || k >= a.len() || k >= b.len() {
        false
    } else if a[k] < b[k] {
        true
    } else if a[k] > b[k] {
        false
    } else {
        lex_lt_from(a, b, k + 1)
    }
}

/// Lexicographic strict order on identifiers.
pub open spec fn id_lt(a: [u8; 32], b: [u8; 32]) -> bool {
    lex_lt_from(a@, b@, 0)
}

/// The identifiers of `s` strictly ascend: they are sorted and hold no duplicate.
pub open spec fn strictly_ascending(s: Seq<[u8; 32]>) -> bool {
    forall|i: int, j: int| 0 <= i < j < s.len() ==> id_lt(#[trigger] s[i], #[trigger] s[j])
}

/// The set of distinct identifiers listed in `s`.
pub open spec fn id_set(s: Seq<[u8; 32]>) -> Set<[u8; 32]> {
    Set::new(|d: [u8; 32]| s.contains(d))
}

/// Byte-wise equality of two identifiers.
pub fn same_id(a: &[u8; 32], b: &[u8; 32]) -> (r: bool)
    ensures
        r == (*a == *b),
{
    let mut i: usize = 0;
    while i < 32
        invariant
            0 <= i <= 32,
            forall|j: int| 0 <= j < i ==> a[j] == b[j],
        decreases 32 - i,
    {
        if a[i] != b[i] {
            return false;
        }
        i = i + 1;
    }
    assert(*a =~= *b);
    true
}

/// Lexicographic comparison of two identifiers.
pub fn less_id(a: &[u8; 32], b: &[u8; 32]) -> (r: bool)
    ensures
        r == id_lt(*a, *b),
{
    let mut i: usize = 0;
    while i < 32
        invariant
            0 <= i <= 32,
            forall|j: int| 0 <= j < i ==> a[j] == b[j],
            id_lt(*a, *b) == lex_lt_from(a@, b@, i as int),
        decreases 32 - i,
    {
        if a[i] < b[i] {
            return true;
        }
        if a[i] > b[i] {
            return false;
        }
        i = i + 1;
    }
    false
}

/// No identifier lies strictly below itself.
pub proof fn lemma_lex_lt_irreflexive(a: Seq<u8>, k: int)
    ensures
        !lex_lt_from(a, a, k),
    decreases a.len() - k,
{
    if 0 <= k < a.len() {
        lemma_lex_lt_irreflexive(a, k + 1);
    }
}

/// The identifiers of a strictly ascending list are pairwise distinct.
pub proof fn lemma_ascending_distinct(s: Seq<[u8; 32]>, i: int, j: int)
    requires
        strictly_ascending(s),
        0 <= i < s.len(),
        0 <= j < s.len(),
        i != j,
    ensures
        s[i] != s[j],
{
    lemma_lex_lt_irreflexive(s[i]@, 0);
    if i < j {
        assert(id_lt(s[i], s[j]));
    } else {
        assert(id_lt(s[j], s[i]));
    }
}

/// The strictly ascending list of the identifiers of `s`.
pub open spec fn canonical_of(s: Set<[u8; 32]>) -> Seq<[u8; 32]> {
    choose|c: Seq<[u8; 32]>| strictly_ascending(c) && id_set(c) == s
}

/// One strictly ascending list holds a given set of identifiers.
pub proof fn lemma_ascending_unique(a: Seq<[u8; 32]>, b: Seq<[u8; 32]>)
    requires
        strictly_ascending(a),
        strictly_ascending(b),
        id_set(a) == id_set(b),
    ensures
        a == b,
    decreases a.len() + b.len(),
{
    if a.len() == 0 || b.len() == 0 {
        if a.len() > 0 {
            assert(id_set(a).contains(a[0]));
        }
        if b.len() > 0 {
            assert(id_set(b).contains(b[0]));
        }
        assert(a =~= b);
    } else {
        assert(id_set(a).contains(a[0]));
        assert(id_set(b).contains(b[0]));
        if a[0] != b[0] {
            let j = choose|j: int| 0 <= j < b.len() && #[trigger] b[j] == a[0];
            let k = choose|k: int| 0 <= k < a.len() && #[trigger] a[k] == b[0];
            assert(id_lt(b[0], b[j]));
            assert(id_lt(a[0], a[k]));
            lemma_id_transitive(a[0], b[0], a[0]);
            lemma_lex_lt_irreflexive(a[0]@, 0);
        }
        let a1 = a.drop_first();
        let b1 = b.drop_first();
        assert forall|d: [u8; 32]| #[trigger] id_set(a1).contains(d) <==> id_set(b1).contains(d) by {
            assert(id_set(a1).contains(d) == a1.contains(d));
            assert(id_set(b1).contains(d) == b1.contains(d));
            if a1.contains(d) {
                let k = choose|k: int| 0 <= k < a1.len() && #[trigger] a1[k] == d;
                assert(a[k + 1] == d);
                lemma_ascending_distinct(a, 0, k + 1);
                assert(id_set(a).contains(d));
                let j = choose|j: int| 0 <= j < b.len() && #[trigger] b[j] == d;
                assert(j != 0);
                assert(b1[j - 1] == d);
            }
            if b1.contains(d) {
                let k = choose|k: int| 0 <= k < b1.len() && #[trigger] b1[k] == d;
                assert(b[k + 1] == d);
                lemma_ascending_distinct(b, 0, k + 1);
                assert(id_set(b).contains(d));
                let j = choose|j: int| 0 <= j < a.len() && #[trigger] a[j] == d;
                assert(j != 0);
                assert(a1[j - 1] == d);
            }
        }
        assert(id_set(a1) =~= id_set(b1));
        lemma_ascending_unique(a1, b1);
        assert(a =~= b) by {
            assert forall|i: int| 0 <= i < a.len() implies a[i] == b[i] by {
                if i > 0 {
                    assert(a1[i - 1] == b1[i - 1]);
                }
            }
        }
    }
}

/// A strictly ascending list is the canonical list of its identifiers.
pub proof fn lemma_canonical_of(c: Seq<[u8; 32]>)
    requires
        strictly_ascending(c),
    ensures
        canonical_of(id_set(c)) == c,
{
    let d = canonical_of(id_set(c));
    assert(strictly_ascending(d) && id_set(d) == id_set(c));
    lemma_ascending_unique(d, c);
}

/// A copy of a list of identifiers.
pub fn copy_ids(v: &Vec<[u8; 32]>) -> (r: Vec<[u8; 32]>)
    ensures
        r@ == v@,
{
    let mut r: Vec<[u8; 32]> = Vec::new();
    let mut i: usize = 0;
    while i < v.len()
        invariant
            0 <= i <= v.len(),
            r@ == v@.subrange(0, i as int),
        decreases v.len() - i,
    {
        r.push(v[i]);
        assert(r@ =~= v@.subrange(0, i + 1));
        i = i + 1;
    }
    assert(r@ =~= v@);
    r
}

proof fn lemma_lex_trichotomy(a: Seq<u8>, b: Seq<u8>, k: int)
    requires
        a.len() == b.len(),
        0 <= k <= a.len(),
        a.subrange(k, a.len() as int) != b.subrange(k, b.len() as int),
    ensures
        lex_lt_from(a, b, k) || lex_lt_from(b, a, k),
    decreases a.len() - k,
{
    if k == a.len() {
        assert(a.subrange(k, a.len() as int) =~= b.subrange(k, b.len() as int));
    } else if a[k] == b[k] {
        if a.subrange(k + 1, a.len() as int) == b.subrange(k + 1, b.len() as int) {
            assert(a.subrange(k, a.len() as int) =~= b.subrange(k, b.len() as int)) by {
                assert forall|j: int| 0 <= j < a.len() - k implies a.subrange(k, a.len() as int)[j]
                    == b.subrange(k, b.len() as int)[j] by {
                    if j > 0 {
                        assert(a.subrange(k + 1, a.len() as int)[j - 1] == b.subrange(
                            k + 1,
                            b.len() as int,
                        )[j - 1]);
                    }
                }
            }
        }
        lemma_lex_trichotomy(a, b, k + 1);
    }
}

/// Two distinct identifiers are ordered one way or the other.
pub proof fn lemma_id_total(a: [u8; 32], b: [u8; 32])
    requires
        a != b,
    ensures
        id_lt(a, b) || id_lt(b, a),
{
    assert(a@.subrange(0, 32) =~= a@);
    assert(b@.subrange(0, 32) =~= b@);
    if a@ == b@ {
        assert(a =~= b);
    }
    lemma_lex_trichotomy(a@, b@, 0);
}

proof fn lemma_lex_transitive(a: Seq<u8>, b: Seq<u8>, c: Seq<u8>, k: int)
    requires
        lex_lt_from(a, b, k),
        lex_lt_from(b, c, k),
    ensures
        lex_lt_from(a, c, k),
    decreases a.len() - k,
{
    if 0 <= k < a.len() && k < b.len() && k < c.len() && a[k] == b[k] && b[k] == c[k] {
        lemma_lex_transitive(a, b, c, k + 1);
    }
}

/// The order on identifiers is transitive.
pub proof fn lemma_id_transitive(a: [u8; 32], b: [u8; 32], c: [u8; 32])
    requires
        id_lt(a, b),
        id_lt(b, c),
    ensures
        id_lt(a, c),
{
    lemma_lex_transitive(a@, b@, c@, 0);
}

/// The identifiers of `v` sorted ascending, each once.
pub fn canonical_ids(v: &Vec<[u8; 32]>) -> (r: Vec<[u8; 32]>)
    ensures
        strictly_ascending(r@),
        id_set(r@) == id_set(v@),
{
    let mut r: Vec<[u8; 32]> = Vec::new();
    let mut i: usize = 0;
    assert(id_set(r@) =~= id_set(v@.subrange(0, 0)));
    while i < v.len()
        invariant
            0 <= i <= v.len(),
            strictly_ascending(r@),
            id_set(r@) == id_set(v@.subrange(0, i as int)),
        decreases v.len() - i,
    {
        let x = v[i];
        let mut p: usize = 0;
        let mut stop = false;
        while p < r.len() && !stop
            invariant
                0 <= p <= r@.len(),
                forall|q: int| 0 <= q < p ==> id_lt(#[trigger] r@[q], x),
                stop ==> p < r@.len() && !id_lt(r@[p as int], x),
            decreases r@.len() - p + (if stop { 0int } else { 1int }),
        {
            if less_id(&r[p], &x) {
                p = p + 1;
            } else {
                stop = true;
            }
        }
        let ghost before = r@;
        if p < r.len() && same_id(&r[p], &x) {
            assert(before.contains(x)) by {
                assert(before[p as int] == x);
            }
        } else {
            r.insert(p, x);
            proof {
                if p < before.len() {
                    lemma_id_total(x, before[p as int]);
                }
                assert forall|a: int, b: int| 0 <= a < b < r@.len() implies id_lt(
                    #[trigger] r@[a],
                    #[trigger] r@[b],
                ) by {
                    if b < p {
                        assert(id_lt(before[a], before[b]));
                    } else if b == p {
                        assert(r@[a] == before[a]);
                    } else if a < p {
                        assert(r@[b] == before[b - 1]);
                        assert(id_lt(before[a], x));
                        if b - 1 == p {
                            lemma_id_transitive(before[a], x, before[b - 1]);
                        } else {
                            assert(id_lt(before[p as int], before[b - 1]));
                            lemma_id_transitive(x, before[p as int], before[b - 1]);
                            lemma_id_transitive(before[a], x, before[b - 1]);
                        }
                    } else if a == p {
                        if b - 1 > p {
                            assert(id_lt(before[p as int], before[b - 1]));
                            lemma_id_transitive(x, before[p as int], before[b - 1]);
                        }
                    } else {
                        assert(id_lt(before[a - 1], before[b - 1]));
                    }
                }
            }
        }
        proof {
            assert(id_set(r@) =~= id_set(before).insert(x)) by {
                assert forall|d: [u8; 32]| r@.contains(d) <==> (before.contains(d) || d == x) by {
                    if r@.contains(d) && r@.len() != before.len() {
                        let k = choose|k: int| 0 <= k < r@.len() && #[trigger] r@[k] == d;
                        if k < p {
                            assert(before[k] == d);
                        } else if k > p {
                            assert(before[k - 1] == d);
                        }
                    }
                    if before.contains(d) && r@.len() != before.len() {
                        let k = choose|k: int| 0 <= k < before.len() && #[trigger] before[k] == d;
                        if k < p {
                            assert(r@[k] == d);
                        } else {
                            assert(r@[k + 1] == d);
                        }
                    }
                    if d == x && r@.len() != before.len() {
                        assert(r@[p as int] == x);
                    }
                }
                assert forall|d: [u8; 32]| id_set(r@).contains(d) <==> id_set(before).insert(
                    x,
                ).contains(d) by {
                    assert(id_set(r@).contains(d) == r@.contains(d));
                    assert(id_set(before).contains(d) == before.contains(d));
                }
            }
            assert(id_set(v@.subrange(0, i + 1)) =~= id_set(v@.subrange(0, i as int)).insert(x))
                by {
                assert forall|d: [u8; 32]|
                    v@.subrange(0, i + 1).contains(d) <==> (v@.subrange(0, i as int).contains(d)
                        || d == x) by {
                    if v@.subrange(0, i + 1).contains(d) {
                        let k = choose|k: int| 0 <= k < i + 1 && #[trigger] v@.subrange(0, i + 1)[k] == d;
                        if k < i {
                            assert(v@.subrange(0, i as int)[k] == d);
                        }
                    }
                    if v@.subrange(0, i as int).contains(d) {
                        let k = choose|k: int| 0 <= k < i && #[trigger] v@.subrange(0, i as int)[k] == d;
                        assert(v@.subrange(0, i + 1)[k] == d);
                    }
                    if d == x {
                        assert(v@.subrange(0, i + 1)[i as int] == d);
                    }
                }
                assert forall|d: [u8; 32]| id_set(v@.subrange(0, i + 1)).contains(d) <==> id_set(
                    v@.subrange(0, i as int),
                ).insert(x).contains(d) by {
                    assert(id_set(v@.subrange(0, i + 1)).contains(d) == v@.subrange(
                        0,
                        i + 1,
                    ).contains(d));
                    assert(id_set(v@.subrange(0, i as int)).contains(d) == v@.subrange(
                        0,
                        i as int,
                    ).contains(d));
                }
            }
        }
        i = i + 1;
    }
    assert(v@.subrange(0, v@.len() as int) =~= v@);
    r
}

} // verus!
