//! Ordered association lists: the sorted maps behind balances, grouped
//! sums and registries. A list is a sequence of `(key, value)` pairs whose
//! keys are strictly ascending in the key type's total order, so iterating
//! it visits keys in order, each once.
use crate::text::{compare_str, lemma_seq_lt_irreflexive, lemma_seq_lt_total, lemma_seq_lt_transitive, seq_lt, KeyOrder};
use vstd::prelude::*;

verus! {

/// A key type with a strict total order on its view.
pub trait SortKey: View + Sized {
    spec fn key_lt(a: Self::V, b: Self::V) -> bool;

    proof fn lemma_key_lt_irreflexive(a: Self::V)
        ensures
            !Self::key_lt(a, a),
    ;

    proof fn lemma_key_lt_transitive(a: Self::V, b: Self::V, c: Self::V)
        requires
            Self::key_lt(a, b),
            Self::key_lt(b, c),
        ensures
            Self::key_lt(a, c),
    ;

    proof fn lemma_key_lt_total(a: Self::V, b: Self::V)
        ensures
            Self::key_lt(a, b) || a == b || Self::key_lt(b, a),
    ;

    fn compare_key(&self, other: &Self) -> (r: KeyOrder)
        ensures
            r == KeyOrder::Less <==> Self::key_lt(self@, other@),
            r == KeyOrder::Equal <==> self@ == other@,
            r == KeyOrder::Greater <==> Self::key_lt(other@, self@),
    ;

    fn copy_key(&self) -> (r: Self)
        ensures
            r@ == self@,
    ;
}

impl SortKey for String {
    open spec fn key_lt(a: Seq<char>, b: Seq<char>) -> bool {
        seq_lt(a, b)
    }

    proof fn lemma_key_lt_irreflexive(a: Seq<char>) {
        lemma_seq_lt_irreflexive(a);
    }

    proof fn lemma_key_lt_transitive(a: Seq<char>, b: Seq<char>, c: Seq<char>) {
        lemma_seq_lt_transitive(a, b, c);
    }

    proof fn lemma_key_lt_total(a: Seq<char>, b: Seq<char>) {
        lemma_seq_lt_total(a, b);
    }

    fn compare_key(&self, other: &Self) -> (r: KeyOrder) {
        compare_str(self.as_str(), other.as_str())
    }

    fn copy_key(&self) -> (r: Self) {
        self.clone()
    }
}

impl SortKey for u64 {
    open spec fn key_lt(a: u64, b: u64) -> bool {
        a < b
    }

    proof fn lemma_key_lt_irreflexive(a: u64) {
    }

    proof fn lemma_key_lt_transitive(a: u64, b: u64, c: u64) {
    }

    proof fn lemma_key_lt_total(a: u64, b: u64) {
    }

    fn compare_key(&self, other: &Self) -> (r: KeyOrder) {
        let a: u64 = *self;
        let b: u64 = *other;
        assert(self@ == a && other@ == b);
        assert(<u64 as SortKey>::key_lt(a, b) == (a < b));
        assert(<u64 as SortKey>::key_lt(b, a) == (b < a));
        if a < b {
            KeyOrder::Less
        } else if a == b {
            KeyOrder::Equal
        } else {
            KeyOrder::Greater
        }
    }

    fn copy_key(&self) -> (r: Self) {
        *self
    }
}

/// Pairs are ordered lexicographically: by the first component, then by
/// the second.
impl<A: SortKey, B: SortKey> SortKey for (A, B) {
    open spec fn key_lt(a: (A::V, B::V), b: (A::V, B::V)) -> bool {
        A::key_lt(a.0, b.0) || (a.0 == b.0 && B::key_lt(a.1, b.1))
    }

    proof fn lemma_key_lt_irreflexive(a: (A::V, B::V)) {
        A::lemma_key_lt_irreflexive(a.0);
        B::lemma_key_lt_irreflexive(a.1);
    }

    proof fn lemma_key_lt_transitive(a: (A::V, B::V), b: (A::V, B::V), c: (A::V, B::V)) {
        if A::key_lt(a.0, b.0) && A::key_lt(b.0, c.0) {
            A::lemma_key_lt_transitive(a.0, b.0, c.0);
        }
        if a.0 == b.0 && b.0 == c.0 && B::key_lt(a.1, b.1) && B::key_lt(b.1, c.1) {
            B::lemma_key_lt_transitive(a.1, b.1, c.1);
        }
    }

    proof fn lemma_key_lt_total(a: (A::V, B::V), b: (A::V, B::V)) {
        A::lemma_key_lt_total(a.0, b.0);
        B::lemma_key_lt_total(a.1, b.1);
    }

    fn compare_key(&self, other: &Self) -> (r: KeyOrder) {
        proof {
            A::lemma_key_lt_irreflexive(self.0@);
            A::lemma_key_lt_irreflexive(other.0@);
            B::lemma_key_lt_irreflexive(self.1@);
            B::lemma_key_lt_irreflexive(other.1@);
            if A::key_lt(self.0@, other.0@) && A::key_lt(other.0@, self.0@) {
                A::lemma_key_lt_transitive(self.0@, other.0@, self.0@);
            }
            if B::key_lt(self.1@, other.1@) && B::key_lt(other.1@, self.1@) {
                B::lemma_key_lt_transitive(self.1@, other.1@, self.1@);
            }
        }
        match self.0.compare_key(&other.0) {
            KeyOrder::Less => KeyOrder::Less,
            KeyOrder::Greater => KeyOrder::Greater,
            KeyOrder::Equal => self.1.compare_key(&other.1),
        }
    }

    fn copy_key(&self) -> (r: Self) {
        (self.0.copy_key(), self.1.copy_key())
    }
}

// ---------------------------------------------------------------------------
// Specification of ordered association lists
// ---------------------------------------------------------------------------

/// The keys of a list, in order.
pub open spec fn keys_of<KV, V>(m: Seq<(KV, V)>) -> Seq<KV> {
    m.map_values(|p: (KV, V)| p.0)
}

/// Strictly ascending keys.
pub open spec fn sorted<K: SortKey, V>(m: Seq<(K::V, V)>) -> bool {
    forall|i: int, j: int| 0 <= i < j < m.len() ==> K::key_lt(#[trigger] m[i].0, #[trigger] m[j].0)
}

/// Whether some pair has key `k`.
pub open spec fn has_key<KV, V>(m: Seq<(KV, V)>, k: KV) -> bool {
    exists|i: int| 0 <= i < m.len() && #[trigger] m[i].0 == k
}

/// The value of the first pair with key `k`.
pub open spec fn get<KV, V>(m: Seq<(KV, V)>, k: KV) -> Option<V>
    decreases m.len(),
{
    if m.len() == 0 {
        None
    } else if m[0].0 == k {
        Some(m[0].1)
    } else {
        get(m.drop_first(), k)
    }
}

/// Set the value of key `k` to `v`, inserting it at its place in the order
/// when absent.
pub open spec fn put<K: SortKey, V>(m: Seq<(K::V, V)>, k: K::V, v: V) -> Seq<(K::V, V)>
    decreases m.len(),
{
    if m.len() == 0 {
        seq![(k, v)]
    } else if m[0].0 == k {
        seq![(k, v)] + m.drop_first()
    } else if K::key_lt(k, m[0].0) {
        seq![(k, v)] + m
    } else {
        seq![m[0]] + put::<K, V>(m.drop_first(), k, v)
    }
}

/// The amount held under key `k` (zero when absent).
pub open spec fn amount_of<KV>(m: Seq<(KV, int)>, k: KV) -> int {
    match get(m, k) {
        Some(v) => v,
        None => 0,
    }
}

/// Add `x` to the amount under key `k`.
pub open spec fn accum<K: SortKey>(m: Seq<(K::V, int)>, k: K::V, x: int) -> Seq<(K::V, int)> {
    put::<K, int>(m, k, amount_of(m, k) + x)
}

/// Sum of the amounts of the pairs with key `k`.
pub open spec fn total_in<KV>(s: Seq<(KV, int)>, k: KV) -> int
    decreases s.len(),
{
    if s.len() == 0 {
        0
    } else {
        total_in(s.drop_last(), k) + if s.last().0 == k {
            s.last().1
        } else {
            0
        }
    }
}

/// Accumulate a sequence of `(key, amount)` pairs, in order, into an
/// ordered list of per-key sums.
pub open spec fn accum_fold<K: SortKey>(s: Seq<(K::V, int)>) -> Seq<(K::V, int)>
    decreases s.len(),
{
    if s.len() == 0 {
        Seq::empty()
    } else {
        accum::<K>(accum_fold::<K>(s.drop_last()), s.last().0, s.last().1)
    }
}

/// An `i128` can hold `x`.
pub open spec fn fits_i128(x: int) -> bool {
    i128::MIN <= x <= i128::MAX
}

/// Accumulating `s` in order never takes a running per-key sum outside
/// the `i128` range.
pub open spec fn fold_fits<KV>(s: Seq<(KV, int)>) -> bool {
    forall|i: int, k: KV| 0 <= i <= s.len() ==> fits_i128(#[trigger] total_in(s.take(i), k))
}

/// Drop the pairs whose amount is zero.
pub open spec fn nonzero<KV>(m: Seq<(KV, int)>) -> Seq<(KV, int)>
    decreases m.len(),
{
    if m.len() == 0 {
        Seq::empty()
    } else if m.last().1 != 0 {
        nonzero(m.drop_last()).push(m.last())
    } else {
        nonzero(m.drop_last())
    }
}

/// The map of nonzero per-key totals of a pair sequence.
pub open spec fn totals_map<KV>(s: Seq<(KV, int)>) -> Map<KV, int> {
    Map::new(|k: KV| total_in(s, k) != 0, |k: KV| total_in(s, k))
}

/// `k` goes at position `i` of `m`: every key before it is smaller, and
/// the key at `i` (when `found`) is `k`, every later key larger.
pub open spec fn is_slot<K: SortKey, V>(m: Seq<(K::V, V)>, k: K::V, found: bool, i: int) -> bool {
    &&& 0 <= i <= m.len()
    &&& forall|j: int| 0 <= j < i ==> K::key_lt(#[trigger] m[j].0, k)
    &&& found ==> i < m.len() && m[i].0 == k
    &&& !found ==> forall|j: int| i <= j < m.len() ==> K::key_lt(k, #[trigger] m[j].0)
}

// ---------------------------------------------------------------------------
// Lemmas
// ---------------------------------------------------------------------------

pub proof fn lemma_get_put<K: SortKey, V>(m: Seq<(K::V, V)>, k: K::V, v: V, k2: K::V)
    ensures
        get(put::<K, V>(m, k, v), k2) == if k2 == k {
            Some(v)
        } else {
            get(m, k2)
        },
    decreases m.len(),
{
    let p = put::<K, V>(m, k, v);
    if m.len() == 0 {
        assert(p[0] == (k, v));
        assert(p.drop_first() =~= Seq::<(K::V, V)>::empty());
        assert(get(p.drop_first(), k2) is None);
    } else if m[0].0 == k {
        assert(p[0] == (k, v));
        assert(p.drop_first() =~= m.drop_first());
    } else if K::key_lt(k, m[0].0) {
        assert(p[0] == (k, v));
        assert(p.drop_first() =~= m);
    } else {
        assert(p[0] == m[0]);
        assert(p.drop_first() =~= put::<K, V>(m.drop_first(), k, v));
        lemma_get_put::<K, V>(m.drop_first(), k, v, k2);
    }
}

pub proof fn lemma_has_key_put<K: SortKey, V>(m: Seq<(K::V, V)>, k: K::V, v: V, k2: K::V)
    ensures
        has_key(put::<K, V>(m, k, v), k2) == (k2 == k || has_key(m, k2)),
    decreases m.len(),
{
    let p = put::<K, V>(m, k, v);
    if m.len() == 0 {
        if k2 == k {
            assert(p[0].0 == k2);
        }
    } else if m[0].0 == k {
        if has_key(m, k2) {
            let i = choose|i: int| 0 <= i < m.len() && #[trigger] m[i].0 == k2;
            assert(p[i].0 == k2);
        }
        if has_key(p, k2) {
            let i = choose|i: int| 0 <= i < p.len() && #[trigger] p[i].0 == k2;
            assert(m[i].0 == k2 || i == 0);
        }
        if k2 == k {
            assert(p[0].0 == k2);
        }
    } else if K::key_lt(k, m[0].0) {
        if has_key(m, k2) {
            let i = choose|i: int| 0 <= i < m.len() && #[trigger] m[i].0 == k2;
            assert(p[i + 1].0 == k2);
        }
        if has_key(p, k2) {
            let i = choose|i: int| 0 <= i < p.len() && #[trigger] p[i].0 == k2;
            if i > 0 {
                assert(m[i - 1].0 == k2);
            }
        }
        if k2 == k {
            assert(p[0].0 == k2);
        }
    } else {
        let r = put::<K, V>(m.drop_first(), k, v);
        lemma_has_key_put::<K, V>(m.drop_first(), k, v, k2);
        assert(p =~= seq![m[0]] + r);
        if has_key(m, k2) {
            let i = choose|i: int| 0 <= i < m.len() && #[trigger] m[i].0 == k2;
            if i > 0 {
                assert(m.drop_first()[i - 1].0 == k2);
            } else {
                assert(p[0].0 == k2);
            }
        }
        if has_key(r, k2) {
            let i = choose|i: int| 0 <= i < r.len() && #[trigger] r[i].0 == k2;
            assert(p[i + 1].0 == k2);
        }
        if has_key(p, k2) {
            let i = choose|i: int| 0 <= i < p.len() && #[trigger] p[i].0 == k2;
            if i > 0 {
                assert(r[i - 1].0 == k2);
            } else {
                assert(m[0].0 == k2);
            }
        }
        if has_key(m.drop_first(), k2) {
            let i = choose|i: int| 0 <= i < m.drop_first().len() && #[trigger] m.drop_first()[i].0 == k2;
            assert(m[i + 1].0 == k2);
        }
    }
}

pub proof fn lemma_sorted_put<K: SortKey, V>(m: Seq<(K::V, V)>, k: K::V, v: V)
    requires
        sorted::<K, V>(m),
    ensures
        sorted::<K, V>(put::<K, V>(m, k, v)),
    decreases m.len(),
{
    let p = put::<K, V>(m, k, v);
    if m.len() == 0 {
    } else if m[0].0 == k {
        assert forall|i: int, j: int| 0 <= i < j < p.len() implies K::key_lt(
            #[trigger] p[i].0,
            #[trigger] p[j].0,
        ) by {
            assert(p[j].0 == m[j].0);
            if i > 0 {
                assert(p[i].0 == m[i].0);
            }
        }
    } else if K::key_lt(k, m[0].0) {
        assert forall|i: int, j: int| 0 <= i < j < p.len() implies K::key_lt(
            #[trigger] p[i].0,
            #[trigger] p[j].0,
        ) by {
            assert(p[j].0 == m[j - 1].0);
            if i > 0 {
                assert(p[i].0 == m[i - 1].0);
            } else if j - 1 > 0 {
                K::lemma_key_lt_transitive(k, m[0].0, m[j - 1].0);
            }
        }
    } else {
        K::lemma_key_lt_total(k, m[0].0);
        let r = put::<K, V>(m.drop_first(), k, v);
        assert(sorted::<K, V>(m.drop_first())) by {
            assert forall|i: int, j: int| 0 <= i < j < m.drop_first().len() implies K::key_lt(
                #[trigger] m.drop_first()[i].0,
                #[trigger] m.drop_first()[j].0,
            ) by {
                assert(m[i + 1].0 == m.drop_first()[i].0);
                assert(m[j + 1].0 == m.drop_first()[j].0);
            }
        }
        lemma_sorted_put::<K, V>(m.drop_first(), k, v);
        assert forall|i: int, j: int| 0 <= i < j < p.len() implies K::key_lt(
            #[trigger] p[i].0,
            #[trigger] p[j].0,
        ) by {
            assert(p[j] == r[j - 1]);
            if i > 0 {
                assert(p[i] == r[i - 1]);
            } else {
                assert(p[i] == m[0]);
                lemma_has_key_put::<K, V>(m.drop_first(), k, v, r[j - 1].0);
                assert(r[j - 1].0 == r[j - 1].0);
                assert(has_key(r, r[j - 1].0));
                if r[j - 1].0 != k {
                    let t = choose|t: int|
                        0 <= t < m.drop_first().len() && #[trigger] m.drop_first()[t].0 == r[j
                            - 1].0;
                    assert(m[t + 1].0 == r[j - 1].0);
                }
            }
        }
    }
}

/// Where `put` lands, in index terms: an update in place when the key is
/// present, an insertion at the slot otherwise.
pub proof fn lemma_put_at_slot<K: SortKey, V>(
    m: Seq<(K::V, V)>,
    k: K::V,
    v: V,
    found: bool,
    i: int,
)
    requires
        sorted::<K, V>(m),
        is_slot::<K, V>(m, k, found, i),
    ensures
        put::<K, V>(m, k, v) == if found {
            m.update(i, (k, v))
        } else {
            m.insert(i, (k, v))
        },
    decreases m.len(),
{
    if m.len() == 0 {
        assert(seq![(k, v)] =~= m.insert(i, (k, v)));
    } else if m[0].0 == k {
        if i > 0 {
            assert(K::key_lt(m[0].0, k));
            K::lemma_key_lt_irreflexive(k);
        }
        if !found {
            K::lemma_key_lt_irreflexive(k);
        }
        assert(seq![(k, v)] + m.drop_first() =~= m.update(i, (k, v)));
    } else if K::key_lt(k, m[0].0) {
        if i > 0 {
            assert(K::key_lt(m[0].0, k));
            K::lemma_key_lt_transitive(k, m[0].0, k);
            K::lemma_key_lt_irreflexive(k);
        }
        assert(seq![(k, v)] + m =~= m.insert(i, (k, v)));
    } else {
        K::lemma_key_lt_total(k, m[0].0);
        if i == 0 {
            if !found {
                assert(K::key_lt(k, m[0].0));
            }
        }
        assert(i > 0);
        assert(sorted::<K, V>(m.drop_first())) by {
            assert forall|a: int, b: int| 0 <= a < b < m.drop_first().len() implies K::key_lt(
                #[trigger] m.drop_first()[a].0,
                #[trigger] m.drop_first()[b].0,
            ) by {
                assert(m[a + 1].0 == m.drop_first()[a].0);
                assert(m[b + 1].0 == m.drop_first()[b].0);
            }
        }
        assert(is_slot::<K, V>(m.drop_first(), k, found, i - 1)) by {
            assert forall|j: int| 0 <= j < i - 1 implies K::key_lt(
                #[trigger] m.drop_first()[j].0,
                k,
            ) by {
                assert(m.drop_first()[j] == m[j + 1]);
            }
            if !found {
                assert forall|j: int| i - 1 <= j < m.drop_first().len() implies K::key_lt(
                    k,
                    #[trigger] m.drop_first()[j].0,
                ) by {
                    assert(m.drop_first()[j] == m[j + 1]);
                }
            }
        }
        lemma_put_at_slot::<K, V>(m.drop_first(), k, v, found, i - 1);
        if found {
            assert(seq![m[0]] + m.drop_first().update(i - 1, (k, v)) =~= m.update(i, (k, v)));
        } else {
            assert(seq![m[0]] + m.drop_first().insert(i - 1, (k, v)) =~= m.insert(i, (k, v)));
        }
    }
}

/// In a sorted list, the pair at index `i` is the one `get` finds.
pub proof fn lemma_get_sorted_index<K: SortKey, V>(m: Seq<(K::V, V)>, i: int)
    requires
        sorted::<K, V>(m),
        0 <= i < m.len(),
    ensures
        get(m, m[i].0) == Some(m[i].1),
    decreases m.len(),
{
    if i > 0 {
        assert(K::key_lt(m[0].0, m[i].0));
        if m[0].0 == m[i].0 {
            K::lemma_key_lt_irreflexive(m[i].0);
        }
        assert(sorted::<K, V>(m.drop_first())) by {
            assert forall|a: int, b: int| 0 <= a < b < m.drop_first().len() implies K::key_lt(
                #[trigger] m.drop_first()[a].0,
                #[trigger] m.drop_first()[b].0,
            ) by {
                assert(m[a + 1].0 == m.drop_first()[a].0);
                assert(m[b + 1].0 == m.drop_first()[b].0);
            }
        }
        assert(m.drop_first()[i - 1] == m[i]);
        lemma_get_sorted_index::<K, V>(m.drop_first(), i - 1);
    }
}

/// `get` finds nothing exactly when no pair has the key.
pub proof fn lemma_get_none<KV, V>(m: Seq<(KV, V)>, k: KV)
    ensures
        get(m, k) is None <==> !has_key(m, k),
    decreases m.len(),
{
    if m.len() > 0 {
        lemma_get_none(m.drop_first(), k);
        if has_key(m, k) && m[0].0 != k {
            let i = choose|i: int| 0 <= i < m.len() && #[trigger] m[i].0 == k;
            assert(m.drop_first()[i - 1].0 == k);
        }
        if has_key(m.drop_first(), k) {
            let i = choose|i: int| 0 <= i < m.drop_first().len() && #[trigger] m.drop_first()[i].0 == k;
            assert(m[i + 1].0 == k);
        }
    }
}

pub proof fn lemma_total_in_push<KV>(s: Seq<(KV, int)>, p: (KV, int), k: KV)
    ensures
        total_in(s.push(p), k) == total_in(s, k) + if p.0 == k {
            p.1
        } else {
            0
        },
{
    assert(s.push(p).drop_last() =~= s);
}

pub proof fn lemma_accum_fold<K: SortKey>(s: Seq<(K::V, int)>, k: K::V)
    ensures
        amount_of(accum_fold::<K>(s), k) == total_in(s, k),
        has_key(accum_fold::<K>(s), k) == has_key(s, k),
        sorted::<K, int>(accum_fold::<K>(s)),
    decreases s.len(),
{
    if s.len() > 0 {
        let f = accum_fold::<K>(s.drop_last());
        lemma_accum_fold::<K>(s.drop_last(), k);
        lemma_get_put::<K, int>(f, s.last().0, amount_of(f, s.last().0) + s.last().1, k);
        lemma_has_key_put::<K, int>(f, s.last().0, amount_of(f, s.last().0) + s.last().1, k);
        lemma_sorted_put::<K, int>(f, s.last().0, amount_of(f, s.last().0) + s.last().1);
        assert(s =~= s.drop_last().push(s.last()));
        if has_key(s.drop_last(), k) {
            let i = choose|i: int| 0 <= i < s.drop_last().len() && #[trigger] s.drop_last()[i].0 == k;
            assert(s[i].0 == k);
        }
        if has_key(s, k) && s.last().0 != k {
            let i = choose|i: int| 0 <= i < s.len() && #[trigger] s[i].0 == k;
            assert(s.drop_last()[i].0 == k);
        }
        if s.last().0 == k {
            assert(s[s.len() - 1].0 == k);
        }
    } else {
        assert(accum_fold::<K>(s) =~= Seq::<(K::V, int)>::empty());
    }
}

/// `total_in` of a prefix extended by one element.
pub proof fn lemma_total_in_take<KV>(s: Seq<(KV, int)>, i: int, k: KV)
    requires
        0 <= i < s.len(),
    ensures
        total_in(s.take(i + 1), k) == total_in(s.take(i), k) + if s[i].0 == k {
            s[i].1
        } else {
            0
        },
{
    assert(s.take(i + 1).drop_last() =~= s.take(i));
}

/// Dropping zero amounts keeps every total.
pub proof fn lemma_nonzero_total<KV>(m: Seq<(KV, int)>, k: KV)
    ensures
        total_in(nonzero(m), k) == total_in(m, k),
        forall|i: int| 0 <= i < nonzero(m).len() ==> #[trigger] nonzero(m)[i].1 != 0,
    decreases m.len(),
{
    if m.len() > 0 {
        lemma_nonzero_total(m.drop_last(), k);
        if m.last().1 != 0 {
            let n = nonzero(m.drop_last());
            lemma_total_in_push(n, m.last(), k);
            assert forall|i: int| 0 <= i < nonzero(m).len() implies #[trigger] nonzero(m)[i].1
                != 0 by {
                if i < n.len() {
                    assert(nonzero(m)[i] == n[i]);
                }
            }
        }
    }
}

/// Dropping zero amounts keeps the list sorted, and keeps exactly the
/// pairs with nonzero amounts.
pub proof fn lemma_nonzero_sorted<K: SortKey>(m: Seq<(K::V, int)>)
    requires
        sorted::<K, int>(m),
    ensures
        sorted::<K, int>(nonzero(m)),
        forall|j: int|
            0 <= j < nonzero(m).len() ==> exists|i: int|
                0 <= i < m.len() && #[trigger] m[i] == #[trigger] nonzero(m)[j],
    decreases m.len(),
{
    if m.len() > 0 {
        let d = m.drop_last();
        assert(sorted::<K, int>(d)) by {
            assert forall|a: int, b: int| 0 <= a < b < d.len() implies K::key_lt(
                #[trigger] d[a].0,
                #[trigger] d[b].0,
            ) by {
                assert(d[a] == m[a]);
                assert(d[b] == m[b]);
            }
        }
        lemma_nonzero_sorted::<K>(d);
        let n = nonzero(d);
        assert forall|j: int| 0 <= j < n.len() implies exists|i: int|
            0 <= i < m.len() && #[trigger] m[i] == #[trigger] n[j] by {
            let i = choose|i: int| 0 <= i < d.len() && #[trigger] d[i] == n[j];
            assert(m[i] == n[j]);
        }
        if m.last().1 != 0 {
            let r = n.push(m.last());
            assert forall|a: int, b: int| 0 <= a < b < r.len() implies K::key_lt(
                #[trigger] r[a].0,
                #[trigger] r[b].0,
            ) by {
                if b == n.len() {
                    assert(r[a] == n[a]);
                    let i = choose|i: int| 0 <= i < d.len() && #[trigger] d[i] == n[a];
                    assert(m[i] == d[i]);
                    assert(K::key_lt(m[i].0, m[m.len() - 1].0));
                } else {
                    assert(r[a] == n[a]);
                    assert(r[b] == n[b]);
                }
            }
            assert forall|j: int| 0 <= j < r.len() implies exists|i: int|
                0 <= i < m.len() && #[trigger] m[i] == #[trigger] r[j] by {
                if j == n.len() {
                    assert(m[m.len() - 1] == r[j]);
                } else {
                    assert(r[j] == n[j]);
                }
            }
        }
    }
}

/// In a sorted list, `get` agrees with `total_in`.
pub proof fn lemma_total_in_sorted<K: SortKey>(m: Seq<(K::V, int)>, k: K::V)
    requires
        sorted::<K, int>(m),
    ensures
        total_in(m, k) == amount_of(m, k),
    decreases m.len(),
{
    if m.len() > 0 {
        let d = m.drop_last();
        assert(sorted::<K, int>(d)) by {
            assert forall|a: int, b: int| 0 <= a < b < d.len() implies K::key_lt(
                #[trigger] d[a].0,
                #[trigger] d[b].0,
            ) by {
                assert(d[a] == m[a]);
                assert(d[b] == m[b]);
            }
        }
        lemma_total_in_sorted::<K>(d, k);
        if m.last().0 == k {
            lemma_get_sorted_index::<K, int>(m, m.len() - 1);
            lemma_get_none(d, k);
            if has_key(d, k) {
                let i = choose|i: int| 0 <= i < d.len() && #[trigger] d[i].0 == k;
                assert(K::key_lt(m[i].0, m[m.len() - 1].0));
                K::lemma_key_lt_irreflexive(k);
            }
        } else {
            lemma_get_none(d, k);
            lemma_get_none(m, k);
            if has_key(d, k) {
                let i = choose|i: int| 0 <= i < d.len() && #[trigger] d[i].0 == k;
                lemma_get_sorted_index::<K, int>(d, i);
                lemma_get_sorted_index::<K, int>(m, i);
                assert(d[i] == m[i]);
            } else {
                if has_key(m, k) {
                    let i = choose|i: int| 0 <= i < m.len() && #[trigger] m[i].0 == k;
                    assert(d[i].0 == k);
                }
            }
        }
    }
}

// ---------------------------------------------------------------------------
// Executable operations
// ---------------------------------------------------------------------------

/// The view of a list of `(key, i128)` pairs.
pub open spec fn amounts_view<K: SortKey>(s: Seq<(K, i128)>) -> Seq<(K::V, int)> {
    s.map_values(|p: (K, i128)| (p.0@, p.1 as int))
}

/// The view of a list of `(key, value)` pairs, keys taken by their view.
pub open spec fn pairs_view<K: SortKey, V>(s: Seq<(K, V)>) -> Seq<(K::V, V)> {
    s.map_values(|p: (K, V)| (p.0@, p.1))
}

/// Binary search for the slot of `k`.
pub fn find_slot<K: SortKey, V>(m: &Vec<(K, V)>, k: &K) -> (r: (bool, usize))
    requires
        sorted::<K, V>(pairs_view(m@)),
    ensures
        is_slot::<K, V>(pairs_view(m@), k@, r.0, r.1 as int),
{
    let ghost mv = pairs_view(m@);
    let mut lo: usize = 0;
    let mut hi: usize = m.len();
    while lo < hi
        invariant
            mv == pairs_view(m@),
            sorted::<K, V>(mv),
            0 <= lo <= hi <= m@.len(),
            forall|j: int| 0 <= j < lo ==> K::key_lt(#[trigger] mv[j].0, k@),
            forall|j: int| hi <= j < m@.len() ==> K::key_lt(k@, #[trigger] mv[j].0),
        decreases hi - lo,
    {
        let mid = lo + (hi - lo) / 2;
        assert(mv[mid as int].0 == m@[mid as int].0@);
        match m[mid].0.compare_key(k) {
            KeyOrder::Less => {
                assert forall|j: int| 0 <= j < mid + 1 implies K::key_lt(#[trigger] mv[j].0, k@) by {
                    if j < mid {
                        K::lemma_key_lt_transitive(mv[j].0, mv[mid as int].0, k@);
                    }
                }
                lo = mid + 1;
            },
            KeyOrder::Greater => {
                assert forall|j: int| mid <= j < m@.len() implies K::key_lt(k@, #[trigger] mv[j].0) by {
                    if j > mid {
                        K::lemma_key_lt_transitive(k@, mv[mid as int].0, mv[j].0);
                    }
                }
                hi = mid;
            },
            KeyOrder::Equal => {
                assert forall|j: int| 0 <= j < mid implies K::key_lt(#[trigger] mv[j].0, k@) by {}
                return (true, mid);
            },
        }
    }
    (false, lo)
}

/// Set the value of key `k` (inserting it in order when absent).
pub fn put_exec<K: SortKey, V>(m: &mut Vec<(K, V)>, k: K, v: V)
    requires
        sorted::<K, V>(pairs_view(old(m)@)),
    ensures
        pairs_view(final(m)@) == put::<K, V>(pairs_view(old(m)@), k@, v),
        sorted::<K, V>(pairs_view(final(m)@)),
{
    let (found, i) = find_slot(m, &k);
    let ghost kv = k@;
    proof {
        lemma_put_at_slot::<K, V>(pairs_view(m@), k@, v, found, i as int);
        lemma_sorted_put::<K, V>(pairs_view(m@), k@, v);
    }
    if found {
        m.set(i, (k, v));
        assert(pairs_view(m@) =~= pairs_view(old(m)@).update(i as int, (kv, v)));
    } else {
        m.insert(i, (k, v));
        assert(pairs_view(m@) =~= pairs_view(old(m)@).insert(i as int, (kv, v)));
    }
}

/// Add `x` to the amount under key `k` (inserting the key when absent).
pub fn accum_exec<K: SortKey>(m: &mut Vec<(K, i128)>, k: &K, x: i128)
    requires
        sorted::<K, int>(amounts_view(old(m)@)),
        fits_i128(amount_of(amounts_view(old(m)@), k@) + x),
    ensures
        amounts_view(final(m)@) == accum::<K>(amounts_view(old(m)@), k@, x as int),
        sorted::<K, int>(amounts_view(final(m)@)),
{
    let ghost mv = amounts_view(m@);
    assert(pairs_view(m@) =~= mv.map_values(|p: (K::V, int)| (p.0, p.1 as i128)));
    let (found, i) = find_slot(m, k);
    proof {
        assert(is_slot::<K, int>(mv, k@, found, i as int)) by {
            assert forall|j: int| 0 <= j < m@.len() implies #[trigger] mv[j].0 == pairs_view(m@)[j].0 by {}
        }
        assert(sorted::<K, int>(mv));
    }
    let nv: i128 = if found {
        proof {
            lemma_get_sorted_index::<K, int>(mv, i as int);
        }
        m[i].1 + x
    } else {
        proof {
            lemma_get_none(mv, k@);
            if has_key(mv, k@) {
                let j = choose|j: int| 0 <= j < mv.len() && #[trigger] mv[j].0 == k@;
                if j < i {
                    K::lemma_key_lt_irreflexive(k@);
                } else {
                    K::lemma_key_lt_irreflexive(k@);
                }
            }
        }
        x
    };
    let kk = k.copy_key();
    proof {
        lemma_put_at_slot::<K, int>(mv, k@, nv as int, found, i as int);
        lemma_sorted_put::<K, int>(mv, k@, nv as int);
    }
    if found {
        m.set(i, (kk, nv));
        assert(amounts_view(m@) =~= mv.update(i as int, (k@, nv as int)));
    } else {
        m.insert(i, (kk, nv));
        assert(amounts_view(m@) =~= mv.insert(i as int, (k@, nv as int)));
    }
}

/// Keep only the pairs with a nonzero amount.
pub fn retain_nonzero<K: SortKey>(m: Vec<(K, i128)>) -> (r: Vec<(K, i128)>)
    ensures
        amounts_view(r@) == nonzero(amounts_view(m@)),
{
    let mut r: Vec<(K, i128)> = Vec::new();
    let mut i: usize = 0;
    let ghost mv = amounts_view(m@);
    while i < m.len()
        invariant
            i <= m@.len(),
            mv == amounts_view(m@),
            amounts_view(r@) == nonzero(mv.take(i as int)),
        decreases m@.len() - i,
    {
        assert(mv.take(i + 1).drop_last() =~= mv.take(i as int));
        assert(mv.take(i + 1).last() == mv[i as int]);
        if m[i].1 != 0 {
            let k = m[i].0.copy_key();
            let a = m[i].1;
            r.push((k, a));
            assert(amounts_view(r@) =~= nonzero(mv.take(i as int)).push(mv[i as int]));
        }
        i += 1;
    }
    assert(mv.take(m@.len() as int) =~= mv);
    r
}

/// Look up key `k`.
pub fn get_exec<K: SortKey, V: Copy>(m: &Vec<(K, V)>, k: &K) -> (r: Option<V>)
    requires
        sorted::<K, V>(pairs_view(m@)),
    ensures
        r == get(pairs_view(m@), k@),
{
    let (found, i) = find_slot(m, k);
    if found {
        proof {
            lemma_get_sorted_index::<K, V>(pairs_view(m@), i as int);
        }
        Some(m[i].1)
    } else {
        proof {
            lemma_get_none(pairs_view(m@), k@);
            if has_key(pairs_view(m@), k@) {
                let j = choose|j: int|
                    0 <= j < pairs_view(m@).len() && #[trigger] pairs_view(m@)[j].0 == k@;
                K::lemma_key_lt_irreflexive(k@);
            }
        }
        None
    }
}

} // verus!

verus! {

/// One step of a fold: the fold of a prefix extended by one pair.
pub proof fn lemma_fold_step<K: SortKey>(s: Seq<(K::V, int)>, i: int)
    requires
        0 <= i < s.len(),
    ensures
        accum_fold::<K>(s.take(i + 1)) == accum::<K>(accum_fold::<K>(s.take(i)), s[i].0, s[i].1),
        sorted::<K, int>(accum_fold::<K>(s.take(i))),
        fold_fits(s) ==> fits_i128(amount_of(accum_fold::<K>(s.take(i)), s[i].0) + s[i].1),
{
    assert(s.take(i + 1).drop_last() =~= s.take(i));
    assert(s.take(i + 1).last() == s[i]);
    lemma_accum_fold::<K>(s.take(i), s[i].0);
    lemma_total_in_take(s, i, s[i].0);
    if fold_fits(s) {
        assert(fits_i128(total_in(s.take(i + 1), s[i].0)));
    }
}

/// Accumulate `(key, amount)` pairs, in order, into an ordered list of
/// per-key sums. Every running sum must fit `i128`.
pub fn fold_pairs<K: SortKey>(pairs: &Vec<(K, i128)>) -> (r: Vec<(K, i128)>)
    requires
        fold_fits(amounts_view(pairs@)),
    ensures
        amounts_view(r@) == accum_fold::<K>(amounts_view(pairs@)),
        sorted::<K, int>(amounts_view(r@)),
{
    let ghost s = amounts_view(pairs@);
    let mut acc: Vec<(K, i128)> = Vec::new();
    let mut i: usize = 0;
    assert(s.take(0) =~= Seq::<(K::V, int)>::empty());
    assert(amounts_view(acc@) =~= Seq::<(K::V, int)>::empty());
    while i < pairs.len()
        invariant
            i <= pairs@.len(),
            s == amounts_view(pairs@),
            fold_fits(s),
            amounts_view(acc@) == accum_fold::<K>(s.take(i as int)),
        decreases pairs@.len() - i,
    {
        proof {
            lemma_fold_step::<K>(s, i as int);
        }
        assert(s[i as int] == (pairs@[i as int].0@, pairs@[i as int].1 as int));
        accum_exec(&mut acc, &pairs[i].0, pairs[i].1);
        i += 1;
    }
    assert(s.take(i as int) =~= s);
    proof {
        lemma_accum_fold::<K>(s, arbitrary());
    }
    acc
}

/// Sums of `i64`-sized amounts stay within `len * 2^63`.
pub proof fn lemma_total_in_bound<KV>(s: Seq<(KV, int)>, k: KV)
    requires
        forall|i: int| 0 <= i < s.len() ==> i64::MIN <= #[trigger] s[i].1 <= i64::MAX,
    ensures
        -(s.len() * 0x8000_0000_0000_0000) <= total_in(s, k) <= s.len() * 0x7fff_ffff_ffff_ffff,
    decreases s.len(),
{
    if s.len() > 0 {
        assert forall|i: int| 0 <= i < s.drop_last().len() implies i64::MIN <= #[trigger] s.drop_last()[i].1 <= i64::MAX by {
            assert(s.drop_last()[i] == s[i]);
        }
        lemma_total_in_bound(s.drop_last(), k);
        assert(s.last() == s[s.len() - 1]);
    }
}

/// Accumulating at most `u64::MAX` amounts of `i64` size never overflows
/// `i128`.
pub proof fn lemma_i64_fold_fits<KV>(s: Seq<(KV, int)>)
    requires
        s.len() <= u64::MAX,
        forall|i: int| 0 <= i < s.len() ==> i64::MIN <= #[trigger] s[i].1 <= i64::MAX,
    ensures
        fold_fits(s),
        forall|k: KV|
            -(0xffff_ffff_ffff_ffff * 0x8000_0000_0000_0000) <= #[trigger] total_in(s, k)
                <= 0xffff_ffff_ffff_ffff * 0x7fff_ffff_ffff_ffff,
{
    assert forall|i: int, k: KV| 0 <= i <= s.len() implies fits_i128(#[trigger] total_in(s.take(i), k)) by {
        assert forall|j: int| 0 <= j < s.take(i).len() implies i64::MIN <= #[trigger] s.take(i)[j].1
            <= i64::MAX by {
            assert(s.take(i)[j] == s[j]);
        }
        lemma_total_in_bound(s.take(i), k);
    }
    assert forall|k: KV|
        -(0xffff_ffff_ffff_ffff * 0x8000_0000_0000_0000) <= #[trigger] total_in(s, k)
            <= 0xffff_ffff_ffff_ffff * 0x7fff_ffff_ffff_ffff by {
        lemma_total_in_bound(s, k);
    }
}

} // verus!

verus! {

/// Each pair of a fold holds its key's total.
pub proof fn lemma_fold_entry<K: SortKey>(s: Seq<(K::V, int)>, k: int)
    requires
        0 <= k < accum_fold::<K>(s).len(),
    ensures
        accum_fold::<K>(s)[k].1 == total_in(s, accum_fold::<K>(s)[k].0),
{
    let f = accum_fold::<K>(s);
    lemma_accum_fold::<K>(s, f[k].0);
    lemma_get_sorted_index::<K, int>(f, k);
}

} // verus!

verus! {

pub proof fn lemma_amounts_view_push<K: SortKey>(s: Seq<(K, i128)>, p: (K, i128))
    ensures
        amounts_view(s.push(p)) == amounts_view(s).push((p.0@, p.1 as int)),
{
    assert(amounts_view(s.push(p)) =~= amounts_view(s).push((p.0@, p.1 as int)));
}

} // verus!

verus! {

/// The amount held under key `k` (zero when absent).
pub fn amount_exec<K: SortKey>(m: &Vec<(K, i128)>, k: &K) -> (r: i128)
    requires
        sorted::<K, int>(amounts_view(m@)),
    ensures
        r == amount_of(amounts_view(m@), k@),
{
    let ghost mv = amounts_view(m@);
    assert(sorted::<K, i128>(pairs_view(m@))) by {
        assert forall|i: int, j: int| 0 <= i < j < pairs_view(m@).len() implies K::key_lt(
            #[trigger] pairs_view(m@)[i].0,
            #[trigger] pairs_view(m@)[j].0,
        ) by {
            assert(pairs_view(m@)[i].0 == mv[i].0);
            assert(pairs_view(m@)[j].0 == mv[j].0);
        }
    }
    let (found, i) = find_slot(m, k);
    if found {
        proof {
            assert(mv[i as int].0 == k@);
            lemma_get_sorted_index::<K, int>(mv, i as int);
        }
        m[i].1
    } else {
        proof {
            lemma_get_none(mv, k@);
            if has_key(mv, k@) {
                let j = choose|j: int| 0 <= j < mv.len() && #[trigger] mv[j].0 == k@;
                assert(pairs_view(m@)[j].0 == k@);
                K::lemma_key_lt_irreflexive(k@);
            }
        }
        0
    }
}

/// A prefix of a sequence whose fold fits also fits.
pub proof fn lemma_fold_fits_prefix<KV>(s: Seq<(KV, int)>, n: int)
    requires
        fold_fits(s),
        0 <= n <= s.len(),
    ensures
        fold_fits(s.take(n)),
{
    assert forall|i: int, k: KV| 0 <= i <= s.take(n).len() implies fits_i128(
        #[trigger] total_in(s.take(n).take(i), k),
    ) by {
        assert(s.take(n).take(i) =~= s.take(i));
        assert(fits_i128(total_in(s.take(i), k)));
    }
}


// ---------------------------------------------------------------------------
// Sums over a key predicate
// ---------------------------------------------------------------------------

/// Sum of the amounts whose key satisfies `p`.
pub open spec fn sum_where<KV>(s: Seq<(KV, int)>, p: spec_fn(KV) -> bool) -> int
    decreases s.len(),
{
    if s.len() == 0 {
        0
    } else {
        sum_where(s.drop_last(), p) + if p(s.last().0) {
            s.last().1
        } else {
            0
        }
    }
}

pub proof fn lemma_sum_where_concat<KV>(x: Seq<(KV, int)>, y: Seq<(KV, int)>, p: spec_fn(KV) -> bool)
    ensures
        sum_where(x + y, p) == sum_where(x, p) + sum_where(y, p),
    decreases y.len(),
{
    if y.len() == 0 {
        assert(x + y =~= x);
    } else {
        assert((x + y).drop_last() =~= x + y.drop_last());
        lemma_sum_where_concat(x, y.drop_last(), p);
    }
}

/// A single pair's contribution.
pub proof fn lemma_sum_where_single<KV>(q: (KV, int), p: spec_fn(KV) -> bool)
    ensures
        sum_where(seq![q], p) == if p(q.0) {
            q.1
        } else {
            0
        },
{
    assert(seq![q].drop_last() =~= Seq::<(KV, int)>::empty());
    assert(seq![q].last() == q);
    assert(sum_where(Seq::<(KV, int)>::empty(), p) == 0);
}

/// Setting the value of a key in a sorted list changes a predicate sum by
/// the difference at that key.
pub proof fn lemma_sum_where_put<K: SortKey>(m: Seq<(K::V, int)>, k: K::V, v: int, p: spec_fn(K::V) -> bool)
    requires
        sorted::<K, int>(m),
    ensures
        sum_where(put::<K, int>(m, k, v), p) == sum_where(m, p) + if p(k) {
            v - amount_of(m, k)
        } else {
            0
        },
    decreases m.len(),
{
    lemma_sum_where_single((k, v), p);
    if m.len() == 0 {
    } else {
        let t = m.drop_first();
        assert(m =~= seq![m[0]] + t);
        lemma_sum_where_concat(seq![m[0]], t, p);
        lemma_sum_where_single(m[0], p);
        if m[0].0 == k {
            lemma_sum_where_concat(seq![(k, v)], t, p);
        } else if K::key_lt(k, m[0].0) {
            lemma_sum_where_concat(seq![(k, v)], m, p);
            lemma_get_none(m, k);
            if has_key(m, k) {
                let i = choose|i: int| 0 <= i < m.len() && #[trigger] m[i].0 == k;
                if i > 0 {
                    K::lemma_key_lt_transitive(k, m[0].0, m[i].0);
                }
                K::lemma_key_lt_irreflexive(k);
            }
        } else {
            assert(sorted::<K, int>(t)) by {
                assert forall|a: int, b: int| 0 <= a < b < t.len() implies K::key_lt(
                    #[trigger] t[a].0,
                    #[trigger] t[b].0,
                ) by {
                    assert(t[a] == m[a + 1]);
                    assert(t[b] == m[b + 1]);
                }
            }
            lemma_sum_where_put::<K>(t, k, v, p);
            lemma_sum_where_concat(seq![m[0]], put::<K, int>(t, k, v), p);
        }
    }
}

/// Folding pairs into per-key sums keeps every predicate sum.
pub proof fn lemma_sum_where_fold<K: SortKey>(s: Seq<(K::V, int)>, p: spec_fn(K::V) -> bool)
    ensures
        sum_where(accum_fold::<K>(s), p) == sum_where(s, p),
    decreases s.len(),
{
    if s.len() > 0 {
        let f = accum_fold::<K>(s.drop_last());
        lemma_sum_where_fold::<K>(s.drop_last(), p);
        lemma_accum_fold::<K>(s.drop_last(), s.last().0);
        lemma_sum_where_put::<K>(f, s.last().0, amount_of(f, s.last().0) + s.last().1, p);
    }
}

/// Setting one key in two lists with the same keys keeps them so.
pub proof fn lemma_keys_put<K: SortKey>(m1: Seq<(K::V, int)>, m2: Seq<(K::V, int)>, k: K::V, v1: int, v2: int)
    requires
        keys_of(m1) == keys_of(m2),
    ensures
        keys_of(put::<K, int>(m1, k, v1)) == keys_of(put::<K, int>(m2, k, v2)),
    decreases m1.len(),
{
    assert(m1.len() == keys_of(m1).len());
    assert(m2.len() == keys_of(m2).len());
    if m1.len() > 0 {
        assert(m1[0].0 == keys_of(m1)[0]);
        assert(m2[0].0 == keys_of(m2)[0]);
        assert(keys_of(m1.drop_first()) =~= keys_of(m1).drop_first());
        assert(keys_of(m2.drop_first()) =~= keys_of(m2).drop_first());
        if m1[0].0 != k && !K::key_lt(k, m1[0].0) {
            lemma_keys_put::<K>(m1.drop_first(), m2.drop_first(), k, v1, v2);
            assert(keys_of(put::<K, int>(m1, k, v1)) =~= seq![m1[0].0] + keys_of(
                put::<K, int>(m1.drop_first(), k, v1),
            ));
            assert(keys_of(put::<K, int>(m2, k, v2)) =~= seq![m2[0].0] + keys_of(
                put::<K, int>(m2.drop_first(), k, v2),
            ));
        } else if m1[0].0 == k {
            assert(keys_of(put::<K, int>(m1, k, v1)) =~= seq![k] + keys_of(m1.drop_first()));
            assert(keys_of(put::<K, int>(m2, k, v2)) =~= seq![k] + keys_of(m2.drop_first()));
        } else {
            assert(keys_of(put::<K, int>(m1, k, v1)) =~= seq![k] + keys_of(m1));
            assert(keys_of(put::<K, int>(m2, k, v2)) =~= seq![k] + keys_of(m2));
        }
    } else {
        assert(keys_of(put::<K, int>(m1, k, v1)) =~= seq![k]);
        assert(keys_of(put::<K, int>(m2, k, v2)) =~= seq![k]);
    }
}

/// Folds of two pair sequences with the same keys have the same keys.
pub proof fn lemma_keys_fold<K: SortKey>(s1: Seq<(K::V, int)>, s2: Seq<(K::V, int)>)
    requires
        keys_of(s1) == keys_of(s2),
    ensures
        keys_of(accum_fold::<K>(s1)) == keys_of(accum_fold::<K>(s2)),
    decreases s1.len(),
{
    assert(s1.len() == keys_of(s1).len());
    assert(s2.len() == keys_of(s2).len());
    if s1.len() > 0 {
        assert(keys_of(s1.drop_last()) =~= keys_of(s1).drop_last());
        assert(keys_of(s2.drop_last()) =~= keys_of(s2).drop_last());
        lemma_keys_fold::<K>(s1.drop_last(), s2.drop_last());
        assert(s1.last().0 == keys_of(s1)[s1.len() - 1]);
        assert(s2.last().0 == keys_of(s2)[s2.len() - 1]);
        let f1 = accum_fold::<K>(s1.drop_last());
        let f2 = accum_fold::<K>(s2.drop_last());
        lemma_keys_put::<K>(
            f1,
            f2,
            s1.last().0,
            amount_of(f1, s1.last().0) + s1.last().1,
            amount_of(f2, s2.last().0) + s2.last().1,
        );
    }
}

} // verus!
