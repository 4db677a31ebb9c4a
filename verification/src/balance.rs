//! Balances: a multi-asset position, and `balance_at`, the primitive every
//! statement composes from. Balances fold the journal.
use crate::asset::{Asset, TokenId};
use crate::journal::{EntryView, Journal, LedgerEntry};
use crate::keys::{
    accum_fold, amount_of, amounts_view, fits_i128, fold_fits, fold_pairs, get_exec, has_key,
    lemma_accum_fold, lemma_get_none, lemma_get_sorted_index, lemma_has_key_put,
    lemma_nonzero_sorted, lemma_nonzero_total, lemma_total_in_sorted, nonzero, pairs_view, put_exec,
    retain_nonzero, sorted, total_in, totals_map, find_slot, SortKey,
};
use crate::text::{compare_str, seq_lt, KeyOrder};
use vstd::prelude::*;

verus! {

/// A position across assets, each in its smallest unit, listing only
/// nonzero holdings, ascending by asset.
#[derive(Debug)]
pub struct Balances {
    entries: Vec<(Asset, i128)>,
}

/// The amount `m` holds of `a` (zero when absent).
pub open spec fn held(m: Map<Asset, int>, a: Asset) -> int {
    if m.contains_key(a) {
        m[a]
    } else {
        0
    }
}

/// The sum of two positions, per asset, without zero holdings.
pub open spec fn add_positions(b: Map<Asset, int>, d: Map<Asset, int>) -> Map<Asset, int> {
    Map::new(|a: Asset| held(b, a) + held(d, a) != 0, |a: Asset| held(b, a) + held(d, a))
}

impl View for Balances {
    type V = Map<Asset, int>;

    closed spec fn view(&self) -> Map<Asset, int> {
        totals_map(amounts_view(self.entries@))
    }
}

impl Balances {
    #[verifier::type_invariant]
    closed spec fn wf(self) -> bool {
        &&& sorted::<Asset, int>(amounts_view(self.entries@))
        &&& forall|i: int| 0 <= i < self.entries@.len() ==> #[trigger] self.entries@[i].1 != 0
    }

    /// The held assets, ascending, each with its (nonzero) amount.
    pub closed spec fn list(&self) -> Seq<(Asset, int)> {
        amounts_view(self.entries@)
    }

    pub proof fn lemma_list(&self)
        requires
            sorted::<Asset, int>(self.list()),
            forall|i: int| 0 <= i < self.list().len() ==> #[trigger] self.list()[i].1 != 0,
        ensures
            forall|a: Asset| self@.contains_key(a) <==> has_key(self.list(), a),
            forall|a: Asset| #[trigger] self@.contains_key(a) ==> self@[a] == amount_of(self.list(), a),
            forall|i: int| 0 <= i < self.list().len() ==> self@.contains_key(#[trigger] self.list()[i].0) && self@[self.list()[i].0]
                == self.list()[i].1,
    {
        let l = self.list();
        assert forall|a: Asset| self@.contains_key(a) <==> has_key(l, a) by {
            lemma_total_in_sorted::<Asset>(l, a);
            lemma_get_none(l, a);
            if has_key(l, a) {
                let i = choose|i: int| 0 <= i < l.len() && #[trigger] l[i].0 == a;
                lemma_get_sorted_index::<Asset, int>(l, i);
            }
        }
        assert forall|a: Asset| #[trigger] self@.contains_key(a) implies self@[a] == amount_of(l, a) by {
            lemma_total_in_sorted::<Asset>(l, a);
        }
        assert forall|i: int| 0 <= i < l.len() implies self@.contains_key(#[trigger] l[i].0)
            && self@[l[i].0] == l[i].1 by {
            lemma_get_sorted_index::<Asset, int>(l, i);
            lemma_total_in_sorted::<Asset>(l, l[i].0);
        }
    }

    pub fn new() -> (r: Self)
        ensures
            r@ == Map::<Asset, int>::empty(),
    {
        let r = Balances { entries: Vec::new() };
        assert(r@ =~= Map::<Asset, int>::empty());
        r
    }

    /// The balances of a sorted list of per-asset sums, zeros dropped.
    fn from_sums(sums: Vec<(Asset, i128)>) -> (r: Self)
        requires
            sorted::<Asset, int>(amounts_view(sums@)),
        ensures
            forall|a: Asset| #[trigger] r@.contains_key(a) == (total_in(amounts_view(sums@), a) != 0),
            forall|a: Asset| #[trigger] r@.contains_key(a) ==> r@[a] == total_in(amounts_view(sums@), a),
            r@ == totals_map(amounts_view(sums@)),
    {
        let nz = retain_nonzero(sums);
        proof {
            lemma_nonzero_sorted::<Asset>(amounts_view(sums@));
            assert forall|a: Asset| true implies #[trigger] total_in(amounts_view(nz@), a) == total_in(
                amounts_view(sums@),
                a,
            ) by {
                lemma_nonzero_total(amounts_view(sums@), a);
            }
            lemma_nonzero_total(amounts_view(sums@), arbitrary());
            assert forall|i: int| 0 <= i < nz@.len() implies #[trigger] nz@[i].1 != 0 by {
                assert(amounts_view(nz@)[i].1 == nz@[i].1);
            }
        }
        let r = Balances { entries: nz };
        assert(r@ =~= totals_map(amounts_view(sums@)));
        r
    }

    /// The balances folded from `(asset, amount)` pairs, in order.
    pub(crate) fn fold_from(pairs: &Vec<(Asset, i128)>) -> (r: Self)
        requires
            fold_fits(amounts_view(pairs@)),
        ensures
            r@ == totals_map(amounts_view(pairs@)),
    {
        let sums = fold_pairs(pairs);
        let r = Balances::from_sums(sums);
        proof {
            assert forall|a: Asset| true implies #[trigger] total_in(amounts_view(sums@), a)
                == total_in(amounts_view(pairs@), a) by {
                lemma_total_in_sorted::<Asset>(amounts_view(sums@), a);
                lemma_accum_fold::<Asset>(amounts_view(pairs@), a);
            }
        }
        assert(r@ =~= totals_map(amounts_view(pairs@)));
        r
    }

    pub fn is_empty(&self) -> (r: bool)
        ensures
            r == (self@ == Map::<Asset, int>::empty()),
    {
        proof {
            use_type_invariant(self);
            self.lemma_list();
        }
        if self.entries.len() == 0 {
            assert(self@ =~= Map::<Asset, int>::empty());
            true
        } else {
            assert(self@.contains_key(self.list()[0].0));
            false
        }
    }

    /// The number of assets held.
    pub fn len(&self) -> (r: usize)
        ensures
            r == self.list().len(),
    {
        self.entries.len()
    }

    /// The amount held of `asset`, if nonzero.
    pub fn get(&self, asset: &Asset) -> (r: Option<i128>)
        ensures
            r matches Some(v) ==> self@.contains_key(*asset) && self@[*asset] == v,
            r is None ==> !self@.contains_key(*asset),
    {
        proof {
            use_type_invariant(self);
            self.lemma_list();
        }
        assert(pairs_view(self.entries@) =~= amounts_view(self.entries@).map_values(
            |p: (Asset, int)| (p.0, p.1 as i128),
        ));
        let r = get_exec(&self.entries, asset);
        proof {
            let l = self.list();
            lemma_get_none(pairs_view(self.entries@), *asset);
            lemma_get_none(l, *asset);
            if has_key(l, *asset) {
                let i = choose|i: int| 0 <= i < l.len() && #[trigger] l[i].0 == *asset;
                lemma_get_sorted_index::<Asset, i128>(pairs_view(self.entries@), i);
                assert(pairs_view(self.entries@)[i].0 == *asset);
            }
            if has_key(pairs_view(self.entries@), *asset) {
                let i = choose|i: int| 0 <= i < pairs_view(self.entries@).len() && #[trigger] pairs_view(self.entries@)[i].0 == *asset;
                assert(l[i].0 == *asset);
            }
        }
        r
    }

    /// The held assets, ascending, each with its nonzero amount.
    pub fn entries(&self) -> (r: &[(Asset, i128)])
        ensures
            amounts_view(r@) == self.list(),
            sorted::<Asset, int>(self.list()),
            forall|i: int| 0 <= i < self.list().len() ==> #[trigger] self.list()[i].1 != 0,
            forall|i: int| 0 <= i < self.list().len() ==> self@.contains_key(#[trigger] self.list()[i].0) && self@[self.list()[i].0]
                == self.list()[i].1,
            forall|a: Asset| self@.contains_key(a) <==> has_key(self.list(), a),
    {
        proof {
            use_type_invariant(self);
            assert forall|i: int| 0 <= i < self.list().len() implies #[trigger] self.list()[i].1 != 0 by {
                assert(self.list()[i].1 == self.entries@[i].1);
            }
            self.lemma_list();
        }
        self.entries.as_slice()
    }

    /// Whether two positions hold the same amounts of the same assets.
    pub fn same_as(&self, other: &Balances) -> (r: bool)
        ensures
            r == (self@ == other@),
    {
        proof {
            use_type_invariant(self);
            use_type_invariant(other);
        }
        let a = self.entries();
        let b = other.entries();
        if a.len() != b.len() {
            proof {
                if self@ == other@ {
                    lemma_same_len(self.list(), other.list(), self@);
                }
            }
            return false;
        }
        let mut i: usize = 0;
        while i < a.len()
            invariant
                i <= a@.len(),
                a@.len() == b@.len(),
                sorted::<Asset, int>(self.list()),
                sorted::<Asset, int>(other.list()),
                forall|j: int| 0 <= j < self.list().len() ==> #[trigger] self.list()[j].1 != 0,
                forall|j: int| 0 <= j < other.list().len() ==> #[trigger] other.list()[j].1 != 0,
                amounts_view(a@) == self.list(),
                amounts_view(b@) == other.list(),
                forall|j: int| 0 <= j < i ==> #[trigger] a@[j] == b@[j],
            decreases a@.len() - i,
        {
            if !(a[i].0 == b[i].0 && a[i].1 == b[i].1) {
                proof {
                    if self@ == other@ {
                        lemma_same_lists(self.list(), other.list(), self@);
                        assert(self.list()[i as int] == other.list()[i as int]);
                    }
                }
                return false;
            }
            i += 1;
        }
        proof {
            assert(self.list() =~= other.list()) by {
                assert forall|j: int| 0 <= j < self.list().len() implies self.list()[j] == other.list()[j] by {
                    assert(a@[j] == b@[j]);
                }
            }
            assert(self@ =~= other@);
        }
        true
    }

    /// A copy of this position.
    pub fn copy(&self) -> (r: Balances)
        ensures
            r@ == self@,
            r.list() == self.list(),
    {
        proof {
            use_type_invariant(self);
        }
        let mut es: Vec<(Asset, i128)> = Vec::new();
        let mut i: usize = 0;
        while i < self.entries.len()
            invariant
                i <= self.entries@.len(),
                es@ == self.entries@.take(i as int),
            decreases self.entries@.len() - i,
        {
            es.push(self.entries[i]);
            assert(es@ =~= self.entries@.take(i + 1));
            i += 1;
        }
        assert(es@ =~= self.entries@);
        Balances { entries: es }
    }
}

impl Clone for Balances {
    fn clone(&self) -> (r: Self)
        ensures
            r@ == self@,
    {
        self.copy()
    }
}

/// Two sorted, zero-free lists with the same map have the same length.
proof fn lemma_same_len(x: Seq<(Asset, int)>, y: Seq<(Asset, int)>, m: Map<Asset, int>)
    requires
        sorted::<Asset, int>(x),
        sorted::<Asset, int>(y),
        forall|i: int| 0 <= i < x.len() ==> #[trigger] x[i].1 != 0,
        forall|i: int| 0 <= i < y.len() ==> #[trigger] y[i].1 != 0,
        totals_map(x) == m,
        totals_map(y) == m,
    ensures
        x.len() == y.len(),
{
    lemma_same_lists(x, y, m);
}

/// Two sorted, zero-free lists with the same map are equal.
proof fn lemma_same_lists(x: Seq<(Asset, int)>, y: Seq<(Asset, int)>, m: Map<Asset, int>)
    requires
        sorted::<Asset, int>(x),
        sorted::<Asset, int>(y),
        forall|i: int| 0 <= i < x.len() ==> #[trigger] x[i].1 != 0,
        forall|i: int| 0 <= i < y.len() ==> #[trigger] y[i].1 != 0,
        totals_map(x) == m,
        totals_map(y) == m,
    ensures
        x == y,
    decreases x.len() + y.len(),
{
    // Keys of each list are exactly the keys of `m`.
    assert forall|a: Asset| has_key(x, a) <==> has_key(y, a) by {
        lemma_total_in_sorted::<Asset>(x, a);
        lemma_total_in_sorted::<Asset>(y, a);
        lemma_get_none(x, a);
        lemma_get_none(y, a);
        if has_key(x, a) {
            let i = choose|i: int| 0 <= i < x.len() && #[trigger] x[i].0 == a;
            lemma_get_sorted_index::<Asset, int>(x, i);
            assert(totals_map(x).contains_key(a));
        }
        if has_key(y, a) {
            let i = choose|i: int| 0 <= i < y.len() && #[trigger] y[i].0 == a;
            lemma_get_sorted_index::<Asset, int>(y, i);
            assert(totals_map(y).contains_key(a));
        }
    }
    if x.len() > 0 && y.len() > 0 {
        let a = x.last().0;
        let b = y.last().0;
        assert(x[x.len() - 1].0 == a);
        assert(y[y.len() - 1].0 == b);
        assert(has_key(x, a));
        assert(has_key(y, b));
        let i = choose|i: int| 0 <= i < y.len() && #[trigger] y[i].0 == a;
        let j = choose|j: int| 0 <= j < x.len() && #[trigger] x[j].0 == b;
        Asset::lemma_key_lt_total(a, b);
        if Asset::key_lt(a, b) {
            if j < x.len() - 1 {
                Asset::lemma_key_lt_transitive(b, a, b);
            } else {
                assert(x[j].0 == a);
            }
            Asset::lemma_key_lt_irreflexive(b);
        }
        if Asset::key_lt(b, a) {
            if i < y.len() - 1 {
                Asset::lemma_key_lt_transitive(a, b, a);
            } else {
                assert(y[i].0 == b);
            }
            Asset::lemma_key_lt_irreflexive(a);
        }
        assert(a == b);
        lemma_total_in_sorted::<Asset>(x, a);
        lemma_total_in_sorted::<Asset>(y, a);
        lemma_get_sorted_index::<Asset, int>(x, x.len() - 1);
        lemma_get_sorted_index::<Asset, int>(y, y.len() - 1);
        assert(total_in(x, a) == x.last().1);
        assert(total_in(y, a) == y.last().1);
        assert(x[x.len() - 1].1 != 0);
        assert(y[y.len() - 1].1 != 0);
        assert(totals_map(x).contains_key(a));
        assert(totals_map(y).contains_key(a));
        assert(totals_map(x)[a] == totals_map(y)[a]);
        assert(x.last() == y.last());
        let xd = x.drop_last();
        let yd = y.drop_last();
        assert(sorted::<Asset, int>(xd)) by {
            assert forall|p: int, q: int| 0 <= p < q < xd.len() implies Asset::key_lt(
                #[trigger] xd[p].0,
                #[trigger] xd[q].0,
            ) by {
                assert(xd[p] == x[p]);
                assert(xd[q] == x[q]);
            }
        }
        assert(sorted::<Asset, int>(yd)) by {
            assert forall|p: int, q: int| 0 <= p < q < yd.len() implies Asset::key_lt(
                #[trigger] yd[p].0,
                #[trigger] yd[q].0,
            ) by {
                assert(yd[p] == y[p]);
                assert(yd[q] == y[q]);
            }
        }
        assert forall|p: int| 0 <= p < xd.len() implies #[trigger] xd[p].1 != 0 by {
            assert(xd[p] == x[p]);
        }
        assert forall|p: int| 0 <= p < yd.len() implies #[trigger] yd[p].1 != 0 by {
            assert(yd[p] == y[p]);
        }
        assert(totals_map(xd) =~= totals_map(yd)) by {
            assert forall|c: Asset| true implies #[trigger] total_in(xd, c) == total_in(yd, c) by {
                assert(total_in(x, c) == total_in(xd, c) + if a == c {
                    x.last().1
                } else {
                    0
                });
                assert(total_in(y, c) == total_in(yd, c) + if a == c {
                    y.last().1
                } else {
                    0
                });
                if total_in(x, c) != 0 {
                    assert(totals_map(x).contains_key(c));
                    assert(totals_map(y).contains_key(c));
                    assert(totals_map(x)[c] == totals_map(y)[c]);
                } else {
                    assert(!totals_map(x).contains_key(c));
                    assert(!totals_map(y).contains_key(c));
                }
                assert(total_in(x, c) == total_in(y, c));
            }
        }
        lemma_same_lists(xd, yd, totals_map(xd));
        assert(x =~= xd.push(x.last()));
        assert(y =~= yd.push(y.last()));
    } else if x.len() > 0 {
        assert(has_key(x, x[0].0));
    } else if y.len() > 0 {
        assert(has_key(y, y[0].0));
    } else {
        assert(x =~= y);
    }
}

/// The `(asset, amount)` pairs of `account`'s entries on or before
/// `as_of` (all of them for `None`), in journal order.
pub open spec fn position_pairs(es: Seq<EntryView>, account: Seq<char>, as_of: Option<Seq<char>>) -> Seq<
    (Asset, int),
>
    decreases es.len(),
{
    if es.len() == 0 {
        Seq::empty()
    } else {
        let e = es.last();
        position_pairs(es.drop_last(), account, as_of) + if e.account == account && (as_of is None
            || !seq_lt(as_of->0, e.day)) {
            seq![(e.asset, e.amount)]
        } else {
            Seq::empty()
        }
    }
}

/// The view of an optional string.
pub open spec fn opt_view(o: Option<&str>) -> Option<Seq<char>> {
    match o {
        Some(s) => Some(s@),
        None => None,
    }
}

/// Whether `day` is on or before `bound` (always, for no bound).
pub fn on_or_before(day: &str, bound: Option<&str>) -> (r: bool)
    ensures
        r == (bound is None || !seq_lt(bound->0@, day@)),
{
    match bound {
        None => true,
        Some(b) => match compare_str(day, b) {
            KeyOrder::Greater => false,
            _ => true,
        },
    }
}

/// Sum every posting for `account` whose day is on or before `as_of_day`
/// (inclusive, "YYYY-MM-DD"; `None` folds the whole journal). Assets that
/// net to zero are dropped.
pub fn balance_at(journal: &Journal, account: &str, as_of_day: Option<&str>) -> (r: Balances)
    requires
        fold_fits(position_pairs(journal@, account@, opt_view(as_of_day))),
    ensures
        r@ == totals_map(position_pairs(journal@, account@, opt_view(as_of_day))),
{
    let es = journal.entries();
    let ghost ev = journal@;
    let ghost bound = opt_view(as_of_day);
    let mut pairs: Vec<(Asset, i128)> = Vec::new();
    let mut i: usize = 0;
    while i < es.len()
        invariant
            i <= es@.len(),
            ev == es@.map_values(|e: LedgerEntry| e@),
            bound == opt_view(as_of_day),
            amounts_view(pairs@) == position_pairs(ev.take(i as int), account@, bound),
        decreases es@.len() - i,
    {
        let e = &es[i];
        assert(ev.take(i + 1).drop_last() =~= ev.take(i as int));
        assert(ev.take(i + 1).last() == e@);
        if crate::text::str_eq(e.account.as_str(), account) && on_or_before(e.day.as_str(), as_of_day) {
            pairs.push((e.asset, e.amount));
        }
        assert(amounts_view(pairs@) =~= position_pairs(ev.take(i + 1), account@, bound));
        i += 1;
    }
    assert(ev.take(i as int) =~= ev);
    Balances::fold_from(&pairs)
}

/// Add two positions (rolling an opening balance forward by a period of
/// net movement). Every per-asset sum must fit `i128`.
pub fn add(base: Balances, delta: &Balances) -> (r: Balances)
    requires
        forall|a: Asset| #[trigger] fits_i128(held(base@, a) + held(delta@, a)),
    ensures
        r@ == add_positions(base@, delta@),
{
    let b = base.entries();
    let d = delta.entries();
    let mut pairs: Vec<(Asset, i128)> = Vec::new();
    let mut i: usize = 0;
    while i < b.len()
        invariant
            i <= b@.len(),
            pairs@ == b@.take(i as int),
        decreases b@.len() - i,
    {
        pairs.push(b[i]);
        assert(pairs@ =~= b@.take(i + 1));
        i += 1;
    }
    let mut j: usize = 0;
    while j < d.len()
        invariant
            i == b@.len(),
            j <= d@.len(),
            pairs@ == b@ + d@.take(j as int),
        decreases d@.len() - j,
    {
        pairs.push(d[j]);
        assert(pairs@ =~= b@ + d@.take(j + 1));
        j += 1;
    }
    assert(b@.take(i as int) =~= b@);
    assert(d@.take(j as int) =~= d@);
    assert(amounts_view(pairs@) =~= amounts_view(b@) + amounts_view(d@));
    proof {
        lemma_concat_fits(base.list(), delta.list(), base@, delta@);
    }
    let r = Balances::fold_from(&pairs);
    proof {
        let s = base.list() + delta.list();
        assert forall|a: Asset| true implies #[trigger] total_in(s, a) == held(base@, a) + held(delta@, a) by {
            lemma_total_in_concat(base.list(), delta.list(), a);
            lemma_list_total(base.list(), base@, a);
            lemma_list_total(delta.list(), delta@, a);
        }
        assert(r@ =~= add_positions(base@, delta@));
    }
    r
}

pub proof fn lemma_total_in_concat<KV>(x: Seq<(KV, int)>, y: Seq<(KV, int)>, k: KV)
    ensures
        total_in(x + y, k) == total_in(x, k) + total_in(y, k),
    decreases y.len(),
{
    if y.len() == 0 {
        assert(x + y =~= x);
    } else {
        assert((x + y).drop_last() =~= x + y.drop_last());
        lemma_total_in_concat(x, y.drop_last(), k);
    }
}

/// In a position's list, an asset's total is what the position holds.
proof fn lemma_list_total(l: Seq<(Asset, int)>, m: Map<Asset, int>, a: Asset)
    requires
        m == totals_map(l),
    ensures
        total_in(l, a) == held(m, a),
{
}

/// In a list where a key occurs at most once, a prefix total is zero or the
/// full total.
proof fn lemma_prefix_total_sorted(l: Seq<(Asset, int)>, i: int, a: Asset)
    requires
        sorted::<Asset, int>(l),
        0 <= i <= l.len(),
    ensures
        total_in(l.take(i), a) == 0 || total_in(l.take(i), a) == total_in(l, a),
    decreases l.len() - i,
{
    if i < l.len() {
        let d = l.drop_last();
        assert(sorted::<Asset, int>(d)) by {
            assert forall|p: int, q: int| 0 <= p < q < d.len() implies Asset::key_lt(
                #[trigger] d[p].0,
                #[trigger] d[q].0,
            ) by {
                assert(d[p] == l[p]);
                assert(d[q] == l[q]);
            }
        }
        assert(d.take(i) =~= l.take(i));
        lemma_prefix_total_sorted(d, i, a);
        if l.last().0 == a {
            // `a` is the last key, so no earlier key equals it.
            lemma_total_in_sorted::<Asset>(d, a);
            lemma_get_none(d, a);
            if has_key(d, a) {
                let p = choose|p: int| 0 <= p < d.len() && #[trigger] d[p].0 == a;
                assert(Asset::key_lt(l[p].0, l[l.len() - 1].0));
                Asset::lemma_key_lt_irreflexive(a);
            }
            lemma_total_in_sorted::<Asset>(d.take(i), a);
            assert(sorted::<Asset, int>(d.take(i))) by {
                assert forall|p: int, q: int| 0 <= p < q < d.take(i).len() implies Asset::key_lt(
                    #[trigger] d.take(i)[p].0,
                    #[trigger] d.take(i)[q].0,
                ) by {
                    assert(d.take(i)[p] == d[p]);
                    assert(d.take(i)[q] == d[q]);
                }
            }
            lemma_total_in_sorted::<Asset>(d.take(i), a);
            lemma_get_none(d.take(i), a);
            if has_key(d.take(i), a) {
                let p = choose|p: int| 0 <= p < d.take(i).len() && #[trigger] d.take(i)[p].0 == a;
                assert(d[p].0 == a);
            }
        }
    } else {
        assert(l.take(i) =~= l);
    }
}

/// Concatenating two positions' lists accumulates without overflow when
/// every per-asset sum fits.
proof fn lemma_concat_fits(x: Seq<(Asset, int)>, y: Seq<(Asset, int)>, mx: Map<Asset, int>, my: Map<
    Asset,
    int,
>)
    requires
        sorted::<Asset, int>(x),
        sorted::<Asset, int>(y),
        mx == totals_map(x),
        my == totals_map(y),
        forall|i: int| 0 <= i < x.len() ==> fits_i128(#[trigger] x[i].1),
        forall|i: int| 0 <= i < y.len() ==> fits_i128(#[trigger] y[i].1),
        forall|a: Asset| #[trigger] fits_i128(held(mx, a) + held(my, a)),
    ensures
        fold_fits(x + y),
{
    let s = x + y;
    assert forall|i: int, a: Asset| 0 <= i <= s.len() implies fits_i128(#[trigger] total_in(s.take(i), a)) by {
        lemma_total_in_sorted::<Asset>(x, a);
        lemma_total_in_sorted::<Asset>(y, a);
        lemma_get_none(x, a);
        lemma_get_none(y, a);
        if has_key(x, a) {
            let p = choose|p: int| 0 <= p < x.len() && #[trigger] x[p].0 == a;
            lemma_get_sorted_index::<Asset, int>(x, p);
        }
        if has_key(y, a) {
            let p = choose|p: int| 0 <= p < y.len() && #[trigger] y[p].0 == a;
            lemma_get_sorted_index::<Asset, int>(y, p);
        }
        assert(fits_i128(held(mx, a) + held(my, a)));
        if i <= x.len() {
            assert(s.take(i) =~= x.take(i));
            lemma_prefix_total_sorted(x, i, a);
        } else {
            assert(s.take(i) =~= x + y.take(i - x.len()));
            lemma_total_in_concat(x, y.take(i - x.len()), a);
            lemma_prefix_total_sorted(y, i - x.len(), a);
        }
    }
}

} // verus!

verus! {

/// NFT holdings: the owned `(token, serial)` pairs, ascending by token,
/// then serial.
#[derive(Debug)]
pub struct NftHoldings {
    entries: Vec<((TokenId, u64), ())>,
}

impl View for NftHoldings {
    type V = Set<(TokenId, u64)>;

    closed spec fn view(&self) -> Set<(TokenId, u64)> {
        Set::new(|k: (TokenId, u64)| has_key(pairs_view(self.entries@), k))
    }
}

/// The NFT movements of `account` on or before `as_of`, in journal order:
/// `((token, serial), amount)`.
pub open spec fn nft_moves(es: Seq<EntryView>, account: Seq<char>, as_of: Option<Seq<char>>) -> Seq<
    ((TokenId, u64), int),
>
    decreases es.len(),
{
    if es.len() == 0 {
        Seq::empty()
    } else {
        let e = es.last();
        nft_moves(es.drop_last(), account, as_of) + match e.asset {
            Asset::Nft { token_id, serial_number } => if e.account == account && (as_of is None
                || !seq_lt(as_of->0, e.day)) {
                seq![((token_id, serial_number), e.amount)]
            } else {
                Seq::empty()
            },
            _ => Seq::empty(),
        }
    }
}

/// Replay NFT movements: a credit adds the serial, a debit removes it.
pub open spec fn nft_fold(s: Seq<((TokenId, u64), int)>) -> Set<(TokenId, u64)>
    decreases s.len(),
{
    if s.len() == 0 {
        Set::empty()
    } else {
        let (k, a) = s.last();
        let h = nft_fold(s.drop_last());
        if a > 0 {
            h.insert(k)
        } else if a < 0 {
            h.remove(k)
        } else {
            h
        }
    }
}

impl NftHoldings {
    #[verifier::type_invariant]
    closed spec fn wf(self) -> bool {
        sorted::<(TokenId, u64), ()>(pairs_view(self.entries@))
    }

    /// The owned pairs, ascending.
    pub closed spec fn list(&self) -> Seq<(TokenId, u64)> {
        self.entries@.map_values(|p: ((TokenId, u64), ())| p.0)
    }

    pub fn is_empty(&self) -> (r: bool)
        ensures
            r == (self@ == Set::<(TokenId, u64)>::empty()),
    {
        if self.entries.len() == 0 {
            assert(self@ =~= Set::<(TokenId, u64)>::empty());
            true
        } else {
            assert(pairs_view(self.entries@)[0].0 == self.entries@[0].0);
            assert(self@.contains(self.entries@[0].0));
            false
        }
    }

    /// Whether `serial` of `token` is owned.
    pub fn contains(&self, token: TokenId, serial: u64) -> (r: bool)
        ensures
            r == self@.contains((token, serial)),
    {
        proof {
            use_type_invariant(self);
        }
        let (found, _) = find_slot(&self.entries, &(token, serial));
        proof {
            let pv = pairs_view(self.entries@);
            if has_key(pv, (token, serial)) && !found {
                let j = choose|j: int| 0 <= j < pv.len() && #[trigger] pv[j].0 == (token, serial);
                <(TokenId, u64)>::lemma_key_lt_irreflexive((token, serial));
            }
        }
        found
    }

    /// The owned `(token, serial)` pairs, ascending.
    pub fn holdings(&self) -> (r: Vec<(TokenId, u64)>)
        ensures
            r@ == self.list(),
            forall|k: (TokenId, u64)| self@.contains(k) <==> r@.contains(k),
            forall|i: int, j: int|
                0 <= i < j < r@.len() ==> TokenId::key_lt(r@[i].0, r@[j].0) || (r@[i].0 == r@[j].0
                    && r@[i].1 < r@[j].1),
    {
        proof {
            use_type_invariant(self);
        }
        let mut r: Vec<(TokenId, u64)> = Vec::new();
        let mut i: usize = 0;
        while i < self.entries.len()
            invariant
                i <= self.entries@.len(),
                r@ == self.list().take(i as int),
            decreases self.entries@.len() - i,
        {
            r.push(self.entries[i].0);
            assert(r@ =~= self.list().take(i + 1));
            i += 1;
        }
        assert(r@ =~= self.list());
        proof {
            let pv = pairs_view(self.entries@);
            assert forall|i: int, j: int| 0 <= i < j < r@.len() implies TokenId::key_lt(
                r@[i].0,
                r@[j].0,
            ) || (r@[i].0 == r@[j].0 && r@[i].1 < r@[j].1) by {
                assert(pv[i].0 == r@[i]);
                assert(pv[j].0 == r@[j]);
            }
            assert forall|k: (TokenId, u64)| self@.contains(k) <==> r@.contains(k) by {
                if self@.contains(k) {
                    let j = choose|j: int| 0 <= j < pv.len() && #[trigger] pv[j].0 == k;
                    assert(r@[j] == k);
                }
                if r@.contains(k) {
                    let j = choose|j: int| 0 <= j < r@.len() && r@[j] == k;
                    assert(pv[j].0 == k);
                }
            }
        }
        r
    }
}

/// Collect the NFT serials owned by `account` as of `as_of_day`: each
/// serial is tracked individually, credited in and debited out in journal
/// order.
pub fn nft_holdings_at(journal: &Journal, account: &str, as_of_day: Option<&str>) -> (r:
    NftHoldings)
    ensures
        r@ == nft_fold(nft_moves(journal@, account@, opt_view(as_of_day))),
{
    let es = journal.entries();
    let ghost ev = journal@;
    let ghost bound = opt_view(as_of_day);
    let mut held: Vec<((TokenId, u64), ())> = Vec::new();
    let mut i: usize = 0;
    while i < es.len()
        invariant
            i <= es@.len(),
            ev == es@.map_values(|e: LedgerEntry| e@),
            bound == opt_view(as_of_day),
            sorted::<(TokenId, u64), ()>(pairs_view(held@)),
            Set::new(|k: (TokenId, u64)| has_key(pairs_view(held@), k)) == nft_fold(
                nft_moves(ev.take(i as int), account@, bound),
            ),
        decreases es@.len() - i,
    {
        let e = &es[i];
        assert(ev.take(i + 1).drop_last() =~= ev.take(i as int));
        assert(ev.take(i + 1).last() == e@);
        let ghost before = nft_moves(ev.take(i as int), account@, bound);
        let ghost hv = pairs_view(held@);
        match e.asset {
            Asset::Nft { token_id, serial_number } => {
                if crate::text::str_eq(e.account.as_str(), account) && on_or_before(
                    e.day.as_str(),
                    as_of_day,
                ) {
                    let k = (token_id, serial_number);
                    assert(nft_moves(ev.take(i + 1), account@, bound) =~= before.push(
                        (k, e.amount as int),
                    ));
                    assert(before.push((k, e.amount as int)).drop_last() =~= before);
                    if e.amount > 0 {
                        put_exec(&mut held, k, ());
                        proof {
                            assert forall|k2: (TokenId, u64)| true implies #[trigger] has_key(
                                pairs_view(held@),
                                k2,
                            ) == (k2 == k || has_key(hv, k2)) by {
                                lemma_has_key_put::<(TokenId, u64), ()>(hv, k, (), k2);
                            }
                        }
                        assert(Set::new(|k2: (TokenId, u64)| has_key(pairs_view(held@), k2))
                            =~= nft_fold(before).insert(k));
                    } else if e.amount < 0 {
                        let (found, at) = find_slot(&held, &k);
                        if found {
                            held.remove(at);
                            proof {
                                assert forall|k2: (TokenId, u64)| true implies #[trigger] has_key(
                                    pairs_view(held@),
                                    k2,
                                ) == (k2 != k && has_key(hv, k2)) by {
                                    let pv = pairs_view(held@);
                                    if has_key(pv, k2) {
                                        let j = choose|j: int| 0 <= j < pv.len() && #[trigger] pv[j].0 == k2;
                                        if j < at {
                                            assert(pv[j] == hv[j]);
                                        } else {
                                            assert(pv[j] == hv[j + 1]);
                                        }
                                        if k2 == k {
                                            if j < at {
                                                <(TokenId, u64)>::lemma_key_lt_irreflexive(k);
                                            } else {
                                                assert(<(TokenId, u64)>::key_lt(hv[at as int].0, hv[j + 1].0));
                                                <(TokenId, u64)>::lemma_key_lt_irreflexive(k);
                                            }
                                        }
                                    }
                                    if k2 != k && has_key(hv, k2) {
                                        let j = choose|j: int| 0 <= j < hv.len() && #[trigger] hv[j].0 == k2;
                                        if j < at {
                                            assert(pv[j] == hv[j]);
                                        } else {
                                            assert(j != at);
                                            assert(pv[j - 1] == hv[j]);
                                        }
                                    }
                                }
                                assert(sorted::<(TokenId, u64), ()>(pairs_view(held@))) by {
                                    let pv = pairs_view(held@);
                                    assert forall|a: int, b: int| 0 <= a < b < pv.len() implies <(
                                        TokenId,
                                        u64,
                                    )>::key_lt(#[trigger] pv[a].0, #[trigger] pv[b].0) by {
                                        let a2 = if a < at {
                                            a
                                        } else {
                                            a + 1
                                        };
                                        let b2 = if b < at {
                                            b
                                        } else {
                                            b + 1
                                        };
                                        assert(pv[a] == hv[a2]);
                                        assert(pv[b] == hv[b2]);
                                    }
                                }
                            }
                        } else {
                            proof {
                                if has_key(hv, k) {
                                    let j = choose|j: int| 0 <= j < hv.len() && #[trigger] hv[j].0 == k;
                                    <(TokenId, u64)>::lemma_key_lt_irreflexive(k);
                                }
                            }
                        }
                        assert(Set::new(|k2: (TokenId, u64)| has_key(pairs_view(held@), k2))
                            =~= nft_fold(before).remove(k));
                    }
                } else {
                    assert(nft_moves(ev.take(i + 1), account@, bound) =~= before);
                }
            },
            _ => {
                assert(nft_moves(ev.take(i + 1), account@, bound) =~= before);
            },
        }
        i += 1;
    }
    assert(ev.take(i as int) =~= ev);
    NftHoldings { entries: held }
}

/// The position pairs of a journal extended by more entries are those of
/// the journal followed by those of the extension.
proof fn lemma_position_pairs_concat(
    x: Seq<EntryView>,
    y: Seq<EntryView>,
    account: Seq<char>,
    as_of: Option<Seq<char>>,
)
    ensures
        position_pairs(x + y, account, as_of) == position_pairs(x, account, as_of) + position_pairs(
            y,
            account,
            as_of,
        ),
    decreases y.len(),
{
    if y.len() == 0 {
        assert(x + y =~= x);
        assert(position_pairs(x, account, as_of) + position_pairs(y, account, as_of)
            =~= position_pairs(x, account, as_of));
    } else {
        assert((x + y).drop_last() =~= x + y.drop_last());
        lemma_position_pairs_concat(x, y.drop_last(), account, as_of);
        assert(position_pairs(x + y, account, as_of) =~= position_pairs(x, account, as_of)
            + position_pairs(y, account, as_of));
    }
}

/// Checkpoint and replay: a position folded over a whole journal is the
/// position at a checkpoint plus the position of the entries booked
/// after it.
pub proof fn lemma_checkpoint_replay(
    before: Seq<EntryView>,
    after: Seq<EntryView>,
    account: Seq<char>,
    as_of: Option<Seq<char>>,
)
    ensures
        totals_map(position_pairs(before + after, account, as_of)) == add_positions(
            totals_map(position_pairs(before, account, as_of)),
            totals_map(position_pairs(after, account, as_of)),
        ),
{
    let x = position_pairs(before, account, as_of);
    let y = position_pairs(after, account, as_of);
    lemma_position_pairs_concat(before, after, account, as_of);
    assert forall|a: Asset| #[trigger] total_in(x + y, a) == held(totals_map(x), a) + held(
        totals_map(y),
        a,
    ) by {
        lemma_total_in_concat(x, y, a);
    }
    assert(totals_map(x + y) =~= add_positions(totals_map(x), totals_map(y)));
}

} // verus!
