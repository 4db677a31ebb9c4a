//! Range: when a book's amounts, taken in magnitude, sum to at most
//! `i128::MAX`, no sum that a statement or report forms over them can
//! leave `i128`. [`Journal::in_range`] decides that bound, so a caller can
//! check a book once before reporting on it.
use crate::balance::{held, position_pairs};
use crate::journal::{amounts_negatable, asset_pairs, group_pairs, of_account, EntryKind, EntryView, Journal, LedgerEntry};
use crate::keys::{
    accum_fold, fits_i128, fold_fits, keys_of, lemma_accum_fold, lemma_get_sorted_index,
    lemma_keys_fold, lemma_sum_where_fold, sum_where, total_in, totals_map,
};
use crate::money::magnitude;
use crate::statements::{
    cash_movement_fits, flow_pairs, inflows, line_nets, lines_of, movement_lines, nets_fit,
    opening_pairs, opening_position, outflows, window_pairs,
};
use crate::asset::Asset;
use vstd::prelude::*;

verus! {

/// The sum of the magnitudes of the amounts.
pub open spec fn abs_sum<KV>(s: Seq<(KV, int)>) -> int
    decreases s.len(),
{
    if s.len() == 0 {
        0
    } else {
        abs_sum(s.drop_last()) + magnitude(s.last().1)
    }
}

/// The book's amounts, in magnitude, sum to at most `i128::MAX`.
pub open spec fn in_range(es: Seq<EntryView>) -> bool {
    abs_sum(asset_pairs(es)) <= i128::MAX
}

impl Journal {
    /// Whether the book's amounts, in magnitude, sum to at most
    /// `i128::MAX`.
    pub fn in_range(&self) -> (r: bool)
        ensures
            r == in_range(self@),
    {
        let es = self.entries();
        let ghost s = asset_pairs(self@);
        let mut total: i128 = 0;
        let mut i: usize = 0;
        while i < es.len()
            invariant
                i <= es@.len(),
                es@.map_values(|e: LedgerEntry| e@) == self@,
                s == asset_pairs(self@),
                amounts_negatable(self@),
                total == abs_sum(s.take(i as int)),
                0 <= total <= i128::MAX,
            decreases es@.len() - i,
        {
            assert(self@[i as int] == es@[i as int]@);
            assert(s[i as int] == (es@[i as int].asset, es@[i as int].amount as int));
            assert(s.take(i + 1).drop_last() =~= s.take(i as int));
            let a = es[i].amount;
            let m: i128 = if a < 0 {
                -a
            } else {
                a
            };
            if total > i128::MAX - m {
                proof {
                    lemma_abs_sum_take(s, i + 1);
                }
                return false;
            }
            total = total + m;
            i += 1;
        }
        assert(s.take(i as int) =~= s);
        true
    }
}

// ---------------------------------------------------------------------------
// Sums bounded by magnitudes
// ---------------------------------------------------------------------------

proof fn lemma_total_in_within<KV>(s: Seq<(KV, int)>, k: KV)
    ensures
        0 <= abs_sum(s),
        -abs_sum(s) <= total_in(s, k) <= abs_sum(s),
    decreases s.len(),
{
    if s.len() > 0 {
        lemma_total_in_within(s.drop_last(), k);
    }
}

proof fn lemma_abs_sum_take<KV>(s: Seq<(KV, int)>, i: int)
    requires
        0 <= i <= s.len(),
    ensures
        abs_sum(s.take(i)) <= abs_sum(s),
    decreases s.len(),
{
    if i < s.len() {
        assert(s.drop_last().take(i) =~= s.take(i));
        lemma_abs_sum_take(s.drop_last(), i);
    } else {
        assert(s.take(i) =~= s);
    }
}

proof fn lemma_elem_within<KV>(s: Seq<(KV, int)>, j: int)
    requires
        0 <= j < s.len(),
    ensures
        magnitude(s[j].1) <= abs_sum(s),
    decreases s.len(),
{
    lemma_total_in_within(s.drop_last(), s[j].0);
    if j < s.len() - 1 {
        assert(s.drop_last()[j] == s[j]);
        lemma_elem_within(s.drop_last(), j);
    }
}

/// Pairs whose magnitudes sum to at most `i128::MAX` fold within `i128`.
proof fn lemma_small_fold_fits<KV>(s: Seq<(KV, int)>)
    requires
        abs_sum(s) <= i128::MAX,
    ensures
        fold_fits(s),
{
    assert forall|i: int, k: KV| 0 <= i <= s.len() implies fits_i128(
        #[trigger] total_in(s.take(i), k),
    ) by {
        lemma_abs_sum_take(s, i);
        lemma_total_in_within(s.take(i), k);
    }
}

proof fn lemma_abs_sum_push<KV>(s: Seq<(KV, int)>, p: (KV, int))
    ensures
        abs_sum(s + seq![p]) == abs_sum(s) + magnitude(p.1),
        abs_sum(s + Seq::<(KV, int)>::empty()) == abs_sum(s),
{
    assert((s + seq![p]).drop_last() =~= s);
    assert(s + Seq::<(KV, int)>::empty() =~= s);
}

// ---------------------------------------------------------------------------
// What the statements sum over
// ---------------------------------------------------------------------------

proof fn lemma_asset_pairs_step(es: Seq<EntryView>)
    requires
        es.len() > 0,
    ensures
        abs_sum(asset_pairs(es)) == abs_sum(asset_pairs(es.drop_last())) + magnitude(
            es.last().amount,
        ),
{
    assert(asset_pairs(es).drop_last() =~= asset_pairs(es.drop_last()));
}

proof fn lemma_group_abs(es: Seq<EntryView>)
    ensures
        abs_sum(group_pairs(es)) == abs_sum(asset_pairs(es)),
    decreases es.len(),
{
    if es.len() == 0 {
        assert(group_pairs(es) =~= Seq::<((Seq<char>, Asset), int)>::empty());
        assert(asset_pairs(es) =~= Seq::<(Asset, int)>::empty());
    } else {
        lemma_group_abs(es.drop_last());
        lemma_asset_pairs_step(es);
        assert(group_pairs(es).drop_last() =~= group_pairs(es.drop_last()));
    }
}

proof fn lemma_window_abs(
    es: Seq<EntryView>,
    account: Option<Seq<char>>,
    from: Option<Seq<char>>,
    to: Option<Seq<char>>,
)
    ensures
        abs_sum(window_pairs(es, account, from, to)) <= abs_sum(asset_pairs(es)),
    decreases es.len(),
{
    if es.len() == 0 {
        assert(asset_pairs(es) =~= Seq::<(Asset, int)>::empty());
    } else {
        let e = es.last();
        lemma_window_abs(es.drop_last(), account, from, to);
        lemma_asset_pairs_step(es);
        lemma_abs_sum_push(window_pairs(es.drop_last(), account, from, to), (e.asset, e.amount));
    }
}

proof fn lemma_position_abs(es: Seq<EntryView>, account: Seq<char>, as_of: Option<Seq<char>>)
    ensures
        abs_sum(position_pairs(es, account, as_of)) <= abs_sum(asset_pairs(es)),
    decreases es.len(),
{
    if es.len() == 0 {
        assert(asset_pairs(es) =~= Seq::<(Asset, int)>::empty());
    } else {
        let e = es.last();
        lemma_position_abs(es.drop_last(), account, as_of);
        lemma_asset_pairs_step(es);
        lemma_abs_sum_push(position_pairs(es.drop_last(), account, as_of), (e.asset, e.amount));
    }
}

/// The entries before a window and those in it are disjoint.
proof fn lemma_opening_window_abs(
    es: Seq<EntryView>,
    account: Seq<char>,
    f: Seq<char>,
    to: Option<Seq<char>>,
)
    ensures
        abs_sum(opening_pairs(es, account, f)) + abs_sum(
            window_pairs(es, Some(account), Some(f), to),
        ) <= abs_sum(asset_pairs(es)),
    decreases es.len(),
{
    if es.len() == 0 {
        assert(asset_pairs(es) =~= Seq::<(Asset, int)>::empty());
    } else {
        let e = es.last();
        let d = es.drop_last();
        lemma_opening_window_abs(d, account, f, to);
        lemma_asset_pairs_step(es);
        lemma_abs_sum_push(opening_pairs(d, account, f), (e.asset, e.amount));
        lemma_abs_sum_push(window_pairs(d, Some(account), Some(f), to), (e.asset, e.amount));
    }
}

proof fn lemma_flow_abs(
    es: Seq<EntryView>,
    account: Seq<char>,
    from: Option<Seq<char>>,
    to: Option<Seq<char>>,
)
    ensures
        abs_sum(inflows(flow_pairs(es, account, from, to))) + abs_sum(
            outflows(flow_pairs(es, account, from, to)),
        ) <= abs_sum(asset_pairs(es)),
    decreases es.len(),
{
    if es.len() == 0 {
        assert(asset_pairs(es) =~= Seq::<(Asset, int)>::empty());
        assert(inflows(flow_pairs(es, account, from, to)) =~= Seq::<
            ((EntryKind, Asset), int),
        >::empty());
        assert(outflows(flow_pairs(es, account, from, to)) =~= Seq::<
            ((EntryKind, Asset), int),
        >::empty());
    } else {
        let e = es.last();
        let d = es.drop_last();
        lemma_flow_abs(d, account, from, to);
        lemma_asset_pairs_step(es);
        let f = flow_pairs(es, account, from, to);
        let fd = flow_pairs(d, account, from, to);
        if e.account == account && crate::statements::in_window(e.day, from, to) {
            assert(f == fd + seq![((e.kind, e.asset), e.amount)]);
            assert(inflows(f).drop_last() =~= inflows(fd));
            assert(outflows(f).drop_last() =~= outflows(fd));
        } else {
            assert(f =~= fd);
        }
    }
}

proof fn lemma_nonneg_total<KV>(s: Seq<(KV, int)>, k: KV)
    requires
        forall|i: int| 0 <= i < s.len() ==> #[trigger] s[i].1 >= 0,
    ensures
        total_in(s, k) >= 0,
    decreases s.len(),
{
    if s.len() > 0 {
        assert forall|i: int| 0 <= i < s.drop_last().len() implies #[trigger] s.drop_last()[i].1
            >= 0 by {
            assert(s.drop_last()[i] == s[i]);
        }
        lemma_nonneg_total(s.drop_last(), k);
        assert(s[s.len() - 1].1 >= 0);
    }
}

/// Every bucket key.
pub open spec fn any_bucket() -> spec_fn((EntryKind, Asset)) -> bool {
    |k: (EntryKind, Asset)| true
}

proof fn lemma_nonneg_abs_sum(s: Seq<((EntryKind, Asset), int)>)
    requires
        forall|i: int| 0 <= i < s.len() ==> #[trigger] s[i].1 >= 0,
    ensures
        abs_sum(s) == sum_where(s, any_bucket()),
    decreases s.len(),
{
    if s.len() > 0 {
        assert forall|i: int| 0 <= i < s.drop_last().len() implies #[trigger] s.drop_last()[i].1
            >= 0 by {
            assert(s.drop_last()[i] == s[i]);
        }
        lemma_nonneg_abs_sum(s.drop_last());
        assert(s[s.len() - 1].1 >= 0);
    }
}

/// The nets of lines built from nonnegative bucket sums are bounded by
/// those sums.
proof fn lemma_line_nets_abs(iv: Seq<((EntryKind, Asset), int)>, ov: Seq<((EntryKind, Asset), int)>)
    requires
        keys_of(iv) == keys_of(ov),
        forall|j: int| 0 <= j < iv.len() ==> #[trigger] iv[j].1 >= 0,
        forall|j: int| 0 <= j < ov.len() ==> #[trigger] ov[j].1 >= 0,
    ensures
        abs_sum(line_nets(lines_of(iv, ov))) <= sum_where(iv, any_bucket()) + sum_where(
            ov,
            any_bucket(),
        ),
    decreases iv.len(),
{
    assert(iv.len() == keys_of(iv).len());
    assert(ov.len() == keys_of(ov).len());
    if iv.len() == 0 {
        assert(line_nets(lines_of(iv, ov)) =~= Seq::<(Asset, int)>::empty());
    } else {
        let di = iv.drop_last();
        let dv = ov.drop_last();
        assert(keys_of(di) =~= keys_of(iv).drop_last());
        assert(keys_of(dv) =~= keys_of(ov).drop_last());
        assert forall|j: int| 0 <= j < di.len() implies #[trigger] di[j].1 >= 0 by {
            assert(di[j] == iv[j]);
        }
        assert forall|j: int| 0 <= j < dv.len() implies #[trigger] dv[j].1 >= 0 by {
            assert(dv[j] == ov[j]);
        }
        lemma_line_nets_abs(di, dv);
        assert(line_nets(lines_of(iv, ov)).drop_last() =~= line_nets(lines_of(di, dv)));
        assert(iv[iv.len() - 1].1 >= 0);
        assert(ov[ov.len() - 1].1 >= 0);
    }
}

/// A fold of nonnegative amounts holds nonnegative sums.
proof fn lemma_fold_nonneg(s: Seq<((EntryKind, Asset), int)>)
    requires
        forall|i: int| 0 <= i < s.len() ==> #[trigger] s[i].1 >= 0,
    ensures
        forall|j: int|
            0 <= j < accum_fold::<(EntryKind, Asset)>(s).len() ==> #[trigger] accum_fold::<
                (EntryKind, Asset),
            >(s)[j].1 >= 0,
{
    let m = accum_fold::<(EntryKind, Asset)>(s);
    lemma_accum_fold::<(EntryKind, Asset)>(s, (EntryKind::Transfer, Asset::Hbar));
    assert forall|j: int| 0 <= j < m.len() implies #[trigger] m[j].1 >= 0 by {
        lemma_get_sorted_index::<(EntryKind, Asset), int>(m, j);
        lemma_accum_fold::<(EntryKind, Asset)>(s, m[j].0);
        lemma_nonneg_total(s, m[j].0);
    }
}

// ---------------------------------------------------------------------------
// The statements of a book in range
// ---------------------------------------------------------------------------

/// Every sum the statements and reports form over a book in range stays
/// within `i128`: the conservation check, the trial balance, holdings, a
/// cash-movement report and its tie-out, and the sub-ledger.
pub proof fn lemma_in_range_fits(
    es: Seq<EntryView>,
    account: Seq<char>,
    from: Option<Seq<char>>,
    to: Option<Seq<char>>,
)
    requires
        in_range(es),
    ensures
        fold_fits(group_pairs(es)),
        fold_fits(window_pairs(es, None, from, to)),
        fold_fits(position_pairs(es, account, to)),
        fold_fits(asset_pairs(of_account(es, account))),
        cash_movement_fits(es, account, from, to),
        nets_fit(movement_lines(es, account, from, to)),
        forall|a: Asset| #[trigger]
            fits_i128(
                held(opening_position(es, account, from), a) + held(
                    totals_map(line_nets(movement_lines(es, account, from, to))),
                    a,
                ),
            ),
{
    let total = abs_sum(asset_pairs(es));
    lemma_group_abs(es);
    lemma_small_fold_fits(group_pairs(es));
    lemma_window_abs(es, None, from, to);
    lemma_small_fold_fits(window_pairs(es, None, from, to));
    lemma_position_abs(es, account, to);
    lemma_small_fold_fits(position_pairs(es, account, to));
    lemma_position_abs(es, account, None);
    crate::report::lemma_subledger_folds_holdings(es, account);
    lemma_small_fold_fits(position_pairs(es, account, None));
    // Cash movements.
    let w = window_pairs(es, Some(account), from, to);
    lemma_window_abs(es, Some(account), from, to);
    lemma_small_fold_fits(w);
    let f = flow_pairs(es, account, from, to);
    lemma_flow_abs(es, account, from, to);
    lemma_total_in_within(inflows(f), (EntryKind::Transfer, Asset::Hbar));
    lemma_total_in_within(outflows(f), (EntryKind::Transfer, Asset::Hbar));
    lemma_small_fold_fits(inflows(f));
    lemma_small_fold_fits(outflows(f));
    if let Some(fd) = from {
        lemma_opening_window_abs(es, account, fd, to);
        lemma_total_in_within(opening_pairs(es, account, fd), Asset::Hbar);
        lemma_total_in_within(window_pairs(es, Some(account), Some(fd), to), Asset::Hbar);
        lemma_small_fold_fits(opening_pairs(es, account, fd));
    }
    assert forall|a: Asset| #[trigger]
        fits_i128(held(opening_position(es, account, from), a) + held(totals_map(w), a)) by {
        lemma_total_in_within(w, a);
        if let Some(fd) = from {
            lemma_opening_window_abs(es, account, fd, to);
            lemma_total_in_within(opening_pairs(es, account, fd), a);
        }
    }
    // The lines of the report.
    let iv = accum_fold::<(EntryKind, Asset)>(inflows(f));
    let ov = accum_fold::<(EntryKind, Asset)>(outflows(f));
    assert(keys_of(inflows(f)) =~= keys_of(outflows(f)));
    lemma_keys_fold::<(EntryKind, Asset)>(inflows(f), outflows(f));
    assert forall|i: int| 0 <= i < inflows(f).len() implies #[trigger] inflows(f)[i].1 >= 0 by {}
    assert forall|i: int| 0 <= i < outflows(f).len() implies #[trigger] outflows(f)[i].1 >= 0 by {}
    lemma_fold_nonneg(inflows(f));
    lemma_fold_nonneg(outflows(f));
    lemma_line_nets_abs(iv, ov);
    lemma_sum_where_fold::<(EntryKind, Asset)>(inflows(f), any_bucket());
    lemma_sum_where_fold::<(EntryKind, Asset)>(outflows(f), any_bucket());
    lemma_nonneg_abs_sum(inflows(f));
    lemma_nonneg_abs_sum(outflows(f));
    let lines = movement_lines(es, account, from, to);
    let nets = line_nets(lines);
    lemma_small_fold_fits(nets);
    assert forall|i: int| 0 <= i < lines.len() implies fits_i128(
        #[trigger] lines[i].inflow - lines[i].outflow,
    ) by {
        assert(nets[i].1 == lines[i].inflow - lines[i].outflow);
        lemma_elem_within(nets, i);
    }
    crate::statements::lemma_cash_movement_ties_out(es, account, from, to);
}

} // verus!
