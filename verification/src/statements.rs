//! Reports: views over the journal. Everything here is derivable from the
//! ledger itself and ties back to consensus timestamps; nothing makes an
//! accounting-policy judgment.
//!
//! - **Cash movements**: inflows/outflows/net by period, grouped by
//!   [`EntryKind`].
//! - **Holdings**: the asset position at any past instant.
//! - **Trial balance**: the whole book sums to zero per asset.
use crate::asset::Asset;
use crate::balance::{self, add_positions, balance_at, held, opt_view, position_pairs, Balances};
use crate::journal::{amounts_negatable, EntryKind, EntryView, Journal, LedgerEntry};
use crate::keys::{
    accum_fold, amounts_view, fits_i128, fold_fits, fold_pairs, keys_of, lemma_sum_where_concat,
    lemma_sum_where_fold, lemma_sum_where_single, sorted, sum_where, total_in, totals_map,
    SortKey,
};
use crate::text::{compare_str, seq_lt, KeyOrder};
use vstd::prelude::*;
use vstd::string::*;

verus! {

/// One aggregated movement line: a (kind, asset) bucket with gross inflow,
/// gross outflow (stored positive), all in the asset's smallest unit.
#[derive(Debug, Clone, Copy, PartialEq, Eq, Structural)]
pub struct MovementLine {
    pub kind: EntryKind,
    pub asset: Asset,
    pub inflow: i128,
    pub outflow: i128,
}

pub struct LineView {
    pub kind: EntryKind,
    pub asset: Asset,
    pub inflow: int,
    pub outflow: int,
}

impl View for MovementLine {
    type V = LineView;

    open spec fn view(&self) -> LineView {
        LineView {
            kind: self.kind,
            asset: self.asset,
            inflow: self.inflow as int,
            outflow: self.outflow as int,
        }
    }
}

impl MovementLine {
    /// Inflow minus outflow.
    pub fn net(&self) -> (r: i128)
        requires
            fits_i128(self.inflow - self.outflow),
        ensures
            r == self.inflow - self.outflow,
    {
        self.inflow - self.outflow
    }
}

/// A cash-movement report for one account over a day range, with opening
/// and closing holdings.
#[derive(Debug, Clone)]
pub struct CashMovement {
    pub account: String,
    pub from_day: Option<String>,
    pub to_day: Option<String>,
    pub opening: Balances,
    pub closing: Balances,
    pub lines: Vec<MovementLine>,
}

/// The `(asset, net)` pairs of movement lines, in order.
pub open spec fn line_nets(lines: Seq<LineView>) -> Seq<(Asset, int)> {
    lines.map_values(|l: LineView| (l.asset, l.inflow - l.outflow))
}

/// Every line's net fits `i128`, and so does every running per-asset sum
/// of them.
pub open spec fn nets_fit(lines: Seq<LineView>) -> bool {
    &&& forall|i: int| 0 <= i < lines.len() ==> fits_i128(#[trigger] lines[i].inflow - lines[i].outflow)
    &&& fold_fits(line_nets(lines))
}

/// `opening + movements == closing` for every asset.
pub open spec fn spec_ties_out(opening: Map<Asset, int>, lines: Seq<LineView>, closing: Map<Asset, int>) -> bool {
    add_positions(opening, totals_map(line_nets(lines))) == closing
}

impl CashMovement {
    pub open spec fn lines_view(&self) -> Seq<LineView> {
        self.lines@.map_values(|l: MovementLine| l@)
    }

    /// Net movement per asset across all lines (zeros dropped).
    pub fn net_by_asset(&self) -> (r: Balances)
        requires
            nets_fit(self.lines_view()),
        ensures
            r@ == totals_map(line_nets(self.lines_view())),
    {
        let ghost lv = self.lines_view();
        let mut pairs: Vec<(Asset, i128)> = Vec::new();
        let mut i: usize = 0;
        while i < self.lines.len()
            invariant
                i <= self.lines@.len(),
                lv == self.lines_view(),
                nets_fit(lv),
                amounts_view(pairs@) == line_nets(lv).take(i as int),
            decreases self.lines@.len() - i,
        {
            assert(lv[i as int] == self.lines@[i as int]@);
            assert(fits_i128(lv[i as int].inflow - lv[i as int].outflow));
            let n = self.lines[i].net();
            let ghost prev = pairs@;
            pairs.push((self.lines[i].asset, n));
            proof {
                crate::keys::lemma_amounts_view_push(prev, (self.lines@[i as int].asset, n));
                assert(line_nets(lv)[i as int] == (self.lines@[i as int].asset, n as int));
                assert(line_nets(lv).take(i + 1) =~= line_nets(lv).take(i as int).push(line_nets(lv)[i as int]));
            }
            assert(amounts_view(pairs@) =~= line_nets(lv).take(i + 1));
            i += 1;
        }
        assert(line_nets(lv).take(i as int) =~= line_nets(lv));
        Balances::fold_from(&pairs)
    }

    /// True when opening + Σ movements == closing for every asset.
    pub fn ties_out(&self) -> (r: bool)
        requires
            nets_fit(self.lines_view()),
            forall|a: Asset| #[trigger] fits_i128(held(self.opening@, a) + held(
                totals_map(line_nets(self.lines_view())),
                a,
            )),
        ensures
            r == spec_ties_out(self.opening@, self.lines_view(), self.closing@),
    {
        let net = self.net_by_asset();
        let total = balance::add(self.opening.copy(), &net);
        total.same_as(&self.closing)
    }
}

/// `day` lies in `[from, to]` (inclusive; `None` is unbounded).
pub open spec fn in_window(day: Seq<char>, from: Option<Seq<char>>, to: Option<Seq<char>>) -> bool {
    (from is None || !seq_lt(day, from->0)) && (to is None || !seq_lt(to->0, day))
}

pub fn in_window_exec(day: &str, from: Option<&str>, to: Option<&str>) -> (r: bool)
    ensures
        r == in_window(day@, opt_view(from), opt_view(to)),
{
    if let Some(f) = from {
        if let KeyOrder::Less = compare_str(day, f) {
            return false;
        }
    }
    if let Some(t) = to {
        if let KeyOrder::Greater = compare_str(day, t) {
            return false;
        }
    }
    true
}

/// `account`'s `(asset, amount)` pairs strictly before `from`.
pub open spec fn opening_pairs(es: Seq<EntryView>, account: Seq<char>, from: Seq<char>) -> Seq<
    (Asset, int),
>
    decreases es.len(),
{
    if es.len() == 0 {
        Seq::empty()
    } else {
        let e = es.last();
        opening_pairs(es.drop_last(), account, from) + if e.account == account && seq_lt(
            e.day,
            from,
        ) {
            seq![(e.asset, e.amount)]
        } else {
            Seq::empty()
        }
    }
}

/// The `(asset, amount)` pairs of the entries in the window, for one
/// account (`Some`) or the whole book (`None`).
pub open spec fn window_pairs(
    es: Seq<EntryView>,
    account: Option<Seq<char>>,
    from: Option<Seq<char>>,
    to: Option<Seq<char>>,
) -> Seq<(Asset, int)>
    decreases es.len(),
{
    if es.len() == 0 {
        Seq::empty()
    } else {
        let e = es.last();
        window_pairs(es.drop_last(), account, from, to) + if (account is None || e.account
            == account->0) && in_window(e.day, from, to) {
            seq![(e.asset, e.amount)]
        } else {
            Seq::empty()
        }
    }
}

/// The `((kind, asset), amount)` pairs of `account`'s entries in the window.
pub open spec fn flow_pairs(
    es: Seq<EntryView>,
    account: Seq<char>,
    from: Option<Seq<char>>,
    to: Option<Seq<char>>,
) -> Seq<((EntryKind, Asset), int)>
    decreases es.len(),
{
    if es.len() == 0 {
        Seq::empty()
    } else {
        let e = es.last();
        flow_pairs(es.drop_last(), account, from, to) + if e.account == account && in_window(
            e.day,
            from,
            to,
        ) {
            seq![((e.kind, e.asset), e.amount)]
        } else {
            Seq::empty()
        }
    }
}

/// Credits only: each amount, or zero for a debit.
pub open spec fn inflows(s: Seq<((EntryKind, Asset), int)>) -> Seq<((EntryKind, Asset), int)> {
    s.map_values(
        |p: ((EntryKind, Asset), int)|
            (
                p.0,
                if p.1 >= 0 {
                    p.1
                } else {
                    0
                },
            ),
    )
}

/// Debits only, as positive magnitudes (zero for a credit).
pub open spec fn outflows(s: Seq<((EntryKind, Asset), int)>) -> Seq<((EntryKind, Asset), int)> {
    s.map_values(
        |p: ((EntryKind, Asset), int)|
            (
                p.0,
                if p.1 < 0 {
                    -p.1
                } else {
                    0
                },
            ),
    )
}

/// Movement lines from the per-bucket inflow and outflow sums.
pub open spec fn lines_of(
    ins: Seq<((EntryKind, Asset), int)>,
    outs: Seq<((EntryKind, Asset), int)>,
) -> Seq<LineView> {
    Seq::new(
        ins.len(),
        |i: int|
            LineView { kind: ins[i].0.0, asset: ins[i].0.1, inflow: ins[i].1, outflow: outs[i].1 },
    )
}

/// The movement lines of `account` over the window: one per (kind, asset)
/// bucket with an entry, ascending by kind then asset.
pub open spec fn movement_lines(
    es: Seq<EntryView>,
    account: Seq<char>,
    from: Option<Seq<char>>,
    to: Option<Seq<char>>,
) -> Seq<LineView> {
    let f = flow_pairs(es, account, from, to);
    lines_of(
        accum_fold::<(EntryKind, Asset)>(inflows(f)),
        accum_fold::<(EntryKind, Asset)>(outflows(f)),
    )
}

/// Opening position: everything strictly before `from` (empty for an
/// unbounded window).
pub open spec fn opening_position(es: Seq<EntryView>, account: Seq<char>, from: Option<Seq<char>>) -> Map<
    Asset,
    int,
> {
    match from {
        None => Map::empty(),
        Some(f) => totals_map(opening_pairs(es, account, f)),
    }
}

pub open spec fn opt_string_view(o: Option<String>) -> Option<Seq<char>> {
    match o {
        Some(s) => Some(s@),
        None => None,
    }
}

/// What `cash_movement` needs to stay within `i128`.
pub open spec fn cash_movement_fits(
    es: Seq<EntryView>,
    account: Seq<char>,
    from: Option<Seq<char>>,
    to: Option<Seq<char>>,
) -> bool {
    &&& from is Some ==> fold_fits(opening_pairs(es, account, from->0))
    &&& fold_fits(inflows(flow_pairs(es, account, from, to)))
    &&& fold_fits(outflows(flow_pairs(es, account, from, to)))
    &&& fold_fits(window_pairs(es, Some(account), from, to))
    &&& forall|a: Asset| #[trigger]
        fits_i128(
            held(opening_position(es, account, from), a) + held(
                totals_map(window_pairs(es, Some(account), from, to)),
                a,
            ),
        )
}

proof fn lemma_flows_push(s: Seq<((EntryKind, Asset), int)>, p: ((EntryKind, Asset), int))
    ensures
        inflows(s.push(p)) == inflows(s).push((p.0, if p.1 >= 0 { p.1 } else { 0 })),
        outflows(s.push(p)) == outflows(s).push((p.0, if p.1 < 0 { -p.1 } else { 0 })),
{
    assert(inflows(s.push(p)) =~= inflows(s).push((p.0, if p.1 >= 0 { p.1 } else { 0 })));
    assert(outflows(s.push(p)) =~= outflows(s).push((p.0, if p.1 < 0 { -p.1 } else { 0 })));
}

/// Build a cash-movement report for `account` over `[from_day, to_day]`
/// (inclusive, `None` = unbounded), grouped by [`EntryKind`].
pub fn cash_movement(journal: &Journal, account: &str, from_day: Option<&str>, to_day: Option<&str>) -> (r:
    CashMovement)
    requires
        cash_movement_fits(journal@, account@, opt_view(from_day), opt_view(to_day)),
    ensures
        r.account@ == account@,
        opt_string_view(r.from_day) == opt_view(from_day),
        opt_string_view(r.to_day) == opt_view(to_day),
        r.opening@ == opening_position(journal@, account@, opt_view(from_day)),
        r.lines_view() == movement_lines(journal@, account@, opt_view(from_day), opt_view(to_day)),
        r.closing@ == add_positions(
            r.opening@,
            totals_map(window_pairs(journal@, Some(account@), opt_view(from_day), opt_view(to_day))),
        ),
        spec_ties_out(r.opening@, r.lines_view(), r.closing@),
{
    let ghost from = opt_view(from_day);
    let ghost to = opt_view(to_day);
    let opening = opening_balance(journal, account, from_day);
    let es = journal.entries();
    let ghost ev = journal@;
    let ghost f = flow_pairs(ev, account@, from, to);
    // Buckets: gross inflow and outflow per (kind, asset).
    let mut ins: Vec<((EntryKind, Asset), i128)> = Vec::new();
    let mut outs: Vec<((EntryKind, Asset), i128)> = Vec::new();
    let mut i: usize = 0;
    while i < es.len()
        invariant
            i <= es@.len(),
            ev == es@.map_values(|e: LedgerEntry| e@),
            amounts_negatable(ev),
            from == opt_view(from_day),
            to == opt_view(to_day),
            amounts_view(ins@) == inflows(flow_pairs(ev.take(i as int), account@, from, to)),
            amounts_view(outs@) == outflows(flow_pairs(ev.take(i as int), account@, from, to)),
        decreases es@.len() - i,
    {
        let e = &es[i];
        assert(ev.take(i + 1).drop_last() =~= ev.take(i as int));
        assert(ev.take(i + 1).last() == e@);
        assert(ev[i as int] == e@);
        assert(ev[i as int].amount > i128::MIN);
        let ghost before = flow_pairs(ev.take(i as int), account@, from, to);
        if crate::text::str_eq(e.account.as_str(), account) && in_window_exec(e.day.as_str(), from_day, to_day) {
            let key = (e.kind, e.asset);
            let a = e.amount;
            let ghost pi = ins@;
            let ghost po = outs@;
            let x: i128 = if a >= 0 { a } else { 0 };
            let y: i128 = if a < 0 { -a } else { 0 };
            ins.push((key, x));
            outs.push((key, y));
            assert(flow_pairs(ev.take(i + 1), account@, from, to) =~= before.push(((e.kind, e.asset), a as int)));
            proof {
                crate::keys::lemma_amounts_view_push(pi, (key, x));
                crate::keys::lemma_amounts_view_push(po, (key, y));
                lemma_flows_push(before, ((e.kind, e.asset), a as int));
            }
        } else {
            assert(flow_pairs(ev.take(i + 1), account@, from, to) =~= before);
        }
        assert(amounts_view(ins@) =~= inflows(flow_pairs(ev.take(i + 1), account@, from, to)));
        assert(amounts_view(outs@) =~= outflows(flow_pairs(ev.take(i + 1), account@, from, to)));
        i += 1;
    }
    assert(ev.take(i as int) =~= ev);
    let in_sums = fold_pairs(&ins);
    let out_sums = fold_pairs(&outs);
    proof {
        assert(keys_of(inflows(f)) =~= keys_of(outflows(f)));
        crate::keys::lemma_keys_fold::<(EntryKind, Asset)>(inflows(f), outflows(f));
        assert(amounts_view(in_sums@).len() == keys_of(amounts_view(in_sums@)).len());
        assert(amounts_view(out_sums@).len() == keys_of(amounts_view(out_sums@)).len());
    }
    let ghost iv = amounts_view(in_sums@);
    let ghost ov = amounts_view(out_sums@);
    let mut lines: Vec<MovementLine> = Vec::new();
    let mut k: usize = 0;
    while k < in_sums.len()
        invariant
            k <= in_sums@.len(),
            in_sums@.len() == out_sums@.len(),
            iv == amounts_view(in_sums@),
            ov == amounts_view(out_sums@),
            lines@.len() == k,
            forall|j: int|
                0 <= j < k ==> #[trigger] lines@[j]@ == lines_of(iv, ov)[j],
        decreases in_sums@.len() - k,
    {
        let line = MovementLine {
            kind: in_sums[k].0.0,
            asset: in_sums[k].0.1,
            inflow: in_sums[k].1,
            outflow: out_sums[k].1,
        };
        assert(iv[k as int] == (in_sums@[k as int].0@, in_sums@[k as int].1 as int));
        assert(ov[k as int] == (out_sums@[k as int].0@, out_sums@[k as int].1 as int));
        let ghost prev = lines@;
        lines.push(line);
        assert forall|j: int| 0 <= j < k + 1 implies #[trigger] lines@[j]@ == lines_of(iv, ov)[j] by {
            if j < k {
                assert(lines@[j] == prev[j]);
            }
        }
        k += 1;
    }
    let period = period_movement(journal, account, from_day, to_day);
    let closing = balance::add(opening.copy(), &period);
    let r = CashMovement {
        account: String::from_str(account),
        from_day: match from_day {
            Some(s) => Some(String::from_str(s)),
            None => None,
        },
        to_day: match to_day {
            Some(s) => Some(String::from_str(s)),
            None => None,
        },
        opening,
        closing,
        lines,
    };
    assert(r.lines_view() =~= movement_lines(journal@, account@, from, to));
    proof {
        lemma_cash_movement_ties_out(journal@, account@, from, to);
    }
    r
}

/// Holdings for `account` as of `as_of_day` (inclusive; `None` = latest):
/// the asset position, the same one `balance_at` gives. No liabilities or
/// equity: those are not on-ledger.
pub fn holdings(journal: &Journal, account: &str, as_of_day: Option<&str>) -> (r: Balances)
    requires
        fold_fits(position_pairs(journal@, account@, opt_view(as_of_day))),
    ensures
        r@ == totals_map(position_pairs(journal@, account@, opt_view(as_of_day))),
{
    balance_at(journal, account, as_of_day)
}

/// The `(asset, amount)` pairs of the window's entries, as a vector.
fn window_vec(journal: &Journal, account: Option<&str>, from: Option<&str>, to: Option<&str>) -> (r:
    Vec<(Asset, i128)>)
    ensures
        amounts_view(r@) == window_pairs(journal@, opt_view(account), opt_view(from), opt_view(to)),
{
    let es = journal.entries();
    let ghost ev = journal@;
    let mut pairs: Vec<(Asset, i128)> = Vec::new();
    let mut i: usize = 0;
    while i < es.len()
        invariant
            i <= es@.len(),
            ev == es@.map_values(|e: LedgerEntry| e@),
            amounts_view(pairs@) == window_pairs(
                ev.take(i as int),
                opt_view(account),
                opt_view(from),
                opt_view(to),
            ),
        decreases es@.len() - i,
    {
        let e = &es[i];
        assert(ev.take(i + 1).drop_last() =~= ev.take(i as int));
        assert(ev.take(i + 1).last() == e@);
        let mine = match account {
            None => true,
            Some(a) => crate::text::str_eq(e.account.as_str(), a),
        };
        if mine && in_window_exec(e.day.as_str(), from, to) {
            pairs.push((e.asset, e.amount));
        }
        assert(amounts_view(pairs@) =~= window_pairs(
            ev.take(i + 1),
            opt_view(account),
            opt_view(from),
            opt_view(to),
        ));
        i += 1;
    }
    assert(ev.take(i as int) =~= ev);
    pairs
}

/// Trial balance: sum every posting per asset over the window. A correct
/// double-entry book sums to zero in every asset; an empty result means
/// balanced.
pub fn trial_balance(journal: &Journal, from_day: Option<&str>, to_day: Option<&str>) -> (r: Balances)
    requires
        fold_fits(window_pairs(journal@, None, opt_view(from_day), opt_view(to_day))),
    ensures
        r@ == totals_map(window_pairs(journal@, None, opt_view(from_day), opt_view(to_day))),
{
    let pairs = window_vec(journal, None, from_day, to_day);
    Balances::fold_from(&pairs)
}

/// Balance of everything strictly before `from_day` (empty for an
/// unbounded window: there is no "before").
fn opening_balance(journal: &Journal, account: &str, from_day: Option<&str>) -> (r: Balances)
    requires
        from_day is Some ==> fold_fits(opening_pairs(journal@, account@, from_day->0@)),
    ensures
        r@ == opening_position(journal@, account@, opt_view(from_day)),
{
    let from = match from_day {
        None => {
            return Balances::new();
        },
        Some(f) => f,
    };
    let es = journal.entries();
    let ghost ev = journal@;
    let mut pairs: Vec<(Asset, i128)> = Vec::new();
    let mut i: usize = 0;
    while i < es.len()
        invariant
            i <= es@.len(),
            ev == es@.map_values(|e: LedgerEntry| e@),
            amounts_view(pairs@) == opening_pairs(ev.take(i as int), account@, from@),
        decreases es@.len() - i,
    {
        let e = &es[i];
        assert(ev.take(i + 1).drop_last() =~= ev.take(i as int));
        assert(ev.take(i + 1).last() == e@);
        if crate::text::str_eq(e.account.as_str(), account) {
            if let KeyOrder::Less = compare_str(e.day.as_str(), from) {
                pairs.push((e.asset, e.amount));
            }
        }
        assert(amounts_view(pairs@) =~= opening_pairs(ev.take(i + 1), account@, from@));
        i += 1;
    }
    assert(ev.take(i as int) =~= ev);
    Balances::fold_from(&pairs)
}

/// Net movement within the window (used to derive closing from opening).
fn period_movement(journal: &Journal, account: &str, from: Option<&str>, to: Option<&str>) -> (r:
    Balances)
    requires
        fold_fits(window_pairs(journal@, Some(account@), opt_view(from), opt_view(to))),
    ensures
        r@ == totals_map(window_pairs(journal@, Some(account@), opt_view(from), opt_view(to))),
{
    let pairs = window_vec(journal, Some(account), from, to);
    Balances::fold_from(&pairs)
}


// ---------------------------------------------------------------------------
// Tie-out
// ---------------------------------------------------------------------------

/// The buckets of one asset.
pub open spec fn of_asset(a: Asset) -> spec_fn((EntryKind, Asset)) -> bool {
    |k: (EntryKind, Asset)| k.1 == a
}

/// Per asset, the nets of the lines built from two bucket lists with the
/// same keys sum to the difference of the lists' sums.
proof fn lemma_line_nets_total(
    iv: Seq<((EntryKind, Asset), int)>,
    ov: Seq<((EntryKind, Asset), int)>,
    a: Asset,
)
    requires
        keys_of(iv) == keys_of(ov),
    ensures
        total_in(line_nets(lines_of(iv, ov)), a) == sum_where(iv, of_asset(a)) - sum_where(
            ov,
            of_asset(a),
        ),
    decreases iv.len(),
{
    assert(iv.len() == keys_of(iv).len());
    assert(ov.len() == keys_of(ov).len());
    if iv.len() == 0 {
        assert(line_nets(lines_of(iv, ov)) =~= Seq::<(Asset, int)>::empty());
    } else {
        let di = iv.drop_last();
        let dv = ov.drop_last();
        assert(keys_of(di) =~= keys_of(iv).drop_last());
        assert(keys_of(dv) =~= keys_of(ov).drop_last());
        lemma_line_nets_total(di, dv, a);
        assert(line_nets(lines_of(iv, ov)).drop_last() =~= line_nets(lines_of(di, dv)));
        assert(iv.last().0 == keys_of(iv)[iv.len() - 1]);
        assert(ov.last().0 == keys_of(ov)[ov.len() - 1]);
        assert(line_nets(lines_of(iv, ov)).last() == (iv.last().0.1, iv.last().1 - ov.last().1));
    }
}

/// Gross inflows minus gross outflows are the net amounts.
proof fn lemma_flows_split(f: Seq<((EntryKind, Asset), int)>, p: spec_fn((EntryKind, Asset)) -> bool)
    ensures
        sum_where(inflows(f), p) - sum_where(outflows(f), p) == sum_where(f, p),
    decreases f.len(),
{
    if f.len() > 0 {
        assert(inflows(f).drop_last() =~= inflows(f.drop_last()));
        assert(outflows(f).drop_last() =~= outflows(f.drop_last()));
        lemma_flows_split(f.drop_last(), p);
    }
}

/// An account's flows of one asset sum to its window total of that asset.
proof fn lemma_flow_window(
    es: Seq<EntryView>,
    account: Seq<char>,
    from: Option<Seq<char>>,
    to: Option<Seq<char>>,
    a: Asset,
)
    ensures
        sum_where(flow_pairs(es, account, from, to), of_asset(a)) == total_in(
            window_pairs(es, Some(account), from, to),
            a,
        ),
    decreases es.len(),
{
    if es.len() > 0 {
        let e = es.last();
        let d = es.drop_last();
        lemma_flow_window(d, account, from, to, a);
        if e.account == account && in_window(e.day, from, to) {
            lemma_sum_where_concat(flow_pairs(d, account, from, to), seq![((e.kind, e.asset), e.amount)], of_asset(a));
            lemma_sum_where_single(((e.kind, e.asset), e.amount), of_asset(a));
            balance::lemma_total_in_concat(window_pairs(d, Some(account), from, to), seq![(e.asset, e.amount)], a);
            assert(seq![(e.asset, e.amount)].drop_last() =~= Seq::<(Asset, int)>::empty());
            assert(total_in(Seq::<(Asset, int)>::empty(), a) == 0);
        } else {
            assert(flow_pairs(es, account, from, to) =~= flow_pairs(d, account, from, to));
            assert(window_pairs(es, Some(account), from, to) =~= window_pairs(d, Some(account), from, to));
        }
    }
}

/// A cash-movement report ties out for every account and window: the
/// opening position plus the net of its lines is its closing position.
pub proof fn lemma_cash_movement_ties_out(
    es: Seq<EntryView>,
    account: Seq<char>,
    from: Option<Seq<char>>,
    to: Option<Seq<char>>,
)
    ensures
        spec_ties_out(
            opening_position(es, account, from),
            movement_lines(es, account, from, to),
            add_positions(
                opening_position(es, account, from),
                totals_map(window_pairs(es, Some(account), from, to)),
            ),
        ),
        totals_map(line_nets(movement_lines(es, account, from, to))) == totals_map(
            window_pairs(es, Some(account), from, to),
        ),
{
    let f = flow_pairs(es, account, from, to);
    let iv = accum_fold::<(EntryKind, Asset)>(inflows(f));
    let ov = accum_fold::<(EntryKind, Asset)>(outflows(f));
    let w = window_pairs(es, Some(account), from, to);
    assert(keys_of(inflows(f)) =~= keys_of(outflows(f)));
    crate::keys::lemma_keys_fold::<(EntryKind, Asset)>(inflows(f), outflows(f));
    assert forall|a: Asset| #[trigger] total_in(line_nets(movement_lines(es, account, from, to)), a)
        == total_in(w, a) by {
        lemma_line_nets_total(iv, ov, a);
        lemma_sum_where_fold::<(EntryKind, Asset)>(inflows(f), of_asset(a));
        lemma_sum_where_fold::<(EntryKind, Asset)>(outflows(f), of_asset(a));
        lemma_flows_split(f, of_asset(a));
        lemma_flow_window(es, account, from, to, a);
    }
    assert(totals_map(line_nets(movement_lines(es, account, from, to))) =~= totals_map(w));
}

/// Split at `from`, an account's entries on or before `to` are those
/// strictly before `from` and those in the window.
proof fn lemma_split_at_from(
    es: Seq<EntryView>,
    account: Seq<char>,
    f: Seq<char>,
    to: Option<Seq<char>>,
    a: Asset,
)
    requires
        to is None || !seq_lt(to->0, f),
    ensures
        total_in(opening_pairs(es, account, f), a) + total_in(
            window_pairs(es, Some(account), Some(f), to),
            a,
        ) == total_in(position_pairs(es, account, to), a),
    decreases es.len(),
{
    if es.len() > 0 {
        let e = es.last();
        let d = es.drop_last();
        lemma_split_at_from(d, account, f, to, a);
        let x = opening_pairs(d, account, f);
        let y = window_pairs(d, Some(account), Some(f), to);
        let z = position_pairs(d, account, to);
        let one = seq![(e.asset, e.amount)];
        let none = Seq::<(Asset, int)>::empty();
        assert(one.drop_last() =~= none);
        assert(total_in(none, a) == 0);
        assert(x + none =~= x);
        assert(y + none =~= y);
        assert(z + none =~= z);
        balance::lemma_total_in_concat(x, one, a);
        balance::lemma_total_in_concat(y, one, a);
        balance::lemma_total_in_concat(z, one, a);
        if e.account == account && seq_lt(e.day, f) {
            if let Some(t) = to {
                if seq_lt(t, e.day) {
                    crate::text::lemma_seq_lt_transitive(t, e.day, f);
                }
            }
            crate::text::lemma_seq_lt_irreflexive(e.day);
        }
    }
}

/// With no lower bound, the window is everything on or before `to`.
proof fn lemma_window_unbounded(es: Seq<EntryView>, account: Seq<char>, to: Option<Seq<char>>)
    ensures
        window_pairs(es, Some(account), None, to) == position_pairs(es, account, to),
    decreases es.len(),
{
    if es.len() > 0 {
        lemma_window_unbounded(es.drop_last(), account, to);
    }
}

/// A report's closing position is the account's holdings as of the end
/// of the window, whenever the window does not end before it starts.
pub proof fn lemma_closing_is_holdings(
    es: Seq<EntryView>,
    account: Seq<char>,
    from: Option<Seq<char>>,
    to: Option<Seq<char>>,
)
    requires
        from is None || to is None || !seq_lt(to->0, from->0),
    ensures
        add_positions(
            opening_position(es, account, from),
            totals_map(window_pairs(es, Some(account), from, to)),
        ) == totals_map(position_pairs(es, account, to)),
{
    let w = window_pairs(es, Some(account), from, to);
    let p = position_pairs(es, account, to);
    match from {
        None => {
            lemma_window_unbounded(es, account, to);
            assert(add_positions(opening_position(es, account, from), totals_map(w)) =~= totals_map(p));
        },
        Some(f) => {
            assert forall|a: Asset| #[trigger] held(opening_position(es, account, from), a) + held(
                totals_map(w),
                a,
            ) == total_in(p, a) by {
                lemma_split_at_from(es, account, f, to, a);
            }
            assert(add_positions(opening_position(es, account, from), totals_map(w)) =~= totals_map(p));
        },
    }
}

/// Per bucket, gross inflows minus gross outflows are the net amount.
proof fn lemma_flows_split_total(f: Seq<((EntryKind, Asset), int)>, k: (EntryKind, Asset))
    ensures
        total_in(inflows(f), k) - total_in(outflows(f), k) == total_in(f, k),
    decreases f.len(),
{
    if f.len() > 0 {
        assert(inflows(f).drop_last() =~= inflows(f.drop_last()));
        assert(outflows(f).drop_last() =~= outflows(f.drop_last()));
        lemma_flows_split_total(f.drop_last(), k);
    }
}

/// A movement line's net is the sum of the account's amounts in the window
/// of that line's kind and asset.
pub proof fn lemma_line_net_is_window_sum(
    es: Seq<EntryView>,
    account: Seq<char>,
    from: Option<Seq<char>>,
    to: Option<Seq<char>>,
    j: int,
)
    requires
        0 <= j < movement_lines(es, account, from, to).len(),
    ensures
        movement_lines(es, account, from, to)[j].inflow - movement_lines(es, account, from, to)[j].outflow
            == total_in(
            flow_pairs(es, account, from, to),
            (movement_lines(es, account, from, to)[j].kind, movement_lines(es, account, from, to)[j].asset),
        ),
{
    let f = flow_pairs(es, account, from, to);
    let iv = accum_fold::<(EntryKind, Asset)>(inflows(f));
    let ov = accum_fold::<(EntryKind, Asset)>(outflows(f));
    assert(keys_of(inflows(f)) =~= keys_of(outflows(f)));
    crate::keys::lemma_keys_fold::<(EntryKind, Asset)>(inflows(f), outflows(f));
    assert(iv.len() == keys_of(iv).len());
    assert(ov.len() == keys_of(ov).len());
    let k = iv[j].0;
    assert(keys_of(iv)[j] == k);
    assert(ov[j].0 == keys_of(ov)[j]);
    crate::keys::lemma_accum_fold::<(EntryKind, Asset)>(inflows(f), k);
    crate::keys::lemma_accum_fold::<(EntryKind, Asset)>(outflows(f), k);
    crate::keys::lemma_get_sorted_index::<(EntryKind, Asset), int>(iv, j);
    crate::keys::lemma_get_sorted_index::<(EntryKind, Asset), int>(ov, j);
    lemma_flows_split_total(f, k);
}

// ---------------------------------------------------------------------------
// Movement lines are the account's entries grouped by their own kind
// ---------------------------------------------------------------------------

/// The part of an amount that is a credit.
pub open spec fn credit_part() -> spec_fn(int) -> int {
    |x: int| if x >= 0 {
        x
    } else {
        0
    }
}

/// The part of an amount that is a debit, as a magnitude.
pub open spec fn debit_part() -> spec_fn(int) -> int {
    |x: int| if x < 0 {
        -x
    } else {
        0
    }
}

/// Over `account`'s entries in the window whose own kind is `kind` and
/// whose asset is `asset`, the sum of `part` of their amounts.
pub open spec fn bucket_total(
    es: Seq<EntryView>,
    account: Seq<char>,
    from: Option<Seq<char>>,
    to: Option<Seq<char>>,
    kind: EntryKind,
    asset: Asset,
    part: spec_fn(int) -> int,
) -> int
    decreases es.len(),
{
    if es.len() == 0 {
        0
    } else {
        let e = es.last();
        bucket_total(es.drop_last(), account, from, to, kind, asset, part) + if e.account == account
            && in_window(e.day, from, to) && e.kind == kind && e.asset == asset {
            part(e.amount)
        } else {
            0
        }
    }
}

proof fn lemma_flows_are_buckets(
    es: Seq<EntryView>,
    account: Seq<char>,
    from: Option<Seq<char>>,
    to: Option<Seq<char>>,
    kind: EntryKind,
    asset: Asset,
)
    ensures
        total_in(inflows(flow_pairs(es, account, from, to)), (kind, asset)) == bucket_total(
            es,
            account,
            from,
            to,
            kind,
            asset,
            credit_part(),
        ),
        total_in(outflows(flow_pairs(es, account, from, to)), (kind, asset)) == bucket_total(
            es,
            account,
            from,
            to,
            kind,
            asset,
            debit_part(),
        ),
    decreases es.len(),
{
    if es.len() == 0 {
        assert(inflows(flow_pairs(es, account, from, to)) =~= Seq::<((EntryKind, Asset), int)>::empty());
        assert(outflows(flow_pairs(es, account, from, to)) =~= Seq::<((EntryKind, Asset), int)>::empty());
    } else {
        let e = es.last();
        let d = es.drop_last();
        lemma_flows_are_buckets(d, account, from, to, kind, asset);
        let f = flow_pairs(es, account, from, to);
        let fd = flow_pairs(d, account, from, to);
        if e.account == account && in_window(e.day, from, to) {
            assert(f == fd.push(((e.kind, e.asset), e.amount)));
            lemma_flows_push(fd, ((e.kind, e.asset), e.amount));
            crate::keys::lemma_total_in_push(inflows(fd), ((e.kind, e.asset), if e.amount >= 0 { e.amount } else { 0 }), (kind, asset));
            crate::keys::lemma_total_in_push(outflows(fd), ((e.kind, e.asset), if e.amount < 0 { -e.amount } else { 0 }), (kind, asset));
        } else {
            assert(f =~= fd);
        }
    }
}

/// An entry of the account in the window puts its own (kind, asset) among
/// the flow keys.
proof fn lemma_entry_has_flow(
    es: Seq<EntryView>,
    account: Seq<char>,
    from: Option<Seq<char>>,
    to: Option<Seq<char>>,
    i: int,
)
    requires
        0 <= i < es.len(),
        es[i].account == account,
        in_window(es[i].day, from, to),
    ensures
        crate::keys::has_key(inflows(flow_pairs(es, account, from, to)), (es[i].kind, es[i].asset)),
    decreases es.len(),
{
    let d = es.drop_last();
    let e = es.last();
    let f = flow_pairs(es, account, from, to);
    let fd = flow_pairs(d, account, from, to);
    if e.account == account && in_window(e.day, from, to) {
        assert(f == fd.push(((e.kind, e.asset), e.amount)));
        lemma_flows_push(fd, ((e.kind, e.asset), e.amount));
    } else {
        assert(f =~= fd);
    }
    if i == es.len() - 1 {
        let n = inflows(fd).len();
        assert(inflows(f)[n as int].0 == (e.kind, e.asset));
    } else {
        assert(d[i] == es[i]);
        lemma_entry_has_flow(d, account, from, to, i);
        let k = choose|k: int| 0 <= k < inflows(fd).len() && #[trigger] inflows(fd)[k].0 == (
        es[i].kind, es[i].asset);
        if e.account == account && in_window(e.day, from, to) {
            assert(inflows(f)[k] == inflows(fd)[k]);
        }
    }
}

/// Cash movements are grouped by each entry's own kind: every line's gross
/// inflow and outflow are the credits and debits of the account's entries
/// in the window of that line's kind and asset, and every kind and asset
/// that such an entry has gets a line.
pub proof fn lemma_movement_lines_by_kind(
    es: Seq<EntryView>,
    account: Seq<char>,
    from: Option<Seq<char>>,
    to: Option<Seq<char>>,
)
    ensures
        forall|j: int|
            0 <= j < movement_lines(es, account, from, to).len() ==> {
                &&& (#[trigger] movement_lines(es, account, from, to)[j]).inflow == bucket_total(
                    es,
                    account,
                    from,
                    to,
                    movement_lines(es, account, from, to)[j].kind,
                    movement_lines(es, account, from, to)[j].asset,
                    credit_part(),
                )
                &&& movement_lines(es, account, from, to)[j].outflow == bucket_total(
                    es,
                    account,
                    from,
                    to,
                    movement_lines(es, account, from, to)[j].kind,
                    movement_lines(es, account, from, to)[j].asset,
                    debit_part(),
                )
            },
        forall|i: int|
            0 <= i < es.len() && (#[trigger] es[i]).account == account && in_window(
                es[i].day,
                from,
                to,
            ) ==> exists|j: int|
                0 <= j < movement_lines(es, account, from, to).len() && movement_lines(
                    es,
                    account,
                    from,
                    to,
                )[j].kind == es[i].kind && movement_lines(es, account, from, to)[j].asset
                    == es[i].asset,
{
    let f = flow_pairs(es, account, from, to);
    let iv = accum_fold::<(EntryKind, Asset)>(inflows(f));
    let ov = accum_fold::<(EntryKind, Asset)>(outflows(f));
    let lines = movement_lines(es, account, from, to);
    assert(keys_of(inflows(f)) =~= keys_of(outflows(f)));
    crate::keys::lemma_keys_fold::<(EntryKind, Asset)>(inflows(f), outflows(f));
    assert(iv.len() == keys_of(iv).len());
    assert(ov.len() == keys_of(ov).len());
    assert forall|j: int| 0 <= j < lines.len() implies {
        &&& (#[trigger] lines[j]).inflow == bucket_total(
            es,
            account,
            from,
            to,
            lines[j].kind,
            lines[j].asset,
            credit_part(),
        )
        &&& lines[j].outflow == bucket_total(
            es,
            account,
            from,
            to,
            lines[j].kind,
            lines[j].asset,
            debit_part(),
        )
    } by {
        let k = iv[j].0;
        assert(keys_of(iv)[j] == k);
        assert(ov[j].0 == keys_of(ov)[j]);
        crate::keys::lemma_accum_fold::<(EntryKind, Asset)>(inflows(f), k);
        crate::keys::lemma_accum_fold::<(EntryKind, Asset)>(outflows(f), k);
        crate::keys::lemma_get_sorted_index::<(EntryKind, Asset), int>(iv, j);
        crate::keys::lemma_get_sorted_index::<(EntryKind, Asset), int>(ov, j);
        lemma_flows_are_buckets(es, account, from, to, k.0, k.1);
    }
    assert forall|i: int|
        0 <= i < es.len() && (#[trigger] es[i]).account == account && in_window(
            es[i].day,
            from,
            to,
        ) implies exists|j: int|
        0 <= j < lines.len() && lines[j].kind == es[i].kind && lines[j].asset == es[i].asset by {
        let k = (es[i].kind, es[i].asset);
        lemma_entry_has_flow(es, account, from, to, i);
        crate::keys::lemma_accum_fold::<(EntryKind, Asset)>(inflows(f), k);
        let j = choose|j: int| 0 <= j < iv.len() && #[trigger] iv[j].0 == k;
        assert(lines[j].kind == k.0);
    }
}

} // verus!
