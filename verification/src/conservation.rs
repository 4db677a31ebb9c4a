//! Conservation: what the decomposition of a transaction into postings
//! keeps, stated over the specifications of `journal` and proved.
//!
//! - A transaction's postings sum, per asset, to what its legs leave
//!   unbooked: nothing, for HBAR legs that net to zero or are single-sided,
//!   and for token legs that net to zero or change supply.
//! - The fee split re-labels the payer's movement without changing it.
//! - A book of such transactions has no conservation break, and its trial
//!   balance is empty over every window.
//! - A book without conservation breaks sums to zero in every asset.
use crate::asset::Asset;
use crate::balance::lemma_total_in_concat;
use crate::journal::{
    account_postings, asset_pairs, breaks_of, group_pairs, hbar_net, hbar_pairs, hbar_postings,
    hbar_supply_postings, leg_sum, postings_of, postings_of_all, single_sided, supply_changing,
    token_asset, token_net, token_pairs, token_postings, token_supply_postings, EntryKind,
    EntryView, TxView,
};
use crate::keys::{
    accum_fold, lemma_accum_fold, lemma_get_sorted_index, lemma_nonzero_sorted,
    lemma_nonzero_total, lemma_sum_where_concat, lemma_sum_where_fold, nonzero, sum_where, total_in,
    totals_map,
};
use crate::statements::{in_window, window_pairs};
use vstd::prelude::*;

verus! {

// ---------------------------------------------------------------------------
// Definitions
// ---------------------------------------------------------------------------

/// The total of one asset over a sequence of postings.
pub open spec fn asset_total(es: Seq<EntryView>, a: Asset) -> int {
    total_in(asset_pairs(es), a)
}

/// Every key.
pub open spec fn any_key() -> spec_fn(Seq<char>) -> bool {
    |k: Seq<char>| true
}

/// The token texts that name asset `a`.
pub open spec fn names_asset(a: Asset) -> spec_fn(Seq<char>) -> bool {
    |t: Seq<char>| token_asset(t) == a
}

/// The sum of a transaction's token legs that name asset `a`.
pub open spec fn token_residual(tx: TxView, a: Asset) -> int {
    sum_where(token_pairs(tx.token_transfers), names_asset(a))
}

/// What a transaction's postings leave unbalanced in asset `a`: the HBAR
/// residual unless the legs are single-sided (issuance), a token's residual
/// unless the type changes supply.
pub open spec fn unbooked(tx: TxView, a: Asset) -> int {
    if a == Asset::Hbar {
        if single_sided(tx) {
            0
        } else {
            leg_sum(tx.transfers)
        }
    } else if supply_changing(tx.tx_type) {
        0
    } else {
        token_residual(tx, a)
    }
}

/// The legs of a transaction balance: the HBAR legs net to zero or are
/// single-sided, and every token nets to zero unless the type changes
/// supply.
pub open spec fn balanced(tx: TxView) -> bool {
    &&& (leg_sum(tx.transfers) == 0 || single_sided(tx))
    &&& (supply_changing(tx.tx_type) || forall|a: Asset| #[trigger] token_residual(tx, a) == 0)
}

/// Every posting carries the transaction's timestamp, day, type, result
/// code and payer.
pub open spec fn of_tx(es: Seq<EntryView>, tx: TxView) -> bool {
    forall|i: int|
        0 <= i < es.len() ==> {
            &&& (#[trigger] es[i]).consensus_timestamp == tx.consensus_timestamp
            &&& es[i].day == tx.day
            &&& es[i].tx_type == tx.tx_type
            &&& es[i].result_code == tx.result_code
            &&& es[i].payer == tx.payer
        }
}

/// The shape of a transaction's postings: none is zero, a fee is a debit
/// of exactly the charged fee on the payer, a staking reward is a credit in
/// a transaction that pays from the reward account, and a supply contra
/// posting sits on the asset's `supply:` account as a `Mint` when it is a
/// debit (supply created) and a `Burn` when it is a credit (supply
/// destroyed).
pub open spec fn shaped(es: Seq<EntryView>, tx: TxView) -> bool {
    forall|i: int|
        0 <= i < es.len() ==> {
            &&& (#[trigger] es[i]).amount != 0
            &&& es[i].kind == EntryKind::Fee ==> es[i].account == tx.payer && es[i].amount == -(
            tx.fee as int)
            &&& es[i].kind == EntryKind::StakingReward ==> es[i].amount > 0
                && crate::journal::reward_paid(tx)
            &&& es[i].kind == EntryKind::Mint ==> es[i].amount < 0
                && es[i].account == crate::journal::supply_account(es[i].asset)
            &&& es[i].kind == EntryKind::Burn ==> es[i].amount > 0
                && es[i].account == crate::journal::supply_account(es[i].asset)
        }
}

/// Per transaction with timestamp `ts`, what it leaves unbooked in `a`.
pub open spec fn unbooked_at(txs: Seq<TxView>, ts: Seq<char>, a: Asset) -> int
    decreases txs.len(),
{
    if txs.len() == 0 {
        0
    } else {
        unbooked_at(txs.drop_last(), ts, a) + if txs.last().consensus_timestamp == ts {
            unbooked(txs.last(), a)
        } else {
            0
        }
    }
}

/// Per transaction whose day lies in the window, what it leaves unbooked
/// in `a`.
pub open spec fn unbooked_in(
    txs: Seq<TxView>,
    from: Option<Seq<char>>,
    to: Option<Seq<char>>,
    a: Asset,
) -> int
    decreases txs.len(),
{
    if txs.len() == 0 {
        0
    } else {
        unbooked_in(txs.drop_last(), from, to, a) + if in_window(txs.last().day, from, to) {
            unbooked(txs.last(), a)
        } else {
            0
        }
    }
}

// ---------------------------------------------------------------------------
// Sums over postings
// ---------------------------------------------------------------------------

proof fn lemma_asset_total_concat(x: Seq<EntryView>, y: Seq<EntryView>, a: Asset)
    ensures
        asset_total(x + y, a) == asset_total(x, a) + asset_total(y, a),
{
    assert(asset_pairs(x + y) =~= asset_pairs(x) + asset_pairs(y));
    lemma_total_in_concat(asset_pairs(x), asset_pairs(y), a);
}

proof fn lemma_asset_total_single(e: EntryView, a: Asset)
    ensures
        asset_total(seq![e], a) == if e.asset == a {
            e.amount
        } else {
            0
        },
{
    assert(asset_pairs(seq![e]).drop_last() =~= Seq::<(Asset, int)>::empty());
    assert(asset_pairs(seq![e]).last() == (e.asset, e.amount));
    assert(total_in(Seq::<(Asset, int)>::empty(), a) == 0);
}

proof fn lemma_asset_total_empty(a: Asset)
    ensures
        asset_total(Seq::<EntryView>::empty(), a) == 0,
{
    assert(asset_pairs(Seq::<EntryView>::empty()) =~= Seq::<(Asset, int)>::empty());
}

proof fn lemma_of_tx_concat(x: Seq<EntryView>, y: Seq<EntryView>, tx: TxView)
    requires
        of_tx(x, tx),
        of_tx(y, tx),
    ensures
        of_tx(x + y, tx),
{
    assert forall|i: int| 0 <= i < (x + y).len() implies (#[trigger] (x + y)[i]).consensus_timestamp
        == tx.consensus_timestamp && (x + y)[i].day == tx.day by {
        if i < x.len() {
            assert((x + y)[i] == x[i]);
        } else {
            assert((x + y)[i] == y[i - x.len()]);
        }
    }
}

proof fn lemma_both_concat(x: Seq<EntryView>, y: Seq<EntryView>, tx: TxView)
    requires
        of_tx(x, tx),
        of_tx(y, tx),
        shaped(x, tx),
        shaped(y, tx),
    ensures
        of_tx(x + y, tx),
        shaped(x + y, tx),
{
    lemma_of_tx_concat(x, y, tx);
    lemma_shaped_concat(x, y, tx);
}

proof fn lemma_shaped_concat(x: Seq<EntryView>, y: Seq<EntryView>, tx: TxView)
    requires
        shaped(x, tx),
        shaped(y, tx),
    ensures
        shaped(x + y, tx),
{
    assert forall|i: int| 0 <= i < (x + y).len() implies #[trigger] (x + y)[i] == if i < x.len() {
        x[i]
    } else {
        y[i - x.len()]
    } by {}
}

proof fn lemma_sum_where_any_step(s: Seq<(Seq<char>, int)>)
    requires
        s.len() > 0,
    ensures
        sum_where(s, any_key()) == sum_where(s.drop_last(), any_key()) + s.last().1,
{
}

/// A predicate sum is zero when no key satisfies the predicate.
proof fn lemma_sum_where_none(s: Seq<(Seq<char>, int)>, p: spec_fn(Seq<char>) -> bool)
    requires
        forall|k: Seq<char>| !#[trigger] p(k),
    ensures
        sum_where(s, p) == 0,
    decreases s.len(),
{
    if s.len() > 0 {
        lemma_sum_where_none(s.drop_last(), p);
        assert(!p(s.last().0));
    }
}

// ---------------------------------------------------------------------------
// One transaction
// ---------------------------------------------------------------------------

/// The fee split re-labels the payer's net movement without changing it:
/// an account's postings sum to its net HBAR movement, all in HBAR, and
/// for the payer of a charged fee the first is a `Fee` debit of exactly
/// the fee.
pub proof fn lemma_fee_split_preserves_net(tx: TxView, account: Seq<char>, amount: int, a: Asset)
    ensures
        asset_total(account_postings(tx, account, amount), a) == if a == Asset::Hbar {
            amount
        } else {
            0
        },
        of_tx(account_postings(tx, account, amount), tx),
        shaped(account_postings(tx, account, amount), tx),
        forall|i: int|
            0 <= i < account_postings(tx, account, amount).len() ==> (#[trigger] account_postings(
                tx,
                account,
                amount,
            )[i]).account == account,
        amount != 0 && account == tx.payer && tx.fee > 0 ==> account_postings(
            tx,
            account,
            amount,
        )[0].kind == EntryKind::Fee && account_postings(tx, account, amount)[0].amount == -(
        tx.fee as int),
{
    let ps = account_postings(tx, account, amount);
    lemma_asset_total_empty(a);
    if amount == 0 {
    } else if account == tx.payer && tx.fee > 0 {
        let principal = amount + tx.fee;
        let fee_post = crate::journal::posting(
            tx,
            account,
            Asset::Hbar,
            -(tx.fee as int),
            EntryKind::Fee,
        );
        lemma_asset_total_single(fee_post, a);
        if principal != 0 {
            let rest = seq![
                crate::journal::posting(
                    tx,
                    account,
                    Asset::Hbar,
                    principal,
                    crate::journal::reward_kind(principal, crate::journal::reward_paid(tx)),
                ),
            ];
            lemma_asset_total_single(rest[0], a);
            assert(rest =~= seq![rest[0]]);
            lemma_asset_total_concat(seq![fee_post], rest, a);
            assert(ps =~= seq![fee_post] + rest);
        } else {
            assert(ps =~= seq![fee_post] + Seq::<EntryView>::empty());
            lemma_asset_total_concat(seq![fee_post], Seq::<EntryView>::empty(), a);
        }
    } else {
        let p = crate::journal::posting(
            tx,
            account,
            Asset::Hbar,
            amount,
            crate::journal::reward_kind(amount, crate::journal::reward_paid(tx)),
        );
        lemma_asset_total_single(p, a);
    }
}

/// The HBAR postings over a net-per-account list sum to the list's total.
proof fn lemma_hbar_postings_total(tx: TxView, net: Seq<(Seq<char>, int)>, a: Asset)
    ensures
        asset_total(hbar_postings(tx, net), a) == if a == Asset::Hbar {
            sum_where(net, any_key())
        } else {
            0
        },
        of_tx(hbar_postings(tx, net), tx),
        shaped(hbar_postings(tx, net), tx),
    decreases net.len(),
{
    if net.len() == 0 {
        lemma_asset_total_empty(a);
    } else {
        lemma_hbar_postings_total(tx, net.drop_last(), a);
        lemma_fee_split_preserves_net(tx, net.last().0, net.last().1, a);
        lemma_asset_total_concat(
            hbar_postings(tx, net.drop_last()),
            account_postings(tx, net.last().0, net.last().1),
            a,
        );
        lemma_both_concat(
            hbar_postings(tx, net.drop_last()),
            account_postings(tx, net.last().0, net.last().1),
            tx,
        );
        lemma_sum_where_any_step(net);
    }
}

/// The HBAR legs, as pairs, sum to the leg sum.
proof fn lemma_leg_pairs_sum(s: Seq<(Seq<char>, i64)>)
    ensures
        sum_where(s.map_values(|l: (Seq<char>, i64)| (l.0, l.1 as int)), any_key()) == leg_sum(s),
    decreases s.len(),
{
    let f = |l: (Seq<char>, i64)| (l.0, l.1 as int);
    if s.len() > 0 {
        assert(s.map_values(f).drop_last() =~= s.drop_last().map_values(f));
        lemma_leg_pairs_sum(s.drop_last());
        lemma_sum_where_any_step(s.map_values(f));
    }
}

proof fn lemma_hbar_supply_total(tx: TxView, a: Asset)
    ensures
        asset_total(hbar_supply_postings(tx), a) == if a == Asset::Hbar && leg_sum(tx.transfers)
            != 0 && single_sided(tx) {
            -leg_sum(tx.transfers)
        } else {
            0
        },
        of_tx(hbar_supply_postings(tx), tx),
        shaped(hbar_supply_postings(tx), tx),
{
    lemma_asset_total_empty(a);
    if leg_sum(tx.transfers) != 0 && single_sided(tx) {
        lemma_asset_total_single(hbar_supply_postings(tx)[0], a);
        assert(hbar_supply_postings(tx) =~= seq![hbar_supply_postings(tx)[0]]);
    }
}

/// Token postings sum, per asset, to the legs that name it.
proof fn lemma_token_postings_total(
    tx: TxView,
    legs: Seq<(Seq<char>, Seq<char>, i64)>,
    a: Asset,
)
    ensures
        asset_total(token_postings(tx, legs), a) == sum_where(token_pairs(legs), names_asset(a)),
        of_tx(token_postings(tx, legs), tx),
        shaped(token_postings(tx, legs), tx),
    decreases legs.len(),
{
    lemma_asset_total_empty(a);
    if legs.len() > 0 {
        let l = legs.last();
        lemma_token_postings_total(tx, legs.drop_last(), a);
        let tail = if l.2 != 0 {
            seq![
                crate::journal::posting(
                    tx,
                    l.1,
                    token_asset(l.0),
                    l.2 as int,
                    EntryKind::Transfer,
                ),
            ]
        } else {
            Seq::empty()
        };
        let ptail: Seq<(Seq<char>, int)> = if l.2 != 0 {
            seq![(l.0, l.2 as int)]
        } else {
            Seq::empty()
        };
        lemma_asset_total_concat(token_postings(tx, legs.drop_last()), tail, a);
        lemma_sum_where_concat(token_pairs(legs.drop_last()), ptail, names_asset(a));
        if l.2 != 0 {
            lemma_asset_total_single(tail[0], a);
            assert(tail =~= seq![tail[0]]);
            crate::keys::lemma_sum_where_single((l.0, l.2 as int), names_asset(a));
        }
        lemma_both_concat(token_postings(tx, legs.drop_last()), tail, tx);
    }
}

/// Token contra postings sum, per asset, to minus the residuals of the
/// tokens that name it.
proof fn lemma_token_supply_total(tx: TxView, net: Seq<(Seq<char>, int)>, a: Asset)
    ensures
        asset_total(token_supply_postings(tx, net), a) == -sum_where(net, names_asset(a)),
        of_tx(token_supply_postings(tx, net), tx),
        shaped(token_supply_postings(tx, net), tx),
    decreases net.len(),
{
    lemma_asset_total_empty(a);
    if net.len() > 0 {
        let (t, r) = net.last();
        lemma_token_supply_total(tx, net.drop_last(), a);
        let tail = if r != 0 {
            seq![
                crate::journal::posting(
                    tx,
                    crate::journal::supply_account(token_asset(t)),
                    token_asset(t),
                    -r,
                    crate::journal::supply_kind(r),
                ),
            ]
        } else {
            Seq::empty()
        };
        lemma_asset_total_concat(token_supply_postings(tx, net.drop_last()), tail, a);
        if r != 0 {
            lemma_asset_total_single(tail[0], a);
            assert(tail =~= seq![tail[0]]);
        }
        lemma_both_concat(token_supply_postings(tx, net.drop_last()), tail, tx);
    }
}

/// Per-transaction conservation: a transaction's postings sum, in every
/// asset, to exactly what its legs leave unbooked. The HBAR legs' residual
/// is absorbed only when they are single-sided (genesis issuance), a
/// token's only under a supply-changing type; every other residual
/// remains, so a gap in the stream cannot pass for a mint. Every posting
/// carries the transaction's timestamp, day, type, result code and payer,
/// none is zero, a fee is a
/// debit of exactly the charged fee on the payer, and a staking reward is a
/// credit.
pub proof fn lemma_transaction_total(tx: TxView, a: Asset)
    ensures
        asset_total(postings_of(tx), a) == unbooked(tx, a),
        of_tx(postings_of(tx), tx),
        shaped(postings_of(tx), tx),
{
    let hb = hbar_postings(tx, hbar_net(tx));
    let hs = hbar_supply_postings(tx);
    let tp = token_postings(tx, tx.token_transfers);
    let ts = if supply_changing(tx.tx_type) {
        token_supply_postings(tx, token_net(tx))
    } else {
        Seq::<EntryView>::empty()
    };
    lemma_hbar_postings_total(tx, hbar_net(tx), a);
    lemma_sum_where_fold::<String>(hbar_pairs(tx), any_key());
    lemma_leg_pairs_sum(tx.transfers);
    lemma_hbar_supply_total(tx, a);
    lemma_token_postings_total(tx, tx.token_transfers, a);
    lemma_token_supply_total(tx, token_net(tx), a);
    lemma_sum_where_fold::<String>(token_pairs(tx.token_transfers), names_asset(a));
    lemma_asset_total_empty(a);
    lemma_asset_total_concat(hb, hs, a);
    lemma_asset_total_concat(hb + hs, tp, a);
    lemma_asset_total_concat(hb + hs + tp, ts, a);
    lemma_both_concat(hb, hs, tx);
    lemma_both_concat(hb + hs, tp, tx);
    lemma_both_concat(hb + hs + tp, ts, tx);
    if a == Asset::Hbar {
        lemma_sum_where_none(token_pairs(tx.token_transfers), names_asset(a));
        lemma_sum_where_none(token_net(tx), names_asset(a));
    }
}

/// A transaction whose legs balance posts a zero sum in every asset.
pub proof fn lemma_balanced_conserves(tx: TxView, a: Asset)
    requires
        balanced(tx),
    ensures
        asset_total(postings_of(tx), a) == 0,
{
    lemma_transaction_total(tx, a);
}

// ---------------------------------------------------------------------------
// A book of transactions
// ---------------------------------------------------------------------------

proof fn lemma_group_pairs_concat(x: Seq<EntryView>, y: Seq<EntryView>)
    ensures
        group_pairs(x + y) == group_pairs(x) + group_pairs(y),
{
    assert(group_pairs(x + y) =~= group_pairs(x) + group_pairs(y));
}

/// Grouped by (timestamp, asset), one transaction's postings sum to its
/// asset total under its own timestamp and to nothing elsewhere.
proof fn lemma_group_of_tx(es: Seq<EntryView>, tx: TxView, ts: Seq<char>, a: Asset)
    requires
        of_tx(es, tx),
    ensures
        total_in(group_pairs(es), (ts, a)) == if tx.consensus_timestamp == ts {
            asset_total(es, a)
        } else {
            0
        },
    decreases es.len(),
{
    lemma_asset_total_empty(a);
    if es.len() == 0 {
        assert(group_pairs(es) =~= Seq::<((Seq<char>, Asset), int)>::empty());
    } else {
        let d = es.drop_last();
        assert(of_tx(d, tx)) by {
            assert forall|i: int| 0 <= i < d.len() implies (#[trigger] d[i]).consensus_timestamp
                == tx.consensus_timestamp && d[i].day == tx.day by {
                assert(d[i] == es[i]);
            }
        }
        lemma_group_of_tx(d, tx, ts, a);
        assert(es =~= d + seq![es.last()]);
        lemma_group_pairs_concat(d, seq![es.last()]);
        lemma_asset_total_concat(d, seq![es.last()], a);
        lemma_asset_total_single(es.last(), a);
        assert(group_pairs(seq![es.last()]) =~= seq![
            ((es.last().consensus_timestamp, es.last().asset), es.last().amount),
        ]);
        lemma_total_in_concat(group_pairs(d), group_pairs(seq![es.last()]), (ts, a));
        let gl = group_pairs(seq![es.last()]);
        assert(gl.drop_last() =~= Seq::<((Seq<char>, Asset), int)>::empty());
        assert(total_in(Seq::<((Seq<char>, Asset), int)>::empty(), (ts, a)) == 0);
        assert(es[es.len() - 1].consensus_timestamp == tx.consensus_timestamp);
    }
}

/// Grouped by (timestamp, asset), a book of transactions sums to what its
/// transactions of that timestamp leave unbooked.
pub proof fn lemma_book_group_total(txs: Seq<TxView>, ts: Seq<char>, a: Asset)
    ensures
        total_in(group_pairs(postings_of_all(txs)), (ts, a)) == unbooked_at(txs, ts, a),
    decreases txs.len(),
{
    if txs.len() == 0 {
        assert(group_pairs(postings_of_all(txs)) =~= Seq::<((Seq<char>, Asset), int)>::empty());
    } else {
        let tx = txs.last();
        lemma_book_group_total(txs.drop_last(), ts, a);
        lemma_transaction_total(tx, a);
        lemma_group_of_tx(postings_of(tx), tx, ts, a);
        lemma_group_pairs_concat(postings_of_all(txs.drop_last()), postings_of(tx));
        lemma_total_in_concat(
            group_pairs(postings_of_all(txs.drop_last())),
            group_pairs(postings_of(tx)),
            (ts, a),
        );
    }
}

proof fn lemma_unbooked_at_zero(txs: Seq<TxView>, ts: Seq<char>, a: Asset)
    requires
        forall|i: int| 0 <= i < txs.len() ==> balanced(#[trigger] txs[i]),
    ensures
        unbooked_at(txs, ts, a) == 0,
    decreases txs.len(),
{
    if txs.len() > 0 {
        assert forall|i: int| 0 <= i < txs.drop_last().len() implies balanced(
            #[trigger] txs.drop_last()[i],
        ) by {
            assert(txs.drop_last()[i] == txs[i]);
        }
        lemma_unbooked_at_zero(txs.drop_last(), ts, a);
        assert(balanced(txs[txs.len() - 1]));
        lemma_balanced_conserves(txs.last(), a);
        lemma_transaction_total(txs.last(), a);
    }
}

/// A book of balanced transactions has no conservation break.
pub proof fn lemma_balanced_book_has_no_breaks(txs: Seq<TxView>)
    requires
        forall|i: int| 0 <= i < txs.len() ==> balanced(#[trigger] txs[i]),
    ensures
        breaks_of(postings_of_all(txs)).len() == 0,
{
    let g = group_pairs(postings_of_all(txs));
    let m = accum_fold::<(String, Asset)>(g);
    let n = nonzero(m);
    lemma_accum_fold::<(String, Asset)>(g, (Seq::<char>::empty(), Asset::Hbar));
    lemma_nonzero_sorted::<(String, Asset)>(m);
    lemma_nonzero_total(m, (Seq::<char>::empty(), Asset::Hbar));
    if n.len() > 0 {
        let i = choose|i: int| 0 <= i < m.len() && #[trigger] m[i] == #[trigger] n[0];
        let k = m[i].0;
        lemma_get_sorted_index::<(String, Asset), int>(m, i);
        lemma_accum_fold::<(String, Asset)>(g, k);
        lemma_book_group_total(txs, k.0, k.1);
        lemma_unbooked_at_zero(txs, k.0, k.1);
        assert(n[0].1 != 0);
    }
}

proof fn lemma_window_pairs_concat(
    x: Seq<EntryView>,
    y: Seq<EntryView>,
    from: Option<Seq<char>>,
    to: Option<Seq<char>>,
)
    ensures
        window_pairs(x + y, None, from, to) == window_pairs(x, None, from, to) + window_pairs(
            y,
            None,
            from,
            to,
        ),
    decreases y.len(),
{
    if y.len() == 0 {
        assert(x + y =~= x);
        assert(window_pairs(x, None, from, to) + window_pairs(y, None, from, to) =~= window_pairs(
            x,
            None,
            from,
            to,
        ));
    } else {
        assert((x + y).drop_last() =~= x + y.drop_last());
        lemma_window_pairs_concat(x, y.drop_last(), from, to);
        assert(window_pairs(x + y, None, from, to) =~= window_pairs(x, None, from, to)
            + window_pairs(y, None, from, to));
    }
}

/// The window keeps all of one transaction's postings or none of them.
proof fn lemma_window_of_tx(
    es: Seq<EntryView>,
    tx: TxView,
    from: Option<Seq<char>>,
    to: Option<Seq<char>>,
)
    requires
        of_tx(es, tx),
    ensures
        window_pairs(es, None, from, to) == if in_window(tx.day, from, to) {
            asset_pairs(es)
        } else {
            Seq::empty()
        },
    decreases es.len(),
{
    if es.len() == 0 {
        assert(asset_pairs(es) =~= Seq::<(Asset, int)>::empty());
    } else {
        let d = es.drop_last();
        assert(of_tx(d, tx)) by {
            assert forall|i: int| 0 <= i < d.len() implies (#[trigger] d[i]).consensus_timestamp
                == tx.consensus_timestamp && d[i].day == tx.day by {
                assert(d[i] == es[i]);
            }
        }
        lemma_window_of_tx(d, tx, from, to);
        assert(es[es.len() - 1].day == tx.day);
        if in_window(tx.day, from, to) {
            assert(asset_pairs(es) =~= asset_pairs(d) + seq![(es.last().asset, es.last().amount)]);
        } else {
            assert(window_pairs(es, None, from, to) =~= Seq::<(Asset, int)>::empty());
        }
    }
}

/// Over any window, a book's per-asset sum is what the window's
/// transactions leave unbooked.
pub proof fn lemma_book_window_total(
    txs: Seq<TxView>,
    from: Option<Seq<char>>,
    to: Option<Seq<char>>,
    a: Asset,
)
    ensures
        total_in(window_pairs(postings_of_all(txs), None, from, to), a) == unbooked_in(
            txs,
            from,
            to,
            a,
        ),
    decreases txs.len(),
{
    if txs.len() == 0 {
        assert(window_pairs(postings_of_all(txs), None, from, to) =~= Seq::<(Asset, int)>::empty());
    } else {
        let tx = txs.last();
        let pre = postings_of_all(txs.drop_last());
        lemma_book_window_total(txs.drop_last(), from, to, a);
        lemma_transaction_total(tx, a);
        lemma_window_of_tx(postings_of(tx), tx, from, to);
        lemma_window_pairs_concat(pre, postings_of(tx), from, to);
        lemma_total_in_concat(
            window_pairs(pre, None, from, to),
            window_pairs(postings_of(tx), None, from, to),
            a,
        );
        if !in_window(tx.day, from, to) {
            assert(total_in(Seq::<(Asset, int)>::empty(), a) == 0);
        }
    }
}

proof fn lemma_unbooked_in_zero(
    txs: Seq<TxView>,
    from: Option<Seq<char>>,
    to: Option<Seq<char>>,
    a: Asset,
)
    requires
        forall|i: int| 0 <= i < txs.len() ==> balanced(#[trigger] txs[i]),
    ensures
        unbooked_in(txs, from, to, a) == 0,
    decreases txs.len(),
{
    if txs.len() > 0 {
        assert forall|i: int| 0 <= i < txs.drop_last().len() implies balanced(
            #[trigger] txs.drop_last()[i],
        ) by {
            assert(txs.drop_last()[i] == txs[i]);
        }
        lemma_unbooked_in_zero(txs.drop_last(), from, to, a);
        assert(balanced(txs[txs.len() - 1]));
        lemma_balanced_conserves(txs.last(), a);
        lemma_transaction_total(txs.last(), a);
    }
}

/// The trial balance of a book of balanced transactions is empty over
/// every window: the book sums to zero in every asset.
pub proof fn lemma_balanced_book_trial_balance(
    txs: Seq<TxView>,
    from: Option<Seq<char>>,
    to: Option<Seq<char>>,
)
    requires
        forall|i: int| 0 <= i < txs.len() ==> balanced(#[trigger] txs[i]),
    ensures
        totals_map(window_pairs(postings_of_all(txs), None, from, to)) == Map::<Asset, int>::empty(),
{
    let w = window_pairs(postings_of_all(txs), None, from, to);
    assert forall|a: Asset| #[trigger] total_in(w, a) == 0 by {
        lemma_book_window_total(txs, from, to, a);
        lemma_unbooked_in_zero(txs, from, to, a);
    }
    assert(totals_map(w) =~= Map::<Asset, int>::empty());
}

/// The group keys of one asset.
pub open spec fn in_asset(a: Asset) -> spec_fn((Seq<char>, Asset)) -> bool {
    |k: (Seq<char>, Asset)| k.1 == a
}

proof fn lemma_group_sum_asset(es: Seq<EntryView>, a: Asset)
    ensures
        sum_where(group_pairs(es), in_asset(a)) == asset_total(es, a),
    decreases es.len(),
{
    if es.len() == 0 {
        lemma_asset_total_empty(a);
        assert(group_pairs(es) =~= Seq::<((Seq<char>, Asset), int)>::empty());
    } else {
        let d = es.drop_last();
        lemma_group_sum_asset(d, a);
        assert(group_pairs(es).drop_last() =~= group_pairs(d));
        assert(asset_pairs(es).drop_last() =~= asset_pairs(d));
    }
}

/// A list with no nonzero amount sums to zero under any predicate.
proof fn lemma_sum_where_all_zero<KV>(m: Seq<(KV, int)>, p: spec_fn(KV) -> bool)
    requires
        nonzero(m).len() == 0,
    ensures
        sum_where(m, p) == 0,
    decreases m.len(),
{
    if m.len() > 0 {
        if m.last().1 != 0 {
            assert(nonzero(m).len() == nonzero(m.drop_last()).len() + 1);
        }
        lemma_sum_where_all_zero(m.drop_last(), p);
    }
}

/// A book without conservation breaks closes: it sums to zero in every
/// asset.
pub proof fn lemma_unbroken_book_closes(es: Seq<EntryView>, a: Asset)
    requires
        breaks_of(es).len() == 0,
    ensures
        asset_total(es, a) == 0,
{
    let g = group_pairs(es);
    let m = accum_fold::<(String, Asset)>(g);
    lemma_group_sum_asset(es, a);
    lemma_sum_where_fold::<(String, Asset)>(g, in_asset(a));
    assert(nonzero(m).len() == breaks_of(es).len());
    lemma_sum_where_all_zero(m, in_asset(a));
}

// ---------------------------------------------------------------------------
// Failed transactions are booked like any other
// ---------------------------------------------------------------------------

/// The same transaction with result code `rc`.
pub open spec fn with_result(tx: TxView, rc: i32) -> TxView {
    TxView {
        consensus_timestamp: tx.consensus_timestamp,
        day: tx.day,
        payer: tx.payer,
        tx_type: tx.tx_type,
        result_code: rc,
        fee: tx.fee,
        transfers: tx.transfers,
        token_transfers: tx.token_transfers,
    }
}

/// The same posting with result code `rc`.
pub open spec fn entry_with_result(e: EntryView, rc: i32) -> EntryView {
    EntryView {
        consensus_timestamp: e.consensus_timestamp,
        day: e.day,
        tx_type: e.tx_type,
        result_code: rc,
        account: e.account,
        payer: e.payer,
        asset: e.asset,
        amount: e.amount,
        kind: e.kind,
    }
}

/// Postings re-coded with result code `rc`.
pub open spec fn recoded(es: Seq<EntryView>, rc: i32) -> Seq<EntryView> {
    es.map_values(|e: EntryView| entry_with_result(e, rc))
}

proof fn lemma_recoded_concat(x: Seq<EntryView>, y: Seq<EntryView>, rc: i32)
    ensures
        recoded(x + y, rc) == recoded(x, rc) + recoded(y, rc),
{
    assert(recoded(x + y, rc) =~= recoded(x, rc) + recoded(y, rc));
}

proof fn lemma_recoded_account(tx: TxView, rc: i32, account: Seq<char>, amount: int)
    ensures
        account_postings(with_result(tx, rc), account, amount) == recoded(
            account_postings(tx, account, amount),
            rc,
        ),
{
    let t2 = with_result(tx, rc);
    assert(crate::journal::reward_paid(t2) == crate::journal::reward_paid(tx));
    assert(account_postings(t2, account, amount) =~= recoded(account_postings(tx, account, amount), rc));
}

proof fn lemma_recoded_hbar(tx: TxView, rc: i32, net: Seq<(Seq<char>, int)>)
    ensures
        hbar_postings(with_result(tx, rc), net) == recoded(hbar_postings(tx, net), rc),
    decreases net.len(),
{
    if net.len() == 0 {
        assert(recoded(hbar_postings(tx, net), rc) =~= Seq::<EntryView>::empty());
    } else {
        lemma_recoded_hbar(tx, rc, net.drop_last());
        lemma_recoded_account(tx, rc, net.last().0, net.last().1);
        lemma_recoded_concat(
            hbar_postings(tx, net.drop_last()),
            account_postings(tx, net.last().0, net.last().1),
            rc,
        );
    }
}

proof fn lemma_recoded_tokens(tx: TxView, rc: i32, legs: Seq<(Seq<char>, Seq<char>, i64)>)
    ensures
        token_postings(with_result(tx, rc), legs) == recoded(token_postings(tx, legs), rc),
    decreases legs.len(),
{
    if legs.len() == 0 {
        assert(recoded(token_postings(tx, legs), rc) =~= Seq::<EntryView>::empty());
    } else {
        let l = legs.last();
        lemma_recoded_tokens(tx, rc, legs.drop_last());
        let tail = if l.2 != 0 {
            seq![
                crate::journal::posting(
                    tx,
                    l.1,
                    token_asset(l.0),
                    l.2 as int,
                    EntryKind::Transfer,
                ),
            ]
        } else {
            Seq::empty()
        };
        lemma_recoded_concat(token_postings(tx, legs.drop_last()), tail, rc);
        assert(recoded(tail, rc) =~= if l.2 != 0 {
            seq![
                crate::journal::posting(
                    with_result(tx, rc),
                    l.1,
                    token_asset(l.0),
                    l.2 as int,
                    EntryKind::Transfer,
                ),
            ]
        } else {
            Seq::empty()
        });
    }
}

proof fn lemma_recoded_supply(tx: TxView, rc: i32, net: Seq<(Seq<char>, int)>)
    ensures
        token_supply_postings(with_result(tx, rc), net) == recoded(
            token_supply_postings(tx, net),
            rc,
        ),
    decreases net.len(),
{
    if net.len() == 0 {
        assert(recoded(token_supply_postings(tx, net), rc) =~= Seq::<EntryView>::empty());
    } else {
        let (t, r) = net.last();
        lemma_recoded_supply(tx, rc, net.drop_last());
        let mk = |x: TxView|
            if r != 0 {
                seq![
                    crate::journal::posting(
                        x,
                        crate::journal::supply_account(token_asset(t)),
                        token_asset(t),
                        -r,
                        crate::journal::supply_kind(r),
                    ),
                ]
            } else {
                Seq::<EntryView>::empty()
            };
        lemma_recoded_concat(token_supply_postings(tx, net.drop_last()), mk(tx), rc);
        assert(recoded(mk(tx), rc) =~= mk(with_result(tx, rc)));
    }
}

/// Failed transactions are booked like any other: a transaction's postings
/// are the same whatever its result code, which each posting only carries.
pub proof fn lemma_result_code_only_carried(tx: TxView, rc: i32)
    ensures
        postings_of(with_result(tx, rc)) == recoded(postings_of(tx), rc),
{
    let t2 = with_result(tx, rc);
    lemma_recoded_hbar(tx, rc, hbar_net(tx));
    lemma_recoded_tokens(tx, rc, tx.token_transfers);
    lemma_recoded_supply(tx, rc, token_net(tx));
    assert(hbar_net(t2) == hbar_net(tx));
    assert(token_net(t2) == token_net(tx));
    assert(recoded(hbar_supply_postings(tx), rc) =~= hbar_supply_postings(t2));
    let hb = hbar_postings(tx, hbar_net(tx));
    let hs = hbar_supply_postings(tx);
    let tp = token_postings(tx, tx.token_transfers);
    let ts = if supply_changing(tx.tx_type) {
        token_supply_postings(tx, token_net(tx))
    } else {
        Seq::<EntryView>::empty()
    };
    assert(recoded(Seq::<EntryView>::empty(), rc) =~= Seq::<EntryView>::empty());
    lemma_recoded_concat(hb, hs, rc);
    lemma_recoded_concat(hb + hs, tp, rc);
    lemma_recoded_concat(hb + hs + tp, ts, rc);
}

// ---------------------------------------------------------------------------
// The breaks of a book, and after an ingest
// ---------------------------------------------------------------------------

/// `nonzero` keeps every pair with a nonzero amount.
proof fn lemma_nonzero_keeps<KV>(m: Seq<(KV, int)>, i: int)
    requires
        0 <= i < m.len(),
        m[i].1 != 0,
    ensures
        exists|j: int| 0 <= j < nonzero(m).len() && nonzero(m)[j] == m[i],
    decreases m.len(),
{
    if i == m.len() - 1 {
        let n = nonzero(m.drop_last());
        assert(nonzero(m) == n.push(m.last()));
        assert(nonzero(m)[n.len() as int] == m[i]);
    } else {
        let d = m.drop_last();
        assert(d[i] == m[i]);
        lemma_nonzero_keeps(d, i);
        let j = choose|j: int| 0 <= j < nonzero(d).len() && nonzero(d)[j] == d[i];
        if m.last().1 != 0 {
            assert(nonzero(m) == nonzero(d).push(m.last()));
            assert(nonzero(m)[j] == nonzero(d)[j]);
        }
    }
}

/// The conservation breaks of a book are exactly its (timestamp, asset)
/// groups whose postings do not sum to zero, each with that sum as its
/// residual.
pub proof fn lemma_breaks_are_unbalanced_groups(es: Seq<EntryView>)
    ensures
        forall|i: int|
            0 <= i < breaks_of(es).len() ==> {
                &&& (#[trigger] breaks_of(es)[i]).residual != 0
                &&& breaks_of(es)[i].residual == total_in(
                    group_pairs(es),
                    (breaks_of(es)[i].consensus_timestamp, breaks_of(es)[i].asset),
                )
            },
        forall|ts: Seq<char>, a: Asset|
            #[trigger] total_in(group_pairs(es), (ts, a)) != 0 ==> exists|i: int|
                0 <= i < breaks_of(es).len() && breaks_of(es)[i].consensus_timestamp == ts
                    && breaks_of(es)[i].asset == a,
{
    let g = group_pairs(es);
    let m = accum_fold::<(String, Asset)>(g);
    let n = nonzero(m);
    lemma_accum_fold::<(String, Asset)>(g, (Seq::<char>::empty(), Asset::Hbar));
    lemma_nonzero_sorted::<(String, Asset)>(m);
    lemma_nonzero_total(m, (Seq::<char>::empty(), Asset::Hbar));
    assert forall|i: int| 0 <= i < breaks_of(es).len() implies {
        &&& (#[trigger] breaks_of(es)[i]).residual != 0
        &&& breaks_of(es)[i].residual == total_in(
            group_pairs(es),
            (breaks_of(es)[i].consensus_timestamp, breaks_of(es)[i].asset),
        )
    } by {
        let k = choose|k: int| 0 <= k < m.len() && #[trigger] m[k] == #[trigger] n[i];
        lemma_get_sorted_index::<(String, Asset), int>(m, k);
        lemma_accum_fold::<(String, Asset)>(g, m[k].0);
    }
    assert forall|ts: Seq<char>, a: Asset| #[trigger] total_in(group_pairs(es), (ts, a))
        != 0 implies exists|i: int|
        0 <= i < breaks_of(es).len() && breaks_of(es)[i].consensus_timestamp == ts
            && breaks_of(es)[i].asset == a by {
        lemma_accum_fold::<(String, Asset)>(g, (ts, a));
        crate::keys::lemma_get_none(m, (ts, a));
        let k = choose|k: int| 0 <= k < m.len() && #[trigger] m[k].0 == (ts, a);
        lemma_get_sorted_index::<(String, Asset), int>(m, k);
        lemma_nonzero_keeps(m, k);
        let j = choose|j: int| 0 <= j < n.len() && n[j] == m[k];
        assert(breaks_of(es)[j].consensus_timestamp == ts);
    }
}

/// Ingesting a transaction onto any book changes the sum of the group at
/// its own timestamp, in each asset, by exactly what it leaves unbooked,
/// and no other group's sum.
pub proof fn lemma_ingest_group_total(book: Seq<EntryView>, tx: TxView, ts: Seq<char>, a: Asset)
    ensures
        total_in(group_pairs(book + postings_of(tx)), (ts, a)) == total_in(
            group_pairs(book),
            (ts, a),
        ) + if tx.consensus_timestamp == ts {
            unbooked(tx, a)
        } else {
            0
        },
{
    lemma_transaction_total(tx, a);
    lemma_group_of_tx(postings_of(tx), tx, ts, a);
    lemma_group_pairs_concat(book, postings_of(tx));
    lemma_total_in_concat(group_pairs(book), group_pairs(postings_of(tx)), (ts, a));
}

// ---------------------------------------------------------------------------
// Windowed trial balance of a book without breaks
// ---------------------------------------------------------------------------

/// Postings that share a timestamp share a day (as all postings of one
/// transaction do).
pub open spec fn days_agree(es: Seq<EntryView>) -> bool {
    forall|i: int, j: int|
        0 <= i < es.len() && 0 <= j < es.len() && (#[trigger] es[i]).consensus_timestamp == (
        #[trigger] es[j]).consensus_timestamp ==> es[i].day == es[j].day
}

/// The group keys of asset `a` whose timestamp falls on a day in the
/// window.
pub open spec fn in_window_group(
    es: Seq<EntryView>,
    a: Asset,
    from: Option<Seq<char>>,
    to: Option<Seq<char>>,
) -> spec_fn((Seq<char>, Asset)) -> bool {
    |k: (Seq<char>, Asset)|
        k.1 == a && exists|i: int|
            0 <= i < es.len() && (#[trigger] es[i]).consensus_timestamp == k.0 && in_window(
                es[i].day,
                from,
                to,
            )
}

proof fn lemma_window_as_groups(
    es: Seq<EntryView>,
    n: int,
    a: Asset,
    from: Option<Seq<char>>,
    to: Option<Seq<char>>,
)
    requires
        days_agree(es),
        0 <= n <= es.len(),
    ensures
        total_in(window_pairs(es.take(n), None, from, to), a) == sum_where(
            group_pairs(es.take(n)),
            in_window_group(es, a, from, to),
        ),
    decreases n,
{
    let p = in_window_group(es, a, from, to);
    if n == 0 {
        assert(es.take(0) =~= Seq::<EntryView>::empty());
        assert(group_pairs(es.take(0)) =~= Seq::<((Seq<char>, Asset), int)>::empty());
    } else {
        lemma_window_as_groups(es, n - 1, a, from, to);
        let e = es[n - 1];
        assert(es.take(n).drop_last() =~= es.take(n - 1));
        assert(es.take(n).last() == e);
        assert(group_pairs(es.take(n)).drop_last() =~= group_pairs(es.take(n - 1)));
        assert(group_pairs(es.take(n)).last() == ((e.consensus_timestamp, e.asset), e.amount));
        if in_window(e.day, from, to) {
            assert(es[n - 1].consensus_timestamp == e.consensus_timestamp);
        } else if p((e.consensus_timestamp, e.asset)) {
            let i = choose|i: int|
                0 <= i < es.len() && (#[trigger] es[i]).consensus_timestamp == e.consensus_timestamp
                    && in_window(es[i].day, from, to);
            assert(es[i].day == es[n - 1].day);
        }
        let w = window_pairs(es.take(n - 1), None, from, to);
        if in_window(e.day, from, to) {
            assert(window_pairs(es.take(n), None, from, to) == w + seq![(e.asset, e.amount)]);
            lemma_total_in_concat(w, seq![(e.asset, e.amount)], a);
            assert(seq![(e.asset, e.amount)].drop_last() =~= Seq::<(Asset, int)>::empty());
            assert(total_in(Seq::<(Asset, int)>::empty(), a) == 0);
        } else {
            assert(window_pairs(es.take(n), None, from, to) =~= w);
        }
    }
}

/// A book without conservation breaks, whose postings of one timestamp
/// share a day, has an empty trial balance over every window.
pub proof fn lemma_unbroken_book_trial_balance(
    es: Seq<EntryView>,
    from: Option<Seq<char>>,
    to: Option<Seq<char>>,
)
    requires
        breaks_of(es).len() == 0,
        days_agree(es),
    ensures
        totals_map(window_pairs(es, None, from, to)) == Map::<Asset, int>::empty(),
{
    let w = window_pairs(es, None, from, to);
    let g = group_pairs(es);
    let m = accum_fold::<(String, Asset)>(g);
    assert(es.take(es.len() as int) =~= es);
    assert(nonzero(m).len() == breaks_of(es).len());
    assert forall|a: Asset| #[trigger] total_in(w, a) == 0 by {
        lemma_window_as_groups(es, es.len() as int, a, from, to);
        lemma_sum_where_fold::<(String, Asset)>(g, in_window_group(es, a, from, to));
        lemma_sum_where_all_zero(m, in_window_group(es, a, from, to));
    }
    assert(totals_map(w) =~= Map::<Asset, int>::empty());
}

/// The postings of a book of transactions agree on the day of each
/// timestamp when its transactions do.
pub proof fn lemma_book_days_agree(txs: Seq<TxView>)
    requires
        forall|i: int, j: int|
            0 <= i < txs.len() && 0 <= j < txs.len() && (#[trigger] txs[i]).consensus_timestamp
                == (#[trigger] txs[j]).consensus_timestamp ==> txs[i].day == txs[j].day,
    ensures
        days_agree(postings_of_all(txs)),
    decreases txs.len(),
{
    if txs.len() > 0 {
        let d = txs.drop_last();
        assert forall|i: int, j: int|
            0 <= i < d.len() && 0 <= j < d.len() && (#[trigger] d[i]).consensus_timestamp == (
            #[trigger] d[j]).consensus_timestamp implies d[i].day == d[j].day by {
            assert(d[i] == txs[i]);
            assert(d[j] == txs[j]);
        }
        lemma_book_days_agree(d);
        let x = postings_of_all(d);
        let tx = txs.last();
        let y = postings_of(tx);
        lemma_transaction_total(tx, Asset::Hbar);
        let es = postings_of_all(txs);
        assert(es == x + y);
        assert forall|i: int, j: int|
            0 <= i < es.len() && 0 <= j < es.len() && (#[trigger] es[i]).consensus_timestamp == (
            #[trigger] es[j]).consensus_timestamp implies es[i].day == es[j].day by {
            lemma_entry_from_tx(txs, i);
            lemma_entry_from_tx(txs, j);
            let a = choose|a: int| 0 <= a < txs.len() && es[i].consensus_timestamp == txs[a].consensus_timestamp && es[i].day == txs[a].day;
            let b = choose|b: int| 0 <= b < txs.len() && es[j].consensus_timestamp == txs[b].consensus_timestamp && es[j].day == txs[b].day;
            assert(txs[a].consensus_timestamp == txs[b].consensus_timestamp);
        }
    }
}

/// Every posting of a book comes from one of its transactions, whose
/// timestamp and day it carries.
proof fn lemma_entry_from_tx(txs: Seq<TxView>, i: int)
    requires
        0 <= i < postings_of_all(txs).len(),
    ensures
        exists|a: int|
            0 <= a < txs.len() && postings_of_all(txs)[i].consensus_timestamp
                == txs[a].consensus_timestamp && postings_of_all(txs)[i].day == txs[a].day,
    decreases txs.len(),
{
    let d = txs.drop_last();
    let x = postings_of_all(d);
    let tx = txs.last();
    lemma_transaction_total(tx, Asset::Hbar);
    if i < x.len() {
        assert(postings_of_all(txs)[i] == x[i]);
        lemma_entry_from_tx(d, i);
        let a = choose|a: int| 0 <= a < d.len() && x[i].consensus_timestamp == d[a].consensus_timestamp && x[i].day == d[a].day;
        assert(d[a] == txs[a]);
    } else {
        assert(postings_of_all(txs)[i] == postings_of(tx)[i - x.len()]);
        assert(txs[txs.len() - 1] == tx);
    }
}

/// The kind of a supply contra posting follows its sign: supply created
/// (legs with a positive residual, so a debit on the contra account) is a
/// `Mint`, supply destroyed (a credit on it) is a `Burn`; both sit on the
/// asset's `supply:` account.
pub proof fn lemma_contra_kind_follows_sign(tx: TxView)
    ensures
        forall|i: int|
            0 <= i < postings_of(tx).len() ==> {
                &&& (#[trigger] postings_of(tx)[i]).kind == EntryKind::Mint ==> postings_of(tx)[i].amount < 0
                &&& postings_of(tx)[i].kind == EntryKind::Burn ==> postings_of(tx)[i].amount > 0
                &&& (postings_of(tx)[i].kind == EntryKind::Mint || postings_of(tx)[i].kind
                    == EntryKind::Burn) ==> postings_of(tx)[i].account
                    == crate::journal::supply_account(postings_of(tx)[i].asset)
            },
{
    lemma_transaction_total(tx, Asset::Hbar);
}

} // verus!
