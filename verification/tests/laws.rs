use hiero_journal::balance::{add, balance_at};
use hiero_journal::report::subledger_csv;
use hiero_journal::statements::{cash_movement, holdings, trial_balance};
use hiero_journal::{
    Asset, AssuranceReport, Journal, TokenId, TokenTransferLeg, Transaction, TransferLeg,
};

fn leg(account: &str, amount: i64) -> TransferLeg {
    TransferLeg { account: account.to_string(), amount }
}

fn tleg(token: &str, account: &str, amount: i64) -> TokenTransferLeg {
    TokenTransferLeg { token: token.to_string(), account: account.to_string(), amount }
}

fn tx(
    ts: &str,
    day: &str,
    payer: &str,
    ty: &str,
    fee: u64,
    legs: Vec<TransferLeg>,
    tlegs: Vec<TokenTransferLeg>,
) -> Transaction {
    Transaction {
        consensus_timestamp: ts.to_string(),
        day: day.to_string(),
        payer: payer.to_string(),
        tx_type: ty.to_string(),
        result_code: 22,
        charged_fee_tinybar: fee,
        transfers: legs,
        token_transfers: tlegs,
    }
}

/// A small book of balanced transactions over three days.
fn book() -> Vec<Transaction> {
    vec![
        tx("0.1", "2024-01-01", "", "unknown", 0, vec![leg("0.0.2", 10_000)], vec![]),
        tx(
            "1.0",
            "2024-01-02",
            "0.0.2",
            "cryptoTransfer",
            20,
            vec![leg("0.0.2", -520), leg("0.0.7", 500), leg("0.0.98", 20)],
            vec![],
        ),
        tx("2.0", "2024-01-02", "0.0.7", "tokenMint", 0, vec![], vec![tleg("0.0.55", "0.0.7", 300)]),
        tx(
            "3.0",
            "2024-01-03",
            "0.0.7",
            "cryptoTransfer",
            5,
            vec![leg("0.0.7", -105), leg("0.0.2", 100), leg("0.0.98", 5)],
            vec![tleg("0.0.55", "0.0.7", -40), tleg("0.0.55", "0.0.2", 40)],
        ),
        tx("4.0", "2024-01-03", "0.0.9", "cryptoTransfer", 0, vec![leg("0.0.800", -8), leg("0.0.2", 8)], vec![]),
    ]
}

#[test]
fn balanced_book_has_no_breaks_and_an_empty_trial_balance_in_every_window() {
    let j = Journal::from_transactions(book());
    assert!(j.in_range());
    assert!(j.conservation_breaks().is_empty());
    let days = [None, Some("2024-01-01"), Some("2024-01-02"), Some("2024-01-03")];
    for from in days {
        for to in days {
            assert!(trial_balance(&j, from, to).is_empty());
        }
    }
}

#[test]
fn an_unbalanced_transaction_leaves_exactly_its_residual() {
    let mut txs = book();
    txs.push(tx(
        "5.0",
        "2024-01-04",
        "0.0.2",
        "cryptoTransfer",
        0,
        vec![leg("0.0.2", -30), leg("0.0.7", 45)],
        vec![tleg("0.0.55", "0.0.2", -7)],
    ));
    let j = Journal::from_transactions(txs);
    let breaks = j.conservation_breaks();
    assert_eq!(breaks.len(), 2);
    let token = Asset::FungibleToken { token_id: TokenId::from_parts(0, 0, 55) };
    assert_eq!(breaks[0].consensus_timestamp, "5.0");
    assert_eq!(breaks[0].asset, Asset::Hbar);
    assert_eq!(breaks[0].residual, 15);
    assert_eq!(breaks[1].asset, token);
    assert_eq!(breaks[1].residual, -7);
    let tb = trial_balance(&j, None, None);
    assert_eq!(tb.get(&Asset::Hbar), Some(15));
    assert_eq!(tb.get(&token), Some(-7));
    assert!(trial_balance(&j, None, Some("2024-01-03")).is_empty());
}

#[test]
fn fee_and_principal_sum_to_the_payer_net() {
    let j = Journal::from_transactions(book());
    let payer: i128 = j
        .entries()
        .iter()
        .filter(|e| e.consensus_timestamp == "1.0" && e.account == "0.0.2")
        .map(|e| e.amount)
        .sum();
    assert_eq!(payer, -520);
}

#[test]
fn cash_movement_ties_out_and_closes_at_holdings() {
    let j = Journal::from_transactions(book());
    for account in ["0.0.2", "0.0.7", "0.0.98", "supply:HBAR", "supply:0.0.55"] {
        let mv = cash_movement(&j, account, Some("2024-01-02"), Some("2024-01-03"));
        assert!(mv.ties_out());
        assert!(mv.closing.same_as(&holdings(&j, account, Some("2024-01-03"))));
        let open = cash_movement(&j, account, None, Some("2024-01-02"));
        assert!(open.ties_out());
        assert!(open.closing.same_as(&holdings(&j, account, Some("2024-01-02"))));
    }
    let mv = cash_movement(&j, "0.0.2", Some("2024-01-02"), Some("2024-01-03"));
    assert_eq!(mv.opening.get(&Asset::Hbar), Some(10_000));
    assert_eq!(mv.closing.get(&Asset::Hbar), Some(10_000 - 520 + 100 + 8));
}

#[test]
fn reconciliation_total_is_the_book_total() {
    let j = Journal::from_transactions(book());
    let report = AssuranceReport::from_attested(&j, &[]);
    assert!(report.conserved);
    assert_eq!(report.total, 0);
    assert_eq!(report.reconciliation[0].account, "0.0.2");
    assert_eq!(report.reconciliation.last().map(|l| l.amount), Some(-10_000));

    let mut txs = book();
    txs.push(tx("5.0", "2024-01-04", "0.0.2", "cryptoTransfer", 0, vec![leg("0.0.2", -30), leg("0.0.7", 45)], vec![]));
    let broken = Journal::from_transactions(txs);
    let report = AssuranceReport::from_attested(&broken, &[]);
    assert!(!report.conserved);
    assert_eq!(report.total, 15);
}

#[test]
fn subledger_ends_at_the_account_holdings() {
    let j = Journal::from_transactions(book());
    let csv = subledger_csv(&j, "0.0.2");
    let last_hbar = csv
        .lines()
        .filter(|l| l.contains(",HBAR,"))
        .last()
        .and_then(|l| l.rsplit(',').next())
        .map(|b| b.parse::<i128>().unwrap());
    assert_eq!(last_hbar, balance_at(&j, "0.0.2", None).get(&Asset::Hbar));
}

#[test]
fn checkpoint_plus_delta_replays_the_whole_book() {
    let mut first = book();
    let rest = first.split_off(2);
    let before = Journal::from_transactions(first);
    let after = Journal::from_transactions(rest);
    let whole = Journal::from_transactions(book());
    for account in ["0.0.2", "0.0.7", "0.0.98", "0.0.800", "supply:HBAR", "supply:0.0.55"] {
        let replayed = add(balance_at(&before, account, None), &balance_at(&after, account, None));
        assert!(replayed.same_as(&balance_at(&whole, account, None)));
    }
}

#[test]
fn token_ids_read_back_from_their_text() {
    for t in [
        TokenId::from_parts(0, 0, 731861),
        TokenId::from_parts(-1, 2, -3),
        TokenId::from_parts(i64::MIN, i64::MAX, 0),
    ] {
        assert_eq!(TokenId::parse(&t.to_string()), Some(t));
    }
}

#[test]
fn holdings_is_balance_at() {
    let j = Journal::from_transactions(book());
    for as_of in [None, Some("2024-01-01"), Some("2024-01-02")] {
        assert!(holdings(&j, "0.0.7", as_of).same_as(&balance_at(&j, "0.0.7", as_of)));
    }
}

#[test]
fn failed_transactions_are_booked_the_same() {
    let mut failed = book().remove(1);
    failed.result_code = 7;
    let a = Journal::from_transactions(vec![book().remove(1)]);
    let b = Journal::from_transactions(vec![failed]);
    assert_eq!(a.len(), b.len());
    for (x, y) in a.entries().iter().zip(b.entries()) {
        assert_eq!((&x.account, x.asset, x.amount, x.kind), (&y.account, y.asset, y.amount, y.kind));
        assert_eq!(y.result_code, 7);
        assert_eq!(y.tx_type, "cryptoTransfer");
        assert_eq!(y.payer, "0.0.2");
    }
}

#[test]
fn ingest_adds_only_the_new_transactions_breaks() {
    let mut j = Journal::from_transactions(book());
    let before = j.clone();
    j.ingest(tx("9.0", "2024-01-09", "0.0.2", "cryptoTransfer", 0, vec![leg("0.0.2", -3), leg("0.0.7", 5)], vec![]));
    assert_eq!(&j.entries()[..before.len()], before.entries());
    let breaks = j.conservation_breaks();
    assert_eq!(breaks.len(), 1);
    assert_eq!((breaks[0].consensus_timestamp.as_str(), breaks[0].asset, breaks[0].residual), ("9.0", Asset::Hbar, 2));
}

#[test]
fn a_movement_line_nets_its_window() {
    let j = Journal::from_transactions(book());
    let mv = cash_movement(&j, "0.0.7", Some("2024-01-02"), Some("2024-01-03"));
    for line in &mv.lines {
        let sum: i128 = j
            .entries()
            .iter()
            .filter(|e| {
                e.account == "0.0.7"
                    && e.day.as_str() >= "2024-01-02"
                    && e.day.as_str() <= "2024-01-03"
                    && e.kind == line.kind
                    && e.asset == line.asset
            })
            .map(|e| e.amount)
            .sum();
        assert_eq!(line.net(), sum);
        assert_eq!(line.clone(), *line);
    }
    assert_eq!(mv.clone().lines.len(), mv.lines.len());
}
