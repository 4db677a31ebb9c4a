use hiero_journal::balance::{add, balance_at, nft_holdings_at};
use hiero_journal::report::subledger_csv;
use hiero_journal::statements::{cash_movement, holdings, trial_balance};
use hiero_journal::{
    Asset, Balances, EntryKind, Journal, TokenId, TokenTransferLeg, Transaction, TransferLeg,
};

fn leg(account: &str, amount: i64) -> TransferLeg {
    TransferLeg { account: account.to_string(), amount }
}

fn tleg(token: &str, account: &str, amount: i64) -> TokenTransferLeg {
    TokenTransferLeg { token: token.to_string(), account: account.to_string(), amount }
}

fn tx(ts: &str, day: &str, payer: &str, ty: &str, fee: u64, legs: Vec<TransferLeg>, tlegs: Vec<TokenTransferLeg>) -> Transaction {
    Transaction {
        consensus_timestamp: ts.to_string(),
        day: day.to_string(),
        payer: payer.to_string(),
        tx_type: ty.to_string(),
        result_code: 22,
        charged_fee_tinybar: fee,
        transfers: legs,
        token_transfers: tlegs,
    }
}

fn transfer() -> Transaction {
    tx(
        "100.000000001",
        "2024-01-01",
        "0.0.2",
        "cryptoTransfer",
        100,
        vec![leg("0.0.2", -1100), leg("0.0.3", 1000), leg("0.0.98", 100)],
        vec![],
    )
}

fn summary(j: &Journal) -> Vec<(String, Asset, i128, EntryKind)> {
    j.entries()
        .iter()
        .map(|e| (e.account.clone(), e.asset, e.amount, e.kind))
        .collect()
}

#[test]
fn fee_is_split_from_the_payer_principal() {
    let mut j = Journal::new();
    j.ingest(transfer());
    assert_eq!(
        summary(&j),
        vec![
            ("0.0.2".to_string(), Asset::Hbar, -100, EntryKind::Fee),
            ("0.0.2".to_string(), Asset::Hbar, -1000, EntryKind::Transfer),
            ("0.0.3".to_string(), Asset::Hbar, 1000, EntryKind::Transfer),
            ("0.0.98".to_string(), Asset::Hbar, 100, EntryKind::Transfer),
        ]
    );
    assert!(j.conservation_breaks().is_empty());
    assert_eq!(j.len(), 4);
    assert!(!j.is_empty());
    assert_eq!(j.entries()[0].consensus_timestamp, "100.000000001");
    assert_eq!(j.entries()[0].payer, "0.0.2");
    assert_eq!(j.entries()[0].result_code, 22);
}

#[test]
fn staking_reward_is_classified() {
    let mut j = Journal::new();
    j.ingest(tx("1.0", "2024-01-01", "0.0.9", "cryptoTransfer", 0, vec![leg("0.0.800", -50), leg("0.0.5", 50)], vec![]));
    assert_eq!(
        summary(&j),
        vec![
            ("0.0.5".to_string(), Asset::Hbar, 50, EntryKind::StakingReward),
            ("0.0.800".to_string(), Asset::Hbar, -50, EntryKind::Transfer),
        ]
    );
}

#[test]
fn payer_whose_net_is_only_the_fee_books_just_the_fee() {
    let mut j = Journal::new();
    j.ingest(tx("1.0", "2024-01-01", "0.0.2", "consensusSubmitMessage", 70, vec![leg("0.0.2", -70), leg("0.0.98", 70)], vec![]));
    assert_eq!(
        summary(&j),
        vec![
            ("0.0.2".to_string(), Asset::Hbar, -70, EntryKind::Fee),
            ("0.0.98".to_string(), Asset::Hbar, 70, EntryKind::Transfer),
        ]
    );
}

#[test]
fn genesis_issuance_books_to_supply_hbar() {
    let mut j = Journal::new();
    j.ingest(tx("0.1", "1970-01-01", "", "unknown", 0, vec![leg("0.0.2", 5000)], vec![]));
    assert_eq!(
        summary(&j),
        vec![
            ("0.0.2".to_string(), Asset::Hbar, 5000, EntryKind::Transfer),
            ("supply:HBAR".to_string(), Asset::Hbar, -5000, EntryKind::Mint),
        ]
    );
    assert!(j.conservation_breaks().is_empty());
    assert!(trial_balance(&j, None, None).is_empty());
}

#[test]
fn mixed_sign_residual_is_a_conservation_break() {
    let mut j = Journal::new();
    j.ingest(tx("7.5", "2024-01-01", "0.0.2", "cryptoTransfer", 0, vec![leg("0.0.2", -10), leg("0.0.3", 15)], vec![]));
    let breaks = j.conservation_breaks();
    assert_eq!(breaks.len(), 1);
    assert_eq!(breaks[0].consensus_timestamp, "7.5");
    assert_eq!(breaks[0].asset, Asset::Hbar);
    assert_eq!(breaks[0].residual, 5);
    let tb = trial_balance(&j, None, None);
    assert_eq!(tb.get(&Asset::Hbar), Some(5));
}

#[test]
fn token_mint_books_to_the_token_supply_account() {
    let mut j = Journal::new();
    j.ingest(tx("2.0", "2024-01-02", "0.0.2", "tokenMint", 0, vec![], vec![tleg("0.0.123", "0.0.2", 10)]));
    let token = Asset::FungibleToken { token_id: TokenId::from_parts(0, 0, 123) };
    assert_eq!(
        summary(&j),
        vec![
            ("0.0.2".to_string(), token, 10, EntryKind::Transfer),
            ("supply:0.0.123".to_string(), token, -10, EntryKind::Mint),
        ]
    );
    assert!(j.conservation_breaks().is_empty());
}

#[test]
fn token_residual_outside_supply_types_is_a_break() {
    let mut j = Journal::new();
    j.ingest(tx("3.0", "2024-01-02", "0.0.2", "cryptoTransfer", 0, vec![], vec![tleg("0.0.123", "0.0.2", 10), tleg("0.0.123", "0.0.4", 0)]));
    assert_eq!(j.len(), 1);
    assert_eq!(j.conservation_breaks()[0].residual, 10);
}

#[test]
fn balances_statements_and_csv() {
    let mut j = Journal::new();
    j.ingest(transfer());
    j.ingest(tx("200.0", "2024-01-05", "0.0.3", "cryptoTransfer", 10, vec![leg("0.0.3", -510), leg("0.0.2", 500), leg("0.0.98", 10)], vec![]));

    let b = balance_at(&j, "0.0.2", None);
    assert_eq!(b.get(&Asset::Hbar), Some(-600));
    let early = balance_at(&j, "0.0.2", Some("2024-01-01"));
    assert_eq!(early.get(&Asset::Hbar), Some(-1100));
    let h = holdings(&j, "0.0.2", Some("2023-12-31"));
    assert!(h.is_empty());

    let mv = cash_movement(&j, "0.0.2", Some("2024-01-02"), None);
    assert_eq!(mv.opening.get(&Asset::Hbar), Some(-1100));
    assert_eq!(mv.closing.get(&Asset::Hbar), Some(-600));
    assert_eq!(mv.lines.len(), 1);
    assert_eq!(mv.lines[0].kind, EntryKind::Transfer);
    assert_eq!(mv.lines[0].inflow, 500);
    assert_eq!(mv.lines[0].outflow, 0);
    assert_eq!(mv.lines[0].net(), 500);
    assert!(mv.ties_out());
    assert_eq!(mv.account, "0.0.2");
    assert_eq!(mv.from_day.as_deref(), Some("2024-01-02"));
    assert_eq!(mv.to_day, None);

    let all = cash_movement(&j, "0.0.2", None, None);
    assert!(all.opening.is_empty());
    assert_eq!(all.lines.len(), 2);
    assert_eq!(all.lines[0].kind, EntryKind::Transfer);
    assert_eq!(all.lines[0].inflow, 500);
    assert_eq!(all.lines[0].outflow, 1000);
    assert_eq!(all.lines[1].kind, EntryKind::Fee);
    assert_eq!(all.lines[1].outflow, 100);
    assert!(all.ties_out());
    assert_eq!(all.net_by_asset().get(&Asset::Hbar), Some(-600));

    assert!(trial_balance(&j, None, None).is_empty());
    assert!(trial_balance(&j, Some("2024-01-05"), Some("2024-01-05")).is_empty());

    let csv = subledger_csv(&j, "0.0.2");
    let lines: Vec<&str> = csv.lines().collect();
    assert_eq!(
        lines,
        vec![
            "consensus_timestamp,day,tx_type,result_code,entry_kind,asset,amount,running_balance",
            "100.000000001,2024-01-01,cryptoTransfer,22,Network fee,HBAR,-100,-100",
            "100.000000001,2024-01-01,cryptoTransfer,22,Transfer,HBAR,-1000,-1100",
            "200.0,2024-01-05,cryptoTransfer,22,Transfer,HBAR,500,-600",
        ]
    );
    assert_eq!(j.for_account("0.0.2").len(), 3);
    assert!(nft_holdings_at(&j, "0.0.2", None).is_empty());
}

#[test]
fn adding_positions_drops_zero_holdings() {
    let mut j = Journal::new();
    j.ingest(transfer());
    let a = balance_at(&j, "0.0.2", None);
    let b = balance_at(&j, "0.0.3", None);
    let sum = add(a, &b);
    assert_eq!(sum.get(&Asset::Hbar), Some(-100));
    let neg = balance_at(&j, "0.0.98", None);
    let zero = add(sum, &neg);
    assert!(zero.is_empty());
    assert!(zero.same_as(&Balances::new()));
}

#[test]
fn from_transactions_ingests_in_order() {
    let j = Journal::from_transactions(vec![transfer(), transfer()]);
    assert_eq!(j.len(), 8);
}
