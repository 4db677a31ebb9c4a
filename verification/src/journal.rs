//! The journal: the book of record. Every statement of the library is a
//! view over its entries.
//!
//! A Hedera transaction records a transfer list where every leg, fee legs
//! included, nets to zero. Ingest keeps that invariant but decomposes each
//! account's net movement into [`EntryKind`]s:
//!
//! - **Fee.** Separable only on the payer's line, where it is exactly the
//!   charged fee: the payer's net leg is split into a `Fee` debit and a
//!   principal remainder, and `fee + principal == net`.
//! - **StakingReward.** A credit in a transaction that also debits the
//!   reward account `0.0.800` (a documented heuristic).
//! - **Transfer.** Everything else.
//!
//! Supply changes (genesis HBAR issuance, token mint/burn/wipe) are booked
//! against a synthetic `supply:<asset>` contra account so the book still
//! conserves; any other residual is left alone and surfaces as a
//! conservation break.
use crate::asset::{asset_label, parse_token_spec, Asset, TokenId};
use crate::keys::{
    accum_fold, amount_of, amounts_view, fits_i128, fold_fits, fold_pairs, lemma_accum_fold,
    lemma_i64_fold_fits, lemma_nonzero_total, lemma_total_in_sorted, nonzero, retain_nonzero,
    sorted, total_in, SortKey,
};
use crate::text::{push_str, str_eq, KeyOrder};
use vstd::prelude::*;
use vstd::string::*;

verus! {

// ---------------------------------------------------------------------------
// Input: one parsed transaction
// ---------------------------------------------------------------------------

/// One HBAR transfer leg (fee legs included, as on-ledger).
pub struct TransferLeg {
    /// Entity id, "0.0.123" form.
    pub account: String,
    /// Signed amount in tinybar (negative = debit).
    pub amount: i64,
}

/// One fungible-token transfer leg.
pub struct TokenTransferLeg {
    /// Token id, "0.0.123" form.
    pub token: String,
    pub account: String,
    pub amount: i64,
}

/// One transaction as parsed from a consensus stream: what ingest reads.
pub struct Transaction {
    /// Consensus timestamp, "seconds.nanos".
    pub consensus_timestamp: String,
    /// UTC day "YYYY-MM-DD" of the consensus timestamp.
    pub day: String,
    /// Fee payer, "0.0.123".
    pub payer: String,
    /// Transaction type, e.g. "cryptoTransfer", "tokenMint".
    pub tx_type: String,
    /// ResponseCodeEnum numeric result (22 = SUCCESS).
    pub result_code: i32,
    /// Total fee charged to the payer, in tinybar.
    pub charged_fee_tinybar: u64,
    pub transfers: Vec<TransferLeg>,
    pub token_transfers: Vec<TokenTransferLeg>,
}

pub struct TxView {
    pub consensus_timestamp: Seq<char>,
    pub day: Seq<char>,
    pub payer: Seq<char>,
    pub tx_type: Seq<char>,
    pub result_code: i32,
    pub fee: u64,
    /// `(account, amount)` per HBAR leg.
    pub transfers: Seq<(Seq<char>, i64)>,
    /// `(token, account, amount)` per token leg.
    pub token_transfers: Seq<(Seq<char>, Seq<char>, i64)>,
}

impl View for Transaction {
    type V = TxView;

    open spec fn view(&self) -> TxView {
        TxView {
            consensus_timestamp: self.consensus_timestamp@,
            day: self.day@,
            payer: self.payer@,
            tx_type: self.tx_type@,
            result_code: self.result_code,
            fee: self.charged_fee_tinybar,
            transfers: self.transfers@.map_values(|l: TransferLeg| (l.account@, l.amount)),
            token_transfers: self.token_transfers@.map_values(
                |l: TokenTransferLeg| (l.token@, l.account@, l.amount),
            ),
        }
    }
}

// ---------------------------------------------------------------------------
// Output: postings
// ---------------------------------------------------------------------------

/// What an entry represents, once decomposed from the raw transfer legs.
/// Each variant is derivable from the ledger itself.
#[derive(Debug, Clone, Copy, PartialEq, Eq, Structural, PartialOrd, Ord, Hash)]
#[non_exhaustive]
pub enum EntryKind {
    /// Ordinary principal movement.
    Transfer,
    /// A network fee charged to the payer (always a debit).
    Fee,
    /// A staking-reward credit (heuristic: paired with a `0.0.800` debit).
    StakingReward,
    /// Supply created (mint, genesis issuance): the contra side of a credit.
    Mint,
    /// Supply destroyed (burn/wipe): the contra side of a debit.
    Burn,
}

impl View for EntryKind {
    type V = EntryKind;

    open spec fn view(&self) -> EntryKind {
        *self
    }
}

pub open spec fn kind_rank(k: EntryKind) -> int {
    match k {
        EntryKind::Transfer => 0,
        EntryKind::Fee => 1,
        EntryKind::StakingReward => 2,
        EntryKind::Mint => 3,
        EntryKind::Burn => 4,
    }
}

pub open spec fn kind_str(k: EntryKind) -> Seq<char> {
    match k {
        EntryKind::Transfer => "Transfer"@,
        EntryKind::Fee => "Network fee"@,
        EntryKind::StakingReward => "Staking reward"@,
        EntryKind::Mint => "Mint"@,
        EntryKind::Burn => "Burn"@,
    }
}

impl EntryKind {
    pub fn as_str(&self) -> (r: &'static str)
        ensures
            r@ == kind_str(*self),
    {
        match self {
            EntryKind::Transfer => "Transfer",
            EntryKind::Fee => "Network fee",
            EntryKind::StakingReward => "Staking reward",
            EntryKind::Mint => "Mint",
            EntryKind::Burn => "Burn",
        }
    }

    fn rank(&self) -> (r: u8)
        ensures
            r == kind_rank(*self),
    {
        match self {
            EntryKind::Transfer => 0,
            EntryKind::Fee => 1,
            EntryKind::StakingReward => 2,
            EntryKind::Mint => 3,
            EntryKind::Burn => 4,
        }
    }
}

impl SortKey for EntryKind {
    /// The declared order of the variants.
    open spec fn key_lt(a: EntryKind, b: EntryKind) -> bool {
        kind_rank(a) < kind_rank(b)
    }

    proof fn lemma_key_lt_irreflexive(a: EntryKind) {
    }

    proof fn lemma_key_lt_transitive(a: EntryKind, b: EntryKind, c: EntryKind) {
    }

    proof fn lemma_key_lt_total(a: EntryKind, b: EntryKind) {
    }

    fn compare_key(&self, other: &Self) -> (r: KeyOrder) {
        let a = self.rank();
        let b = other.rank();
        if a < b {
            KeyOrder::Less
        } else if a == b {
            KeyOrder::Equal
        } else {
            KeyOrder::Greater
        }
    }

    fn copy_key(&self) -> (r: Self) {
        *self
    }
}

/// One posting: a single account's movement in a single asset, in that
/// asset's smallest unit, at a consensus timestamp.
#[derive(Debug, Clone, PartialEq, Eq)]
pub struct LedgerEntry {
    /// Consensus timestamp, "seconds.nanos".
    pub consensus_timestamp: String,
    /// UTC day "YYYY-MM-DD".
    pub day: String,
    /// TransactionBody oneof case, e.g. "cryptoTransfer".
    pub tx_type: String,
    /// ResponseCodeEnum numeric result (22 = SUCCESS).
    pub result_code: i32,
    /// The account this posting belongs to.
    pub account: String,
    /// Fee payer of the originating transaction.
    pub payer: String,
    pub asset: Asset,
    /// Signed smallest-unit amount (negative = debit / outflow).
    pub amount: i128,
    pub kind: EntryKind,
}

pub struct EntryView {
    pub consensus_timestamp: Seq<char>,
    pub day: Seq<char>,
    pub tx_type: Seq<char>,
    pub result_code: i32,
    pub account: Seq<char>,
    pub payer: Seq<char>,
    pub asset: Asset,
    pub amount: int,
    pub kind: EntryKind,
}

impl View for LedgerEntry {
    type V = EntryView;

    open spec fn view(&self) -> EntryView {
        EntryView {
            consensus_timestamp: self.consensus_timestamp@,
            day: self.day@,
            tx_type: self.tx_type@,
            result_code: self.result_code,
            account: self.account@,
            payer: self.payer@,
            asset: self.asset,
            amount: self.amount as int,
            kind: self.kind,
        }
    }
}

impl LedgerEntry {
    /// A copy of this entry.
    pub fn copy(&self) -> (r: LedgerEntry)
        ensures
            r@ == self@,
    {
        LedgerEntry {
            consensus_timestamp: self.consensus_timestamp.clone(),
            day: self.day.clone(),
            tx_type: self.tx_type.clone(),
            result_code: self.result_code,
            account: self.account.clone(),
            payer: self.payer.clone(),
            asset: self.asset,
            amount: self.amount,
            kind: self.kind,
        }
    }
}

// ---------------------------------------------------------------------------
// The decomposition, as a specification
// ---------------------------------------------------------------------------

/// The reward account: HBAR staking rewards are paid from here.
pub open spec fn reward_account() -> Seq<char> {
    "0.0.800"@
}

/// The synthetic supply (contra) account of an asset, e.g. `supply:HBAR`.
pub open spec fn supply_account(a: Asset) -> Seq<char> {
    "supply:"@ + asset_label(a)
}

/// Transaction types whose token transfers may legitimately not net to
/// zero because they change a token's supply.
pub open spec fn supply_changing(tx_type: Seq<char>) -> bool {
    tx_type == "tokenMint"@ || tx_type == "tokenBurn"@ || tx_type == "tokenWipe"@
}

pub open spec fn reward_kind(amount: int, reward_paid: bool) -> EntryKind {
    if amount > 0 && reward_paid {
        EntryKind::StakingReward
    } else {
        EntryKind::Transfer
    }
}

pub open spec fn supply_kind(residual: int) -> EntryKind {
    if residual > 0 {
        EntryKind::Mint
    } else {
        EntryKind::Burn
    }
}

/// The transaction debits the reward account.
pub open spec fn reward_paid(tx: TxView) -> bool {
    exists|i: int|
        0 <= i < tx.transfers.len() && #[trigger] tx.transfers[i].0 == reward_account()
            && tx.transfers[i].1 < 0
}

/// The token a leg names (the zero id when its text is not a token id).
pub open spec fn token_of(s: Seq<char>) -> TokenId {
    match parse_token_spec(s) {
        Some(t) => t,
        None => TokenId { shard_num: 0, realm_num: 0, token_num: 0 },
    }
}

pub open spec fn token_asset(s: Seq<char>) -> Asset {
    Asset::FungibleToken { token_id: token_of(s) }
}

/// A posting of `tx`.
pub open spec fn posting(
    tx: TxView,
    account: Seq<char>,
    asset: Asset,
    amount: int,
    kind: EntryKind,
) -> EntryView {
    EntryView {
        consensus_timestamp: tx.consensus_timestamp,
        day: tx.day,
        tx_type: tx.tx_type,
        result_code: tx.result_code,
        account,
        payer: tx.payer,
        asset,
        amount,
        kind,
    }
}

/// The HBAR legs as `(account, amount)` pairs.
pub open spec fn hbar_pairs(tx: TxView) -> Seq<(Seq<char>, int)> {
    tx.transfers.map_values(|l: (Seq<char>, i64)| (l.0, l.1 as int))
}

/// Net HBAR movement per account, accounts ascending.
pub open spec fn hbar_net(tx: TxView) -> Seq<(Seq<char>, int)> {
    accum_fold::<String>(hbar_pairs(tx))
}

/// The sum of all HBAR legs.
pub open spec fn leg_sum(s: Seq<(Seq<char>, i64)>) -> int
    decreases s.len(),
{
    if s.len() == 0 {
        0
    } else {
        leg_sum(s.drop_last()) + s.last().1
    }
}

/// All HBAR legs point the same way (money with no source, or no sink).
pub open spec fn single_sided(tx: TxView) -> bool {
    (forall|i: int| 0 <= i < tx.transfers.len() ==> #[trigger] tx.transfers[i].1 >= 0) || (forall|
        i: int,
    |
        0 <= i < tx.transfers.len() ==> #[trigger] tx.transfers[i].1 <= 0)
}

/// The postings of one account's net HBAR movement.
pub open spec fn account_postings(tx: TxView, account: Seq<char>, amount: int) -> Seq<EntryView> {
    let rp = reward_paid(tx);
    if amount == 0 {
        Seq::empty()
    } else if account == tx.payer && tx.fee > 0 {
        let principal = amount + tx.fee;
        seq![posting(tx, account, Asset::Hbar, -(tx.fee as int), EntryKind::Fee)] + if principal
            != 0 {
            seq![posting(tx, account, Asset::Hbar, principal, reward_kind(principal, rp))]
        } else {
            Seq::empty()
        }
    } else {
        seq![posting(tx, account, Asset::Hbar, amount, reward_kind(amount, rp))]
    }
}

/// The HBAR postings over a net-per-account list, in its order.
pub open spec fn hbar_postings(tx: TxView, net: Seq<(Seq<char>, int)>) -> Seq<EntryView>
    decreases net.len(),
{
    if net.len() == 0 {
        Seq::empty()
    } else {
        hbar_postings(tx, net.drop_last()) + account_postings(tx, net.last().0, net.last().1)
    }
}

/// The genesis-issuance contra posting, when the HBAR legs do not net to
/// zero and are single-sided.
pub open spec fn hbar_supply_postings(tx: TxView) -> Seq<EntryView> {
    let r = leg_sum(tx.transfers);
    if r != 0 && single_sided(tx) {
        seq![
            posting(
                tx,
                supply_account(Asset::Hbar),
                Asset::Hbar,
                -r,
                supply_kind(r),
            ),
        ]
    } else {
        Seq::empty()
    }
}

/// One posting per nonzero token leg, in leg order.
pub open spec fn token_postings(tx: TxView, legs: Seq<(Seq<char>, Seq<char>, i64)>) -> Seq<
    EntryView,
>
    decreases legs.len(),
{
    if legs.len() == 0 {
        Seq::empty()
    } else {
        let l = legs.last();
        token_postings(tx, legs.drop_last()) + if l.2 != 0 {
            seq![posting(tx, l.1, token_asset(l.0), l.2 as int, EntryKind::Transfer)]
        } else {
            Seq::empty()
        }
    }
}

/// The nonzero token legs as `(token, amount)` pairs.
pub open spec fn token_pairs(legs: Seq<(Seq<char>, Seq<char>, i64)>) -> Seq<(Seq<char>, int)>
    decreases legs.len(),
{
    if legs.len() == 0 {
        Seq::empty()
    } else {
        let l = legs.last();
        token_pairs(legs.drop_last()) + if l.2 != 0 {
            seq![(l.0, l.2 as int)]
        } else {
            Seq::empty()
        }
    }
}

/// Net movement per token, tokens ascending.
pub open spec fn token_net(tx: TxView) -> Seq<(Seq<char>, int)> {
    accum_fold::<String>(token_pairs(tx.token_transfers))
}

/// Contra postings for nonzero token residuals, in token order.
pub open spec fn token_supply_postings(tx: TxView, net: Seq<(Seq<char>, int)>) -> Seq<EntryView>
    decreases net.len(),
{
    if net.len() == 0 {
        Seq::empty()
    } else {
        let (t, r) = net.last();
        token_supply_postings(tx, net.drop_last()) + if r != 0 {
            seq![posting(tx, supply_account(token_asset(t)), token_asset(t), -r, supply_kind(r))]
        } else {
            Seq::empty()
        }
    }
}

/// The postings one transaction contributes to the journal, in order:
/// HBAR per account (accounts ascending), the HBAR issuance contra, token
/// legs (leg order), and, for supply-changing types only, the token contras
/// (tokens ascending).
pub open spec fn postings_of(tx: TxView) -> Seq<EntryView> {
    hbar_postings(tx, hbar_net(tx)) + hbar_supply_postings(tx) + token_postings(
        tx,
        tx.token_transfers,
    ) + if supply_changing(tx.tx_type) {
        token_supply_postings(tx, token_net(tx))
    } else {
        Seq::empty()
    }
}

// ---------------------------------------------------------------------------
// The journal
// ---------------------------------------------------------------------------

/// A complete, ordered book of [`LedgerEntry`]s.
#[derive(Debug)]
pub struct Journal {
    entries: Vec<LedgerEntry>,
}

impl View for Journal {
    type V = Seq<EntryView>;

    closed spec fn view(&self) -> Seq<EntryView> {
        self.entries@.map_values(|e: LedgerEntry| e@)
    }
}

/// A conservation break: a transaction whose postings do not net to zero
/// in some asset.
#[derive(Debug, Clone, PartialEq, Eq)]
pub struct ConservationBreak {
    pub consensus_timestamp: String,
    pub asset: Asset,
    /// The nonzero residual (what conservation is off by), smallest unit.
    pub residual: i128,
}

pub struct BreakView {
    pub consensus_timestamp: Seq<char>,
    pub asset: Asset,
    pub residual: int,
}

impl View for ConservationBreak {
    type V = BreakView;

    open spec fn view(&self) -> BreakView {
        BreakView {
            consensus_timestamp: self.consensus_timestamp@,
            asset: self.asset,
            residual: self.residual as int,
        }
    }
}

/// Each entry as `(asset, amount)`.
pub open spec fn asset_pairs(es: Seq<EntryView>) -> Seq<(Asset, int)> {
    es.map_values(|e: EntryView| (e.asset, e.amount))
}

/// Each entry as `((timestamp, asset), amount)`.
pub open spec fn group_pairs(es: Seq<EntryView>) -> Seq<((Seq<char>, Asset), int)> {
    es.map_values(|e: EntryView| ((e.consensus_timestamp, e.asset), e.amount))
}

/// The per-(timestamp, asset) sums that are not zero, ascending by
/// timestamp, then asset.
pub open spec fn breaks_of(es: Seq<EntryView>) -> Seq<BreakView> {
    nonzero(accum_fold::<(String, Asset)>(group_pairs(es))).map_values(
        |p: ((Seq<char>, Asset), int)|
            BreakView { consensus_timestamp: p.0.0, asset: p.0.1, residual: p.1 },
    )
}

/// The entries of one account, in order.
pub open spec fn of_account(es: Seq<EntryView>, account: Seq<char>) -> Seq<EntryView>
    decreases es.len(),
{
    if es.len() == 0 {
        Seq::empty()
    } else {
        of_account(es.drop_last(), account) + if es.last().account == account {
            seq![es.last()]
        } else {
            Seq::empty()
        }
    }
}

/// Every amount of a journal leaves room for its negation.
pub open spec fn amounts_negatable(es: Seq<EntryView>) -> bool {
    forall|i: int| 0 <= i < es.len() ==> #[trigger] es[i].amount > i128::MIN
}

impl Journal {
    #[verifier::type_invariant]
    closed spec fn wf(self) -> bool {
        forall|i: int| 0 <= i < self.entries@.len() ==> #[trigger] self.entries@[i].amount
            > i128::MIN
    }

    pub fn new() -> (r: Self)
        ensures
            r@ == Seq::<EntryView>::empty(),
    {
        let j = Journal { entries: Vec::new() };
        assert(j@ =~= Seq::<EntryView>::empty());
        j
    }

    /// The entries, in order. Every amount leaves room for its negation.
    pub fn entries(&self) -> (r: &[LedgerEntry])
        ensures
            r@.map_values(|e: LedgerEntry| e@) == self@,
            amounts_negatable(self@),
    {
        proof {
            use_type_invariant(self);
            assert forall|i: int| 0 <= i < self@.len() implies #[trigger] self@[i].amount
                > i128::MIN by {
                assert(self@[i] == self.entries@[i]@);
            }
        }
        self.entries.as_slice()
    }

    pub fn len(&self) -> (r: usize)
        ensures
            r == self@.len(),
    {
        self.entries.len()
    }

    pub fn is_empty(&self) -> (r: bool)
        ensures
            r == (self@.len() == 0),
    {
        self.entries.len() == 0
    }

    /// Build a journal from parsed transactions, ingested in order.
    pub fn from_transactions(txs: Vec<Transaction>) -> (r: Self)
        ensures
            r@ == postings_of_all(txs@.map_values(|t: Transaction| t@)),
    {
        let mut j = Journal::new();
        let ghost tv = txs@.map_values(|t: Transaction| t@);
        let mut i: usize = 0;
        assert(tv.take(0) =~= Seq::<TxView>::empty());
        while i < txs.len()
            invariant
                i <= txs@.len(),
                tv == txs@.map_values(|t: Transaction| t@),
                j@ == postings_of_all(tv.take(i as int)),
            decreases txs@.len() - i,
        {
            j.ingest_ref(&txs[i]);
            assert(tv.take(i + 1).drop_last() =~= tv.take(i as int));
            i += 1;
        }
        assert(tv.take(i as int) =~= tv);
        j
    }

    /// Every entry for one account, in ingest (consensus) order.
    pub fn for_account(&self, account: &str) -> (r: Vec<&LedgerEntry>)
        ensures
            r@.map_values(|e: &LedgerEntry| e@) == of_account(self@, account@),
    {
        let mut r: Vec<&LedgerEntry> = Vec::new();
        let mut i: usize = 0;
        while i < self.entries.len()
            invariant
                i <= self.entries@.len(),
                r@.map_values(|e: &LedgerEntry| e@) == of_account(self@.take(i as int), account@),
            decreases self.entries@.len() - i,
        {
            let e = &self.entries[i];
            assert(self@.take(i + 1).drop_last() =~= self@.take(i as int));
            assert(self@.take(i + 1).last() == e@);
            if str_eq(e.account.as_str(), account) {
                r.push(e);
                assert(r@.map_values(|e: &LedgerEntry| e@) =~= of_account(
                    self@.take(i as int),
                    account@,
                ).push(e@));
            } else {
                assert(of_account(self@.take(i + 1), account@) =~= of_account(
                    self@.take(i as int),
                    account@,
                ));
            }
            i += 1;
        }
        assert(self@.take(i as int) =~= self@);
        r
    }

    /// The conservation tripwire: group all entries by (timestamp, asset)
    /// and return every group whose signed amounts do not sum to zero, in
    /// ascending (timestamp, asset) order. An empty result proves every
    /// unit is conserved.
    pub fn conservation_breaks(&self) -> (r: Vec<ConservationBreak>)
        requires
            fold_fits(group_pairs(self@)),
        ensures
            r@.map_values(|b: ConservationBreak| b@) == breaks_of(self@),
    {
        let ghost gp = group_pairs(self@);
        let mut pairs: Vec<((String, Asset), i128)> = Vec::new();
        let mut i: usize = 0;
        while i < self.entries.len()
            invariant
                i <= self.entries@.len(),
                gp == group_pairs(self@),
                pairs@.len() == i,
                forall|j: int| 0 <= j < i ==> #[trigger] amounts_view(pairs@)[j] == gp[j],
            decreases self.entries@.len() - i,
        {
            let e = &self.entries[i];
            let ghost prev = pairs@;
            pairs.push(((e.consensus_timestamp.clone(), e.asset), e.amount));
            assert forall|j: int| 0 <= j < i + 1 implies #[trigger] amounts_view(pairs@)[j]
                == gp[j] by {
                if j < i {
                    assert(pairs@[j] == prev[j]);
                    assert(amounts_view(prev)[j] == gp[j]);
                }
            }
            i += 1;
        }
        assert(amounts_view(pairs@) =~= gp);
        let sums = fold_pairs(&pairs);
        let nz = retain_nonzero(sums);
        let ghost nzv = amounts_view(nz@);
        let mut r: Vec<ConservationBreak> = Vec::new();
        let mut k: usize = 0;
        while k < nz.len()
            invariant
                k <= nz@.len(),
                nzv == amounts_view(nz@),
                nzv == nonzero(accum_fold::<(String, Asset)>(gp)),
                gp == group_pairs(self@),
                r@.len() == k,
                forall|j: int|
                    0 <= j < k ==> #[trigger] r@[j]@ == (BreakView {
                        consensus_timestamp: nzv[j].0.0,
                        asset: nzv[j].0.1,
                        residual: nzv[j].1,
                    }),
            decreases nz@.len() - k,
        {
            let ts = nz[k].0.0.clone();
            let b = ConservationBreak { consensus_timestamp: ts, asset: nz[k].0.1, residual: nz[k].1 };
            assert(nzv[k as int] == (nz@[k as int].0@, nz@[k as int].1 as int));
            let ghost prev = r@;
            r.push(b);
            assert forall|j: int|
                0 <= j < k + 1 implies #[trigger] r@[j]@ == (BreakView {
                    consensus_timestamp: nzv[j].0.0,
                    asset: nzv[j].0.1,
                    residual: nzv[j].1,
                }) by {
                if j < k {
                    assert(r@[j] == prev[j]);
                }
            }
            k += 1;
        }
        assert(r@.map_values(|b: ConservationBreak| b@) =~= breaks_of(self@));
        r
    }
}

impl Clone for Journal {
    fn clone(&self) -> (r: Self)
        ensures
            r@ == self@,
    {
        let es = self.entries();
        let mut out: Vec<LedgerEntry> = Vec::new();
        let mut i: usize = 0;
        while i < es.len()
            invariant
                i <= es@.len(),
                es@.map_values(|e: LedgerEntry| e@) == self@,
                amounts_negatable(self@),
                out@.len() == i,
                forall|k: int| 0 <= k < i ==> #[trigger] out@[k]@ == self@[k],
            decreases es@.len() - i,
        {
            let e = es[i].copy();
            assert(self@[i as int] == es@[i as int]@);
            out.push(e);
            i += 1;
        }
        assert forall|k: int| 0 <= k < out@.len() implies #[trigger] out@[k].amount > i128::MIN by {
            assert(out@[k]@ == self@[k]);
            assert(self@[k].amount > i128::MIN);
        }
        let r = Journal { entries: out };
        assert(r@ =~= self@);
        r
    }
}

impl Default for Journal {
    fn default() -> (r: Self)
        ensures
            r@ == Seq::<EntryView>::empty(),
    {
        Journal::new()
    }
}

/// The views of a vector of entries.
pub open spec fn entries_view(v: Seq<LedgerEntry>) -> Seq<EntryView> {
    v.map_values(|e: LedgerEntry| e@)
}

/// Every entry amount is above `i128::MIN`.
pub open spec fn above_min(v: Seq<LedgerEntry>) -> bool {
    forall|i: int| 0 <= i < v.len() ==> #[trigger] v[i].amount > i128::MIN
}

/// The bound on a sum of at most `u64::MAX` amounts of `i64` size.
pub open spec fn leg_total_bound(x: int) -> bool {
    -(0xffff_ffff_ffff_ffff * 0x8000_0000_0000_0000) <= x <= 0xffff_ffff_ffff_ffff
        * 0x7fff_ffff_ffff_ffff
}

proof fn lemma_leg_sum_bound(s: Seq<(Seq<char>, i64)>)
    ensures
        -(s.len() * 0x8000_0000_0000_0000) <= leg_sum(s) <= s.len() * 0x7fff_ffff_ffff_ffff,
    decreases s.len(),
{
    if s.len() > 0 {
        lemma_leg_sum_bound(s.drop_last());
    }
}

/// A posting built from `tx`.
fn make_entry(tx: &Transaction, account: &str, asset: Asset, amount: i128, kind: EntryKind) -> (e:
    LedgerEntry)
    ensures
        e@ == posting(tx@, account@, asset, amount as int, kind),
{
    LedgerEntry {
        consensus_timestamp: tx.consensus_timestamp.clone(),
        day: tx.day.clone(),
        tx_type: tx.tx_type.clone(),
        result_code: tx.result_code,
        account: String::from_str(account),
        payer: tx.payer.clone(),
        asset,
        amount,
        kind,
    }
}

/// Append one entry, keeping the views in step.
fn push_entry(es: &mut Vec<LedgerEntry>, e: LedgerEntry)
    requires
        above_min(old(es)@),
        e.amount > i128::MIN,
    ensures
        entries_view(final(es)@) == entries_view(old(es)@).push(e@),
        above_min(final(es)@),
{
    let ghost ev = e@;
    es.push(e);
    assert(entries_view(es@) =~= entries_view(old(es)@).push(ev));
}

fn reward_kind_exec(amount: i128, reward_paid: bool) -> (r: EntryKind)
    ensures
        r == reward_kind(amount as int, reward_paid),
{
    if amount > 0 && reward_paid {
        EntryKind::StakingReward
    } else {
        EntryKind::Transfer
    }
}

/// The supply (contra) account of an asset.
fn supply_account_exec(a: &Asset) -> (r: String)
    ensures
        r@ == supply_account(*a),
{
    let mut s = String::from_str("supply:");
    let l = a.label();
    push_str(&mut s, l.as_str());
    s
}

/// The token a leg names.
fn token_of_exec(s: &str) -> (r: TokenId)
    ensures
        r == token_of(s@),
{
    match TokenId::parse(s) {
        Some(t) => t,
        None => TokenId::from_parts(0, 0, 0),
    }
}

/// Whether the transaction debits the reward account.
fn reward_paid_exec(tx: &Transaction) -> (r: bool)
    ensures
        r == reward_paid(tx@),
{
    let mut i: usize = 0;
    while i < tx.transfers.len()
        invariant
            i <= tx.transfers@.len(),
            forall|j: int|
                0 <= j < i ==> !(#[trigger] tx@.transfers[j].0 == reward_account()
                    && tx@.transfers[j].1 < 0),
        decreases tx.transfers@.len() - i,
    {
        assert(tx@.transfers[i as int] == (tx.transfers@[i as int].account@, tx.transfers@[i as int].amount));
        if str_eq(tx.transfers[i].account.as_str(), "0.0.800") && tx.transfers[i].amount < 0 {
            assert(tx@.transfers[i as int].0 == reward_account() && tx@.transfers[i as int].1 < 0);
            return true;
        }
        i += 1;
    }
    false
}

/// Whether the type is a token supply change.
fn supply_changing_exec(tx_type: &str) -> (r: bool)
    ensures
        r == supply_changing(tx_type@),
{
    str_eq(tx_type, "tokenMint") || str_eq(tx_type, "tokenBurn") || str_eq(tx_type, "tokenWipe")
}

/// Append the postings of one account's net HBAR movement.
fn push_account_postings(
    es: &mut Vec<LedgerEntry>,
    tx: &Transaction,
    account: &String,
    amount: i128,
    reward_paid: bool,
)
    requires
        above_min(old(es)@),
        leg_total_bound(amount as int),
        reward_paid == crate::journal::reward_paid(tx@),
    ensures
        entries_view(final(es)@) == entries_view(old(es)@) + account_postings(
            tx@,
            account@,
            amount as int,
        ),
        above_min(final(es)@),
{
    let ghost base = entries_view(es@);
    if amount == 0 {
        assert(entries_view(es@) =~= base + account_postings(tx@, account@, amount as int));
        return ;
    }
    let fee: i128 = tx.charged_fee_tinybar as i128;
    if str_eq(account.as_str(), tx.payer.as_str()) && fee > 0 {
        let e = make_entry(tx, account.as_str(), Asset::Hbar, -fee, EntryKind::Fee);
        push_entry(es, e);
        let principal = amount + fee;
        if principal != 0 {
            let k = reward_kind_exec(principal, reward_paid);
            let e2 = make_entry(tx, account.as_str(), Asset::Hbar, principal, k);
            push_entry(es, e2);
        }
    } else {
        let k = reward_kind_exec(amount, reward_paid);
        let e = make_entry(tx, account.as_str(), Asset::Hbar, amount, k);
        push_entry(es, e);
    }
    assert(entries_view(es@) =~= base + account_postings(tx@, account@, amount as int));
}

impl Journal {
    /// Fold one transaction into the book, applying the fee, reward and
    /// supply decomposition; the book grows by exactly `postings_of(tx)`.
    pub fn ingest(&mut self, tx: Transaction)
        ensures
            final(self)@ == old(self)@ + postings_of(tx@),
    {
        self.ingest_ref(&tx);
    }

    pub(crate) fn ingest_ref(&mut self, tx: &Transaction)
        ensures
            final(self)@ == old(self)@ + postings_of(tx@),
    {
        proof {
            use_type_invariant(&*self);
        }
        let ghost t = tx@;
        let mut es: Vec<LedgerEntry> = Vec::new();
        std::mem::swap(&mut es, &mut self.entries);
        let ghost base = entries_view(es@);
        assert(base == old(self)@);
        // Net HBAR per account.
        let mut hp: Vec<(String, i128)> = Vec::new();
        let mut i: usize = 0;
        while i < tx.transfers.len()
            invariant
                i <= tx.transfers@.len(),
                t == tx@,
                hp@.len() == i,
                forall|j: int| 0 <= j < i ==> #[trigger] amounts_view(hp@)[j] == hbar_pairs(t)[j],
            decreases tx.transfers@.len() - i,
        {
            let ghost prev = hp@;
            hp.push((tx.transfers[i].account.clone(), tx.transfers[i].amount as i128));
            assert forall|j: int| 0 <= j < i + 1 implies #[trigger] amounts_view(hp@)[j]
                == hbar_pairs(t)[j] by {
                if j < i {
                    assert(hp@[j] == prev[j]);
                    assert(amounts_view(prev)[j] == hbar_pairs(t)[j]);
                }
            }
            i += 1;
        }
        assert(amounts_view(hp@) =~= hbar_pairs(t));
        proof {
            assert forall|j: int| 0 <= j < hbar_pairs(t).len() implies i64::MIN <= #[trigger] hbar_pairs(t)[j].1 <= i64::MAX by {}
            lemma_i64_fold_fits(hbar_pairs(t));
        }
        let net = fold_pairs(&hp);
        let rp = reward_paid_exec(tx);
        // HBAR postings, accounts ascending.
        let mut k: usize = 0;
        let ghost nv = amounts_view(net@);
        assert(nv.take(0) =~= Seq::<(Seq<char>, int)>::empty());
        while k < net.len()
            invariant
                k <= net@.len(),
                t == tx@,
                nv == amounts_view(net@),
                nv == hbar_net(t),
                rp == reward_paid(t),
                above_min(es@),
                entries_view(es@) == base + hbar_postings(t, nv.take(k as int)),
                forall|a: Seq<char>| #[trigger] leg_total_bound(total_in(hbar_pairs(t), a)),
            decreases net@.len() - k,
        {
            proof {
                crate::keys::lemma_fold_entry::<String>(hbar_pairs(t), k as int);
                assert(nv[k as int] == (net@[k as int].0@, net@[k as int].1 as int));
                assert(leg_total_bound(total_in(hbar_pairs(t), nv[k as int].0)));
                assert(nv.take(k + 1).drop_last() =~= nv.take(k as int));
                assert(nv.take(k + 1).last() == nv[k as int]);
            }
            push_account_postings(&mut es, tx, &net[k].0, net[k].1, rp);
            proof {
                assert(entries_view(es@) =~= base + hbar_postings(t, nv.take(k + 1)));
            }
            k += 1;
        }
        assert(nv.take(k as int) =~= nv);
        let ghost after_hbar = entries_view(es@);
        // Genesis issuance: a single-sided HBAR residual.
        let mut residual: i128 = 0;
        let mut all_in = true;
        let mut all_out = true;
        let mut i: usize = 0;
        while i < tx.transfers.len()
            invariant
                i <= tx.transfers@.len(),
                t == tx@,
                residual == leg_sum(t.transfers.take(i as int)),
                all_in == forall|j: int| 0 <= j < i ==> #[trigger] t.transfers[j].1 >= 0,
                all_out == forall|j: int| 0 <= j < i ==> #[trigger] t.transfers[j].1 <= 0,
            decreases tx.transfers@.len() - i,
        {
            let a = tx.transfers[i].amount;
            assert(t.transfers[i as int].1 == a);
            proof {
                assert(t.transfers.take(i + 1).drop_last() =~= t.transfers.take(i as int));
                lemma_leg_sum_bound(t.transfers.take(i + 1));
            }
            residual = residual + a as i128;
            if a < 0 {
                all_in = false;
            }
            if a > 0 {
                all_out = false;
            }
            i += 1;
        }
        assert(t.transfers.take(i as int) =~= t.transfers);
        proof {
            lemma_leg_sum_bound(t.transfers);
        }
        if residual != 0 && (all_in || all_out) {
            let sa = supply_account_exec(&Asset::Hbar);
            let kind = if residual > 0 {
                EntryKind::Mint
            } else {
                EntryKind::Burn
            };
            let e = make_entry(tx, sa.as_str(), Asset::Hbar, -residual, kind);
            push_entry(&mut es, e);
        }
        assert(entries_view(es@) =~= after_hbar + hbar_supply_postings(t));
        let ghost after_supply = entries_view(es@);
        // Token legs, straight; collect nonzero residual pairs.
        let mut tp: Vec<(String, i128)> = Vec::new();
        let mut i: usize = 0;
        assert(t.token_transfers.take(0) =~= Seq::<(Seq<char>, Seq<char>, i64)>::empty());
        while i < tx.token_transfers.len()
            invariant
                i <= tx.token_transfers@.len(),
                t == tx@,
                above_min(es@),
                entries_view(es@) == after_supply + token_postings(
                    t,
                    t.token_transfers.take(i as int),
                ),
                amounts_view(tp@) == token_pairs(t.token_transfers.take(i as int)),
                tp@.len() <= i,
            decreases tx.token_transfers@.len() - i,
        {
            let leg = &tx.token_transfers[i];
            let ghost l = t.token_transfers[i as int];
            assert(l == (leg.token@, leg.account@, leg.amount));
            assert(t.token_transfers.take(i + 1).drop_last() =~= t.token_transfers.take(i as int));
            assert(t.token_transfers.take(i + 1).last() == l);
            if leg.amount != 0 {
                let tok = token_of_exec(leg.token.as_str());
                let e = make_entry(
                    tx,
                    leg.account.as_str(),
                    Asset::FungibleToken { token_id: tok },
                    leg.amount as i128,
                    EntryKind::Transfer,
                );
                push_entry(&mut es, e);
                let ghost prev = tp@;
                tp.push((leg.token.clone(), leg.amount as i128));
                assert(amounts_view(tp@) =~= amounts_view(prev).push((l.0, l.2 as int)));
            }
            assert(entries_view(es@) =~= after_supply + token_postings(
                t,
                t.token_transfers.take(i + 1),
            ));
            assert(amounts_view(tp@) =~= token_pairs(t.token_transfers.take(i + 1)));
            i += 1;
        }
        assert(t.token_transfers.take(i as int) =~= t.token_transfers);
        let ghost after_tokens = entries_view(es@);
        // Token supply contras, for supply-changing types only.
        if supply_changing_exec(tx.tx_type.as_str()) {
            let ghost tpv = amounts_view(tp@);
            proof {
                assert forall|j: int| 0 <= j < tpv.len() implies i64::MIN <= #[trigger] tpv[j].1 <= i64::MAX by {
                    token_pairs_i64(t.token_transfers, j);
                }
                assert(tp@.len() <= u64::MAX);
                lemma_i64_fold_fits(tpv);
            }
            let tnet = fold_pairs(&tp);
            let ghost tn = amounts_view(tnet@);
            let mut k: usize = 0;
            assert(tn.take(0) =~= Seq::<(Seq<char>, int)>::empty());
            while k < tnet.len()
                invariant
                    k <= tnet@.len(),
                    t == tx@,
                    tn == amounts_view(tnet@),
                    tn == token_net(t),
                    tpv == token_pairs(t.token_transfers),
                    above_min(es@),
                    entries_view(es@) == after_tokens + token_supply_postings(
                        t,
                        tn.take(k as int),
                    ),
                    forall|a: Seq<char>| #[trigger] leg_total_bound(total_in(tpv, a)),
                decreases tnet@.len() - k,
            {
                proof {
                    crate::keys::lemma_fold_entry::<String>(tpv, k as int);
                    assert(tn[k as int] == (tnet@[k as int].0@, tnet@[k as int].1 as int));
                    assert(leg_total_bound(total_in(tpv, tn[k as int].0)));
                    assert(tn.take(k + 1).drop_last() =~= tn.take(k as int));
                    assert(tn.take(k + 1).last() == tn[k as int]);
                }
                let r = tnet[k].1;
                if r != 0 {
                    let tok = token_of_exec(tnet[k].0.as_str());
                    let asset = Asset::FungibleToken { token_id: tok };
                    let sa = supply_account_exec(&asset);
                    let kind = if r > 0 {
                        EntryKind::Mint
                    } else {
                        EntryKind::Burn
                    };
                    let e = make_entry(tx, sa.as_str(), asset, -r, kind);
                    push_entry(&mut es, e);
                }
                assert(entries_view(es@) =~= after_tokens + token_supply_postings(
                    t,
                    tn.take(k + 1),
                ));
                k += 1;
            }
            assert(tn.take(k as int) =~= tn);
        }
        assert(entries_view(es@) =~= base + postings_of(t));
        self.entries = es;
    }
}

/// Token pairs carry `i64` amounts.
proof fn token_pairs_i64(legs: Seq<(Seq<char>, Seq<char>, i64)>, j: int)
    requires
        0 <= j < token_pairs(legs).len(),
    ensures
        i64::MIN <= token_pairs(legs)[j].1 <= i64::MAX,
    decreases legs.len(),
{
    if legs.len() > 0 {
        let p = token_pairs(legs.drop_last());
        if j < p.len() {
            token_pairs_i64(legs.drop_last(), j);
        }
    }
}

/// The postings of a sequence of transactions ingested in order.
pub open spec fn postings_of_all(txs: Seq<TxView>) -> Seq<EntryView>
    decreases txs.len(),
{
    if txs.len() == 0 {
        Seq::empty()
    } else {
        postings_of_all(txs.drop_last()) + postings_of(txs.last())
    }
}

} // verus!
