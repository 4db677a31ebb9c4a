# hiero_journal

A double-entry journal over Hedera consensus-stream transactions, and the
statements that are views over it: cash movements, holdings, trial balance,
an HTML assurance report and a CSV sub-ledger. The library in `src/` is
written in Verus; every function carries a contract and is proved.

## Layout

| Path | What it holds |
|---|---|
| `src/journal.rs` | Postings, the fee/reward/supply decomposition of a transaction (`postings_of`), ingest, the conservation check |
| `src/conservation.rs` | Laws of the decomposition: per-transaction conservation, the fee split, break-free books, empty trial balances |
| `src/balance.rs` | Positions (`Balances`), `balance_at`, `add`, NFT holdings, checkpoint-and-replay |
| `src/statements.rs` | Cash movements (with the tie-out law), holdings, trial balance |
| `src/report/` | The assurance report (HTML), the reconciliation and its total, the CSV sub-ledger |
| `src/bounds.rs` | `Journal::in_range`: one check after which no statement's `i128` sum can overflow |
| `src/money.rs`, `src/asset.rs`, `src/token.rs` | Exact amounts and their rendering, assets and token ids, token decimals |
| `src/keys.rs`, `src/text.rs` | Sorted association lists and their folds; string building and comparison |
| `src/lib.rs` | Source decisions: format checks, proof verdicts, attestations, block-file ordering |
| `app/` | The command-line program: file I/O and the calls into `hiero-streams` |
| `tests/` | Tests of the library on concrete values |

## Model

A journal's view is the sequence of its postings (`Seq<EntryView>`); a
position's view is a map from asset to a nonzero amount. Every statement is
specified as a fold over the postings, and the laws are stated over those
specifications.

Positions, NFT holdings and the token-decimals registry are sorted
association lists (`src/keys.rs`) with their order as a type invariant,
rather than `BTreeMap`/`BTreeSet`: vstd specifies those maps only for key
types whose `Ord` it knows to obey its ordering laws, which the `String`,
`Asset` and `(TokenId, u64)` keys here are not shown to do. So `Balances`
is a struct (its view is a map from asset to a nonzero amount), and
`NftHoldings` is the set of owned `(token, serial)` pairs, listed in
ascending order by `holdings()`.

