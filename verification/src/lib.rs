//! # hiero-journal
//!
//! An audit-grade double-entry journal and the financial statements that
//! are views over it (cash flow, balance position, trial balance), derived
//! from Hedera consensus streams.
//!
//! The design rests on three invariants:
//!
//! 1. **Exact integer arithmetic.** Every amount is a signed integer in
//!    the asset's smallest unit; every accumulation is checked.
//! 2. **Per-transaction conservation.** Postings for a transaction net to
//!    zero in every asset ([`journal::Journal::conservation_breaks`]).
//! 3. **Checkpoint-anchored balances.** Balances fold the journal.
//!
//! Stream parsing and proof verification happen outside this library; it
//! takes their results as plain values (a detected [`StreamFormat`],
//! parsed [`Transaction`]s, a proof verdict) and makes every decision on
//! them here.
pub mod asset;
pub mod balance;
pub mod bounds;
pub mod conservation;
pub mod journal;
pub mod keys;
pub mod money;
pub mod report;
pub mod statements;
pub mod text;
pub mod token;

pub use asset::{Asset, TokenId};
pub use balance::{Balances, NftHoldings};
pub use journal::{
    ConservationBreak, EntryKind, Journal, LedgerEntry, TokenTransferLeg, Transaction, TransferLeg,
};
pub use money::Amount;
pub use report::AssuranceReport;
pub use token::Decimals;

use crate::asset::split_on;
use crate::journal::{postings_of_all, EntryView, TxView};
use crate::text::{
    all_digits, chars_of, digits_value, is_digit, nat_str, push_char, push_nat, push_str, string_of,
};
use vstd::prelude::*;
use vstd::string::*;

verus! {

/// `std::io::Error`, carried through unchanged.
#[verifier::external_type_specification]
#[verifier::external_body]
pub struct ExIoError(std::io::Error);

/// Block-proof verification policy for block-stream ingest.
///
/// A block carries its proof in-band, but a proof *present* is not a proof
/// *checked*. Choose deliberately.
pub enum Verify<'a> {
    /// Verify every block's in-band proof against the ledger-ID
    /// publication carried in the `genesis` block.
    Against {
        /// Raw bytes of the genesis block (`0.blk.gz`).
        genesis: &'a [u8],
    },
    /// Skip verification: trust the source. The result is convenient, not
    /// provable.
    Trust,
}

/// Error building a journal from stream files.
#[derive(Debug)]
#[non_exhaustive]
pub enum SourceError {
    Io(std::io::Error),
    /// A stream file failed to parse.
    Stream(String),
    /// Verification ran and the block's in-band proof did not check out:
    /// tampered, truncated, or from the wrong ledger.
    ProofInvalid(String),
    /// Verification was requested but is not available in this build.
    VerifyUnavailable,
    /// A file's format is not the one this entry point handles.
    UnsupportedFormat(String),
}

impl From<std::io::Error> for SourceError {
    fn from(e: std::io::Error) -> Self {
        SourceError::Io(e)
    }
}

impl vstd::std_specs::convert::FromSpecImpl<std::io::Error> for SourceError {
    open spec fn obeys_from_spec() -> bool {
        true
    }

    open spec fn from_spec(e: std::io::Error) -> SourceError {
        SourceError::Io(e)
    }
}

/// A stream file's format, as read from its leading header.
#[derive(Debug, Clone, Copy, PartialEq, Eq, Structural)]
pub enum StreamFormat {
    RecordFileV6,
    /// A HIP-1056 block stream.
    BlockStream,
    Unknown(i32),
}

/// Whether `r` is `Err(Stream(m))` with `m` showing `e`.
pub open spec fn is_stream_error(r: Result<(), SourceError>, e: Seq<char>) -> bool {
    r matches Err(SourceError::Stream(m)) && m@ == e
}

/// Whether `r` is `Err(UnsupportedFormat(m))` with `m` showing `label`.
pub open spec fn is_unsupported(r: Result<(), SourceError>, label: Seq<char>) -> bool {
    r matches Err(SourceError::UnsupportedFormat(m)) && m@ == label
}

/// Check that a detected format is the one an entry point handles: that
/// format passes, another is `UnsupportedFormat(label)`, and a failed
/// detection is a `Stream` error.
pub fn check_format(
    detected: Result<StreamFormat, String>,
    wanted: StreamFormat,
    label: &str,
) -> (r: Result<(), SourceError>)
    ensures
        (detected matches Ok(f) && f == wanted) ==> r is Ok,
        (detected matches Ok(f) && f != wanted) ==> is_unsupported(r, label@),
        detected matches Err(e) ==> is_stream_error(r, e@),
{
    match detected {
        Ok(f) => {
            if f == wanted {
                Ok(())
            } else {
                Err(SourceError::UnsupportedFormat(String::from_str(label)))
            }
        },
        Err(e) => Err(SourceError::Stream(e)),
    }
}

/// Ingest a parse result: every transaction in order, or nothing and a
/// `Stream` error when the parse failed.
pub fn ingest_parsed(journal: &mut Journal, parsed: Result<Vec<Transaction>, String>) -> (r: Result<
    (),
    SourceError,
>)
    ensures
        parsed matches Ok(txs) ==> (r is Ok && final(journal)@ == old(journal)@ + postings_of_all(
            txs@.map_values(|t: Transaction| t@),
        )),
        parsed matches Err(e) ==> (is_stream_error(r, e@) && final(journal)@ == old(journal)@),
{
    match parsed {
        Ok(txs) => {
            let ghost tv = txs@.map_values(|t: Transaction| t@);
            let ghost base = journal@;
            let mut i: usize = 0;
            assert(tv.take(0) =~= Seq::<TxView>::empty());
            assert(base + postings_of_all(tv.take(0)) =~= base);
            while i < txs.len()
                invariant
                    i <= txs@.len(),
                    tv == txs@.map_values(|t: Transaction| t@),
                    journal@ == base + postings_of_all(tv.take(i as int)),
                decreases txs@.len() - i,
            {
                journal.ingest_ref(&txs[i]);
                assert(tv.take(i + 1).drop_last() =~= tv.take(i as int));
                assert(journal@ =~= base + postings_of_all(tv.take(i + 1)));
                i += 1;
            }
            assert(tv.take(i as int) =~= tv);
            Ok(())
        },
        Err(e) => Err(SourceError::Stream(e)),
    }
}

/// The `ProofInvalid` message: `block <n> at <label>`.
pub open spec fn proof_invalid_message(block: u64, label: Seq<char>) -> Seq<char> {
    "block "@ + nat_str(block as nat) + " at "@ + label
}

/// The decision after a block's proof was checked: a failure to check is
/// a `Stream` error, an invalid proof is `ProofInvalid`, a valid one
/// passes.
pub fn proof_verdict(checked: Result<(u64, bool), String>, label: &str) -> (r: Result<(), SourceError>)
    ensures
        checked matches Ok((_, true)) ==> r is Ok,
        checked matches Ok((n, false)) ==> (r matches Err(SourceError::ProofInvalid(m)) && m@
            == proof_invalid_message(n, label@)),
        checked matches Err(e) ==> is_stream_error(r, e@),
{
    match checked {
        Err(e) => Err(SourceError::Stream(e)),
        Ok((_, true)) => Ok(()),
        Ok((n, false)) => {
            let mut m = String::from_str("block ");
            push_nat(&mut m, n as u128);
            push_str(&mut m, " at ");
            push_str(&mut m, label);
            Err(SourceError::ProofInvalid(m))
        },
    }
}

/// Whether a policy asks for verification, and against which genesis.
pub fn genesis_of<'a>(verify: &Verify<'a>) -> (r: Option<&'a [u8]>)
    ensures
        verify matches Verify::Against { genesis } ==> r == Some(*genesis),
        verify is Trust ==> r is None,
{
    match verify {
        Verify::Against { genesis } => Some(*genesis),
        Verify::Trust => None,
    }
}

// ---------------------------------------------------------------------------
// Attestations
// ---------------------------------------------------------------------------

/// Which proof scheme a block used.
#[derive(Debug, Clone, Copy, PartialEq, Eq)]
pub enum ProofScheme {
    AggregateSchnorr,
    WrapsCompressedProof,
    Other,
}

pub open spec fn scheme_name(s: ProofScheme) -> Seq<char> {
    match s {
        ProofScheme::AggregateSchnorr => "aggregate-Schnorr"@,
        ProofScheme::WrapsCompressedProof => "WRAPS"@,
        ProofScheme::Other => "unknown"@,
    }
}

/// A per-block record of what verification actually checked: the audit
/// trail behind the word "verified".
#[derive(Debug, Clone)]
pub struct Attestation {
    pub block_number: u64,
    /// Recomputed block merkle root (hex): the value the signature covers.
    pub block_root_hex: String,
    /// Proof scheme: "aggregate-Schnorr" or "WRAPS".
    pub proof_scheme: String,
    /// The hinTS threshold signature over the recomputed root checked out.
    pub hints_threshold_ok: bool,
    /// (signers present, total nodes) on the Schnorr path.
    pub signers: Option<(u64, u64)>,
    /// WRAPS suffix checks passed (settled history).
    pub wraps_ok: Option<bool>,
    /// Every applicable check passed.
    pub valid: bool,
}

/// Lower-case hex digit.
pub open spec fn hex_digit(d: nat) -> char {
    if d < 10 {
        crate::text::digit_of(d)
    } else if d == 10 {
        'a'
    } else if d == 11 {
        'b'
    } else if d == 12 {
        'c'
    } else if d == 13 {
        'd'
    } else if d == 14 {
        'e'
    } else {
        'f'
    }
}

/// Two lower-case hex digits per byte.
pub open spec fn hex_spec(bytes: Seq<u8>) -> Seq<char>
    decreases bytes.len(),
{
    if bytes.len() == 0 {
        Seq::empty()
    } else {
        let b = bytes.last();
        hex_spec(bytes.drop_last()) + seq![hex_digit((b / 16) as nat), hex_digit((b % 16) as nat)]
    }
}

fn hex_char(d: u8) -> (c: char)
    requires
        d < 16,
    ensures
        c == hex_digit(d as nat),
{
    match d {
        0 => '0',
        1 => '1',
        2 => '2',
        3 => '3',
        4 => '4',
        5 => '5',
        6 => '6',
        7 => '7',
        8 => '8',
        9 => '9',
        10 => 'a',
        11 => 'b',
        12 => 'c',
        13 => 'd',
        14 => 'e',
        _ => 'f',
    }
}

/// Lower-case hex of a byte string.
pub fn to_hex(bytes: &[u8]) -> (r: String)
    ensures
        r@ == hex_spec(bytes@),
{
    let mut s = String::new();
    let mut i: usize = 0;
    while i < bytes.len()
        invariant
            i <= bytes@.len(),
            s@ == hex_spec(bytes@.take(i as int)),
        decreases bytes@.len() - i,
    {
        let b = bytes[i];
        push_char(&mut s, hex_char(b / 16));
        push_char(&mut s, hex_char(b % 16));
        assert(bytes@.take(i + 1).drop_last() =~= bytes@.take(i as int));
        assert(bytes@.take(i + 1).last() == b);
        assert(s@ =~= hex_spec(bytes@.take(i + 1)));
        i += 1;
    }
    assert(bytes@.take(i as int) =~= bytes@);
    s
}

impl Attestation {
    /// The attestation for one checked block: the root in hex and the
    /// scheme by name.
    pub fn new(
        block_number: u64,
        block_root: &[u8],
        scheme: ProofScheme,
        hints_threshold_ok: bool,
        signers: Option<(u64, u64)>,
        wraps_ok: Option<bool>,
        valid: bool,
    ) -> (r: Attestation)
        ensures
            r.block_number == block_number,
            r.block_root_hex@ == hex_spec(block_root@),
            r.proof_scheme@ == scheme_name(scheme),
            r.hints_threshold_ok == hints_threshold_ok,
            r.signers == signers,
            r.wraps_ok == wraps_ok,
            r.valid == valid,
    {
        let name = match scheme {
            ProofScheme::AggregateSchnorr => "aggregate-Schnorr",
            ProofScheme::WrapsCompressedProof => "WRAPS",
            ProofScheme::Other => "unknown",
        };
        Attestation {
            block_number,
            block_root_hex: to_hex(block_root),
            proof_scheme: String::from_str(name),
            hints_threshold_ok,
            signers,
            wraps_ok,
            valid,
        }
    }

    /// A block whose attestation is not valid aborts the run with
    /// `ProofInvalid`; nothing unverified is booked.
    pub fn verdict(&self, label: &str) -> (r: Result<(), SourceError>)
        ensures
            self.valid ==> r is Ok,
            !self.valid ==> (r matches Err(SourceError::ProofInvalid(m)) && m@
                == proof_invalid_message(self.block_number, label@)),
    {
        proof_verdict(Ok((self.block_number, self.valid)), label)
    }
}

// ---------------------------------------------------------------------------
// Block file ordering
// ---------------------------------------------------------------------------

/// The maximal run of digits at the start of `s`.
pub open spec fn digit_prefix(s: Seq<char>) -> Seq<char>
    decreases s.len(),
{
    if s.len() > 0 && is_digit(s[0]) {
        seq![s[0]] + digit_prefix(s.drop_first())
    } else {
        Seq::empty()
    }
}

/// The first run of digits in `s` (empty when there is none).
pub open spec fn first_digit_run(s: Seq<char>) -> Seq<char>
    decreases s.len(),
{
    if s.len() == 0 {
        Seq::empty()
    } else if !is_digit(s[0]) {
        first_digit_run(s.drop_first())
    } else {
        digit_prefix(s)
    }
}

/// The block number a file name leads with: its first run of digits, or
/// `u64::MAX` when there is none or it does not fit.
pub open spec fn block_number_of(name: Seq<char>) -> u64 {
    let run = first_digit_run(name);
    if run.len() > 0 && digits_value(run) <= u64::MAX {
        digits_value(run) as u64
    } else {
        u64::MAX
    }
}

proof fn lemma_digit_prefix(s: Seq<char>, i: int, j: int)
    requires
        0 <= i <= j <= s.len(),
        forall|k: int| i <= k < j ==> is_digit(#[trigger] s[k]),
        j == s.len() || !is_digit(s[j]),
    ensures
        digit_prefix(s.skip(i)) == s.subrange(i, j),
    decreases j - i,
{
    if i < j {
        assert(s.skip(i)[0] == s[i]);
        assert(s.skip(i).drop_first() =~= s.skip(i + 1));
        lemma_digit_prefix(s, i + 1, j);
        assert(seq![s[i]] + s.subrange(i + 1, j) =~= s.subrange(i, j));
    } else {
        if s.skip(i).len() > 0 {
            assert(s.skip(i)[0] == s[j]);
        }
        assert(s.subrange(i, j) =~= Seq::<char>::empty());
    }
}

proof fn lemma_first_digit_run(s: Seq<char>, i: int)
    requires
        0 <= i <= s.len(),
        forall|k: int| 0 <= k < i ==> !is_digit(#[trigger] s[k]),
    ensures
        first_digit_run(s) == first_digit_run(s.skip(i)),
    decreases i,
{
    if i > 0 {
        assert(s.drop_first().skip(i - 1) =~= s.skip(i));
        assert forall|k: int| 0 <= k < i - 1 implies !is_digit(#[trigger] s.drop_first()[k]) by {
            assert(s.drop_first()[k] == s[k + 1]);
        }
        lemma_first_digit_run(s.drop_first(), i - 1);
    } else {
        assert(s.skip(0) =~= s);
    }
}

/// Sort key for a block file name: (leading block number, full name).
/// Files without a numeric stem sort after numbered ones, by name.
pub fn block_key(name: &str) -> (r: (u64, String))
    ensures
        r.0 == block_number_of(name@),
        r.1@ == name@,
{
    let cs = chars_of(name);
    let mut i: usize = 0;
    while i < cs.len() && !((cs[i] as u32) >= 48 && (cs[i] as u32) <= 57)
        invariant
            i <= cs@.len(),
            cs@ == name@,
            forall|k: int| 0 <= k < i ==> !is_digit(#[trigger] cs@[k]),
        decreases cs@.len() - i,
    {
        i += 1;
    }
    let mut j: usize = i;
    while j < cs.len() && (cs[j] as u32) >= 48 && (cs[j] as u32) <= 57
        invariant
            i <= j <= cs@.len(),
            cs@ == name@,
            forall|k: int| i <= k < j ==> is_digit(#[trigger] cs@[k]),
        decreases cs@.len() - j,
    {
        j += 1;
    }
    proof {
        lemma_first_digit_run(name@, i as int);
        lemma_digit_prefix(name@, i as int, j as int);
        if i < cs@.len() {
            assert(name@.skip(i as int)[0] == name@[i as int]);
        } else {
            assert(name@.skip(i as int).len() == 0);
            assert(i == j);
        }
    }
    let ghost run = name@.subrange(i as int, j as int);
    assert(first_digit_run(name@) == run) by {
        if i < cs@.len() {
            assert(is_digit(name@.skip(i as int)[0]));
        } else {
            assert(run =~= Seq::<char>::empty());
        }
    }
    let mut v: u128 = 0;
    let mut k: usize = i;
    let mut overflow = false;
    while k < j
        invariant
            i <= k <= j <= cs@.len(),
            cs@ == name@,
            run == name@.subrange(i as int, j as int),
            forall|q: int| i <= q < j ==> is_digit(#[trigger] cs@[q]),
            !overflow ==> v == digits_value(name@.subrange(i as int, k as int)) && v <= u64::MAX,
            overflow ==> digits_value(run) > u64::MAX,
        decreases j - k,
    {
        if !overflow {
            let d: u128 = ((cs[k] as u32) - 48) as u128;
            assert(name@.subrange(i as int, k + 1).drop_last() =~= name@.subrange(i as int, k as int));
            assert(name@.subrange(i as int, k + 1).last() == cs@[k as int]);
            let nv = v * 10 + d;
            if nv > 0xffff_ffff_ffff_ffff {
                overflow = true;
                proof {
                    assert forall|q: int| 0 <= q < run.len() implies is_digit(#[trigger] run[q]) by {
                        assert(run[q] == cs@[i + q]);
                    }
                    lemma_digits_prefix_le(run, k + 1 - i);
                    assert(run.take(k + 1 - i) =~= name@.subrange(i as int, k + 1));
                }
            } else {
                v = nv;
            }
        }
        k += 1;
    }
    let num: u64 = if overflow || i == j {
        0xffff_ffff_ffff_ffff
    } else {
        v as u64
    };
    proof {
        if !overflow {
            assert(name@.subrange(i as int, k as int) =~= run);
        }
    }
    (num, String::from_str(name))
}

proof fn lemma_digits_prefix_le(s: Seq<char>, n: int)
    requires
        0 <= n <= s.len(),
        forall|q: int| 0 <= q < s.len() ==> is_digit(#[trigger] s[q]),
    ensures
        digits_value(s.take(n)) <= digits_value(s),
    decreases s.len(),
{
    if n < s.len() {
        assert(s.drop_last().take(n) =~= s.take(n));
        assert forall|q: int| 0 <= q < s.drop_last().len() implies is_digit(#[trigger] s.drop_last()[q]) by {
            assert(s.drop_last()[q] == s[q]);
        }
        assert(is_digit(s[s.len() - 1]));
        lemma_digits_prefix_le(s.drop_last(), n);
    } else {
        assert(s.take(n) =~= s);
    }
}

} // verus!
