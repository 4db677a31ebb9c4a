//! Presentation: the assurance report (HTML for a person to read) and the
//! CSV sub-ledger (RFC 4180, for a spreadsheet or accounting system).
use crate::asset::{asset_label, asset_render, Asset};
use crate::balance::position_pairs;
use crate::journal::{asset_pairs, breaks_of, group_pairs, kind_str, of_account, EntryView, Journal, LedgerEntry};
use crate::bounds::{abs_sum, in_range};
use crate::conservation::{any_key, asset_total};
use crate::money::magnitude;
use crate::keys::{
    accum_exec, accum_fold, amount_exec, amounts_view, fits_i128, fold_fits, fold_pairs, keys_of,
    lemma_accum_fold, lemma_fold_fits_prefix, lemma_get_sorted_index, lemma_keys_fold,
    lemma_sum_where_fold, sum_where, total_in, totals_map,
};
use crate::Attestation;
use crate::text::{chars_of, int_str, int_to_string, nat_str, push_char, push_nat, push_str};
use vstd::prelude::*;
use vstd::string::*;
use vstd::utf8::{decode_utf8, encode_utf8, is_char_boundary};

verus! {

// ---------------------------------------------------------------------------
// Escaping
// ---------------------------------------------------------------------------

/// HTML-text escape of `&`, `<` and `>`, character by character.
pub open spec fn esc_spec(s: Seq<char>) -> Seq<char>
    decreases s.len(),
{
    if s.len() == 0 {
        Seq::empty()
    } else {
        let c = s.last();
        esc_spec(s.drop_last()) + if c == '&' {
            "&amp;"@
        } else if c == '<' {
            "&lt;"@
        } else if c == '>' {
            "&gt;"@
        } else {
            seq![c]
        }
    }
}

/// Minimal HTML-text escape for interpolated values.
pub fn esc(s: &str) -> (r: String)
    ensures
        r@ == esc_spec(s@),
{
    let cs = chars_of(s);
    let mut out = String::new();
    let mut i: usize = 0;
    while i < cs.len()
        invariant
            i <= cs@.len(),
            cs@ == s@,
            out@ == esc_spec(s@.take(i as int)),
        decreases cs@.len() - i,
    {
        let c = cs[i];
        assert(s@.take(i + 1).drop_last() =~= s@.take(i as int));
        assert(s@.take(i + 1).last() == c);
        if c == '&' {
            push_str(&mut out, "&amp;");
        } else if c == '<' {
            push_str(&mut out, "&lt;");
        } else if c == '>' {
            push_str(&mut out, "&gt;");
        } else {
            push_char(&mut out, c);
            assert(out@ =~= esc_spec(s@.take(i as int)) + seq![c]);
        }
        i += 1;
    }
    assert(s@.take(i as int) =~= s@);
    out
}

/// Characters that force an RFC 4180 field to be quoted.
pub open spec fn csv_special(c: char) -> bool {
    c == ',' || c == '"' || c == '\n' || c == '\r'
}

/// `s` with every `"` doubled.
pub open spec fn double_quotes(s: Seq<char>) -> Seq<char>
    decreases s.len(),
{
    if s.len() == 0 {
        Seq::empty()
    } else if s.last() == '"' {
        double_quotes(s.drop_last()) + "\"\""@
    } else {
        double_quotes(s.drop_last()).push(s.last())
    }
}

/// RFC 4180 field: quoted (with interior quotes doubled) when the value
/// contains a comma, quote, CR or LF; unchanged otherwise.
pub open spec fn csv_field_spec(s: Seq<char>) -> Seq<char> {
    if exists|i: int| 0 <= i < s.len() && csv_special(#[trigger] s[i]) {
        "\""@ + double_quotes(s) + "\""@
    } else {
        s
    }
}

pub fn csv_field(s: &str) -> (r: String)
    ensures
        r@ == csv_field_spec(s@),
{
    let cs = chars_of(s);
    let mut special = false;
    let mut i: usize = 0;
    while i < cs.len()
        invariant
            i <= cs@.len(),
            cs@ == s@,
            special == exists|j: int| 0 <= j < i && csv_special(#[trigger] s@[j]),
        decreases cs@.len() - i,
    {
        let c = cs[i];
        if c == ',' || c == '"' || c == '\n' || c == '\r' {
            assert(csv_special(s@[i as int]));
            special = true;
        }
        i += 1;
    }
    if !special {
        return String::from_str(s);
    }
    let mut out = String::from_str("\"");
    let ghost start = out@;
    let mut i: usize = 0;
    while i < cs.len()
        invariant
            i <= cs@.len(),
            cs@ == s@,
            out@ == start + double_quotes(s@.take(i as int)),
        decreases cs@.len() - i,
    {
        let c = cs[i];
        assert(s@.take(i + 1).drop_last() =~= s@.take(i as int));
        assert(s@.take(i + 1).last() == c);
        if c == '"' {
            push_str(&mut out, "\"\"");
            assert(out@ =~= start + double_quotes(s@.take(i + 1)));
        } else {
            push_char(&mut out, c);
            assert(out@ =~= start + double_quotes(s@.take(i + 1)));
        }
        i += 1;
    }
    assert(s@.take(i as int) =~= s@);
    push_str(&mut out, "\"");
    out
}

/// A hash is shown whole up to 28 bytes; longer, as its first 16 bytes,
/// an ellipsis, and its last 8.
pub open spec fn short_hash_spec(s: Seq<char>) -> Seq<char> {
    let b = encode_utf8(s);
    if b.len() <= 28 {
        s
    } else {
        decode_utf8(b.subrange(0, 16)) + "\u{2026}"@ + decode_utf8(b.subrange(b.len() - 8, b.len() as int))
    }
}

/// Shortening `s` cuts it at character boundaries.
pub open spec fn short_hash_ok(s: Seq<char>) -> bool {
    let b = encode_utf8(s);
    b.len() <= 28 || (is_char_boundary(b, 16) && is_char_boundary(b, b.len() - 8))
}

pub fn short_hash(hex: &str) -> (r: String)
    requires
        short_hash_ok(hex@),
    ensures
        r@ == short_hash_spec(hex@),
{
    let n = hex.as_bytes().len();
    assert(hex.spec_bytes() == encode_utf8(hex@));
    if n <= 28 {
        return String::from_str(hex);
    }
    let (head, _) = hex.split_at(16);
    let (_, tail) = hex.split_at(n - 8);
    proof {
        vstd::utf8::encode_utf8_decode_utf8(head@);
        vstd::utf8::encode_utf8_decode_utf8(tail@);
    }
    let mut out = String::from_str(head);
    push_str(&mut out, "\u{2026}");
    push_str(&mut out, tail);
    out
}

} // verus!

verus! {

// ---------------------------------------------------------------------------
// The assurance report
// ---------------------------------------------------------------------------

/// One row of the verification-attestation table.
#[derive(Debug, Clone)]
pub struct AttestationRow {
    pub block: u64,
    pub root_hex: String,
    pub scheme: String,
    pub hints_ok: bool,
    /// (signers present, total nodes) on the Schnorr path.
    pub signers: Option<(u64, u64)>,
    pub wraps_ok: Option<bool>,
    pub valid: bool,
}

pub struct AttestationRowView {
    pub block: u64,
    pub root_hex: Seq<char>,
    pub scheme: Seq<char>,
    pub hints_ok: bool,
    pub signers: Option<(u64, u64)>,
    pub wraps_ok: Option<bool>,
    pub valid: bool,
}

impl View for AttestationRow {
    type V = AttestationRowView;

    open spec fn view(&self) -> AttestationRowView {
        AttestationRowView {
            block: self.block,
            root_hex: self.root_hex@,
            scheme: self.scheme@,
            hints_ok: self.hints_ok,
            signers: self.signers,
            wraps_ok: self.wraps_ok,
            valid: self.valid,
        }
    }
}

/// One reconciliation line: an account's position in a single asset.
#[derive(Debug, Clone)]
pub struct ReconLine {
    pub account: String,
    pub asset: Asset,
    pub amount: i128,
}

pub struct ReconLineView {
    pub account: Seq<char>,
    pub asset: Asset,
    pub amount: int,
}

impl View for ReconLine {
    type V = ReconLineView;

    open spec fn view(&self) -> ReconLineView {
        ReconLineView { account: self.account@, asset: self.asset, amount: self.amount as int }
    }
}

/// A complete assurance report as data.
#[derive(Debug, Clone)]
pub struct AssuranceReport {
    pub attestations: Vec<AttestationRow>,
    pub reconciliation: Vec<ReconLine>,
    /// The asset the reconciliation totals (and `total`) are in.
    pub asset: Asset,
    pub total: i128,
    pub postings: usize,
    pub conserved: bool,
}

/// The smallest block number, if any.
pub open spec fn min_block(rows: Seq<AttestationRowView>) -> Option<u64>
    decreases rows.len(),
{
    if rows.len() == 0 {
        None
    } else {
        let b = rows.last().block;
        match min_block(rows.drop_last()) {
            None => Some(b),
            Some(m) => Some(if b < m { b } else { m }),
        }
    }
}

/// The largest block number, if any.
pub open spec fn max_block(rows: Seq<AttestationRowView>) -> Option<u64>
    decreases rows.len(),
{
    if rows.len() == 0 {
        None
    } else {
        let b = rows.last().block;
        match max_block(rows.drop_last()) {
            None => Some(b),
            Some(m) => Some(if b > m { b } else { m }),
        }
    }
}

pub open spec fn or_zero(o: Option<u64>) -> u64 {
    match o {
        Some(v) => v,
        None => 0,
    }
}

pub open spec fn signers_str(s: Option<(u64, u64)>) -> Seq<char> {
    match s {
        Some((a, t)) => nat_str(a as nat) + " / "@ + nat_str(t as nat),
        None => "\u{2014}"@,
    }
}

pub open spec fn wraps_str(w: Option<bool>) -> Seq<char> {
    match w {
        Some(true) => "pass"@,
        Some(false) => "FAIL"@,
        None => "\u{2014}"@,
    }
}

/// One attestation table row.
pub open spec fn att_row_spec(a: AttestationRowView) -> Seq<char> {
    "<tr><td class=\"num\">"@ + nat_str(a.block as nat) + "</td><td class=\"mono root\" title=\""@
        + esc_spec(a.root_hex) + "\">"@ + short_hash_spec(a.root_hex) + "</td><td>"@ + esc_spec(
        a.scheme,
    ) + "</td><td class=\"c\">"@ + (if a.hints_ok {
        "pass"@
    } else {
        "FAIL"@
    }) + "</td><td class=\"c mono\">"@ + signers_str(a.signers) + "</td><td class=\"c mono\">"@
        + wraps_str(a.wraps_ok) + "</td><td class=\"c\"><span class=\"chip "@ + (if a.valid {
        "ok"@
    } else {
        "bad"@
    }) + "\">"@ + (if a.valid {
        "verified"@
    } else {
        "FAILED"@
    }) + "</span></td></tr>"@
}

/// One reconciliation table row.
pub open spec fn recon_row_spec(l: ReconLineView) -> Seq<char> {
    "<tr><td class=\"mono\">"@ + esc_spec(l.account) + "</td><td class=\"num mono\">"@
        + asset_render(l.asset, l.amount) + "</td></tr>"@
}

pub open spec fn att_rows_spec(rows: Seq<AttestationRowView>) -> Seq<char>
    decreases rows.len(),
{
    if rows.len() == 0 {
        Seq::empty()
    } else {
        att_rows_spec(rows.drop_last()) + att_row_spec(rows.last())
    }
}

pub open spec fn recon_rows_spec(lines: Seq<ReconLineView>) -> Seq<char>
    decreases lines.len(),
{
    if lines.len() == 0 {
        Seq::empty()
    } else {
        recon_rows_spec(lines.drop_last()) + recon_row_spec(lines.last())
    }
}

fn att_row(a: &AttestationRow) -> (r: String)
    requires
        short_hash_ok(a.root_hex@),
    ensures
        r@ == att_row_spec(a@),
{
    let mut out = String::from_str("<tr><td class=\"num\">");
    push_nat(&mut out, a.block as u128);
    push_str(&mut out, "</td><td class=\"mono root\" title=\"");
    let full = esc(a.root_hex.as_str());
    push_str(&mut out, full.as_str());
    push_str(&mut out, "\">");
    let short = short_hash(a.root_hex.as_str());
    push_str(&mut out, short.as_str());
    push_str(&mut out, "</td><td>");
    let scheme = esc(a.scheme.as_str());
    push_str(&mut out, scheme.as_str());
    push_str(&mut out, "</td><td class=\"c\">");
    push_str(&mut out, if a.hints_ok { "pass" } else { "FAIL" });
    push_str(&mut out, "</td><td class=\"c mono\">");
    match a.signers {
        Some((s, t)) => {
            push_nat(&mut out, s as u128);
            push_str(&mut out, " / ");
            push_nat(&mut out, t as u128);
        },
        None => {
            push_str(&mut out, "\u{2014}");
        },
    }
    push_str(&mut out, "</td><td class=\"c mono\">");
    let w = match a.wraps_ok {
        Some(true) => "pass",
        Some(false) => "FAIL",
        None => "\u{2014}",
    };
    push_str(&mut out, w);
    push_str(&mut out, "</td><td class=\"c\"><span class=\"chip ");
    push_str(&mut out, if a.valid { "ok" } else { "bad" });
    push_str(&mut out, "\">");
    push_str(&mut out, if a.valid { "verified" } else { "FAILED" });
    push_str(&mut out, "</span></td></tr>");
    assert(out@ =~= att_row_spec(a@));
    out
}

fn recon_row(l: &ReconLine) -> (r: String)
    ensures
        r@ == recon_row_spec(l@),
{
    let mut out = String::from_str("<tr><td class=\"mono\">");
    let acct = esc(l.account.as_str());
    push_str(&mut out, acct.as_str());
    push_str(&mut out, "</td><td class=\"num mono\">");
    let amt = l.asset.render(l.amount);
    push_str(&mut out, amt.as_str());
    push_str(&mut out, "</td></tr>");
    assert(out@ =~= recon_row_spec(l@));
    out
}

} // verus!

verus! {

/// The report stylesheet.
pub const STYLESHEET: &'static str = "body{font-family:Georgia,serif;color:#1b1f24;max-width:60rem;margin:2rem auto;padding:0 1rem}h1{font-size:1.6rem;margin:.2rem 0}h2{font-size:1.1rem;margin-top:2rem}.eyebrow{text-transform:uppercase;letter-spacing:.08em;font-size:.75rem;color:#57606a}.lede,.note{color:#424a53}.scroll{overflow-x:auto}table{border-collapse:collapse;width:100%;font-size:.85rem}th,td{border-bottom:1px solid #d0d7de;padding:.35rem .5rem;text-align:left}.num{text-align:right}.c{text-align:center}.mono{font-family:Menlo,Consolas,monospace}.root{word-break:break-all}tr.total td{font-weight:bold;border-top:2px solid #1b1f24}.chip{padding:.1rem .4rem;border-radius:.3rem}.ok{color:#116329}.bad{color:#a40e26}.chip.ok{background:#dafbe1}.chip.bad{background:#ffebe9}.assert{font-weight:bold}@media print{body{margin:0;max-width:none}.scroll{overflow:visible}}";

/// A fixed fragment of the report document.
pub const HTML_OPEN: &'static str = "<title>Hedera Ledger \u{2014} Assurance Report</title>\n<style>";

/// A fixed fragment of the report document.
pub const HTML_INTRO: &'static str = "</style>\n<article><header class=\"rep-head\"><p class=\"eyebrow\">Cryptographic assurance report</p><h1>Hedera consensus ledger \u{2014} verified extract</h1><p class=\"lede\">Every figure below is derived from block-stream data whose in-band proof was re-verified against the ledger's genesis publication. Blocks ";

/// A fixed fragment of the report document.
pub const HTML_DASH: &'static str = "\u{2013}";

/// A fixed fragment of the report document.
pub const HTML_ATTESTATION: &'static str = ".</p></header><section><h2>1 \u{b7} Verification attestation</h2><p class=\"note\">What \u{201c}verified\u{201d} means here: for each block, the merkle root was recomputed from the raw items and the hinTS threshold signature over that root, plus the scheme-specific suffix, checked out. A block that failed would not appear \u{2014} it never enters the ledger.</p><div class=\"scroll\"><table><thead><tr><th>Block</th><th>Recomputed merkle root</th><th>Scheme</th><th class=\"c\">hinTS</th><th class=\"c\">Signers</th><th class=\"c\">WRAPS</th><th class=\"c\">Verdict</th></tr></thead><tbody>";

/// A fixed fragment of the report document.
pub const HTML_RECONCILIATION: &'static str = "</tbody></table></div></section><section><h2>2 \u{b7} Reconciliation</h2><p class=\"note\">Every account's position from the verified blocks. Double-entry holds: the positions sum to zero. <code>supply:HBAR</code> is the contra account for the genesis issuance of the initial supply (created with no debit), so the book still closes.</p><div class=\"scroll\"><table class=\"recon\"><thead><tr><th>Account</th><th class=\"num\">Position</th></tr></thead><tbody>";

/// A fixed fragment of the report document.
pub const HTML_ASSERT: &'static str = "</tbody></table></div><p class=\"assert ";

/// A fixed fragment of the report document.
pub const HTML_ASSERT_CLOSE: &'static str = "\">";

/// A fixed fragment of the report document.
pub const HTML_POSTINGS: &'static str = " postings booked \u{b7} conservation ";

/// A fixed fragment of the report document.
pub const HTML_FOOTER: &'static str = "</p></section><footer><h2>Scope &amp; basis</h2><ul><li><strong>Basis.</strong> Audit-<em>ready</em> schedules traceable to consensus timestamps \u{2014} not GAAP/IFRS financial statements. Accrual and valuation judgments are the preparer's. Full derivation methodology: <code>docs/METHODOLOGY.md</code>.</li><li><strong>Provenance.</strong> Figures derive solely from cryptographically verified stream data \u{2014} the only source. No unverified feed contributes to any figure.</li><li><strong>Integrity.</strong> Amounts are exact integers in the asset's smallest unit; every accumulation is overflow-checked.</li></ul></footer></article>";

} // verus!

verus! {

/// The total row of the reconciliation table.
pub open spec fn total_row_spec(asset: Asset, total: int) -> Seq<char> {
    "<tr class=\"total\"><td>Total \u{2014} ledger closes to</td><td class=\"num mono\">"@
        + asset_render(asset, total) + "</td></tr>"@
}

/// The whole report document: title, stylesheet and article.
pub open spec fn html_spec(
    rows: Seq<AttestationRowView>,
    recon: Seq<ReconLineView>,
    asset: Asset,
    total: int,
    postings: nat,
    conserved: bool,
) -> Seq<char> {
    HTML_OPEN@ + STYLESHEET@ + HTML_INTRO@ + nat_str(or_zero(min_block(rows)) as nat) + HTML_DASH@
        + nat_str(or_zero(max_block(rows)) as nat) + HTML_ATTESTATION@ + att_rows_spec(rows)
        + HTML_RECONCILIATION@ + recon_rows_spec(recon) + total_row_spec(asset, total)
        + HTML_ASSERT@ + (if conserved {
        "ok"@
    } else {
        "bad"@
    }) + HTML_ASSERT_CLOSE@ + nat_str(postings) + HTML_POSTINGS@ + (if conserved {
        "holds \u{2713}"@
    } else {
        "BROKEN \u{2717}"@
    }) + HTML_FOOTER@
}

impl AssuranceReport {
    pub open spec fn rows_view(&self) -> Seq<AttestationRowView> {
        self.attestations@.map_values(|a: AttestationRow| a@)
    }

    pub open spec fn recon_view(&self) -> Seq<ReconLineView> {
        self.reconciliation@.map_values(|l: ReconLine| l@)
    }

    /// Inclusive (lowest, highest) attested block number; `(0, 0)` when
    /// there are none.
    pub fn block_range(&self) -> (r: (u64, u64))
        ensures
            r == (or_zero(min_block(self.rows_view())), or_zero(max_block(self.rows_view()))),
    {
        let ghost rv = self.rows_view();
        let mut lo: Option<u64> = None;
        let mut hi: Option<u64> = None;
        let mut i: usize = 0;
        while i < self.attestations.len()
            invariant
                i <= self.attestations@.len(),
                rv == self.rows_view(),
                lo == min_block(rv.take(i as int)),
                hi == max_block(rv.take(i as int)),
            decreases self.attestations@.len() - i,
        {
            let b = self.attestations[i].block;
            assert(rv.take(i + 1).drop_last() =~= rv.take(i as int));
            assert(rv.take(i + 1).last().block == b);
            lo = match lo {
                None => Some(b),
                Some(m) => Some(if b < m { b } else { m }),
            };
            hi = match hi {
                None => Some(b),
                Some(m) => Some(if b > m { b } else { m }),
            };
            i += 1;
        }
        assert(rv.take(i as int) =~= rv);
        let l = match lo {
            Some(v) => v,
            None => 0,
        };
        let h = match hi {
            Some(v) => v,
            None => 0,
        };
        (l, h)
    }

    /// Render the report as a self-contained HTML document body (a
    /// `<title>`, the stylesheet, and the `<article>`).
    pub fn to_html(&self) -> (r: String)
        requires
            forall|i: int| 0 <= i < self.attestations@.len() ==> short_hash_ok(
                #[trigger] self.attestations@[i].root_hex@,
            ),
        ensures
            r@ == html_spec(
                self.rows_view(),
                self.recon_view(),
                self.asset,
                self.total as int,
                self.postings as nat,
                self.conserved,
            ),
    {
        let (lo, hi) = self.block_range();
        let ghost rv = self.rows_view();
        let ghost lv = self.recon_view();
        let mut att_rows = String::new();
        let mut i: usize = 0;
        while i < self.attestations.len()
            invariant
                i <= self.attestations@.len(),
                rv == self.rows_view(),
                forall|j: int| 0 <= j < self.attestations@.len() ==> short_hash_ok(
                    #[trigger] self.attestations@[j].root_hex@,
                ),
                att_rows@ == att_rows_spec(rv.take(i as int)),
            decreases self.attestations@.len() - i,
        {
            assert(rv.take(i + 1).drop_last() =~= rv.take(i as int));
            assert(rv.take(i + 1).last() == self.attestations@[i as int]@);
            let row = att_row(&self.attestations[i]);
            push_str(&mut att_rows, row.as_str());
            i += 1;
        }
        assert(rv.take(i as int) =~= rv);
        let mut recon_rows = String::new();
        let mut k: usize = 0;
        while k < self.reconciliation.len()
            invariant
                k <= self.reconciliation@.len(),
                lv == self.recon_view(),
                recon_rows@ == recon_rows_spec(lv.take(k as int)),
            decreases self.reconciliation@.len() - k,
        {
            assert(lv.take(k + 1).drop_last() =~= lv.take(k as int));
            assert(lv.take(k + 1).last() == self.reconciliation@[k as int]@);
            let row = recon_row(&self.reconciliation[k]);
            push_str(&mut recon_rows, row.as_str());
            k += 1;
        }
        assert(lv.take(k as int) =~= lv);
        let mut out = String::from_str(HTML_OPEN);
        push_str(&mut out, STYLESHEET);
        push_str(&mut out, HTML_INTRO);
        push_nat(&mut out, lo as u128);
        push_str(&mut out, HTML_DASH);
        push_nat(&mut out, hi as u128);
        push_str(&mut out, HTML_ATTESTATION);
        push_str(&mut out, att_rows.as_str());
        push_str(&mut out, HTML_RECONCILIATION);
        push_str(&mut out, recon_rows.as_str());
        push_str(
            &mut out,
            "<tr class=\"total\"><td>Total \u{2014} ledger closes to</td><td class=\"num mono\">",
        );
        let total = self.asset.render(self.total);
        push_str(&mut out, total.as_str());
        push_str(&mut out, "</td></tr>");
        push_str(&mut out, HTML_ASSERT);
        push_str(&mut out, if self.conserved { "ok" } else { "bad" });
        push_str(&mut out, HTML_ASSERT_CLOSE);
        push_nat(&mut out, self.postings as u128);
        push_str(&mut out, HTML_POSTINGS);
        push_str(&mut out, if self.conserved { "holds \u{2713}" } else { "BROKEN \u{2717}" });
        push_str(&mut out, HTML_FOOTER);
        assert(out@ =~= html_spec(
            self.rows_view(),
            self.recon_view(),
            self.asset,
            self.total as int,
            self.postings as nat,
            self.conserved,
        ));
        out
    }
}

} // verus!

verus! {

// ---------------------------------------------------------------------------
// CSV sub-ledger export
// ---------------------------------------------------------------------------

/// The sub-ledger column header. Stable: downstream imports key on it.
pub const CSV_HEADER: &'static str =
    "consensus_timestamp,day,tx_type,result_code,entry_kind,asset,amount,running_balance";

/// One CSV row: the posting's fields and the running balance of its asset,
/// each escaped, comma-separated, newline-terminated.
pub open spec fn csv_row_spec(e: EntryView, balance: int) -> Seq<char> {
    csv_field_spec(e.consensus_timestamp) + ","@ + csv_field_spec(e.day) + ","@ + csv_field_spec(
        e.tx_type,
    ) + ","@ + csv_field_spec(int_str(e.result_code as int)) + ","@ + csv_field_spec(
        kind_str(e.kind),
    ) + ","@ + csv_field_spec(asset_label(e.asset)) + ","@ + csv_field_spec(int_str(e.amount))
        + ","@ + csv_field_spec(int_str(balance)) + "\n"@
}

/// The rows for a sequence of postings, each with the running balance of
/// its asset after it.
pub open spec fn csv_rows_spec(es: Seq<EntryView>) -> Seq<char>
    decreases es.len(),
{
    if es.len() == 0 {
        Seq::empty()
    } else {
        csv_rows_spec(es.drop_last()) + csv_row_spec(
            es.last(),
            total_in(asset_pairs(es), es.last().asset),
        )
    }
}

/// The whole sub-ledger of `account`.
pub open spec fn subledger_spec(es: Seq<EntryView>, account: Seq<char>) -> Seq<char> {
    CSV_HEADER@ + "\n"@ + csv_rows_spec(of_account(es, account))
}

proof fn lemma_of_account_prefix(es: Seq<EntryView>, account: Seq<char>, i: int)
    requires
        0 <= i <= es.len(),
    ensures
        of_account(es.take(i), account).len() <= of_account(es, account).len(),
        of_account(es.take(i), account) == of_account(es, account).take(
            of_account(es.take(i), account).len() as int,
        ),
    decreases es.len() - i,
{
    if i == es.len() {
        assert(es.take(i) =~= es);
        assert(of_account(es, account).take(of_account(es, account).len() as int) =~= of_account(
            es,
            account,
        ));
    } else {
        let d = es.drop_last();
        assert(d.take(i) =~= es.take(i));
        lemma_of_account_prefix(d, account, i);
        let l = of_account(es.take(i), account).len() as int;
        assert(of_account(es, account).take(l) =~= of_account(d, account).take(l));
    }
}

/// Append one escaped field (after a separator unless it is the first).
fn push_field(out: &mut String, f: &str, first: bool)
    ensures
        final(out)@ == old(out)@ + (if first {
            Seq::<char>::empty()
        } else {
            ","@
        }) + csv_field_spec(f@),
{
    if !first {
        push_str(out, ",");
    }
    let x = csv_field(f);
    push_str(out, x.as_str());
    assert(final(out)@ =~= old(out)@ + (if first {
        Seq::<char>::empty()
    } else {
        ","@
    }) + csv_field_spec(f@));
}

fn csv_row(e: &LedgerEntry, balance: i128) -> (r: String)
    ensures
        r@ == csv_row_spec(e@, balance as int),
{
    let mut out = String::new();
    push_field(&mut out, e.consensus_timestamp.as_str(), true);
    push_field(&mut out, e.day.as_str(), false);
    push_field(&mut out, e.tx_type.as_str(), false);
    let rc = int_to_string(e.result_code as i128);
    push_field(&mut out, rc.as_str(), false);
    push_field(&mut out, e.kind.as_str(), false);
    let label = e.asset.label();
    push_field(&mut out, label.as_str(), false);
    let amt = int_to_string(e.amount);
    push_field(&mut out, amt.as_str(), false);
    let bal = int_to_string(balance);
    push_field(&mut out, bal.as_str(), false);
    push_str(&mut out, "\n");
    assert(out@ =~= csv_row_spec(e@, balance as int));
    out
}

/// Render `account`'s postings as an RFC 4180 CSV sub-ledger: one row per
/// posting, in consensus order, with a per-asset running balance. Amounts
/// are exact integers in the asset's smallest unit; every field is
/// escaped.
pub fn subledger_csv(journal: &Journal, account: &str) -> (r: String)
    requires
        fold_fits(asset_pairs(of_account(journal@, account@))),
    ensures
        r@ == subledger_spec(journal@, account@),
{
    let mut out = String::from_str(CSV_HEADER);
    push_str(&mut out, "\n");
    let ghost start = out@;
    let es = journal.entries();
    let ghost ev = journal@;
    let ghost all = asset_pairs(of_account(ev, account@));
    let mut running: Vec<(Asset, i128)> = Vec::new();
    let mut i: usize = 0;
    assert(ev.take(0) =~= Seq::<EntryView>::empty());
    assert(amounts_view(running@) =~= accum_fold::<Asset>(Seq::<(Asset, int)>::empty()));
    while i < es.len()
        invariant
            i <= es@.len(),
            ev == es@.map_values(|e: LedgerEntry| e@),
            all == asset_pairs(of_account(ev, account@)),
            fold_fits(all),
            amounts_view(running@) == accum_fold::<Asset>(asset_pairs(of_account(ev.take(i as int), account@))),
            out@ == start + csv_rows_spec(of_account(ev.take(i as int), account@)),
        decreases es@.len() - i,
    {
        let e = &es[i];
        let ghost pre = of_account(ev.take(i as int), account@);
        assert(ev.take(i + 1).drop_last() =~= ev.take(i as int));
        assert(ev.take(i + 1).last() == e@);
        if crate::text::str_eq(e.account.as_str(), account) {
            let ghost post = pre.push(e@);
            assert(of_account(ev.take(i + 1), account@) =~= post);
            proof {
                lemma_of_account_prefix(ev, account@, i + 1);
                assert(asset_pairs(post) =~= all.take(post.len() as int));
                lemma_fold_fits_prefix(all, post.len() as int);
                assert(post.drop_last() =~= pre);
                assert(asset_pairs(post).drop_last() =~= asset_pairs(pre));
                lemma_accum_fold::<Asset>(asset_pairs(pre), e.asset);
                crate::keys::lemma_fold_step::<Asset>(asset_pairs(post), pre.len() as int);
                assert(asset_pairs(post).take(pre.len() as int) =~= asset_pairs(pre));
                assert(asset_pairs(post).take(pre.len() as int + 1) =~= asset_pairs(post));
                crate::keys::lemma_total_in_push(asset_pairs(pre), (e.asset, e.amount as int), e.asset);
                assert(asset_pairs(post) =~= asset_pairs(pre).push((e.asset, e.amount as int)));
            }
            let cur = amount_exec(&running, &e.asset);
            let bal = cur + e.amount;
            accum_exec(&mut running, &e.asset, e.amount);
            let row = csv_row(e, bal);
            push_str(&mut out, row.as_str());
            assert(out@ =~= start + csv_rows_spec(post));
        } else {
            assert(of_account(ev.take(i + 1), account@) =~= pre);
        }
        i += 1;
    }
    assert(ev.take(i as int) =~= ev);
    out
}

} // verus!

verus! {

// ---------------------------------------------------------------------------
// Assembling a report from a verified block run
// ---------------------------------------------------------------------------

/// Each entry's account, with a zero amount: folding these gives every
/// account once, ascending.
pub open spec fn account_keys(es: Seq<EntryView>) -> Seq<(Seq<char>, int)> {
    es.map_values(|e: EntryView| (e.account, 0int))
}

/// The accounts of a journal, each once, ascending.
pub open spec fn accounts_of(es: Seq<EntryView>) -> Seq<(Seq<char>, int)> {
    accum_fold::<String>(account_keys(es))
}

/// Every account's whole-journal fold fits `i128`.
pub open spec fn positions_fit(es: Seq<EntryView>) -> bool {
    forall|a: Seq<char>| #[trigger] fold_fits(position_pairs(es, a, None))
}

/// The nonzero positions in `asset` of the given accounts, in their order.
pub open spec fn positions_in(es: Seq<EntryView>, accts: Seq<(Seq<char>, int)>, asset: Asset) -> Seq<
    ReconLineView,
>
    decreases accts.len(),
{
    if accts.len() == 0 {
        Seq::empty()
    } else {
        let a = accts.last().0;
        let m = totals_map(position_pairs(es, a, None));
        positions_in(es, accts.drop_last(), asset) + if m.contains_key(asset) {
            seq![ReconLineView { account: a, asset, amount: m[asset] }]
        } else {
            Seq::empty()
        }
    }
}

/// Insert `x` after every line whose amount is at least its own.
pub open spec fn insert_desc(s: Seq<ReconLineView>, x: ReconLineView) -> Seq<ReconLineView>
    decreases s.len(),
{
    if s.len() == 0 {
        seq![x]
    } else if s[0].amount >= x.amount {
        seq![s[0]] + insert_desc(s.drop_first(), x)
    } else {
        seq![x] + s
    }
}

/// Stable sort by descending amount (equal amounts keep their order).
pub open spec fn sort_desc(s: Seq<ReconLineView>) -> Seq<ReconLineView>
    decreases s.len(),
{
    if s.len() == 0 {
        Seq::empty()
    } else {
        insert_desc(sort_desc(s.drop_last()), s.last())
    }
}

/// Every account's nonzero position in `asset`, sorted by descending
/// amount: the reconciliation body, which sums to zero for a conserved
/// book.
pub open spec fn reconcile_spec(es: Seq<EntryView>, asset: Asset) -> Seq<ReconLineView> {
    sort_desc(positions_in(es, accounts_of(es), asset))
}

/// The sum of the lines' amounts.
pub open spec fn lines_sum(s: Seq<ReconLineView>) -> int
    decreases s.len(),
{
    if s.len() == 0 {
        0
    } else {
        lines_sum(s.drop_last()) + s.last().amount
    }
}

/// Every running sum of the lines fits `i128`.
pub open spec fn lines_sum_fits(s: Seq<ReconLineView>) -> bool {
    forall|i: int| 0 <= i <= s.len() ==> fits_i128(#[trigger] lines_sum(s.take(i)))
}

proof fn lemma_insert_desc_at(s: Seq<ReconLineView>, x: ReconLineView, p: int)
    requires
        0 <= p <= s.len(),
        forall|k: int| 0 <= k < p ==> #[trigger] s[k].amount >= x.amount,
        p < s.len() ==> s[p].amount < x.amount,
    ensures
        insert_desc(s, x) == s.insert(p, x),
    decreases s.len(),
{
    if s.len() == 0 {
        assert(seq![x] =~= s.insert(p, x));
    } else if p == 0 {
        assert(seq![x] + s =~= s.insert(0, x));
    } else {
        assert forall|k: int| 0 <= k < p - 1 implies #[trigger] s.drop_first()[k].amount >= x.amount by {
            assert(s.drop_first()[k] == s[k + 1]);
        }
        if p - 1 < s.drop_first().len() {
            assert(s.drop_first()[p - 1] == s[p]);
        }
        lemma_insert_desc_at(s.drop_first(), x, p - 1);
        assert(seq![s[0]] + s.drop_first().insert(p - 1, x) =~= s.insert(p, x));
    }
}

fn copy_line(l: &ReconLine) -> (r: ReconLine)
    ensures
        r@ == l@,
{
    ReconLine { account: l.account.clone(), asset: l.asset, amount: l.amount }
}

/// Every account's nonzero position in `asset`, sorted descending.
pub fn reconcile(journal: &Journal, asset: &Asset) -> (r: Vec<ReconLine>)
    requires
        positions_fit(journal@),
    ensures
        r@.map_values(|l: ReconLine| l@) == reconcile_spec(journal@, *asset),
{
    let es = journal.entries();
    let ghost ev = journal@;
    let mut keys: Vec<(String, i128)> = Vec::new();
    let mut i: usize = 0;
    while i < es.len()
        invariant
            i <= es@.len(),
            ev == es@.map_values(|e: LedgerEntry| e@),
            keys@.len() == i,
            forall|j: int| 0 <= j < i ==> #[trigger] amounts_view(keys@)[j] == account_keys(ev)[j],
        decreases es@.len() - i,
    {
        let ghost prev = keys@;
        keys.push((es[i].account.clone(), 0));
        assert forall|j: int| 0 <= j < i + 1 implies #[trigger] amounts_view(keys@)[j]
            == account_keys(ev)[j] by {
            if j < i {
                assert(keys@[j] == prev[j]);
                assert(amounts_view(prev)[j] == account_keys(ev)[j]);
            } else {
                assert(ev[j] == es@[j]@);
            }
        }
        i += 1;
    }
    assert(amounts_view(keys@) =~= account_keys(ev));
    proof {
        assert forall|j: int, k: Seq<char>| 0 <= j <= account_keys(ev).len() implies fits_i128(
            #[trigger] total_in(account_keys(ev).take(j), k),
        ) by {
            lemma_zero_totals(account_keys(ev).take(j), k);
        }
    }
    let accts = fold_pairs(&keys);
    let ghost av = amounts_view(accts@);
    // Positions, in account order.
    let mut lines: Vec<ReconLine> = Vec::new();
    let mut k: usize = 0;
    assert(av.take(0) =~= Seq::<(Seq<char>, int)>::empty());
    while k < accts.len()
        invariant
            k <= accts@.len(),
            av == amounts_view(accts@),
            av == accounts_of(ev),
            ev == journal@,
            positions_fit(ev),
            lines@.map_values(|l: ReconLine| l@) == positions_in(ev, av.take(k as int), *asset),
        decreases accts@.len() - k,
    {
        let a = &accts[k].0;
        assert(av[k as int].0 == a@);
        assert(av.take(k + 1).drop_last() =~= av.take(k as int));
        assert(av.take(k + 1).last() == av[k as int]);
        assert(fold_fits(position_pairs(ev, a@, None)));
        let h = crate::statements::holdings(journal, a.as_str(), None);
        let ghost prev = lines@;
        match h.get(asset) {
            Some(v) => {
                lines.push(ReconLine { account: a.clone(), asset: *asset, amount: v });
                assert(lines@.map_values(|l: ReconLine| l@) =~= prev.map_values(
                    |l: ReconLine| l@,
                ).push(ReconLineView { account: a@, asset: *asset, amount: v as int }));
            },
            None => {},
        }
        k += 1;
    }
    assert(av.take(k as int) =~= av);
    // Stable insertion sort, descending by amount.
    let ghost unsorted = lines@.map_values(|l: ReconLine| l@);
    let mut sorted_lines: Vec<ReconLine> = Vec::new();
    let mut i: usize = 0;
    assert(unsorted.take(0) =~= Seq::<ReconLineView>::empty());
    while i < lines.len()
        invariant
            i <= lines@.len(),
            unsorted == lines@.map_values(|l: ReconLine| l@),
            sorted_lines@.map_values(|l: ReconLine| l@) == sort_desc(unsorted.take(i as int)),
        decreases lines@.len() - i,
    {
        let x = copy_line(&lines[i]);
        let ghost sv = sorted_lines@.map_values(|l: ReconLine| l@);
        let mut p: usize = 0;
        while p < sorted_lines.len() && sorted_lines[p].amount >= x.amount
            invariant
                p <= sorted_lines@.len(),
                sv == sorted_lines@.map_values(|l: ReconLine| l@),
                forall|q: int| 0 <= q < p ==> #[trigger] sv[q].amount >= x.amount,
            decreases sorted_lines@.len() - p,
        {
            assert(sv[p as int] == sorted_lines@[p as int]@);
            p += 1;
        }
        proof {
            if p < sorted_lines@.len() {
                assert(sv[p as int] == sorted_lines@[p as int]@);
            }
            lemma_insert_desc_at(sv, x@, p as int);
            assert(unsorted.take(i + 1).drop_last() =~= unsorted.take(i as int));
            assert(unsorted.take(i + 1).last() == x@);
        }
        let ghost xv = x@;
        sorted_lines.insert(p, x);
        assert(sorted_lines@.map_values(|l: ReconLine| l@) =~= sv.insert(p as int, xv));
        i += 1;
    }
    assert(unsorted.take(i as int) =~= unsorted);
    sorted_lines
}

proof fn lemma_zero_totals(s: Seq<(Seq<char>, int)>, k: Seq<char>)
    requires
        forall|i: int| 0 <= i < s.len() ==> #[trigger] s[i].1 == 0,
    ensures
        total_in(s, k) == 0,
    decreases s.len(),
{
    if s.len() > 0 {
        assert forall|i: int| 0 <= i < s.drop_last().len() implies #[trigger] s.drop_last()[i].1 == 0 by {
            assert(s.drop_last()[i] == s[i]);
        }
        lemma_zero_totals(s.drop_last(), k);
        assert(s[s.len() - 1].1 == 0);
    }
}

/// The view of an attestation as a table row.
pub open spec fn row_of(a: &Attestation) -> AttestationRowView {
    AttestationRowView {
        block: a.block_number,
        root_hex: a.block_root_hex@,
        scheme: a.proof_scheme@,
        hints_ok: a.hints_threshold_ok,
        signers: a.signers,
        wraps_ok: a.wraps_ok,
        valid: a.valid,
    }
}

impl AttestationRow {
    /// The table row of an attestation.
    pub fn from_attestation(a: &Attestation) -> (r: AttestationRow)
        ensures
            r@ == row_of(a),
    {
        AttestationRow {
            block: a.block_number,
            root_hex: a.block_root_hex.clone(),
            scheme: a.proof_scheme.clone(),
            hints_ok: a.hints_threshold_ok,
            signers: a.signers,
            wraps_ok: a.wraps_ok,
            valid: a.valid,
        }
    }
}

impl AssuranceReport {
    /// Assemble a report from a verified block run: the per-block
    /// attestations, plus the HBAR reconciliation of the resulting journal.
    pub fn from_attested(journal: &Journal, attestations: &[Attestation]) -> (r: Self)
        requires
            positions_fit(journal@),
            lines_sum_fits(reconcile_spec(journal@, Asset::Hbar)),
            fold_fits(group_pairs(journal@)),
        ensures
            r.rows_view() == attestations@.map_values(|a: Attestation| row_of(&a)),
            r.recon_view() == reconcile_spec(journal@, Asset::Hbar),
            r.asset == Asset::Hbar,
            r.total == lines_sum(reconcile_spec(journal@, Asset::Hbar)),
            r.postings == journal@.len(),
            r.conserved == (breaks_of(journal@).len() == 0),
            r.conserved ==> r.total == 0,
    {
        let asset = Asset::Hbar;
        let reconciliation = reconcile(journal, &asset);
        let ghost rv = reconciliation@.map_values(|l: ReconLine| l@);
        let mut total: i128 = 0;
        let mut i: usize = 0;
        assert(rv.take(0) =~= Seq::<ReconLineView>::empty());
        while i < reconciliation.len()
            invariant
                i <= reconciliation@.len(),
                rv == reconciliation@.map_values(|l: ReconLine| l@),
                lines_sum_fits(rv),
                total == lines_sum(rv.take(i as int)),
            decreases reconciliation@.len() - i,
        {
            assert(rv.take(i + 1).drop_last() =~= rv.take(i as int));
            assert(rv.take(i + 1).last() == reconciliation@[i as int]@);
            assert(fits_i128(lines_sum(rv.take(i + 1))));
            total = crate::money::add(total, reconciliation[i].amount);
            i += 1;
        }
        assert(rv.take(i as int) =~= rv);
        let mut rows: Vec<AttestationRow> = Vec::new();
        let mut k: usize = 0;
        while k < attestations.len()
            invariant
                k <= attestations@.len(),
                rows@.len() == k,
                forall|j: int| 0 <= j < k ==> #[trigger] rows@[j]@ == row_of(&attestations@[j]),
            decreases attestations@.len() - k,
        {
            let row = AttestationRow::from_attestation(&attestations[k]);
            let ghost prev = rows@;
            rows.push(row);
            assert forall|j: int| 0 <= j < k + 1 implies #[trigger] rows@[j]@ == row_of(
                &attestations@[j],
            ) by {
                if j < k {
                    assert(rows@[j] == prev[j]);
                }
            }
            k += 1;
        }
        assert(rows@.map_values(|a: AttestationRow| a@) =~= attestations@.map_values(
            |a: Attestation| row_of(&a),
        ));
        let breaks = journal.conservation_breaks();
        proof {
            lemma_reconciliation_total(journal@, Asset::Hbar);
            if breaks_of(journal@).len() == 0 {
                crate::conservation::lemma_unbroken_book_closes(journal@, Asset::Hbar);
            }
        }
        AssuranceReport {
            attestations: rows,
            reconciliation,
            asset,
            total,
            postings: journal.len(),
            conserved: breaks.len() == 0,
        }
    }
}


// ---------------------------------------------------------------------------
// What the reconciliation sums to
// ---------------------------------------------------------------------------

/// Each entry as `(account, amount)`, counting entries of other assets as
/// zero.
pub open spec fn account_amounts(es: Seq<EntryView>, asset: Asset) -> Seq<(Seq<char>, int)> {
    es.map_values(
        |e: EntryView|
            (
                e.account,
                if e.asset == asset {
                    e.amount
                } else {
                    0
                },
            ),
    )
}

proof fn lemma_account_amounts_total(es: Seq<EntryView>, asset: Asset, k: Seq<char>)
    ensures
        total_in(account_amounts(es, asset), k) == total_in(position_pairs(es, k, None), asset),
    decreases es.len(),
{
    if es.len() > 0 {
        let e = es.last();
        let d = es.drop_last();
        lemma_account_amounts_total(d, asset, k);
        assert(account_amounts(es, asset).drop_last() =~= account_amounts(d, asset));
        let one = seq![(e.asset, e.amount)];
        let none = Seq::<(Asset, int)>::empty();
        assert(one.drop_last() =~= none);
        assert(total_in(none, asset) == 0);
        assert(position_pairs(d, k, None) + none =~= position_pairs(d, k, None));
        crate::balance::lemma_total_in_concat(position_pairs(d, k, None), one, asset);
    }
}

proof fn lemma_account_amounts_sum(es: Seq<EntryView>, asset: Asset)
    ensures
        sum_where(account_amounts(es, asset), any_key()) == asset_total(es, asset),
    decreases es.len(),
{
    if es.len() == 0 {
        assert(asset_pairs(es) =~= Seq::<(Asset, int)>::empty());
    } else {
        let d = es.drop_last();
        lemma_account_amounts_sum(d, asset);
        assert(account_amounts(es, asset).drop_last() =~= account_amounts(d, asset));
        assert(asset_pairs(es).drop_last() =~= asset_pairs(d));
    }
}

/// The positions of a list of accounts sum to the sum of a list with the
/// same keys that holds each account's total.
proof fn lemma_positions_sum(
    es: Seq<EntryView>,
    accts: Seq<(Seq<char>, int)>,
    f: Seq<(Seq<char>, int)>,
    asset: Asset,
)
    requires
        keys_of(accts) == keys_of(f),
        forall|j: int|
            0 <= j < f.len() ==> #[trigger] f[j].1 == total_in(position_pairs(es, f[j].0, None), asset),
    ensures
        lines_sum(positions_in(es, accts, asset)) == sum_where(f, any_key()),
    decreases accts.len(),
{
    assert(accts.len() == keys_of(accts).len());
    assert(f.len() == keys_of(f).len());
    if accts.len() > 0 {
        let da = accts.drop_last();
        let df = f.drop_last();
        assert(keys_of(da) =~= keys_of(accts).drop_last());
        assert(keys_of(df) =~= keys_of(f).drop_last());
        assert forall|j: int| 0 <= j < df.len() implies #[trigger] df[j].1 == total_in(
            position_pairs(es, df[j].0, None),
            asset,
        ) by {
            assert(df[j] == f[j]);
        }
        lemma_positions_sum(es, da, df, asset);
        assert(accts.last().0 == keys_of(accts)[accts.len() - 1]);
        assert(f.last().0 == keys_of(f)[f.len() - 1]);
        assert(f[f.len() - 1].1 == total_in(position_pairs(es, f.last().0, None), asset));
        let prev = positions_in(es, da, asset);
        let m = totals_map(position_pairs(es, accts.last().0, None));
        if m.contains_key(asset) {
            let l = ReconLineView { account: accts.last().0, asset, amount: m[asset] };
            assert((prev + seq![l]).drop_last() =~= prev);
        } else {
            assert(prev + Seq::<ReconLineView>::empty() =~= prev);
        }
    }
}

proof fn lemma_lines_sum_prepend(x: ReconLineView, t: Seq<ReconLineView>)
    ensures
        lines_sum(seq![x] + t) == x.amount + lines_sum(t),
    decreases t.len(),
{
    if t.len() == 0 {
        assert((seq![x] + t).drop_last() =~= Seq::<ReconLineView>::empty());
        assert((seq![x] + t).last() == x);
        assert(lines_sum(Seq::<ReconLineView>::empty()) == 0);
    } else {
        assert((seq![x] + t).drop_last() =~= seq![x] + t.drop_last());
        assert((seq![x] + t).last() == t.last());
        lemma_lines_sum_prepend(x, t.drop_last());
    }
}

proof fn lemma_insert_desc_sum(s: Seq<ReconLineView>, x: ReconLineView)
    ensures
        lines_sum(insert_desc(s, x)) == lines_sum(s) + x.amount,
    decreases s.len(),
{
    if s.len() == 0 {
        lemma_lines_sum_prepend(x, s);
    } else if s[0].amount >= x.amount {
        lemma_insert_desc_sum(s.drop_first(), x);
        lemma_lines_sum_prepend(s[0], insert_desc(s.drop_first(), x));
        lemma_lines_sum_prepend(s[0], s.drop_first());
        assert(seq![s[0]] + s.drop_first() =~= s);
    } else {
        lemma_lines_sum_prepend(x, s);
    }
}

/// Sorting the lines keeps their sum.
proof fn lemma_sort_desc_sum(s: Seq<ReconLineView>)
    ensures
        lines_sum(sort_desc(s)) == lines_sum(s),
    decreases s.len(),
{
    if s.len() > 0 {
        lemma_sort_desc_sum(s.drop_last());
        lemma_insert_desc_sum(sort_desc(s.drop_last()), s.last());
    }
}

/// The reconciliation of an asset sums to the whole book's total of that
/// asset: every account's position, added up, is what the book holds.
pub proof fn lemma_reconciliation_total(es: Seq<EntryView>, asset: Asset)
    ensures
        lines_sum(reconcile_spec(es, asset)) == asset_total(es, asset),
{
    let accts = accounts_of(es);
    let amts = account_amounts(es, asset);
    let f = accum_fold::<String>(amts);
    assert(keys_of(account_keys(es)) =~= keys_of(amts));
    lemma_keys_fold::<String>(account_keys(es), amts);
    lemma_accum_fold::<String>(amts, Seq::<char>::empty());
    assert forall|j: int| 0 <= j < f.len() implies #[trigger] f[j].1 == total_in(
        position_pairs(es, f[j].0, None),
        asset,
    ) by {
        lemma_get_sorted_index::<String, int>(f, j);
        lemma_accum_fold::<String>(amts, f[j].0);
        lemma_account_amounts_total(es, asset, f[j].0);
    }
    lemma_positions_sum(es, accts, f, asset);
    lemma_sum_where_fold::<String>(amts, any_key());
    lemma_account_amounts_sum(es, asset);
    lemma_sort_desc_sum(positions_in(es, accts, asset));
}

/// The sub-ledger's running balances end at the account's holdings: the
/// `(asset, amount)` pairs the CSV folds are exactly those a whole-journal
/// position folds, in the same order.
pub proof fn lemma_subledger_folds_holdings(es: Seq<EntryView>, account: Seq<char>)
    ensures
        asset_pairs(of_account(es, account)) == position_pairs(es, account, None),
    decreases es.len(),
{
    if es.len() == 0 {
        assert(asset_pairs(of_account(es, account)) =~= Seq::<(Asset, int)>::empty());
    } else {
        let d = es.drop_last();
        let e = es.last();
        lemma_subledger_folds_holdings(d, account);
        if e.account == account {
            assert(asset_pairs(of_account(es, account)) =~= asset_pairs(of_account(d, account))
                + seq![(e.asset, e.amount)]);
        } else {
            assert(of_account(es, account) =~= of_account(d, account));
            assert(position_pairs(es, account, None) =~= position_pairs(d, account, None));
        }
    }
}

// ---------------------------------------------------------------------------
// The reconciliation of a book in range
// ---------------------------------------------------------------------------

/// The sum of the magnitudes of the lines' amounts.
pub open spec fn lines_abs(s: Seq<ReconLineView>) -> int
    decreases s.len(),
{
    if s.len() == 0 {
        0
    } else {
        lines_abs(s.drop_last()) + magnitude(s.last().amount)
    }
}

proof fn lemma_lines_sum_within(s: Seq<ReconLineView>)
    ensures
        0 <= lines_abs(s),
        -lines_abs(s) <= lines_sum(s) <= lines_abs(s),
    decreases s.len(),
{
    if s.len() > 0 {
        lemma_lines_sum_within(s.drop_last());
    }
}

proof fn lemma_lines_abs_take(s: Seq<ReconLineView>, i: int)
    requires
        0 <= i <= s.len(),
    ensures
        lines_abs(s.take(i)) <= lines_abs(s),
    decreases s.len(),
{
    if i < s.len() {
        assert(s.drop_last().take(i) =~= s.take(i));
        lemma_lines_abs_take(s.drop_last(), i);
    } else {
        assert(s.take(i) =~= s);
    }
}

proof fn lemma_lines_abs_prepend(x: ReconLineView, t: Seq<ReconLineView>)
    ensures
        lines_abs(seq![x] + t) == magnitude(x.amount) + lines_abs(t),
    decreases t.len(),
{
    if t.len() == 0 {
        assert((seq![x] + t).drop_last() =~= Seq::<ReconLineView>::empty());
        assert((seq![x] + t).last() == x);
        assert(lines_abs(Seq::<ReconLineView>::empty()) == 0);
    } else {
        assert((seq![x] + t).drop_last() =~= seq![x] + t.drop_last());
        assert((seq![x] + t).last() == t.last());
        lemma_lines_abs_prepend(x, t.drop_last());
    }
}

proof fn lemma_sort_desc_abs(s: Seq<ReconLineView>)
    ensures
        lines_abs(sort_desc(s)) == lines_abs(s),
    decreases s.len(),
{
    if s.len() > 0 {
        lemma_sort_desc_abs(s.drop_last());
        lemma_insert_desc_abs(sort_desc(s.drop_last()), s.last());
    }
}

proof fn lemma_insert_desc_abs(s: Seq<ReconLineView>, x: ReconLineView)
    ensures
        lines_abs(insert_desc(s, x)) == lines_abs(s) + magnitude(x.amount),
    decreases s.len(),
{
    if s.len() == 0 {
        lemma_lines_abs_prepend(x, s);
    } else if s[0].amount >= x.amount {
        lemma_insert_desc_abs(s.drop_first(), x);
        lemma_lines_abs_prepend(s[0], insert_desc(s.drop_first(), x));
        lemma_lines_abs_prepend(s[0], s.drop_first());
        assert(seq![s[0]] + s.drop_first() =~= s);
    } else {
        lemma_lines_abs_prepend(x, s);
    }
}

/// Each entry as `(account, magnitude)`, counting other assets as zero.
pub open spec fn account_magnitudes(es: Seq<EntryView>, asset: Asset) -> Seq<(Seq<char>, int)> {
    es.map_values(
        |e: EntryView|
            (
                e.account,
                if e.asset == asset {
                    magnitude(e.amount) as int
                } else {
                    0
                },
            ),
    )
}

proof fn lemma_account_magnitudes_total(es: Seq<EntryView>, asset: Asset, k: Seq<char>)
    ensures
        magnitude(total_in(position_pairs(es, k, None), asset)) <= total_in(
            account_magnitudes(es, asset),
            k,
        ),
    decreases es.len(),
{
    if es.len() > 0 {
        let e = es.last();
        let d = es.drop_last();
        lemma_account_magnitudes_total(d, asset, k);
        assert(account_magnitudes(es, asset).drop_last() =~= account_magnitudes(d, asset));
        let one = seq![(e.asset, e.amount)];
        let none = Seq::<(Asset, int)>::empty();
        assert(one.drop_last() =~= none);
        assert(total_in(none, asset) == 0);
        assert(position_pairs(d, k, None) + none =~= position_pairs(d, k, None));
        crate::balance::lemma_total_in_concat(position_pairs(d, k, None), one, asset);
    }
}

proof fn lemma_account_magnitudes_sum(es: Seq<EntryView>, asset: Asset)
    ensures
        sum_where(account_magnitudes(es, asset), any_key()) <= abs_sum(asset_pairs(es)),
    decreases es.len(),
{
    if es.len() == 0 {
        assert(asset_pairs(es) =~= Seq::<(Asset, int)>::empty());
    } else {
        let d = es.drop_last();
        lemma_account_magnitudes_sum(d, asset);
        assert(account_magnitudes(es, asset).drop_last() =~= account_magnitudes(d, asset));
        assert(asset_pairs(es).drop_last() =~= asset_pairs(d));
    }
}

proof fn lemma_positions_abs(
    es: Seq<EntryView>,
    accts: Seq<(Seq<char>, int)>,
    g: Seq<(Seq<char>, int)>,
    asset: Asset,
)
    requires
        keys_of(accts) == keys_of(g),
        forall|j: int|
            0 <= j < g.len() ==> #[trigger] g[j].1 >= magnitude(
                total_in(position_pairs(es, g[j].0, None), asset),
            ),
    ensures
        lines_abs(positions_in(es, accts, asset)) <= sum_where(g, any_key()),
    decreases accts.len(),
{
    assert(accts.len() == keys_of(accts).len());
    assert(g.len() == keys_of(g).len());
    if accts.len() > 0 {
        let da = accts.drop_last();
        let dg = g.drop_last();
        assert(keys_of(da) =~= keys_of(accts).drop_last());
        assert(keys_of(dg) =~= keys_of(g).drop_last());
        assert forall|j: int| 0 <= j < dg.len() implies #[trigger] dg[j].1 >= magnitude(
            total_in(position_pairs(es, dg[j].0, None), asset),
        ) by {
            assert(dg[j] == g[j]);
        }
        lemma_positions_abs(es, da, dg, asset);
        assert(accts.last().0 == keys_of(accts)[accts.len() - 1]);
        assert(g.last().0 == keys_of(g)[g.len() - 1]);
        assert(g[g.len() - 1].1 >= magnitude(total_in(position_pairs(es, g.last().0, None), asset)));
        let prev = positions_in(es, da, asset);
        let m = totals_map(position_pairs(es, accts.last().0, None));
        if m.contains_key(asset) {
            let l = ReconLineView { account: accts.last().0, asset, amount: m[asset] };
            assert((prev + seq![l]).drop_last() =~= prev);
        } else {
            assert(prev + Seq::<ReconLineView>::empty() =~= prev);
        }
    }
}

/// The reconciliation of a book in range, and every running total of it,
/// stays within `i128`, as does every account's position.
pub proof fn lemma_in_range_report_fits(es: Seq<EntryView>, asset: Asset)
    requires
        in_range(es),
    ensures
        positions_fit(es),
        lines_sum_fits(reconcile_spec(es, asset)),
        fold_fits(group_pairs(es)),
{
    assert forall|a: Seq<char>| #[trigger] fold_fits(position_pairs(es, a, None)) by {
        crate::bounds::lemma_in_range_fits(es, a, None, None);
    }
    crate::bounds::lemma_in_range_fits(es, Seq::<char>::empty(), None, None);
    let accts = accounts_of(es);
    let mags = account_magnitudes(es, asset);
    let g = accum_fold::<String>(mags);
    assert(keys_of(account_keys(es)) =~= keys_of(mags));
    lemma_keys_fold::<String>(account_keys(es), mags);
    lemma_accum_fold::<String>(mags, Seq::<char>::empty());
    assert forall|j: int| 0 <= j < g.len() implies #[trigger] g[j].1 >= magnitude(
        total_in(position_pairs(es, g[j].0, None), asset),
    ) by {
        lemma_get_sorted_index::<String, int>(g, j);
        lemma_accum_fold::<String>(mags, g[j].0);
        lemma_account_magnitudes_total(es, asset, g[j].0);
    }
    lemma_positions_abs(es, accts, g, asset);
    lemma_sum_where_fold::<String>(mags, any_key());
    lemma_account_magnitudes_sum(es, asset);
    let r = reconcile_spec(es, asset);
    lemma_sort_desc_abs(positions_in(es, accts, asset));
    assert forall|i: int| 0 <= i <= r.len() implies fits_i128(#[trigger] lines_sum(r.take(i))) by {
        lemma_lines_abs_take(r, i);
        lemma_lines_sum_within(r.take(i));
    }
}

// ---------------------------------------------------------------------------
// The reconciliation table shows each line's signed amount
// ---------------------------------------------------------------------------

/// A rendered amount is never empty, and it starts with `-` exactly when
/// the amount is negative.
pub proof fn lemma_render_shows_sign(a: Asset, x: int)
    ensures
        asset_render(a, x).len() > 0,
        (asset_render(a, x)[0] == '-') == (x < 0),
{
    let f = asset_render(a, x);
    let m = magnitude(x);
    match a {
        Asset::Hbar => {
            let w = m / crate::money::pow10(8);
            crate::asset::lemma_nat_str(w);
            assert(crate::text::is_digit(crate::text::nat_str(w)[0]));
            if x < 0 {
                assert(f[0] == '-');
            } else {
                assert(f[0] == crate::text::nat_str(w)[0]);
            }
        },
        _ => {
            crate::asset::lemma_nat_str(m);
            assert(crate::text::is_digit(crate::text::nat_str(m)[0]));
            if x < 0 {
                assert(f[0] == '-');
            } else {
                assert(f[0] == crate::text::nat_str(m)[0]);
            }
        },
    }
}

/// The reconciliation table has one row per line, in order, each showing
/// the line's account and the rendering of the line's own amount, sign
/// included (so the rows add up to the total row).
pub proof fn lemma_reconciliation_rows(lines: Seq<ReconLineView>)
    ensures
        recon_rows_spec(lines) == lines.map_values(
            |l: ReconLineView|
                "<tr><td class=\"mono\">"@ + esc_spec(l.account) + "</td><td class=\"num mono\">"@
                    + asset_render(l.asset, l.amount) + "</td></tr>"@,
        ).flatten_alt(),
        forall|i: int|
            0 <= i < lines.len() ==> (asset_render(lines[i].asset, lines[i].amount)[0] == '-') == (
            #[trigger] lines[i].amount < 0),
    decreases lines.len(),
{
    let f = |l: ReconLineView|
        "<tr><td class=\"mono\">"@ + esc_spec(l.account) + "</td><td class=\"num mono\">"@
            + asset_render(l.asset, l.amount) + "</td></tr>"@;
    if lines.len() == 0 {
        assert(lines.map_values(f) =~= Seq::<Seq<char>>::empty());
    } else {
        lemma_reconciliation_rows(lines.drop_last());
        assert(lines.map_values(f).drop_last() =~= lines.drop_last().map_values(f));
        assert(lines.map_values(f).last() == f(lines.last()));
    }
    assert forall|i: int| 0 <= i < lines.len() implies (asset_render(
        lines[i].asset,
        lines[i].amount,
    )[0] == '-') == (#[trigger] lines[i].amount < 0) by {
        lemma_render_shows_sign(lines[i].asset, lines[i].amount);
    }
}

// ---------------------------------------------------------------------------
// The sub-ledger's running balance
// ---------------------------------------------------------------------------

/// The sum of the amounts in asset `a` of the first `n` postings.
pub open spec fn balance_upto(p: Seq<EntryView>, n: nat, a: Asset) -> int
    decreases n,
{
    if n == 0 {
        0
    } else {
        balance_upto(p, (n - 1) as nat, a) + if p[n - 1].asset == a {
            p[n - 1].amount
        } else {
            0
        }
    }
}

proof fn lemma_balance_upto_total(p: Seq<EntryView>, n: nat, a: Asset)
    requires
        n <= p.len(),
    ensures
        balance_upto(p, n, a) == total_in(asset_pairs(p.take(n as int)), a),
    decreases n,
{
    if n == 0 {
        assert(asset_pairs(p.take(0)) =~= Seq::<(Asset, int)>::empty());
    } else {
        lemma_balance_upto_total(p, (n - 1) as nat, a);
        assert(asset_pairs(p.take(n as int)).drop_last() =~= asset_pairs(p.take(n - 1)));
        assert(asset_pairs(p.take(n as int)).last() == (p[n - 1].asset, p[n - 1].amount));
    }
}

proof fn lemma_balance_upto_prefix(p: Seq<EntryView>, q: Seq<EntryView>, n: nat, a: Asset)
    requires
        n <= q.len() <= p.len(),
        forall|i: int| 0 <= i < q.len() ==> q[i] == p[i],
    ensures
        balance_upto(q, n, a) == balance_upto(p, n, a),
    decreases n,
{
    if n > 0 {
        lemma_balance_upto_prefix(p, q, (n - 1) as nat, a);
        assert(q[n - 1] == p[n - 1]);
    }
}

proof fn lemma_balance_upto_steady(p: Seq<EntryView>, k: nat, n: nat, a: Asset)
    requires
        k <= n <= p.len(),
        forall|m: int| k <= m < n ==> (#[trigger] p[m]).asset != a,
    ensures
        balance_upto(p, n, a) == balance_upto(p, k, a),
    decreases n,
{
    if n > k {
        lemma_balance_upto_steady(p, k, (n - 1) as nat, a);
        assert(p[n - 1].asset != a);
    }
}

/// The rows of a sub-ledger with their running balances.
pub open spec fn running_rows(p: Seq<EntryView>) -> Seq<Seq<char>> {
    Seq::new(p.len(), |k: int| csv_row_spec(p[k], balance_upto(p, (k + 1) as nat, p[k].asset)))
}

/// The sub-ledger has one row per posting, in order, and each row's
/// running balance is the sum of the amounts in the row's asset of the
/// postings up to and including it, whatever the asset.
pub proof fn lemma_csv_running_balance(p: Seq<EntryView>)
    ensures
        csv_rows_spec(p) == running_rows(p).flatten_alt(),
    decreases p.len(),
{
    if p.len() == 0 {
        assert(running_rows(p) =~= Seq::<Seq<char>>::empty());
    } else {
        let d = p.drop_last();
        lemma_csv_running_balance(d);
        assert forall|k: int| 0 <= k < d.len() implies #[trigger] running_rows(p)[k] == running_rows(
            d,
        )[k] by {
            lemma_balance_upto_prefix(p, d, (k + 1) as nat, p[k].asset);
        }
        assert(running_rows(p).drop_last() =~= running_rows(d));
        lemma_balance_upto_total(p, p.len() as nat, p.last().asset);
        assert(p.take(p.len() as int) =~= p);
        assert(running_rows(p).last() == csv_row_spec(
            p.last(),
            total_in(asset_pairs(p), p.last().asset),
        ));
    }
}

/// The last row of each asset in an account's sub-ledger shows the
/// account's holdings of that asset.
pub proof fn lemma_csv_ends_at_holdings(es: Seq<EntryView>, account: Seq<char>, k: int)
    requires
        0 <= k < of_account(es, account).len(),
        forall|m: int|
            k < m < of_account(es, account).len() ==> (#[trigger] of_account(es, account)[m]).asset
                != of_account(es, account)[k].asset,
    ensures
        balance_upto(of_account(es, account), (k + 1) as nat, of_account(es, account)[k].asset)
            == total_in(position_pairs(es, account, None), of_account(es, account)[k].asset),
{
    let p = of_account(es, account);
    let a = p[k].asset;
    lemma_balance_upto_steady(p, (k + 1) as nat, p.len() as nat, a);
    lemma_balance_upto_total(p, p.len() as nat, a);
    assert(p.take(p.len() as int) =~= p);
    lemma_subledger_folds_holdings(es, account);
}

// ---------------------------------------------------------------------------
// The reconciliation is the nonzero positions, largest first
// ---------------------------------------------------------------------------

/// Amounts never increase along the lines.
pub open spec fn descending(s: Seq<ReconLineView>) -> bool {
    forall|i: int, j: int| 0 <= i < j < s.len() ==> (#[trigger] s[i]).amount >= (#[trigger] s[j]).amount
}

proof fn lemma_insert_desc_is_insert(s: Seq<ReconLineView>, x: ReconLineView) -> (p: int)
    ensures
        0 <= p <= s.len(),
        insert_desc(s, x) == s.insert(p, x),
    decreases s.len(),
{
    if s.len() == 0 {
        assert(seq![x] =~= s.insert(0, x));
        0
    } else if s[0].amount >= x.amount {
        let q = lemma_insert_desc_is_insert(s.drop_first(), x);
        assert(seq![s[0]] + s.drop_first().insert(q, x) =~= s.insert(q + 1, x));
        q + 1
    } else {
        assert(seq![x] + s =~= s.insert(0, x));
        0
    }
}

proof fn lemma_insert_desc_sorted(s: Seq<ReconLineView>, x: ReconLineView)
    requires
        descending(s),
    ensures
        descending(insert_desc(s, x)),
    decreases s.len(),
{
    if s.len() > 0 {
        let t = s.drop_first();
        if s[0].amount >= x.amount {
            assert(descending(t)) by {
                assert forall|i: int, j: int| 0 <= i < j < t.len() implies (#[trigger] t[i]).amount
                    >= (#[trigger] t[j]).amount by {
                    assert(t[i] == s[i + 1]);
                    assert(t[j] == s[j + 1]);
                }
            }
            lemma_insert_desc_sorted(t, x);
            let q = lemma_insert_desc_is_insert(t, x);
            let u = insert_desc(t, x);
            let r = seq![s[0]] + u;
            assert forall|i: int, j: int| 0 <= i < j < r.len() implies (#[trigger] r[i]).amount >= (
            #[trigger] r[j]).amount by {
                if i == 0 {
                    assert(r[j] == u[j - 1]);
                    if j - 1 < q {
                        assert(u[j - 1] == t[j - 1]);
                        assert(t[j - 1] == s[j]);
                    } else if j - 1 > q {
                        assert(u[j - 1] == t[j - 2]);
                        assert(t[j - 2] == s[j - 1]);
                    }
                } else {
                    assert(r[i] == u[i - 1]);
                    assert(r[j] == u[j - 1]);
                }
            }
        } else {
            let r = seq![x] + s;
            assert forall|i: int, j: int| 0 <= i < j < r.len() implies (#[trigger] r[i]).amount >= (
            #[trigger] r[j]).amount by {
                assert(r[j] == s[j - 1]);
                if i > 0 {
                    assert(r[i] == s[i - 1]);
                } else if j - 1 > 0 {
                    assert(s[0].amount >= s[j - 1].amount);
                }
            }
        }
    }
}

proof fn lemma_sort_desc(s: Seq<ReconLineView>)
    ensures
        descending(sort_desc(s)),
        sort_desc(s).to_multiset() == s.to_multiset(),
    decreases s.len(),
{
    if s.len() == 0 {
        assert(sort_desc(s) =~= s);
    } else {
        let d = s.drop_last();
        lemma_sort_desc(d);
        lemma_insert_desc_sorted(sort_desc(d), s.last());
        let p = lemma_insert_desc_is_insert(sort_desc(d), s.last());
        vstd::seq_lib::to_multiset_insert(sort_desc(d), p, s.last());
        vstd::seq_lib::to_multiset_build(d, s.last());
        assert(d.push(s.last()) =~= s);
    }
}

/// The positions of a list of accounts: each line is a nonzero position in
/// `asset` of a listed account, and every listed account with a nonzero
/// position has a line.
proof fn lemma_positions_in(es: Seq<EntryView>, accts: Seq<(Seq<char>, int)>, asset: Asset)
    ensures
        forall|i: int|
            0 <= i < positions_in(es, accts, asset).len() ==> {
                &&& (#[trigger] positions_in(es, accts, asset)[i]).asset == asset
                &&& positions_in(es, accts, asset)[i].amount != 0
                &&& positions_in(es, accts, asset)[i].amount == total_in(
                    position_pairs(es, positions_in(es, accts, asset)[i].account, None),
                    asset,
                )
            },
        forall|j: int|
            0 <= j < accts.len() && total_in(position_pairs(es, (#[trigger] accts[j]).0, None), asset)
                != 0 ==> exists|i: int|
                0 <= i < positions_in(es, accts, asset).len() && positions_in(es, accts, asset)[i].account
                    == accts[j].0,
    decreases accts.len(),
{
    if accts.len() > 0 {
        let d = accts.drop_last();
        lemma_positions_in(es, d, asset);
        let prev = positions_in(es, d, asset);
        let a = accts.last().0;
        let m = totals_map(position_pairs(es, a, None));
        let cur = positions_in(es, accts, asset);
        if m.contains_key(asset) {
            let l = ReconLineView { account: a, asset, amount: m[asset] };
            assert(cur == prev + seq![l]);
            assert forall|j: int|
                0 <= j < accts.len() && total_in(position_pairs(es, (#[trigger] accts[j]).0, None), asset)
                    != 0 implies exists|i: int| 0 <= i < cur.len() && cur[i].account == accts[j].0 by {
                if j < d.len() {
                    assert(d[j] == accts[j]);
                    let i = choose|i: int| 0 <= i < prev.len() && prev[i].account == d[j].0;
                    assert(cur[i] == prev[i]);
                } else {
                    assert(cur[prev.len() as int] == l);
                }
            }
        } else {
            assert(cur =~= prev);
            assert forall|j: int|
                0 <= j < accts.len() && total_in(position_pairs(es, (#[trigger] accts[j]).0, None), asset)
                    != 0 implies exists|i: int| 0 <= i < cur.len() && cur[i].account == accts[j].0 by {
                if j < d.len() {
                    assert(d[j] == accts[j]);
                } else {
                    assert(accts[j].0 == a);
                }
            }
        }
    }
}

/// The reconciliation of an asset lists every account's nonzero position
/// in it (with the account's real position), each account that has one,
/// largest position first: the lines are in non-increasing order and are a
/// permutation of the accounts' nonzero positions in account order.
pub proof fn lemma_reconciliation_is_sorted_positions(es: Seq<EntryView>, asset: Asset)
    ensures
        descending(reconcile_spec(es, asset)),
        reconcile_spec(es, asset).to_multiset() == positions_in(es, accounts_of(es), asset).to_multiset(),
        forall|i: int|
            0 <= i < reconcile_spec(es, asset).len() ==> {
                &&& (#[trigger] reconcile_spec(es, asset)[i]).asset == asset
                &&& reconcile_spec(es, asset)[i].amount != 0
                &&& reconcile_spec(es, asset)[i].amount == total_in(
                    position_pairs(es, reconcile_spec(es, asset)[i].account, None),
                    asset,
                )
            },
        forall|k: int|
            0 <= k < es.len() && total_in(position_pairs(es, (#[trigger] es[k]).account, None), asset)
                != 0 ==> exists|i: int|
                0 <= i < reconcile_spec(es, asset).len() && reconcile_spec(es, asset)[i].account
                    == es[k].account,
{
    let accts = accounts_of(es);
    let p = positions_in(es, accts, asset);
    let r = reconcile_spec(es, asset);
    lemma_sort_desc(p);
    lemma_positions_in(es, accts, asset);
    assert forall|i: int| 0 <= i < r.len() implies {
        &&& (#[trigger] r[i]).asset == asset
        &&& r[i].amount != 0
        &&& r[i].amount == total_in(position_pairs(es, r[i].account, None), asset)
    } by {
        assert(r.contains(r[i]));
        vstd::seq_lib::to_multiset_contains(r, r[i]);
        vstd::seq_lib::to_multiset_contains(p, r[i]);
        let j = choose|j: int| 0 <= j < p.len() && p[j] == r[i];
    }
    assert forall|k: int|
        0 <= k < es.len() && total_in(position_pairs(es, (#[trigger] es[k]).account, None), asset)
            != 0 implies exists|i: int| 0 <= i < r.len() && r[i].account == es[k].account by {
        let acct = es[k].account;
        assert(account_keys(es)[k].0 == acct);
        lemma_accum_fold::<String>(account_keys(es), acct);
        let j = choose|j: int| 0 <= j < accts.len() && #[trigger] accts[j].0 == acct;
        let i = choose|i: int| 0 <= i < p.len() && p[i].account == accts[j].0;
        assert(p.contains(p[i]));
        vstd::seq_lib::to_multiset_contains(p, p[i]);
        vstd::seq_lib::to_multiset_contains(r, p[i]);
        let q = choose|q: int| 0 <= q < r.len() && r[q] == p[i];
        assert(r[q].account == acct);
    }
}

} // verus!
