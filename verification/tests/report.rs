use hiero_journal::report::{
    csv_field, esc, short_hash, AssuranceReport, AttestationRow, ReconLine,
};
use hiero_journal::Asset;

fn sample() -> AssuranceReport {
    AssuranceReport {
        attestations: vec![
            AttestationRow {
                block: 0,
                root_hex: "3de47629fe289fc7c4c6757b78c90d5a".into(),
                scheme: "aggregate-Schnorr".into(),
                hints_ok: true,
                signers: Some((2, 3)),
                wraps_ok: None,
                valid: true,
            },
            AttestationRow {
                block: 467,
                root_hex: "a7986473fa0a42a55a74f04eca352ec7".into(),
                scheme: "WRAPS".into(),
                hints_ok: true,
                signers: None,
                wraps_ok: Some(true),
                valid: true,
            },
        ],
        reconciliation: vec![
            ReconLine {
                account: "0.0.2".into(),
                asset: Asset::Hbar,
                amount: 100,
            },
            ReconLine {
                account: "supply:HBAR".into(),
                asset: Asset::Hbar,
                amount: -100,
            },
        ],
        asset: Asset::Hbar,
        total: 0,
        postings: 6,
        conserved: true,
    }
}

#[test]
fn block_range_spans_min_and_max() {
    assert_eq!(sample().block_range(), (0, 467));
}

#[test]
fn html_contains_the_key_facts() {
    let html = sample().to_html();
    assert!(html.contains("Assurance Report"), "title present");
    assert!(
        html.contains("aggregate-Schnorr") && html.contains("WRAPS"),
        "schemes rendered"
    );
    assert!(html.contains("2 / 3"), "signer count rendered");
    assert!(html.contains(">verified<"), "verdict chip rendered");
    assert!(html.contains("supply:HBAR"), "contra account listed");
    assert!(html.contains("0.00000000 ℏ"), "total ties out to zero");
    assert!(
        html.contains("conservation holds"),
        "integrity line present"
    );
}

#[test]
fn escaping_neutralizes_markup() {
    assert_eq!(esc("a<b>&c"), "a&lt;b&gt;&amp;c");
}

#[test]
fn csv_fields_are_rfc4180_safe() {
    assert_eq!(csv_field("cryptoTransfer"), "cryptoTransfer"); // plain: untouched
    assert_eq!(csv_field("a,b"), "\"a,b\""); // comma → quoted
    assert_eq!(csv_field("she said \"hi\""), "\"she said \"\"hi\"\"\""); // quote doubled
    assert_eq!(csv_field("line1\nline2"), "\"line1\nline2\""); // newline → quoted
}

#[test]
fn block_range_of_no_attestations_is_zero() {
    let mut r = sample();
    r.attestations.clear();
    assert_eq!(r.block_range(), (0, 0));
}

#[test]
fn short_hash_keeps_short_and_cuts_long() {
    assert_eq!(short_hash("abc"), "abc");
    let long = "0123456789abcdef0123456789abcdef";
    assert_eq!(short_hash(long), "0123456789abcdef…89abcdef");
}

#[test]
fn html_marks_failures() {
    let mut r = sample();
    r.attestations[1].valid = false;
    r.attestations[1].wraps_ok = Some(false);
    r.conserved = false;
    r.attestations[0].scheme = "<x>".into();
    let html = r.to_html();
    assert!(html.contains(">FAILED<"));
    assert!(html.contains(">FAIL<"));
    assert!(html.contains("conservation BROKEN"));
    assert!(html.contains("&lt;x&gt;"));
    assert!(html.contains("Blocks 0–467."));
}
