use hiero_journal::{
    block_key, check_format, ingest_parsed, proof_verdict, to_hex, Attestation, Journal,
    ProofScheme, SourceError, StreamFormat, Transaction, TransferLeg,
};

#[test]
fn block_keys_order_numerically() {
    assert_eq!(block_key("467.blk.gz"), (467, "467.blk.gz".to_string()));
    assert_eq!(block_key("genesis.blk"), (u64::MAX, "genesis.blk".to_string()));
    assert_eq!(block_key("b10x2"), (10, "b10x2".to_string()));
    assert_eq!(block_key("99999999999999999999.blk").0, u64::MAX);
    let mut names = vec!["10.blk", "2.blk", "x.blk"];
    names.sort_by_key(|n| block_key(n));
    assert_eq!(names, vec!["2.blk", "10.blk", "x.blk"]);
}

#[test]
fn hex_is_lower_case_two_digits_per_byte() {
    assert_eq!(to_hex(&[0x00, 0x0f, 0xa7, 0xff]), "000fa7ff");
    assert_eq!(to_hex(&[]), "");
}

#[test]
fn format_checks() {
    assert!(check_format(Ok(StreamFormat::RecordFileV6), StreamFormat::RecordFileV6, "f").is_ok());
    assert!(matches!(
        check_format(Ok(StreamFormat::BlockStream), StreamFormat::RecordFileV6, "f.blk"),
        Err(SourceError::UnsupportedFormat(l)) if l == "f.blk"
    ));
    assert!(matches!(
        check_format(Err("TooShort".to_string()), StreamFormat::BlockStream, "f"),
        Err(SourceError::Stream(m)) if m == "TooShort"
    ));
}

#[test]
fn proof_verdicts() {
    assert!(proof_verdict(Ok((467, true)), "467.blk.gz").is_ok());
    assert!(matches!(
        proof_verdict(Ok((467, false)), "467.blk.gz"),
        Err(SourceError::ProofInvalid(m)) if m == "block 467 at 467.blk.gz"
    ));
    assert!(matches!(proof_verdict(Err("bad".into()), "x"), Err(SourceError::Stream(m)) if m == "bad"));
}

#[test]
fn attestations_record_what_was_checked() {
    let a = Attestation::new(0, &[0xde, 0xad], ProofScheme::AggregateSchnorr, true, Some((2, 3)), None, true);
    assert_eq!(a.block_root_hex, "dead");
    assert_eq!(a.proof_scheme, "aggregate-Schnorr");
    assert!(a.verdict("0.blk.gz").is_ok());
    let b = Attestation::new(9, &[], ProofScheme::WrapsCompressedProof, true, None, Some(false), false);
    assert_eq!(b.proof_scheme, "WRAPS");
    assert!(matches!(b.verdict("9.blk"), Err(SourceError::ProofInvalid(m)) if m == "block 9 at 9.blk"));
    let c = Attestation::new(1, &[], ProofScheme::Other, false, None, None, false);
    assert_eq!(c.proof_scheme, "unknown");
}

#[test]
fn parsed_transactions_are_ingested_or_nothing_is() {
    let mut j = Journal::new();
    assert!(matches!(ingest_parsed(&mut j, Err("Decode".into())), Err(SourceError::Stream(m)) if m == "Decode"));
    assert!(j.is_empty());
    let tx = Transaction {
        consensus_timestamp: "1.0".into(),
        day: "1970-01-01".into(),
        payer: "0.0.2".into(),
        tx_type: "cryptoTransfer".into(),
        result_code: 22,
        charged_fee_tinybar: 0,
        transfers: vec![
            TransferLeg { account: "0.0.2".into(), amount: -5 },
            TransferLeg { account: "0.0.3".into(), amount: 5 },
        ],
        token_transfers: vec![],
    };
    assert!(ingest_parsed(&mut j, Ok(vec![tx])).is_ok());
    assert_eq!(j.len(), 2);
}
