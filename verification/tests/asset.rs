use hiero_journal::{Asset, Decimals, TokenId};

#[test]
fn token_id_parses_exactly_three_parts() {
    assert_eq!(TokenId::parse("0.0.123"), Some(TokenId::from_parts(0, 0, 123)));
    assert_eq!(TokenId::parse("-1.+2.3"), Some(TokenId::from_parts(-1, 2, 3)));
    assert_eq!(TokenId::parse("0.0"), None);
    assert_eq!(TokenId::parse("0.0.1.2"), None);
    assert_eq!(TokenId::parse("0..1"), None);
    assert_eq!(TokenId::parse("0.0.x"), None);
    assert_eq!(TokenId::parse("0.0.9223372036854775808"), None);
    assert_eq!(TokenId::parse("0.0.-9223372036854775808"), Some(TokenId::from_parts(0, 0, i64::MIN)));
}

#[test]
fn labels_and_renderings() {
    let t = TokenId::from_parts(0, 0, 731861);
    assert_eq!(t.to_string(), "0.0.731861");
    assert_eq!(Asset::Hbar.label(), "HBAR");
    assert_eq!(Asset::FungibleToken { token_id: t }.label(), "0.0.731861");
    let nft = Asset::Nft { token_id: t, serial_number: 7 };
    assert_eq!(nft.label(), "0.0.731861");
    assert_eq!(nft.to_string(), "0.0.731861#7");
    assert_eq!(Asset::Hbar.render(150_000_000), "1.50000000 ℏ");
    assert_eq!(Asset::FungibleToken { token_id: t }.render(-1181217986), "-1181217986 0.0.731861");
    assert_eq!(nft.render(1), "1 0.0.731861#7");
}

#[test]
fn render_with_scales_known_tokens_only() {
    let t = TokenId::from_parts(0, 0, 731861);
    let tok = Asset::FungibleToken { token_id: t };
    let mut d = Decimals::new();
    assert_eq!(tok.render_with(-1181217986, &d), "-1181217986 0.0.731861");
    d.set("0.0.731861", 6);
    assert_eq!(tok.render_with(-1181217986, &d), "-1181.217986 0.0.731861");
    assert_eq!(Asset::Hbar.render_with(1, &d), "0.00000001 ℏ");
    let nft = Asset::Nft { token_id: t, serial_number: 3 };
    assert_eq!(nft.render_with(1_500_000, &d), "1.500000 0.0.731861#3");
}

#[test]
fn decimals_from_pairs() {
    let d = Decimals::from_pairs(" 0.0.123:6 , ,0.0.456: 2").unwrap();
    assert_eq!(d.get("0.0.123"), Some(6));
    assert_eq!(d.get("0.0.456"), Some(2));
    assert_eq!(d.get("0.0.789"), None);
    assert_eq!(Decimals::from_pairs("").unwrap().get("x"), None);
    assert_eq!(
        Decimals::from_pairs("0.0.1:2,oops").unwrap_err(),
        "expected 'token:decimals', got 'oops'"
    );
    assert_eq!(Decimals::from_pairs("0.0.1:256").unwrap_err(), "bad decimals in '0.0.1:256'");
    let d2 = Decimals::from_pairs("a:1,a:3").unwrap();
    assert_eq!(d2.get("a"), Some(3));
    let copy = d2.clone();
    assert_eq!(copy.get("a"), Some(3));
    let dflt = Decimals::default();
    assert_eq!(dflt.get("a"), None);
}

#[test]
fn decimals_refuse_an_empty_token() {
    assert_eq!(Decimals::from_pairs(":6").unwrap_err(), "expected 'token:decimals', got ':6'");
    assert_eq!(Decimals::from_pairs(" : 6").unwrap_err(), "expected 'token:decimals', got ': 6'");
    assert_eq!(
        Decimals::from_pairs("0.0.1:2, :x").unwrap_err(),
        "expected 'token:decimals', got ':x'"
    );
}
