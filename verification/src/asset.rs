//! The unit an amount is denominated in. Every amount in the journal is a
//! signed integer in this asset's *smallest* unit: tinybar for HBAR, the
//! token's base unit for a fungible token, or 1 for a single NFT serial.
use crate::keys::SortKey;
use crate::money::{self, render_spec, Amount};
use crate::text::{
    all_digits, chars_of, digit_of, digits_value, int_str, is_digit, nat_str, parse_i64,
    parse_i64_spec, push_char, push_int, push_nat, push_str, KeyOrder,
};
use crate::token::Decimals;
use vstd::prelude::*;

verus! {

/// A Hedera token id in `shard.realm.num` form.
#[derive(Debug, Clone, Copy, PartialEq, Eq, Structural, Hash, PartialOrd, Ord)]
pub struct TokenId {
    pub shard_num: i64,
    pub realm_num: i64,
    pub token_num: i64,
}

impl View for TokenId {
    type V = TokenId;

    open spec fn view(&self) -> TokenId {
        *self
    }
}

/// The `shard.realm.num` text of a token id.
pub open spec fn token_str(t: TokenId) -> Seq<char> {
    int_str(t.shard_num as int) + seq!['.'] + int_str(t.realm_num as int) + seq!['.'] + int_str(
        t.token_num as int,
    )
}

/// The parts of `s` separated by `c` (always at least one part; empty
/// parts are kept), as `str::split` yields them.
pub open spec fn split_on(s: Seq<char>, c: char) -> Seq<Seq<char>>
    decreases s.len(),
{
    if s.len() == 0 {
        seq![Seq::<char>::empty()]
    } else {
        let p = split_on(s.drop_last(), c);
        if s.last() == c {
            p.push(Seq::<char>::empty())
        } else {
            p.update(p.len() - 1, p.last().push(s.last()))
        }
    }
}

/// What `TokenId::parse` accepts: exactly three `.`-separated parts, each
/// an `i64` as `str::parse` reads it.
pub open spec fn parse_token_spec(s: Seq<char>) -> Option<TokenId> {
    let parts = split_on(s, '.');
    if parts.len() == 3 && parse_i64_spec(parts[0]) is Some && parse_i64_spec(parts[1]) is Some
        && parse_i64_spec(parts[2]) is Some {
        Some(
            TokenId {
                shard_num: parse_i64_spec(parts[0])->0,
                realm_num: parse_i64_spec(parts[1])->0,
                token_num: parse_i64_spec(parts[2])->0,
            },
        )
    } else {
        None
    }
}

/// Split a character sequence on `c`.
pub fn split_chars(s: &[char], c: char) -> (r: Vec<Vec<char>>)
    ensures
        r@.map_values(|v: Vec<char>| v@) == split_on(s@, c),
{
    let mut parts: Vec<Vec<char>> = Vec::new();
    let mut cur: Vec<char> = Vec::new();
    let mut i: usize = 0;
    assert(s@.take(0) =~= Seq::<char>::empty());
    assert(parts@.map_values(|v: Vec<char>| v@).push(cur@) =~= split_on(s@.take(0), c));
    while i < s.len()
        invariant
            i <= s@.len(),
            parts@.map_values(|v: Vec<char>| v@).push(cur@) == split_on(s@.take(i as int), c),
        decreases s@.len() - i,
    {
        let ghost before = parts@.map_values(|v: Vec<char>| v@).push(cur@);
        assert(s@.take(i + 1).drop_last() =~= s@.take(i as int));
        assert(s@.take(i + 1).last() == s@[i as int]);
        if s[i] == c {
            let done = cur;
            parts.push(done);
            cur = Vec::new();
            assert(parts@.map_values(|v: Vec<char>| v@).push(cur@) =~= before.push(
                Seq::<char>::empty(),
            ));
        } else {
            cur.push(s[i]);
            assert(parts@.map_values(|v: Vec<char>| v@).push(cur@) =~= before.update(
                before.len() - 1,
                before.last().push(s@[i as int]),
            ));
        }
        i += 1;
    }
    assert(s@.take(s@.len() as int) =~= s@);
    parts.push(cur);
    assert(parts@.map_values(|v: Vec<char>| v@) =~= split_on(s@, c));
    parts
}

impl TokenId {
    pub fn from_parts(shard_num: i64, realm_num: i64, token_num: i64) -> (r: Self)
        ensures
            r == (TokenId { shard_num, realm_num, token_num }),
    {
        TokenId { shard_num, realm_num, token_num }
    }

    /// Parse `shard.realm.num`; `None` unless there are exactly three
    /// parts and each is an `i64`.
    pub fn parse(s: &str) -> (r: Option<Self>)
        ensures
            r == parse_token_spec(s@),
    {
        let cs = chars_of(s);
        let parts = split_chars(cs.as_slice(), '.');
        let ghost pv = parts@.map_values(|v: Vec<char>| v@);
        if parts.len() != 3 {
            return None;
        }
        assert(pv[0] == parts@[0]@);
        assert(pv[1] == parts@[1]@);
        assert(pv[2] == parts@[2]@);
        let shard_num = match parse_i64(parts[0].as_slice()) {
            Some(v) => v,
            None => return None,
        };
        let realm_num = match parse_i64(parts[1].as_slice()) {
            Some(v) => v,
            None => return None,
        };
        let token_num = match parse_i64(parts[2].as_slice()) {
            Some(v) => v,
            None => return None,
        };
        Some(TokenId::from_parts(shard_num, realm_num, token_num))
    }

    /// The `shard.realm.num` text.
    pub fn to_string(&self) -> (r: String)
        ensures
            r@ == token_str(*self),
    {
        let mut s = String::new();
        push_int(&mut s, self.shard_num as i128);
        push_char(&mut s, '.');
        push_int(&mut s, self.realm_num as i128);
        push_char(&mut s, '.');
        push_int(&mut s, self.token_num as i128);
        assert(s@ =~= token_str(*self));
        s
    }
}

impl SortKey for TokenId {
    open spec fn key_lt(a: TokenId, b: TokenId) -> bool {
        a.shard_num < b.shard_num || (a.shard_num == b.shard_num && (a.realm_num < b.realm_num || (
        a.realm_num == b.realm_num && a.token_num < b.token_num)))
    }

    proof fn lemma_key_lt_irreflexive(a: TokenId) {
    }

    proof fn lemma_key_lt_transitive(a: TokenId, b: TokenId, c: TokenId) {
    }

    proof fn lemma_key_lt_total(a: TokenId, b: TokenId) {
    }

    fn compare_key(&self, other: &Self) -> (r: KeyOrder) {
        if self.shard_num != other.shard_num {
            if self.shard_num < other.shard_num {
                KeyOrder::Less
            } else {
                KeyOrder::Greater
            }
        } else if self.realm_num != other.realm_num {
            if self.realm_num < other.realm_num {
                KeyOrder::Less
            } else {
                KeyOrder::Greater
            }
        } else if self.token_num < other.token_num {
            KeyOrder::Less
        } else if self.token_num == other.token_num {
            KeyOrder::Equal
        } else {
            KeyOrder::Greater
        }
    }

    fn copy_key(&self) -> (r: Self) {
        *self
    }
}

/// HBAR's fixed decimal scale: 1 ℏ = 10^8 tinybar.
pub const HBAR_DECIMALS: u8 = 8;

/// An on-ledger asset: native HBAR, a fungible token, or a single NFT.
#[derive(Debug, Clone, Copy, PartialEq, Eq, Structural, Hash, PartialOrd, Ord)]
pub enum Asset {
    /// Native HBAR. Amounts are tinybar (1 ℏ = 100_000_000 tinybar).
    Hbar,
    /// A fungible token, identified by token id. Amounts are the token's
    /// base unit; decimals live off-ledger, so amounts are never rescaled.
    FungibleToken { token_id: TokenId },
    /// A non-fungible token serial, identified by token id + serial.
    Nft { token_id: TokenId, serial_number: u64 },
}

impl View for Asset {
    type V = Asset;

    open spec fn view(&self) -> Asset {
        *self
    }
}

/// Position of a variant in the declared order.
pub open spec fn asset_rank(a: Asset) -> int {
    match a {
        Asset::Hbar => 0,
        Asset::FungibleToken { .. } => 1,
        Asset::Nft { .. } => 2,
    }
}

/// The HBAR symbol suffix.
pub open spec fn hbar_suffix() -> Seq<char> {
    " \u{210F}"@
}

/// `"HBAR"` for HBAR, the token id text otherwise.
pub open spec fn asset_label(a: Asset) -> Seq<char> {
    match a {
        Asset::Hbar => "HBAR"@,
        Asset::FungibleToken { token_id } => token_str(token_id),
        Asset::Nft { token_id, .. } => token_str(token_id),
    }
}

/// `"HBAR"`, the token id, or `token#serial`.
pub open spec fn asset_str(a: Asset) -> Seq<char> {
    match a {
        Asset::Hbar => "HBAR"@,
        Asset::FungibleToken { token_id } => token_str(token_id),
        Asset::Nft { token_id, serial_number } => token_str(token_id) + seq!['#'] + nat_str(
            serial_number as nat,
        ),
    }
}

/// An amount in base units, followed by the asset (`"<amount> <asset>"`).
pub open spec fn base_units_str(amount: int, a: Asset) -> Seq<char> {
    int_str(amount) + seq![' '] + asset_str(a)
}

/// Human rendering without token decimals: HBAR in ℏ, tokens in base units.
pub open spec fn asset_render(a: Asset, amount: int) -> Seq<char> {
    match a {
        Asset::Hbar => render_spec(amount, 8, hbar_suffix()),
        _ => base_units_str(amount, a),
    }
}

/// Human rendering with token decimals from a registry.
pub open spec fn asset_render_with(a: Asset, amount: int, decimals: Map<Seq<char>, u8>) -> Seq<
    char,
> {
    match a {
        Asset::Hbar => render_spec(amount, 8, hbar_suffix()),
        Asset::FungibleToken { token_id } => if decimals.contains_key(token_str(token_id)) {
            render_spec(amount, decimals[token_str(token_id)] as nat, seq![' '] + asset_str(a))
        } else {
            base_units_str(amount, a)
        },
        Asset::Nft { token_id, .. } => if decimals.contains_key(token_str(token_id)) {
            render_spec(amount, decimals[token_str(token_id)] as nat, seq![' '] + asset_str(a))
        } else {
            base_units_str(amount, a)
        },
    }
}

impl SortKey for Asset {
    /// The declared order: HBAR, then fungible tokens, then NFTs; within a
    /// variant by token id, then serial.
    open spec fn key_lt(a: Asset, b: Asset) -> bool {
        if asset_rank(a) != asset_rank(b) {
            asset_rank(a) < asset_rank(b)
        } else {
            match (a, b) {
                (Asset::FungibleToken { token_id: x }, Asset::FungibleToken { token_id: y }) =>
                    TokenId::key_lt(x, y),
                (
                    Asset::Nft { token_id: x, serial_number: s },
                    Asset::Nft { token_id: y, serial_number: t },
                ) => TokenId::key_lt(x, y) || (x == y && s < t),
                _ => false,
            }
        }
    }

    proof fn lemma_key_lt_irreflexive(a: Asset) {
    }

    proof fn lemma_key_lt_transitive(a: Asset, b: Asset, c: Asset) {
    }

    proof fn lemma_key_lt_total(a: Asset, b: Asset) {
    }

    fn compare_key(&self, other: &Self) -> (r: KeyOrder) {
        match (self, other) {
            (Asset::Hbar, Asset::Hbar) => KeyOrder::Equal,
            (Asset::Hbar, _) => KeyOrder::Less,
            (_, Asset::Hbar) => KeyOrder::Greater,
            (Asset::FungibleToken { token_id: x }, Asset::FungibleToken { token_id: y }) => x.compare_key(y),
            (Asset::FungibleToken { .. }, _) => KeyOrder::Less,
            (_, Asset::FungibleToken { .. }) => KeyOrder::Greater,
            (
                Asset::Nft { token_id: x, serial_number: s },
                Asset::Nft { token_id: y, serial_number: t },
            ) => match x.compare_key(y) {
                KeyOrder::Equal => s.compare_key(t),
                o => o,
            },
        }
    }

    fn copy_key(&self) -> (r: Self) {
        *self
    }
}

impl Asset {
    /// A stable label for grouping/printing: `"HBAR"` or the token id.
    pub fn label(&self) -> (r: String)
        ensures
            r@ == asset_label(*self),
    {
        match self {
            Asset::Hbar => {
                let s = String::from_str("HBAR");
                s
            },
            Asset::FungibleToken { token_id } => token_id.to_string(),
            Asset::Nft { token_id, .. } => token_id.to_string(),
        }
    }

    /// `"HBAR"`, the token id, or `token#serial` for an NFT.
    pub fn to_string(&self) -> (r: String)
        ensures
            r@ == asset_str(*self),
    {
        match self {
            Asset::Hbar => String::from_str("HBAR"),
            Asset::FungibleToken { token_id } => token_id.to_string(),
            Asset::Nft { token_id, serial_number } => {
                let mut s = token_id.to_string();
                push_char(&mut s, '#');
                push_nat(&mut s, *serial_number as u128);
                s
            },
        }
    }

    /// `"<amount> <asset>"`.
    fn base_units(&self, amount: Amount) -> (r: String)
        ensures
            r@ == base_units_str(amount as int, *self),
    {
        let mut s = String::new();
        push_int(&mut s, amount);
        push_char(&mut s, ' ');
        let a = self.to_string();
        push_str(&mut s, a.as_str());
        assert(s@ =~= base_units_str(amount as int, *self));
        s
    }

    /// Format an amount in this asset's smallest unit for humans. HBAR is
    /// rendered in ℏ (exactly, by integer split); tokens stay in base
    /// units, since their decimal scale is not on the transfer legs.
    pub fn render(&self, amount: Amount) -> (r: String)
        ensures
            r@ == asset_render(*self, amount as int),
    {
        match self {
            Asset::Hbar => money::render(amount, HBAR_DECIMALS, " \u{210F}"),
            _ => self.base_units(amount),
        }
    }

    /// Like [`Asset::render`], but scales a token by its decimals when the
    /// registry knows them. Falls back to base units for unknown tokens.
    /// HBAR is unaffected.
    pub fn render_with(&self, amount: Amount, decimals: &Decimals) -> (r: String)
        ensures
            r@ == asset_render_with(*self, amount as int, decimals@),
    {
        match self {
            Asset::Hbar => money::render(amount, HBAR_DECIMALS, " \u{210F}"),
            Asset::FungibleToken { token_id } | Asset::Nft { token_id, .. } => {
                let key = token_id.to_string();
                match decimals.get(key.as_str()) {
                    Some(d) => {
                        let mut suffix = String::new();
                        push_char(&mut suffix, ' ');
                        let a = self.to_string();
                        push_str(&mut suffix, a.as_str());
                        assert(suffix@ =~= seq![' '] + asset_str(*self));
                        money::render(amount, d, suffix.as_str())
                    },
                    None => self.base_units(amount),
                }
            },
        }
    }
}

// ---------------------------------------------------------------------------
// Parsing inverts rendering
// ---------------------------------------------------------------------------

proof fn lemma_split_on_nonempty(s: Seq<char>, c: char)
    ensures
        split_on(s, c).len() >= 1,
    decreases s.len(),
{
    if s.len() > 0 {
        lemma_split_on_nonempty(s.drop_last(), c);
    }
}

/// Text without the separator is one part.
proof fn lemma_split_on_none(s: Seq<char>, c: char)
    requires
        forall|i: int| 0 <= i < s.len() ==> s[i] != c,
    ensures
        split_on(s, c) == seq![s],
    decreases s.len(),
{
    if s.len() == 0 {
        assert(s =~= Seq::<char>::empty());
    } else {
        assert forall|i: int| 0 <= i < s.drop_last().len() implies s.drop_last()[i] != c by {
            assert(s.drop_last()[i] == s[i]);
        }
        lemma_split_on_none(s.drop_last(), c);
        assert(s[s.len() - 1] != c);
        assert(s.drop_last().push(s.last()) =~= s);
        assert(seq![s.drop_last()].update(0, s.drop_last().push(s.last())) =~= seq![s]);
    }
}

/// Splitting at a separator splits the parts.
proof fn lemma_split_on_sep(s: Seq<char>, u: Seq<char>, c: char)
    ensures
        split_on(s + seq![c] + u, c) == split_on(s, c) + split_on(u, c),
    decreases u.len(),
{
    if u.len() == 0 {
        assert(s + seq![c] + u =~= s.push(c));
        assert((s.push(c)).drop_last() =~= s);
        assert(split_on(s, c).push(Seq::<char>::empty()) =~= split_on(s, c) + seq![
            Seq::<char>::empty(),
        ]);
    } else {
        let w = s + seq![c] + u;
        assert(w.drop_last() =~= s + seq![c] + u.drop_last());
        assert(w.last() == u.last());
        lemma_split_on_sep(s, u.drop_last(), c);
        lemma_split_on_nonempty(u.drop_last(), c);
        let a = split_on(s, c);
        let b = split_on(u.drop_last(), c);
        if u.last() == c {
            assert((a + b).push(Seq::<char>::empty()) =~= a + b.push(Seq::<char>::empty()));
        } else {
            assert((a + b).update((a + b).len() - 1, (a + b).last().push(u.last())) =~= a + b.update(
                b.len() - 1,
                b.last().push(u.last()),
            ));
        }
    }
}

proof fn lemma_digit_of(d: nat)
    requires
        d < 10,
    ensures
        is_digit(digit_of(d)),
        (digit_of(d) as u32) - 48 == d,
{
}

/// The digits of a natural number read back as it.
pub proof fn lemma_nat_str(n: nat)
    ensures
        nat_str(n).len() > 0,
        all_digits(nat_str(n)),
        digits_value(nat_str(n)) == n,
    decreases n,
{
    if n < 10 {
        lemma_digit_of(n);
        assert(seq![digit_of(n)].drop_last() =~= Seq::<char>::empty());
        assert(seq![digit_of(n)].last() == digit_of(n));
        assert(digits_value(Seq::<char>::empty()) == 0);
        assert(digits_value(seq![digit_of(n)]) == n);
    } else {
        lemma_nat_str(n / 10);
        lemma_digit_of(n % 10);
        let p = nat_str(n / 10);
        assert(p.push(digit_of(n % 10)).drop_last() =~= p);
        assert(p.push(digit_of(n % 10)).last() == digit_of(n % 10));
        assert(n == (n / 10) * 10 + n % 10);
        assert forall|i: int| 0 <= i < nat_str(n).len() implies is_digit(#[trigger] nat_str(n)[i]) by {
            if i < p.len() {
                assert(nat_str(n)[i] == p[i]);
            }
        }
    }
}

/// `str::parse::<i64>` reads back the decimal rendering of an `i64`.
proof fn lemma_parse_int_str(x: i64)
    ensures
        parse_i64_spec(int_str(x as int)) == Some(x),
        forall|i: int| 0 <= i < int_str(x as int).len() ==> #[trigger] int_str(x as int)[i] != '.',
{
    if x < 0 {
        let m = (-(x as int)) as nat;
        lemma_nat_str(m);
        let s = int_str(x as int);
        assert(s.drop_first() =~= nat_str(m));
        assert forall|i: int| 0 <= i < s.len() implies #[trigger] s[i] != '.' by {
            if i > 0 {
                assert(s[i] == nat_str(m)[i - 1]);
                assert(is_digit(nat_str(m)[i - 1]));
            }
        }
    } else {
        lemma_nat_str(x as nat);
        let s = nat_str(x as nat);
        assert(is_digit(s[0]));
        assert forall|i: int| 0 <= i < s.len() implies #[trigger] s[i] != '.' by {
            assert(is_digit(s[i]));
        }
    }
}

/// Parsing inverts rendering: every token id reads back from its
/// `shard.realm.num` text.
pub proof fn lemma_token_id_round_trip(t: TokenId)
    ensures
        parse_token_spec(token_str(t)) == Some(t),
{
    let a = int_str(t.shard_num as int);
    let b = int_str(t.realm_num as int);
    let c = int_str(t.token_num as int);
    lemma_parse_int_str(t.shard_num);
    lemma_parse_int_str(t.realm_num);
    lemma_parse_int_str(t.token_num);
    lemma_split_on_none(a, '.');
    lemma_split_on_none(b, '.');
    lemma_split_on_none(c, '.');
    lemma_split_on_sep(a + seq!['.'] + b, c, '.');
    lemma_split_on_sep(a, b, '.');
    let parts = split_on(token_str(t), '.');
    assert(parts =~= seq![a, b, c]);
}

} // verus!
