//! Token decimal scales: a display concern, kept out of the arithmetic.
//!
//! HTS token amounts on the ledger are integers in the token's base unit;
//! the decimal scale lives in the token's metadata, not in the transfer
//! legs. So decimals are an input the caller supplies, and they only ever
//! affect rendering ([`crate::asset::Asset::render_with`]).
use crate::asset::{split_chars, split_on};
use crate::keys::{
    SortKey,
    get, get_exec, has_key, lemma_get_none, lemma_get_put, lemma_has_key_put, lemma_sorted_put,
    pairs_view, put, put_exec, sorted,
};
use crate::text::{
    chars_of, parse_u8, parse_u8_spec, push_str, split_once_chars, split_once_spec, string_of,
    trim, trim_chars,
};
use vstd::prelude::*;
use vstd::string::*;

verus! {

/// A registry of token id → decimal places. HBAR is not here (its scale
/// of 8 is fixed); this is only for HTS tokens.
#[derive(Debug)]
pub struct Decimals {
    entries: Vec<(String, u8)>,
}

impl View for Decimals {
    type V = Map<Seq<char>, u8>;

    closed spec fn view(&self) -> Map<Seq<char>, u8> {
        let pv = pairs_view(self.entries@);
        Map::new(|k: Seq<char>| has_key(pv, k), |k: Seq<char>| get(pv, k)->0)
    }
}

/// One `token:decimals` pair (already trimmed): the token (trimmed, not
/// empty) and its scale, or the error message.
pub open spec fn pair_step(p: Seq<char>) -> Result<(Seq<char>, u8), Seq<char>> {
    match split_once_spec(p, ':') {
        None => Err("expected 'token:decimals', got '"@ + p + "'"@),
        Some((tok, dec)) => if trim(tok).len() == 0 {
            Err("expected 'token:decimals', got '"@ + p + "'"@)
        } else {
            match parse_u8_spec(trim(dec)) {
                None => Err("bad decimals in '"@ + p + "'"@),
                Some(d) => Ok((trim(tok), d)),
            }
        },
    }
}

/// The trimmed, non-empty entries of a comma-separated list.
pub open spec fn nonblank_trimmed(parts: Seq<Seq<char>>) -> Seq<Seq<char>>
    decreases parts.len(),
{
    if parts.len() == 0 {
        Seq::empty()
    } else {
        let t = trim(parts[0]);
        if t.len() > 0 {
            seq![t] + nonblank_trimmed(parts.drop_first())
        } else {
            nonblank_trimmed(parts.drop_first())
        }
    }
}

/// Record each pair in order into `acc`, stopping at the first bad one.
pub open spec fn record_pairs(ps: Seq<Seq<char>>, acc: Map<Seq<char>, u8>) -> Result<
    Map<Seq<char>, u8>,
    Seq<char>,
>
    decreases ps.len(),
{
    if ps.len() == 0 {
        Ok(acc)
    } else {
        match pair_step(ps[0]) {
            Err(e) => Err(e),
            Ok((t, d)) => record_pairs(ps.drop_first(), acc.insert(t, d)),
        }
    }
}

/// What `Decimals::from_pairs` yields for a `"0.0.123:6,0.0.456:2"` list.
pub open spec fn from_pairs_spec(spec: Seq<char>) -> Result<Map<Seq<char>, u8>, Seq<char>> {
    record_pairs(nonblank_trimmed(split_on(spec, ',')), Map::empty())
}

impl Decimals {
    #[verifier::type_invariant]
    closed spec fn wf(self) -> bool {
        sorted::<String, u8>(pairs_view(self.entries@))
    }

    pub fn new() -> (r: Self)
        ensures
            r@ == Map::<Seq<char>, u8>::empty(),
    {
        let r = Decimals { entries: Vec::new() };
        assert(r@ =~= Map::<Seq<char>, u8>::empty());
        r
    }

    /// Record a token's decimal scale (replacing any earlier one).
    pub fn set(&mut self, token: &str, decimals: u8)
        ensures
            final(self)@ == old(self)@.insert(token@, decimals),
    {
        proof {
            use_type_invariant(&*self);
        }
        let ghost before = pairs_view(self.entries@);
        let mut es: Vec<(String, u8)> = Vec::new();
        std::mem::swap(&mut es, &mut self.entries);
        let key = String::from_str(token);
        put_exec(&mut es, key, decimals);
        proof {
            let after = pairs_view(es@);
            assert forall|k: Seq<char>| #![auto] true implies has_key(after, k) == (k == token@
                || has_key(before, k)) && get(after, k) == if k == token@ {
                Some(decimals)
            } else {
                get(before, k)
            } by {
                lemma_has_key_put::<String, u8>(before, token@, decimals, k);
                lemma_get_put::<String, u8>(before, token@, decimals, k);
            }
        }
        self.entries = es;
        assert(self@ =~= old(self)@.insert(token@, decimals));
    }

    /// The decimal scale for a token, if known.
    pub fn get(&self, token: &str) -> (r: Option<u8>)
        ensures
            r == if self@.contains_key(token@) {
                Some(self@[token@])
            } else {
                None
            },
    {
        proof {
            use_type_invariant(self);
        }
        let key = String::from_str(token);
        let r = get_exec(&self.entries, &key);
        proof {
            lemma_get_none(pairs_view(self.entries@), token@);
        }
        r
    }

    /// Parse a `"0.0.123:6,0.0.456:2"` list. Whitespace around entries is
    /// tolerated and empty entries are skipped; a malformed pair (no `:`,
    /// an empty token, or a scale that is not a `u8`) is an error naming it.
    pub fn from_pairs(spec: &str) -> (r: Result<Self, String>)
        ensures
            r matches Ok(d) ==> from_pairs_spec(spec@) == Ok::<Map<Seq<char>, u8>, Seq<char>>(d@),
            r matches Err(e) ==> from_pairs_spec(spec@) == Err::<Map<Seq<char>, u8>, Seq<char>>(
                e@,
            ),
    {
        let cs = chars_of(spec);
        let parts = split_chars(cs.as_slice(), ',');
        let ghost all = parts@.map_values(|v: Vec<char>| v@);
        let mut d = Decimals::new();
        let mut i: usize = 0;
        assert(all.skip(0) =~= all);
        while i < parts.len()
            invariant
                i <= parts@.len(),
                all == parts@.map_values(|v: Vec<char>| v@),
                all == split_on(spec@, ','),
                record_pairs(nonblank_trimmed(all), Map::empty()) == record_pairs(
                    nonblank_trimmed(all.skip(i as int)),
                    d@,
                ),
            decreases parts@.len() - i,
        {
            let ghost rest = all.skip(i as int);
            assert(rest[0] == parts@[i as int]@);
            assert(rest.drop_first() =~= all.skip(i + 1));
            let pair = trim_chars(parts[i].as_slice());
            if pair.len() > 0 {
                let ghost p = pair@;
                assert(nonblank_trimmed(rest) == seq![p] + nonblank_trimmed(all.skip(i + 1)));
                assert((seq![p] + nonblank_trimmed(all.skip(i + 1))).drop_first() =~= nonblank_trimmed(
                    all.skip(i + 1),
                ));
                match split_once_chars(pair.as_slice(), ':') {
                    None => {
                        let mut msg = String::from_str("expected 'token:decimals', got '");
                        let ps = string_of(pair.as_slice());
                        push_str(&mut msg, ps.as_str());
                        push_str(&mut msg, "'");
                        return Err(msg);
                    },
                    Some((tok, dec)) => {
                        let tt = trim_chars(tok.as_slice());
                        if tt.len() == 0 {
                            let mut msg = String::from_str("expected 'token:decimals', got '");
                            let ps = string_of(pair.as_slice());
                            push_str(&mut msg, ps.as_str());
                            push_str(&mut msg, "'");
                            return Err(msg);
                        }
                        let dt = trim_chars(dec.as_slice());
                        match parse_u8(dt.as_slice()) {
                            None => {
                                let mut msg = String::from_str("bad decimals in '");
                                let ps = string_of(pair.as_slice());
                                push_str(&mut msg, ps.as_str());
                                push_str(&mut msg, "'");
                                return Err(msg);
                            },
                            Some(v) => {
                                let ts = string_of(tt.as_slice());
                                d.set(ts.as_str(), v);
                            },
                        }
                    },
                }
            } else {
                assert(nonblank_trimmed(rest) == nonblank_trimmed(all.skip(i + 1)));
            }
            i += 1;
        }
        assert(nonblank_trimmed(all.skip(i as int)) =~= Seq::<Seq<char>>::empty());
        Ok(d)
    }
}

impl Clone for Decimals {
    fn clone(&self) -> (r: Self)
        ensures
            r@ == self@,
    {
        proof {
            use_type_invariant(self);
        }
        let mut es: Vec<(String, u8)> = Vec::new();
        let mut i: usize = 0;
        while i < self.entries.len()
            invariant
                i <= self.entries@.len(),
                es@.len() == i,
                pairs_view(es@) == pairs_view(self.entries@).take(i as int),
            decreases self.entries@.len() - i,
        {
            let k = self.entries[i].0.copy_key();
            assert(k@ == self.entries@[i as int].0@);
            let ghost prev = es@;
            es.push((k, self.entries[i].1));
            assert(es@[i as int] == (k, self.entries@[i as int].1));
            assert(pairs_view(es@)[i as int] == pairs_view(self.entries@)[i as int]);
            assert forall|j: int| 0 <= j < i implies #[trigger] pairs_view(es@)[j] == pairs_view(
                self.entries@,
            )[j] by {
                assert(es@[j] == prev[j]);
                assert(pairs_view(prev)[j] == pairs_view(self.entries@).take(i as int)[j]);
            }
            assert(pairs_view(es@) =~= pairs_view(self.entries@).take(i + 1));
            i += 1;
        }
        assert(pairs_view(self.entries@).take(i as int) =~= pairs_view(self.entries@));
        let r = Decimals { entries: es };
        assert(r@ =~= self@);
        r
    }
}

impl Default for Decimals {
    fn default() -> (r: Self)
        ensures
            r@ == Map::<Seq<char>, u8>::empty(),
    {
        Decimals::new()
    }
}

} // verus!
