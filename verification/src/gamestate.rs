//! Building the simulator's starting state from a recorded game state.

use std::collections::{HashMap, HashSet};
use vstd::prelude::*;
use crate::state::{consistent_state, lemma_owned_finite, owned_by};

verus! {

broadcast use vstd::std_specs::hash::group_hash_axioms;

/// The game state loaded from a recorded round.
pub struct GamestateResult {
    /// Owner (country id) of every territory.
    pub owners_data: HashMap<u16, u16>,
    /// Number of territories owned, for every territory id taken as a country id.
    pub owns_data: HashMap<u16, u16>,
    /// Countries that own at least one territory.
    pub remaining: HashSet<u16>,
    /// Round number of the recorded state.
    pub epoch: usize,
    /// Month (1 to 12) before the game's first round.
    pub initial_month: u32,
    /// Year of `initial_month`.
    pub initial_year: i32,
}

/// The map holding the (territory, owner) pairs of `s`.
pub open spec fn pairs_map(s: Seq<(u16, u16)>) -> Map<u16, u16>
    decreases s.len(),
{
    if s.len() == 0 {
        Map::empty()
    } else {
        pairs_map(s.drop_last()).insert(s.last().0, s.last().1)
    }
}

/// The territory ids of `s`.
pub open spec fn pair_keys(s: Seq<(u16, u16)>) -> Seq<u16> {
    s.map_values(|p: (u16, u16)| p.0)
}

/// The owners listed in `s`.
pub open spec fn pair_values(s: Seq<(u16, u16)>) -> Seq<u16> {
    s.map_values(|p: (u16, u16)| p.1)
}

/// Calls `counter::Counter::from_iter` on `values` and returns `Counter::into_map`: the
/// crate's map has one entry per distinct value, holding its number of occurrences.
#[verifier::external_body]
fn count_occurrences(values: Vec<u16>) -> (counts: HashMap<u16, usize>)
    ensures
        forall|c: u16| #[trigger] counts@.contains_key(c) <==> values@.contains(c),
        forall|c: u16| #[trigger] counts@.contains_key(c) ==> counts@[c] == values@.to_multiset().count(c),
{
    values.into_iter().collect::<counter::Counter<u16>>().into_map()
}

pub proof fn lemma_pairs_map(s: Seq<(u16, u16)>)
    requires
        pair_keys(s).no_duplicates(),
    ensures
        pairs_map(s).dom() == pair_keys(s).to_set(),
        pairs_map(s).dom().finite(),
        forall|i: int| 0 <= i < s.len() ==> #[trigger] pairs_map(s)[s[i].0] == s[i].1,
        forall|c: u16| #[trigger] owned_by(pairs_map(s), c).len() == pair_values(s).to_multiset().count(c),
    decreases s.len(),
{
    reveal(owned_by);
    if s.len() == 0 {
        assert(pairs_map(s).dom() =~= pair_keys(s).to_set());
        assert forall|c: u16| #[trigger] owned_by(pairs_map(s), c).len() == pair_values(s).to_multiset().count(c) by {
            assert(owned_by(pairs_map(s), c) =~= Set::empty());
            pair_values(s).to_multiset_ensures();
            assert(!pair_values(s).contains(c));
        }
    } else {
        let p = s.drop_last();
        let (k, v) = s.last();
        assert(pair_keys(p) =~= pair_keys(s).drop_last());
        assert(pair_keys(s) =~= pair_keys(p).push(k));
        assert(pair_values(s) =~= pair_values(p).push(v));
        assert(pair_keys(p).no_duplicates());
        lemma_pairs_map(p);
        pair_keys(p).lemma_push_to_set_commute(k);
        assert(!pair_keys(p).contains(k)) by {
            if pair_keys(p).contains(k) {
                let q = choose|q: int| 0 <= q < pair_keys(p).len() && pair_keys(p)[q] == k;
                assert(pair_keys(s)[q] == pair_keys(s)[s.len() - 1]);
            }
        }
        assert(pairs_map(s).dom() =~= pair_keys(s).to_set());
        assert forall|i: int| 0 <= i < s.len() implies #[trigger] pairs_map(s)[s[i].0] == s[i].1 by {
            if i < s.len() - 1 {
                assert(p[i] == s[i]);
                assert(pair_keys(p)[i] == s[i].0);
            }
        }
        pair_values(p).to_multiset_ensures();
        assert forall|c: u16| #[trigger] owned_by(pairs_map(s), c).len() == pair_values(s).to_multiset().count(c) by {
            let old_set = owned_by(pairs_map(p), c);
            vstd::set_lib::lemma_len_subset(old_set, pairs_map(p).dom());
            assert(!old_set.contains(k));
            if v == c {
                assert(owned_by(pairs_map(s), c) =~= old_set.insert(k));
            } else {
                assert(owned_by(pairs_map(s), c) =~= old_set);
            }
        }
    }
}

/// Builds the simulator's state from the recorded (territory, owner) pairs of a round.
/// Every territory id is also a country id; a country's count is its number of
/// territories and the remaining countries are the owners that occur.
pub fn gamestate_from_territories(
    country_data: &Vec<(u16, u16)>,
    epoch: usize,
    initial_month: u32,
    initial_year: i32,
) -> (result: GamestateResult)
    requires
        pair_keys(country_data@).no_duplicates(),
        country_data.len() <= u16::MAX,
    ensures
        result.owners_data@ == pairs_map(country_data@),
        result.owns_data@.dom() == result.owners_data@.dom(),
        forall|c: u16| #[trigger] result.owns_data@.contains_key(c)
            ==> result.owns_data@[c] == owned_by(result.owners_data@, c).len(),
        forall|c: u16| #[trigger] result.remaining@.contains(c) <==> pair_values(country_data@).contains(c),
        (forall|c: u16| #[trigger] pair_values(country_data@).contains(c) ==> pair_keys(country_data@).contains(c))
            ==> consistent_state(result.owners_data@, result.owns_data@, result.remaining@),
        result.epoch == epoch,
        result.initial_month == initial_month,
        result.initial_year == initial_year,
{
    let ghost s = country_data@;
    let mut owners_data: HashMap<u16, u16> = HashMap::new();
    let mut remaining: HashSet<u16> = HashSet::new();
    let mut values: Vec<u16> = Vec::new();
    let mut i: usize = 0;
    while i < country_data.len()
        invariant
            i <= country_data.len(),
            s == country_data@,
            owners_data@ == pairs_map(s.take(i as int)),
            values@ == pair_values(s.take(i as int)),
            forall|c: u16| #[trigger] remaining@.contains(c) <==> values@.contains(c),
        decreases country_data.len() - i,
    {
        let (k, v) = country_data[i];
        owners_data.insert(k, v);
        values.push(v);
        remaining.insert(v);
        proof {
            assert(s.take(i + 1).drop_last() =~= s.take(i as int));
            assert(pair_values(s.take(i + 1)) =~= pair_values(s.take(i as int)).push(v));
            assert forall|c: u16| #[trigger] remaining@.contains(c) <==> values@.contains(c) by {
                let before = pair_values(s.take(i as int));
                if values@.contains(c) && c != v {
                    let q = choose|q: int| 0 <= q < values@.len() && values@[q] == c;
                    assert(before[q] == c);
                }
                if before.contains(c) {
                    let q = choose|q: int| 0 <= q < before.len() && before[q] == c;
                    assert(values@[q] == c);
                }
                if c == v {
                    assert(values@[values@.len() - 1] == v);
                }
            }
        }
        i += 1;
    }
    proof {
        assert(s.take(s.len() as int) =~= s);
        lemma_pairs_map(s);
    }
    let counts = count_occurrences(values);
    let mut owns_data: HashMap<u16, u16> = HashMap::new();
    let mut j: usize = 0;
    proof {
        assert(s =~= s.take(s.len() as int));
    }
    while j < country_data.len()
        invariant
            j <= country_data.len(),
            s == country_data@,
            country_data.len() <= u16::MAX,
            pair_keys(s).no_duplicates(),
            owners_data@ == pairs_map(s),
            pairs_map(s).dom() == pair_keys(s).to_set(),
            pairs_map(s).dom().finite(),
            forall|c: u16| #[trigger] owned_by(pairs_map(s), c).len() == pair_values(s).to_multiset().count(c),
            forall|c: u16| #[trigger] counts@.contains_key(c) <==> pair_values(s).contains(c),
            forall|c: u16| #[trigger] counts@.contains_key(c) ==> counts@[c] == pair_values(s).to_multiset().count(c),
            owns_data@.dom() == pair_keys(s.take(j as int)).to_set(),
            forall|c: u16| #[trigger] owns_data@.contains_key(c) ==> owns_data@[c] == owned_by(pairs_map(s), c).len(),
        decreases country_data.len() - j,
    {
        let k = country_data[j].0;
        let n: usize = match counts.get(&k) {
            Some(n) => *n,
            None => 0,
        };
        proof {
            pair_values(s).to_multiset_ensures();
            lemma_owned_finite(pairs_map(s), k);
            pair_keys(s).unique_seq_to_set();
            assert(pair_keys(s).len() == s.len());
            if !counts@.contains_key(k) {
                assert(!pair_values(s).contains(k));
            }
        }
        owns_data.insert(k, n as u16);
        proof {
            assert(pair_keys(s.take(j + 1)) =~= pair_keys(s.take(j as int)).push(k));
            pair_keys(s.take(j as int)).lemma_push_to_set_commute(k);
        }
        j += 1;
    }
    proof {
        assert(s.take(s.len() as int) =~= s);
        assert(owns_data@.dom() =~= owners_data@.dom());
        if forall|c: u16| #[trigger] pair_values(s).contains(c) ==> pair_keys(s).contains(c) {
            assert forall|t: u16| owners_data@.contains_key(t) implies owners_data@.contains_key(#[trigger] owners_data@[t]) by {
                assert(pair_keys(s).to_set().contains(t));
                let q = choose|q: int| 0 <= q < pair_keys(s).len() && pair_keys(s)[q] == t;
                assert(pair_values(s)[q] == s[q].1);
                assert(pair_values(s).contains(s[q].1));
                assert(pair_keys(s).contains(s[q].1));
            }
            assert forall|c: u16| #[trigger] remaining@.contains(c) <==> owned_by(owners_data@, c).len() > 0 by {
                pair_values(s).to_multiset_ensures();
            }
        }
    }
    GamestateResult { owners_data, owns_data, remaining, epoch, initial_month, initial_year }
}

} // verus!
