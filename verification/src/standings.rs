//! Tallying the winners of simulated runs and ranking the countries by their wins.

use std::collections::HashMap;
use vstd::prelude::*;
use crate::country::Country;

verus! {

broadcast use vstd::std_specs::hash::group_hash_axioms;

/// The number of runs `c` has won so far.
pub open spec fn wins_of(wins: Map<u16, u32>, c: u16) -> nat {
    if wins.contains_key(c) { wins[c] as nat } else { 0 }
}

/// Counts one more win for `winner`.
pub fn record_win(wins: &mut HashMap<u16, u32>, winner: u16)
    requires
        wins_of(old(wins)@, winner) < u32::MAX,
    ensures
        final(wins)@ == old(wins)@.insert(winner, (wins_of(old(wins)@, winner) + 1) as u32),
{
    let n: u32 = match wins.get(&winner) {
        Some(n) => *n,
        None => 0,
    };
    wins.insert(winner, n + 1);
}

/// Every country of `ids` with its number of wins, zero for those that never won.
pub fn wins_of_all(ids: &Vec<u16>, wins: &HashMap<u16, u32>) -> (out: Vec<(u16, u32)>)
    ensures
        out@.len() == ids@.len(),
        forall|i: int| 0 <= i < ids@.len() ==> #[trigger] out@[i] == (ids@[i], wins_of(wins@, ids@[i]) as u32),
{
    let mut out: Vec<(u16, u32)> = Vec::new();
    let mut i: usize = 0;
    while i < ids.len()
        invariant
            i <= ids.len(),
            out@.len() == i,
            forall|k: int| 0 <= k < i ==> #[trigger] out@[k] == (ids@[k], wins_of(wins@, ids@[k]) as u32),
        decreases ids.len() - i,
    {
        let n: u32 = match wins.get(&ids[i]) {
            Some(n) => *n,
            None => 0,
        };
        out.push((ids[i], n));
        i += 1;
    }
    out
}

/// `a` ranks before `b`: more wins, or as many wins and a smaller id.
pub open spec fn ranks_before(a: (u16, u32), b: (u16, u32)) -> bool {
    a.1 > b.1 || (a.1 == b.1 && a.0 < b.0)
}

/// No entry ranks before an earlier one.
pub open spec fn ranked(s: Seq<(u16, u32)>) -> bool {
    forall|i: int, j: int| 0 <= i < j < s.len() ==> !ranks_before(s[j], s[i])
}

/// The entries of `wins` ordered by descending wins, ties by ascending id.
pub fn rank_wins(wins: &Vec<(u16, u32)>) -> (out: Vec<(u16, u32)>)
    ensures
        out@.to_multiset() == wins@.to_multiset(),
        ranked(out@),
{
    let mut out: Vec<(u16, u32)> = Vec::new();
    let mut i: usize = 0;
    proof {
        assert(wins@.take(0) =~= Seq::<(u16, u32)>::empty());
        assert(out@ =~= Seq::<(u16, u32)>::empty());
    }
    while i < wins.len()
        invariant
            i <= wins.len(),
            out@.to_multiset() == wins@.take(i as int).to_multiset(),
            ranked(out@),
        decreases wins.len() - i,
    {
        let x = wins[i];
        let mut p: usize = 0;
        while p < out.len() && !(x.1 > out[p].1 || (x.1 == out[p].1 && x.0 < out[p].0))
            invariant
                p <= out.len(),
                forall|q: int| 0 <= q < p ==> !ranks_before(x, #[trigger] out@[q]),
            decreases out.len() - p,
        {
            p += 1;
        }
        let ghost old_out = out@;
        out.insert(p, x);
        proof {
            old_out.insert_ensures(p as int, x);
            assert(wins@.take(i + 1) =~= wins@.take(i as int).push(x));
            vstd::seq_lib::to_multiset_build(wins@.take(i as int), x);
            vstd::seq_lib::to_multiset_insert(old_out, p as int, x);
            assert(out@.to_multiset() == wins@.take(i + 1).to_multiset());
            assert forall|a: int, b: int| 0 <= a < b < out@.len() implies !ranks_before(out@[b], out@[a]) by {
                if b < p {
                    assert(out@[a] == old_out[a]);
                    assert(out@[b] == old_out[b]);
                } else if a < p && b == p {
                } else if a < p && b > p {
                    assert(out@[b] == old_out[b - 1]);
                } else if a == p && b > p {
                    assert(out@[b] == old_out[b - 1]);
                    assert(ranks_before(x, old_out[p as int]));
                    if b - 1 > p {
                        assert(!ranks_before(old_out[b - 1], old_out[p as int]));
                    }
                } else {
                    assert(out@[a] == old_out[a - 1]);
                    assert(out@[b] == old_out[b - 1]);
                }
            }
        }
        i += 1;
    }
    assert(wins@.take(wins@.len() as int) =~= wins@);
    out
}

/// The number of leading entries of `s` with at least one win.
pub open spec fn winners_prefix(s: Seq<(u16, u32)>) -> nat
    decreases s.len(),
{
    if s.len() == 0 || s[0].1 == 0 { 0 } else { 1 + winners_prefix(s.drop_first()) }
}

/// The number of bars in the chart of `s`: its leading winners, at most 20.
pub open spec fn bar_count(s: Seq<(u16, u32)>) -> nat {
    if winners_prefix(s) < 20 { winners_prefix(s) } else { 20 }
}

/// The label of a bar: the first 32 characters of the country's name.
pub open spec fn bar_label(name: Seq<char>) -> Seq<char> {
    if name.len() <= 32 { name } else { name.take(32) }
}

proof fn lemma_winners_prefix(s: Seq<(u16, u32)>, i: int)
    requires
        0 <= i <= s.len(),
        forall|q: int| 0 <= q < i ==> #[trigger] s[q].1 > 0,
    ensures
        i < s.len() && s[i].1 == 0 ==> winners_prefix(s) == i,
        i == s.len() ==> winners_prefix(s) == i,
        winners_prefix(s) >= i,
        winners_prefix(s) <= s.len(),
    decreases i,
{
    if i > 0 {
        lemma_winners_prefix(s.drop_first(), i - 1);
    } else if s.len() > 0 {
        lemma_winners_prefix_len(s);
    }
}

proof fn lemma_winners_prefix_len(s: Seq<(u16, u32)>)
    ensures
        winners_prefix(s) <= s.len(),
        forall|q: int| 0 <= q < winners_prefix(s) ==> #[trigger] s[q].1 > 0,
    decreases s.len(),
{
    if s.len() > 0 && s[0].1 != 0 {
        lemma_winners_prefix_len(s.drop_first());
        assert forall|q: int| 0 <= q < winners_prefix(s) implies #[trigger] s[q].1 > 0 by {
            if q > 0 {
                assert(s[q] == s.drop_first()[q - 1]);
            }
        }
    }
}

/// The bars of the win chart: for the leading entries of the ranking that won at
/// least once, at most 20, the country's name cut to 32 characters and its wins.
pub fn chart_bars(sorted: &Vec<(u16, u32)>, countries: &HashMap<u16, Country>) -> (bars: Vec<(String, u32)>)
    requires
        forall|i: int| 0 <= i < bar_count(sorted@) ==> countries@.contains_key(#[trigger] sorted@[i].0),
    ensures
        bars@.len() == bar_count(sorted@),
        forall|i: int| 0 <= i < bars@.len() ==> (#[trigger] bars@[i]).0@ == bar_label(countries@[sorted@[i].0].name@)
            && bars@[i].1 == sorted@[i].1,
{
    proof {
        lemma_winners_prefix_len(sorted@);
    }
    let mut bars: Vec<(String, u32)> = Vec::new();
    let mut i: usize = 0;
    while i < sorted.len() && i < 20 && sorted[i].1 > 0
        invariant
            i <= sorted@.len(),
            i <= 20,
            forall|q: int| 0 <= q < i ==> #[trigger] sorted@[q].1 > 0,
            i <= bar_count(sorted@),
            forall|q: int| 0 <= q < bar_count(sorted@) ==> countries@.contains_key(#[trigger] sorted@[q].0),
            bars@.len() == i,
            forall|q: int| 0 <= q < i ==> (#[trigger] bars@[q]).0@ == bar_label(countries@[sorted@[q].0].name@)
                && bars@[q].1 == sorted@[q].1,
        decreases sorted.len() - i,
    {
        proof {
            lemma_winners_prefix(sorted@, i as int + 1);
        }
        let (id, wins) = sorted[i];
        let name = &countries.get(&id).unwrap().name;
        let n = name.as_str().unicode_len();
        let cut = if n <= 32 { n } else { 32 };
        let label = name.as_str().substring_char(0, cut).to_owned();
        assert(label@ =~= bar_label(name@));
        bars.push((label, wins));
        i += 1;
    }
    proof {
        lemma_winners_prefix(sorted@, i as int);
    }
    bars
}

} // verus!
