//! The turn mechanics of the game: conquest (with capitulation), riots, and the
//! check that a capitulation recorded by the real game obeys the cession rules.

use std::collections::{HashMap, HashSet};
use vstd::prelude::*;
use crate::graph::{
    attack_targets, foreign_in_shell, lemma_world_closed, nearest_foreign_distance, world_closed, find_attack_targets,
    adjacent, at_distance, bfs_distances, closed_from, contains_id, lemma_adjacent_reachable, expand_shell, lemma_fixpoint, lemma_shell_unique, lemma_within_dom, lemma_within_mono, reachable,
    select_by_owner, shell, within,
};
use crate::state::{
    collect_keys, consistent_state, count_owned_by, lemma_owned_nonempty, lemma_settle, owned_by, reassigned,
    transfer_territories,
};
use crate::rng;
use crate::text::{decimal, push_decimal};

verus! {

broadcast use vstd::std_specs::hash::group_hash_axioms;

/// The territories a capitulating country can cede besides the lost capital `target`.
pub open spec fn cedable(owners: Map<u16, u16>, target: u16) -> Set<u16> {
    owned_by(owners, owners[target]).remove(target)
}

/// `picks` contains every cedable territory strictly closer to `target` than its
/// farthest member: the cession works outwards from the lost capital.
pub open spec fn closest_first(g: Map<u16, Vec<u16>>, owners: Map<u16, u16>, target: u16, picks: Set<u16>) -> bool {
    exists|k: nat| #![trigger within(g, target, k)]
        k >= 1
        && cedable(owners, target).intersect(within(g, target, (k - 1) as nat)).subset_of(picks)
        && picks.subset_of(within(g, target, k))
}

/// `picks` is a cession of at most `quota` territories of the defender, nearest
/// first, that stops early only when no reachable territory is left to cede.
pub open spec fn valid_cession(
    g: Map<u16, Vec<u16>>,
    owners: Map<u16, u16>,
    target: u16,
    picks: Set<u16>,
    quota: nat,
) -> bool {
    &&& picks.finite()
    &&& picks.subset_of(cedable(owners, target))
    &&& picks.len() <= quota
    &&& closest_first(g, owners, target, picks)
    &&& (picks.len() == quota || forall|t: u16| #[trigger] cedable(owners, target).contains(t)
            && reachable(g, target, t) ==> picks.contains(t))
}

/// Picks up to `n_additional` territories of the owner of `target_territory_id` to cede,
/// shell by shell outwards from `target_territory_id`, in random order within a shell.
fn select_cession(
    target_territory_id: u16,
    n_additional: u32,
    owners_data: &HashMap<u16, u16>,
    targets_data: &HashMap<u16, Vec<u16>>,
) -> (picks: Vec<u16>)
    requires
        closed_from(targets_data@, owners_data@, target_territory_id),
    ensures
        picks@.no_duplicates(),
        valid_cession(targets_data@, owners_data@, target_territory_id, picks@.to_set(), n_additional as nat),
{
    let ghost g = targets_data@;
    let ghost owners = owners_data@;
    let ghost t0 = target_territory_id;
    let ghost ced = cedable(owners, t0);
    assert(within(g, t0, 0).contains(t0));
    let defender = *owners_data.get(&target_territory_id).unwrap();
    let mut visited: HashSet<u16> = HashSet::new();
    visited.insert(target_territory_id);
    let mut start: Vec<u16> = Vec::new();
    start.push(target_territory_id);
    proof {
        assert(g.dom().finite());
        assert(start@ =~= Seq::<u16>::empty().push(t0));
        Seq::<u16>::empty().lemma_push_to_set_commute(t0);
        assert(visited@ =~= within(g, t0, 0));
        assert(start@.to_set() =~= shell(g, t0, 0));
        lemma_within_dom(g, owners, t0, 0);
    }
    let mut current = expand_shell(targets_data, &start, &mut visited, Ghost(t0), Ghost(0));
    let ghost mut k: nat = 1;
    let mut picks: Vec<u16> = Vec::new();
    let mut count: u32 = 0;
    proof {
        lemma_within_dom(g, owners, t0, 0);
        lemma_within_dom(g, owners, t0, 1);
        assert(ced.intersect(within(g, t0, 0)) =~= Set::<u16>::empty());
        assert(picks@.to_set() =~= Set::<u16>::empty());
        assert(within(g, t0, 1) == within(g, t0, k));
    }
    while count < n_additional && current.len() > 0
        invariant
            g == targets_data@,
            owners == owners_data@,
            t0 == target_territory_id,
            ced == cedable(owners, t0),
            defender == owners[t0],
            closed_from(g, owners, t0),
            g.dom().finite(),
            k >= 1,
            visited@ == within(g, t0, k),
            current@.to_set() == shell(g, t0, k),
            current@.no_duplicates(),
            picks@.no_duplicates(),
            count as int == picks@.len(),
            count <= n_additional,
            picks@.to_set().subset_of(ced.intersect(within(g, t0, (k - 1) as nat))),
            count < n_additional ==> picks@.to_set() == ced.intersect(within(g, t0, (k - 1) as nat)),
            closest_first(g, owners, t0, picks@.to_set()),
        decreases g.dom().len() - within(g, t0, (k - 1) as nat).len(),
    {
        proof {
            assert forall|t: u16| current@.contains(t) implies owners.contains_key(t) by {
                assert(current@.to_set().contains(t));
            }
        }
        let mut eligible = select_by_owner(&current, owners_data, defender, true);
        let ghost elig_set = eligible@.to_set();
        assert(elig_set == ced.intersect(shell(g, t0, k))) by {
            assert(!shell(g, t0, k).contains(t0)) by { lemma_within_mono(g, t0, 0, (k - 1) as nat); }
            reveal(owned_by);
            assert(elig_set =~= ced.intersect(shell(g, t0, k)));
        }
        let ghost before_shuffle = eligible@;
        rng::shuffle_in_place(&mut eligible);
        proof {
            lemma_same_multiset(before_shuffle, eligible@);
        }
        let ghost picks0 = picks@;
        let mut j: usize = 0;
        while j < eligible.len() && count < n_additional
            invariant
                j <= eligible.len(),
                eligible@.no_duplicates(),
                eligible@.to_set() == elig_set,
                count as int == picks@.len(),
                count <= n_additional,
                picks@ == picks0 + eligible@.subrange(0, j as int),
                picks0.no_duplicates(),
                picks0.to_set().subset_of(within(g, t0, (k - 1) as nat)),
                elig_set.subset_of(shell(g, t0, k)),
            decreases eligible.len() - j,
        {
            picks.push(eligible[j]);
            count = count + 1;
            j += 1;
            assert(picks@ =~= picks0 + eligible@.subrange(0, j as int));
        }
        proof {
            let taken = eligible@.subrange(0, j as int);
            vstd::seq_lib::seq_to_set_distributes_over_add(picks0, taken);
            assert(taken.to_set().subset_of(elig_set)) by {
                assert forall|x: u16| taken.to_set().contains(x) implies elig_set.contains(x) by {
                    let q = choose|q: int| 0 <= q < taken.len() && taken[q] == x;
                    assert(eligible@[q] == x);
                }
            }
            assert(picks@.no_duplicates()) by {
                assert forall|a: int, b: int| 0 <= a < b < picks@.len() implies picks@[a] != picks@[b] by {
                    if b >= picks0.len() && a < picks0.len() {
                        assert(taken.to_set().contains(picks@[b]));
                        assert(picks0.to_set().contains(picks@[a]));
                        assert(!within(g, t0, (k - 1) as nat).contains(picks@[b]));
                    } else if a >= picks0.len() {
                        assert(eligible@[a - picks0.len()] != eligible@[b - picks0.len()]);
                    }
                }
            }
            if count < n_additional {
                assert(j == eligible.len());
                assert(taken =~= eligible@);
            }
            lemma_within_mono(g, t0, (k - 1) as nat, k);
            assert(within(g, t0, k) =~= within(g, t0, (k - 1) as nat).union(shell(g, t0, k)));
            assert(ced.intersect(within(g, t0, (k - 1) as nat)).subset_of(picks@.to_set()));
            assert(picks@.to_set().subset_of(ced.intersect(within(g, t0, k))));
            if count < n_additional {
                assert(picks@.to_set() =~= ced.intersect(within(g, t0, k)));
            }
            assert(closest_first(g, owners, t0, picks@.to_set())) by {
                assert(within(g, t0, k) == within(g, t0, k));
            }
            // progress: the ball grows by the non-empty current shell
            lemma_within_dom(g, owners, t0, k);
            assert(current@.to_set().contains(current@[0]));
            within(g, t0, (k - 1) as nat).lemma_subset_not_in_lt(within(g, t0, k), current@[0]);
            vstd::set_lib::lemma_len_subset(within(g, t0, k), g.dom());
        }
        current = expand_shell(targets_data, &current, &mut visited, Ghost(t0), Ghost(k));
        proof {
            k = k + 1;
            lemma_within_dom(g, owners, t0, k);
        }
    }
    proof {
        if count < n_additional {
            // the search ran out of territories: every reachable cedable one was taken
            assert(current@.to_set() =~= Set::<u16>::empty()) by {
                if current@.len() > 0 { assert(current@.len() == 0); }
            }
            assert forall|t: u16| within(g, t0, k).contains(t) implies within(g, t0, (k - 1) as nat).contains(t) by {
                if !within(g, t0, (k - 1) as nat).contains(t) {
                    assert(shell(g, t0, k).contains(t));
                }
            }
            lemma_within_mono(g, t0, (k - 1) as nat, k);
            assert(within(g, t0, k) =~= within(g, t0, (k - 1) as nat));
            assert forall|t: u16| #[trigger] ced.contains(t) && reachable(g, t0, t) implies picks@.to_set().contains(t) by {
                let m = choose|m: nat| #[trigger] within(g, t0, m).contains(t);
                if m > k - 1 {
                    lemma_fixpoint(g, t0, (k - 1) as nat, m);
                } else {
                    lemma_within_mono(g, t0, m, (k - 1) as nat);
                }
            }
        }
        picks@.unique_seq_to_set();
        lemma_within_dom(g, owners, t0, (k - 1) as nat);
    }
    picks
}

/// Two sequences with the same multiset have the same elements, and one is free of
/// duplicates exactly when the other is.
pub proof fn lemma_same_multiset(a: Seq<u16>, b: Seq<u16>)
    requires
        a.to_multiset() == b.to_multiset(),
        a.no_duplicates(),
    ensures
        b.to_set() == a.to_set(),
        b.no_duplicates(),
{
    a.lemma_multiset_has_no_duplicates();
    a.to_multiset_ensures();
    b.to_multiset_ensures();
    assert forall|x: u16| b.to_set().contains(x) <==> a.to_set().contains(x) by {
        assert(a.to_multiset().count(x) == b.to_multiset().count(x));
        assert(a.contains(x) <==> a.to_multiset().count(x) > 0);
        assert(b.contains(x) <==> b.to_multiset().count(x) > 0);
        assert(a.to_set().contains(x) <==> a.contains(x));
        assert(b.to_set().contains(x) <==> b.contains(x));
    }
    assert(b.to_set() =~= a.to_set());
    b.lemma_multiset_has_no_duplicates_conv();
}

/// The lost territory is the defender's capital and the defender holds at least three
/// territories: the defender may capitulate.
pub open spec fn capitulation_possible(owners: Map<u16, u16>, target: u16) -> bool {
    target == owners[target] && owned_by(owners, target).len() >= 3
}

/// The odds, as (numerator, denominator), that a defender losing its capital
/// capitulates: 1/3.
pub fn capitulation_odds() -> (r: (u64, u64))
    ensures
        r == (1u64, 3u64),
{
    (1, 3)
}

/// The odds, as (numerator, denominator), that a riot spreads to one more territory:
/// 1/5.
pub fn spread_odds() -> (r: (u64, u64))
    ensures
        r == (1u64, 5u64),
{
    (1, 5)
}

/// The odds, as (numerator, denominator), that a drawn territory of an eliminated
/// country riots at `epoch`: 1/(12 + epoch/10), that is 10/(120 + epoch).
pub fn riot_odds(epoch: usize) -> (r: (u64, u64))
    requires
        epoch + 120 <= usize::MAX,
    ensures
        r == (10u64, (120 + epoch) as u64),
{
    (10, 120 + epoch as u64)
}

/// A random event with the given odds: a uniform draw below the denominator that
/// falls below the numerator. Certain when the numerator reaches the denominator,
/// impossible when it is 0.
pub(crate) fn roll(odds: (u64, u64)) -> (r: bool)
    requires
        odds.1 > 0,
    ensures
        odds.0 >= odds.1 ==> r,
        odds.0 == 0 ==> !r,
{
    rng::draw_below(odds.1) < odds.0
}

/// `new` is `old` after the country owning `attacker_id` took `target` and the
/// territories `picks` that the defender ceded with it.
pub open spec fn conquest_outcome(
    g: Map<u16, Vec<u16>>,
    old: Map<u16, u16>,
    new: Map<u16, u16>,
    attacker_id: u16,
    target: u16,
    picks: Set<u16>,
) -> bool {
    &&& reassigned(old, new, picks.insert(target), old[attacker_id])
    &&& (picks.is_empty() || (capitulation_possible(old, target) && exists|q: nat|
        1 <= q <= cession_limit(old, target) && #[trigger] valid_cession(g, old, target, picks, q)))
}

/// The territories `picks` ceded with the lost `target` under the draws
/// `capitulates` (the capitulation roll succeeded) and `extra` (a raw number): when a
/// capitulation is possible and the roll succeeded, the defender cedes, nearest first,
/// `extra % cession_limit + 1` further territories, or every reachable cedable one if
/// there are fewer; otherwise nothing further.
pub open spec fn cession_by_draws(
    g: Map<u16, Vec<u16>>,
    old: Map<u16, u16>,
    target: u16,
    picks: Set<u16>,
    capitulates: bool,
    extra: u32,
) -> bool {
    if capitulation_possible(old, target) && capitulates {
        valid_cession(g, old, target, picks, ((extra as int) % cession_limit(old, target) + 1) as nat)
    } else {
        picks.is_empty()
    }
}

/// The conquest of `target_territory_id` by the country owning `attacker_id`, under
/// the draws `capitulates` and `extra` (see `cession_by_draws`): the target and the
/// territories ceded with it go to the attacker, and a defender left without
/// territories leaves `remaining`.
pub fn conquest_with_draws(
    attacker_id: u16,
    target_territory_id: u16,
    owners_data: &mut HashMap<u16, u16>,
    owns_data: &mut HashMap<u16, u16>,
    targets_data: &HashMap<u16, Vec<u16>>,
    remaining: &mut HashSet<u16>,
    capitulates: bool,
    extra: u32,
)
    requires
        consistent_state(old(owners_data)@, old(owns_data)@, old(remaining)@),
        old(owners_data)@.dom().len() <= u16::MAX,
        old(owners_data)@.contains_key(attacker_id),
        old(owners_data)@.contains_key(target_territory_id),
        capitulation_possible(old(owners_data)@, target_territory_id)
            ==> closed_from(targets_data@, old(owners_data)@, target_territory_id),
    ensures
        consistent_state(final(owners_data)@, final(owns_data)@, final(remaining)@),
        exists|picks: Set<u16>| #[trigger] conquest_outcome(
            targets_data@,
            old(owners_data)@,
            final(owners_data)@,
            attacker_id,
            target_territory_id,
            picks,
        ),
        exists|picks: Set<u16>| #[trigger] cession_by_draws(targets_data@, old(owners_data)@, target_territory_id, picks, capitulates, extra)
            && reassigned(old(owners_data)@, final(owners_data)@, picks.insert(target_territory_id),
                old(owners_data)@[attacker_id]),
{
    let ghost owners0 = owners_data@;
    let ghost owns0 = owns_data@;
    let ghost rem0 = remaining@;
    let attacker_country_id = *owners_data.get(&attacker_id).unwrap();
    let original_conquered_country_id = *owners_data.get(&target_territory_id).unwrap();
    let defender_num_territories = *owns_data.get(&original_conquered_country_id).unwrap();
    let is_capital_loss = target_territory_id == original_conquered_country_id;

    let mut ceded: Vec<u16> = Vec::new();
    ceded.push(target_territory_id);
    let ghost mut picks_set: Set<u16> = Set::empty();
    proof {
        assert(ceded@ =~= Seq::<u16>::empty().push(target_territory_id));
        Seq::<u16>::empty().lemma_push_to_set_commute(target_territory_id);
        assert(ceded@.to_set() =~= picks_set.insert(target_territory_id));
        lemma_owned_nonempty(owners0, original_conquered_country_id, target_territory_id);
    }
    if is_capital_loss && defender_num_territories >= 3 {
        if capitulates {
            let limit: u32 = (defender_num_territories as u32 + 1) / 2 - 1;
            let n_additional = extra % limit + 1;
            let picks = select_cession(target_territory_id, n_additional, owners_data, targets_data);
            assert(!picks@.contains(target_territory_id)) by {
                if picks@.contains(target_territory_id) {
                    assert(picks@.to_set().contains(target_territory_id));
                }
            }
            ceded = with_capital(target_territory_id, &picks);
            proof {
                picks_set = picks@.to_set();
                assert(valid_cession(targets_data@, owners0, target_territory_id, picks_set, n_additional as nat));
            }
        }
    }
    proof {
        assert forall|t: u16| #[trigger] ceded@.contains(t) implies owners0.contains_key(t)
            && owners0[t] == original_conquered_country_id by {
            reveal(owned_by);
            assert(ceded@.to_set().contains(t));
        }
        assert(owners0.contains_key(attacker_country_id));
    }
    transfer_territories(&ceded, attacker_country_id, owners_data, owns_data, Ghost(original_conquered_country_id));
    let left = *owns_data.get(&original_conquered_country_id).unwrap();
    if left == 0 {
        remaining.remove(&original_conquered_country_id);
    }
    proof {
        let new = owners_data@;
        let moved = ceded@.to_set();
        lemma_owned_nonempty(owners0, attacker_country_id, attacker_id);
        assert(remaining@ =~= (if owned_by(new, original_conquered_country_id).len() == 0 {
            rem0.insert(attacker_country_id).remove(original_conquered_country_id)
        } else {
            rem0.insert(attacker_country_id)
        }));
        lemma_settle(owners0, owns0, rem0, new, owns_data@, remaining@, moved,
            original_conquered_country_id, attacker_country_id, target_territory_id);
        assert(conquest_outcome(targets_data@, owners0, new, attacker_id, target_territory_id, picks_set));
        assert(cession_by_draws(targets_data@, owners0, target_territory_id, picks_set, capitulates, extra));
    }
}

/// The country owning `attacker_id` conquers `target_territory_id`. When the target is
/// the defender's capital and the defender owns at least three territories, the
/// defender capitulates with the odds `capitulation_odds` and cedes, nearest first, a
/// random number between 1 and half its remaining territories (rounded down) of
/// further territories: it draws the capitulation roll and a raw number and hands them
/// to `conquest_with_draws`.
/// A defender left without territories leaves `remaining`.
pub fn perform_conquest(
    attacker_id: u16,
    target_territory_id: u16,
    owners_data: &mut HashMap<u16, u16>,
    owns_data: &mut HashMap<u16, u16>,
    targets_data: &HashMap<u16, Vec<u16>>,
    remaining: &mut HashSet<u16>,
)
    requires
        consistent_state(old(owners_data)@, old(owns_data)@, old(remaining)@),
        old(owners_data)@.dom().len() <= u16::MAX,
        old(owners_data)@.contains_key(attacker_id),
        old(owners_data)@.contains_key(target_territory_id),
        capitulation_possible(old(owners_data)@, target_territory_id)
            ==> closed_from(targets_data@, old(owners_data)@, target_territory_id),
    ensures
        consistent_state(final(owners_data)@, final(owns_data)@, final(remaining)@),
        exists|picks: Set<u16>| #[trigger] conquest_outcome(
            targets_data@,
            old(owners_data)@,
            final(owners_data)@,
            attacker_id,
            target_territory_id,
            picks,
        ),
        exists|capitulates: bool, extra: u32, picks: Set<u16>|
            #[trigger] cession_by_draws(targets_data@, old(owners_data)@, target_territory_id, picks, capitulates, extra)
            && reassigned(old(owners_data)@, final(owners_data)@, picks.insert(target_territory_id),
                old(owners_data)@[attacker_id]),
{
    let capitulates = roll(capitulation_odds());
    let extra = rng::random_u32();
    conquest_with_draws(attacker_id, target_territory_id, owners_data, owns_data, targets_data, remaining,
        capitulates, extra);
}

/// The lost capital followed by the ceded territories.
fn with_capital(target: u16, picks: &Vec<u16>) -> (ceded: Vec<u16>)
    requires
        picks@.no_duplicates(),
        !picks@.contains(target),
    ensures
        ceded@.no_duplicates(),
        ceded@.to_set() == picks@.to_set().insert(target),
{
    let mut ceded: Vec<u16> = Vec::new();
    ceded.push(target);
    let mut i: usize = 0;
    while i < picks.len()
        invariant
            i <= picks.len(),
            ceded@ == seq![target] + picks@.subrange(0, i as int),
        decreases picks.len() - i,
    {
        ceded.push(picks[i]);
        i += 1;
        assert(ceded@ =~= seq![target] + picks@.subrange(0, i as int));
    }
    proof {
        assert(picks@.subrange(0, picks@.len() as int) =~= picks@);
        vstd::seq_lib::seq_to_set_distributes_over_add(seq![target], picks@);
        assert(seq![target].to_set() =~= Set::empty().insert(target)) by {
            assert(seq![target] =~= Seq::<u16>::empty().push(target));
            Seq::<u16>::empty().lemma_push_to_set_commute(target);
        }
        assert(ceded@.to_set() =~= picks@.to_set().insert(target));
        assert(ceded@.no_duplicates()) by {
            assert forall|a: int, b: int| 0 <= a < b < ceded@.len() implies ceded@[a] != ceded@[b] by {
                if a == 0 {
                    assert(picks@.contains(ceded@[b]));
                } else {
                    assert(picks@[a - 1] != picks@[b - 1]);
                }
            }
        }
    }
    ceded
}
/// `s` lists the territories of a riot started at `riot`: the riot territory first,
/// then territories of the same owner (never that owner's own capital), each adjacent
/// to a territory listed before it.
pub open spec fn riot_spread(g: Map<u16, Vec<u16>>, owners: Map<u16, u16>, riot: u16, s: Seq<u16>) -> bool {
    &&& s.len() >= 1
    &&& s[0] == riot
    &&& s.no_duplicates()
    &&& forall|i: int| 1 <= i < s.len() ==> {
        &&& owners.contains_key(#[trigger] s[i])
        &&& owners[s[i]] == owners[riot]
        &&& s[i] != owners[riot]
        &&& exists|j: int| 0 <= j < i && adjacent(g, s[j], s[i])
    }
}

/// Candidate territories for spreading: same owner as the riot, not that owner's
/// capital, reachable from the riot and adjacent to a territory already rioting.
spec fn spread_candidate(g: Map<u16, Vec<u16>>, owners: Map<u16, u16>, riot: u16, rioting: Seq<u16>, e: u16) -> bool {
    &&& owners.contains_key(e)
    &&& owners[e] == owners[riot]
    &&& e != owners[riot]
    &&& reachable(g, riot, e)
    &&& exists|j: int| 0 <= j < rioting.len() && adjacent(g, rioting[j], e)
}

/// The members of `nbrs`, in order, that `owner` owns and that are not `owner`'s own
/// capital.
pub open spec fn owned_neighbours(nbrs: Seq<u16>, owners: Map<u16, u16>, owner: u16) -> Seq<u16>
    decreases nbrs.len(),
{
    if nbrs.len() == 0 {
        Seq::empty()
    } else {
        let prev = owned_neighbours(nbrs.drop_last(), owners, owner);
        let n = nbrs.last();
        if owners[n] == owner && n != owner { prev.push(n) } else { prev }
    }
}

/// `eligible` followed, in order, by each member of `nbrs` that is not in `visited`,
/// is owned by `owner`, is not `owner`'s own capital, and is not listed yet.
pub open spec fn with_new_candidates(
    nbrs: Seq<u16>,
    owners: Map<u16, u16>,
    owner: u16,
    visited: Set<u16>,
    eligible: Seq<u16>,
) -> Seq<u16>
    decreases nbrs.len(),
{
    if nbrs.len() == 0 {
        eligible
    } else {
        let prev = with_new_candidates(nbrs.drop_last(), owners, owner, visited, eligible);
        let n = nbrs.last();
        if !visited.contains(n) && owners[n] == owner && n != owner && !prev.contains(n) {
            prev.push(n)
        } else {
            prev
        }
    }
}

/// Appends to `eligible` each neighbour of `chosen` that is unvisited, owned by
/// `old_owner_id`, not `old_owner_id` itself, and not yet listed.
fn add_riot_candidates(
    chosen: u16,
    owners_data: &HashMap<u16, u16>,
    targets_data: &HashMap<u16, Vec<u16>>,
    visited: &HashSet<u16>,
    eligible: &mut Vec<u16>,
    old_owner_id: u16,
    Ghost(riot): Ghost<u16>,
    Ghost(rioting): Ghost<Seq<u16>>,
)
    requires
        closed_from(targets_data@, owners_data@, riot),
        owners_data@.contains_key(riot),
        old_owner_id == owners_data@[riot],
        rioting.len() >= 1,
        rioting.last() == chosen,
        reachable(targets_data@, riot, chosen),
        forall|e: u16| #[trigger] old(eligible)@.contains(e)
            ==> spread_candidate(targets_data@, owners_data@, riot, rioting, e),
    ensures
        final(eligible)@ == with_new_candidates(
            targets_data@[chosen]@, owners_data@, old_owner_id, visited@, old(eligible)@),
        forall|e: u16| #[trigger] final(eligible)@.contains(e)
            ==> spread_candidate(targets_data@, owners_data@, riot, rioting, e),
{
    let ghost g = targets_data@;
    let ghost owners = owners_data@;
    let ghost e0 = eligible@;
    proof {
        let k = choose|k: nat| #[trigger] within(g, riot, k).contains(chosen);
        assert(g.contains_key(chosen));
    }
    let nbrs = targets_data.get(&chosen).unwrap();
    let mut i: usize = 0;
    assert(nbrs@.take(0) =~= Seq::<u16>::empty());
    while i < nbrs.len()
        invariant
            i <= nbrs.len(),
            eligible@ == with_new_candidates(nbrs@.take(i as int), owners, old_owner_id, visited@, e0),
            g == targets_data@,
            owners == owners_data@,
            nbrs@ == g[chosen]@,
            g.contains_key(chosen),
            closed_from(g, owners, riot),
            owners.contains_key(riot),
            old_owner_id == owners[riot],
            rioting.len() >= 1,
            rioting.last() == chosen,
            reachable(g, riot, chosen),
            forall|e: u16| #[trigger] eligible@.contains(e) ==> spread_candidate(g, owners, riot, rioting, e),
        decreases nbrs.len() - i,
    {
        let n = nbrs[i];
        proof {
            assert(nbrs@.take(i + 1).drop_last() =~= nbrs@.take(i as int));
            assert(nbrs@.take(i + 1).last() == n);
            assert(nbrs@.contains(n));
            assert(adjacent(g, chosen, n));
            lemma_adjacent_reachable(g, riot, chosen, n);
            let k = choose|k: nat| #[trigger] within(g, riot, k).contains(n);
            assert(owners.contains_key(n));
        }
        if !visited.contains(&n) {
            let o = *owners_data.get(&n).unwrap();
            if o == old_owner_id && n != old_owner_id {
                if !contains_id(eligible, n) {
                    let ghost before = eligible@;
                    eligible.push(n);
                    proof {
                        assert forall|e: u16| #[trigger] eligible@.contains(e)
                            implies spread_candidate(g, owners, riot, rioting, e) by {
                            if e == n {
                                let j = rioting.len() - 1;
                                assert(rioting[j] == chosen);
                                assert(0 <= j < rioting.len() && adjacent(g, rioting[j], n));
                                assert(owners[n] == o);
                            } else {
                                let q = choose|q: int| 0 <= q < eligible@.len() && eligible@[q] == e;
                                assert(q < before.len());
                                assert(before[q] == e);
                                assert(before.contains(e));
                            }
                        }
                    }
                }
            }
        }
        i += 1;
    }
    assert(nbrs@.take(nbrs@.len() as int) =~= nbrs@);
}

/// The members of `eligible` not yet in `visited`, in order.
fn unvisited(eligible: &Vec<u16>, visited: &HashSet<u16>) -> (res: Vec<u16>)
    ensures
        forall|e: u16| #[trigger] res@.contains(e) <==> eligible@.contains(e) && !visited@.contains(e),
{
    let mut res: Vec<u16> = Vec::new();
    let mut i: usize = 0;
    while i < eligible.len()
        invariant
            i <= eligible.len(),
            forall|e: u16| #[trigger] res@.contains(e)
                <==> eligible@.subrange(0, i as int).contains(e) && !visited@.contains(e),
        decreases eligible.len() - i,
    {
        let e = eligible[i];
        let ghost before = res@;
        if !visited.contains(&e) {
            res.push(e);
        }
        proof {
            let pre = eligible@.subrange(0, i as int);
            assert(eligible@.subrange(0, i + 1) =~= pre.push(e));
            assert forall|x: u16| #[trigger] res@.contains(x)
                <==> eligible@.subrange(0, i + 1).contains(x) && !visited@.contains(x) by {
                if res@.contains(x) && x != e {
                    let q = choose|q: int| 0 <= q < res@.len() && res@[q] == x;
                    assert(before[q] == x);
                }
                if pre.push(e).contains(x) && x != e {
                    let q = choose|q: int| 0 <= q < pre.push(e).len() && pre.push(e)[q] == x;
                    assert(pre[q] == x);
                }
                if before.contains(x) {
                    let q = choose|q: int| 0 <= q < before.len() && before[q] == x;
                    assert(res@[q] == x);
                }
                if pre.contains(x) {
                    let q = choose|q: int| 0 <= q < pre.len() && pre[q] == x;
                    assert(pre.push(e)[q] == x);
                }
                if x == e && !visited@.contains(x) {
                    assert(res@[res@.len() - 1] == e);
                }
                if x == e {
                    assert(pre.push(e)[i as int] == e);
                }
            }
        }
        i += 1;
    }
    assert(eligible@.subrange(0, eligible@.len() as int) =~= eligible@);
    res
}

/// The neighbours of the riot territory that the riot can first spread to.
fn initial_riot_candidates(
    riot: u16,
    owners_data: &HashMap<u16, u16>,
    targets_data: &HashMap<u16, Vec<u16>>,
    old_owner_id: u16,
) -> (eligible: Vec<u16>)
    requires
        closed_from(targets_data@, owners_data@, riot),
        owners_data@.contains_key(riot),
        old_owner_id == owners_data@[riot],
    ensures
        eligible@ == owned_neighbours(targets_data@[riot]@, owners_data@, old_owner_id),
        forall|e: u16| #[trigger] eligible@.contains(e)
            ==> spread_candidate(targets_data@, owners_data@, riot, seq![riot], e),
{
    let ghost g = targets_data@;
    let ghost owners = owners_data@;
    proof {
        assert(within(g, riot, 0).contains(riot));
        assert(reachable(g, riot, riot));
    }
    let nbrs = targets_data.get(&riot).unwrap();
    let mut eligible: Vec<u16> = Vec::new();
    let mut i: usize = 0;
    assert(nbrs@.take(0) =~= Seq::<u16>::empty());
    while i < nbrs.len()
        invariant
            i <= nbrs.len(),
            eligible@ == owned_neighbours(nbrs@.take(i as int), owners, old_owner_id),
            g == targets_data@,
            owners == owners_data@,
            nbrs@ == g[riot]@,
            g.contains_key(riot),
            closed_from(g, owners, riot),
            old_owner_id == owners[riot],
            reachable(g, riot, riot),
            forall|e: u16| #[trigger] eligible@.contains(e) ==> spread_candidate(g, owners, riot, seq![riot], e),
        decreases nbrs.len() - i,
    {
        let n = nbrs[i];
        proof {
            assert(nbrs@.take(i + 1).drop_last() =~= nbrs@.take(i as int));
            assert(nbrs@.take(i + 1).last() == n);
            assert(nbrs@.contains(n));
            assert(adjacent(g, riot, n));
            lemma_adjacent_reachable(g, riot, riot, n);
            let k = choose|k: nat| #[trigger] within(g, riot, k).contains(n);
            assert(owners.contains_key(n));
        }
        let o = *owners_data.get(&n).unwrap();
        if o == old_owner_id && n != old_owner_id {
            let ghost before = eligible@;
            eligible.push(n);
            proof {
                assert forall|e: u16| #[trigger] eligible@.contains(e)
                    implies spread_candidate(g, owners, riot, seq![riot], e) by {
                    if e == n {
                        assert(seq![riot][0] == riot);
                        assert(adjacent(g, seq![riot][0], n));
                    } else {
                        let q = choose|q: int| 0 <= q < eligible@.len() && eligible@[q] == e;
                        assert(q < before.len());
                        assert(before[q] == e);
                        assert(before.contains(e));
                    }
                }
            }
        }
        i += 1;
    }
    assert(nbrs@.take(nbrs@.len() as int) =~= nbrs@);
    eligible
}

/// `e` can be the next territory of a riot started at `riot` whose rioting
/// territories so far are `s`: it has the owner of `riot`, is not that owner's
/// capital, is not rioting yet and is adjacent to a rioting territory.
pub open spec fn fresh_candidate(g: Map<u16, Vec<u16>>, owners: Map<u16, u16>, riot: u16, s: Seq<u16>, e: u16) -> bool {
    &&& owners.contains_key(e)
    &&& owners[e] == owners[riot]
    &&& e != owners[riot]
    &&& !s.contains(e)
    &&& exists|j: int| 0 <= j < s.len() && adjacent(g, s[j], e)
}

/// `s` is the riot started at `riot` under the draws `draws`: draw `i` names the
/// candidate drawn at step `i` and whether its roll succeeded. The riot takes the
/// drawn candidate as long as it is a fresh candidate and its roll succeeded, and stops
/// at the first draw where one of these fails, or when the draws run out.
pub open spec fn riot_by_draws(
    g: Map<u16, Vec<u16>>,
    owners: Map<u16, u16>,
    riot: u16,
    draws: Seq<(u16, bool)>,
    s: Seq<u16>,
) -> bool {
    &&& 1 <= s.len() <= draws.len() + 1
    &&& s[0] == riot
    &&& forall|i: int| #![trigger draws[i]] 0 <= i < s.len() - 1 ==> {
        &&& draws[i].1
        &&& s[i + 1] == draws[i].0
        &&& fresh_candidate(g, owners, riot, s.take(i + 1), draws[i].0)
    }
    &&& (s.len() - 1 == draws.len() || !draws[s.len() - 1].1
        || !fresh_candidate(g, owners, riot, s, draws[s.len() - 1].0))
}

/// Whether `e` is a fresh candidate for the riot at `riot` whose territories so far
/// are `rioting`.
fn is_fresh_candidate(
    e: u16,
    rioting: &Vec<u16>,
    owners_data: &HashMap<u16, u16>,
    targets_data: &HashMap<u16, Vec<u16>>,
    old_owner_id: u16,
    Ghost(riot): Ghost<u16>,
) -> (r: bool)
    requires
        owners_data@.contains_key(riot),
        old_owner_id == owners_data@[riot],
        forall|t: u16| rioting@.contains(t) ==> targets_data@.contains_key(t),
    ensures
        r == fresh_candidate(targets_data@, owners_data@, riot, rioting@, e),
{
    match owners_data.get(&e) {
        None => false,
        Some(o) => {
            if *o != old_owner_id || e == old_owner_id || contains_id(rioting, e) {
                return false;
            }
            let mut j: usize = 0;
            while j < rioting.len()
                invariant
                    j <= rioting.len(),
                    forall|t: u16| rioting@.contains(t) ==> targets_data@.contains_key(t),
                    forall|q: int| 0 <= q < j ==> !adjacent(targets_data@, rioting@[q], e),
                    owners_data@.contains_key(e),
                    owners_data@.contains_key(riot),
                    owners_data@[e] == old_owner_id,
                    old_owner_id == owners_data@[riot],
                    e != old_owner_id,
                    !rioting@.contains(e),
                decreases rioting.len() - j,
            {
                assert(rioting@.contains(rioting@[j as int]));
                let nbrs = targets_data.get(&rioting[j]).unwrap();
                if contains_id(nbrs, e) {
                    assert(adjacent(targets_data@, rioting@[j as int], e));
                    return true;
                }
                j += 1;
            }
            false
        },
    }
}

/// The riot of `riot_territory_id` under the given draws (see `riot_by_draws`): the
/// rioting territories, in order, go to the new country `riot_territory_id`, and the
/// former owner leaves `remaining` if it lost its last territory.
pub fn riot_with_draws(
    riot_territory_id: u16,
    owners_data: &mut HashMap<u16, u16>,
    owns_data: &mut HashMap<u16, u16>,
    targets_data: &HashMap<u16, Vec<u16>>,
    remaining: &mut HashSet<u16>,
    draws: &Vec<(u16, bool)>,
) -> (rioting: Vec<u16>)
    requires
        consistent_state(old(owners_data)@, old(owns_data)@, old(remaining)@),
        old(owners_data)@.dom().len() <= u16::MAX,
        closed_from(targets_data@, old(owners_data)@, riot_territory_id),
    ensures
        consistent_state(final(owners_data)@, final(owns_data)@, final(remaining)@),
        final(remaining)@.contains(riot_territory_id),
        riot_by_draws(targets_data@, old(owners_data)@, riot_territory_id, draws@, rioting@),
        riot_spread(targets_data@, old(owners_data)@, riot_territory_id, rioting@),
        reassigned(old(owners_data)@, final(owners_data)@, rioting@.to_set(), riot_territory_id),
{
    let ghost g = targets_data@;
    let ghost owners0 = owners_data@;
    let ghost owns0 = owns_data@;
    let ghost rem0 = remaining@;
    let ghost riot = riot_territory_id;
    assert(within(g, riot, 0).contains(riot));
    let old_owner_id = *owners_data.get(&riot_territory_id).unwrap();
    let mut rioting: Vec<u16> = Vec::new();
    rioting.push(riot_territory_id);
    let mut k: usize = 0;
    proof {
        assert(rioting@ =~= seq![riot]);
    }
    while k < draws.len()
        invariant_except_break
            k <= draws.len(),
        invariant
            g == targets_data@,
            owners0 == owners_data@,
            riot == riot_territory_id,
            closed_from(g, owners0, riot),
            owners0.contains_key(riot),
            old_owner_id == owners0[riot],
            rioting@.len() == k + 1,
            k <= draws@.len(),
            rioting@[0] == riot,
            forall|i: int| #![trigger draws@[i]] 0 <= i < k ==> {
                &&& draws@[i].1
                &&& rioting@[i + 1] == draws@[i].0
                &&& fresh_candidate(g, owners0, riot, rioting@.take(i + 1), draws@[i].0)
            },
            riot_spread(g, owners0, riot, rioting@),
            forall|t: u16| rioting@.contains(t) ==> reachable(g, riot, t),
        ensures
            riot_by_draws(g, owners0, riot, draws@, rioting@),
            riot_spread(g, owners0, riot, rioting@),
        decreases draws.len() - k,
    {
        let (pick, spreads) = draws[k];
        proof {
            assert forall|t: u16| rioting@.contains(t) implies g.contains_key(t) by {
                let kk = choose|kk: nat| #[trigger] within(g, riot, kk).contains(t);
            }
        }
        if !spreads || !is_fresh_candidate(pick, &rioting, owners_data, targets_data, old_owner_id, Ghost(riot)) {
            break;
        }
        let ghost before = rioting@;
        rioting.push(pick);
        proof {
            let chosen = pick;
            assert(!before.contains(chosen));
            let jj = choose|j: int| 0 <= j < before.len() && adjacent(g, before[j], chosen);
            assert(before.contains(before[jj]));
            lemma_adjacent_reachable(g, riot, before[jj], chosen);
            assert forall|a: int, b: int| 0 <= a < b < rioting@.len() implies rioting@[a] != rioting@[b] by {
                if b == rioting@.len() - 1 {
                    assert(before.contains(before[a]));
                }
            }
            assert forall|i: int| 1 <= i < rioting@.len() implies {
                &&& owners0.contains_key(#[trigger] rioting@[i])
                &&& owners0[rioting@[i]] == owners0[riot]
                &&& rioting@[i] != owners0[riot]
                &&& exists|j: int| 0 <= j < i && adjacent(g, rioting@[j], rioting@[i])
            } by {
                if i == rioting@.len() - 1 {
                    assert(rioting@[jj] == before[jj]);
                } else {
                    assert(rioting@[i] == before[i]);
                    let j = choose|j: int| 0 <= j < i && adjacent(g, before[j], before[i]);
                    assert(rioting@[j] == before[j]);
                }
            }
            assert forall|t: u16| rioting@.contains(t) implies reachable(g, riot, t) by {
                if t != chosen {
                    let q = choose|q: int| 0 <= q < rioting@.len() && rioting@[q] == t;
                    assert(before[q] == t);
                    assert(before.contains(t));
                }
            }
            assert forall|i: int| #![trigger draws@[i]] 0 <= i < k + 1 implies {
                &&& draws@[i].1
                &&& rioting@[i + 1] == draws@[i].0
                &&& fresh_candidate(g, owners0, riot, rioting@.take(i + 1), draws@[i].0)
            } by {
                if i < k {
                    assert(rioting@.take(i + 1) =~= before.take(i + 1));
                    assert(rioting@[i + 1] == before[i + 1]);
                } else {
                    assert(rioting@.take(i + 1) =~= before);
                }
            }
        }
        k += 1;
    }
    proof {
        assert forall|t: u16| #[trigger] rioting@.contains(t) implies owners0.contains_key(t)
            && owners0[t] == old_owner_id by {
            let q = choose|q: int| 0 <= q < rioting@.len() && rioting@[q] == t;
            if q > 0 {
                assert(owners0.contains_key(rioting@[q]));
            }
        }
        assert(owners0.contains_key(old_owner_id));
    }
    transfer_territories(&rioting, riot_territory_id, owners_data, owns_data, Ghost(old_owner_id));
    remaining.insert(riot_territory_id);
    let left = *owns_data.get(&old_owner_id).unwrap();
    if left == 0 {
        remaining.remove(&old_owner_id);
    }
    proof {
        let new = owners_data@;
        let moved = rioting@.to_set();
        assert(moved.contains(riot)) by { assert(rioting@[0] == riot); }
        assert(moved.subset_of(owned_by(owners0, old_owner_id))) by {
            reveal(owned_by);
        }
        assert(remaining@ =~= (if owned_by(new, old_owner_id).len() == 0 {
            rem0.insert(riot).remove(old_owner_id)
        } else {
            rem0.insert(riot)
        }));
        lemma_settle(owners0, owns0, rem0, new, owns_data@, remaining@, moved, old_owner_id, riot, riot);
        lemma_owned_nonempty(new, riot, riot);
    }
    rioting
}

/// The territory `riot_territory_id` rises against its owner and becomes its own
/// country again. The riot then spreads, one random candidate at a time and with
/// probability 1/5 each, to territories of the same owner (never the owner's own
/// capital) adjacent to the rioting ones; the first failed roll ends it. All rioting
/// territories go to the new country; the former owner leaves `remaining` if it lost
/// its last territory. The candidates and rolls drawn are handed to `riot_with_draws`.
pub fn perform_riot(
    riot_territory_id: u16,
    owners_data: &mut HashMap<u16, u16>,
    owns_data: &mut HashMap<u16, u16>,
    targets_data: &HashMap<u16, Vec<u16>>,
    remaining: &mut HashSet<u16>,
)
    requires
        consistent_state(old(owners_data)@, old(owns_data)@, old(remaining)@),
        old(owners_data)@.dom().len() <= u16::MAX,
        closed_from(targets_data@, old(owners_data)@, riot_territory_id),
    ensures
        consistent_state(final(owners_data)@, final(owns_data)@, final(remaining)@),
        final(remaining)@.contains(riot_territory_id),
        exists|s: Seq<u16>| #[trigger] riot_spread(targets_data@, old(owners_data)@, riot_territory_id, s)
            && reassigned(old(owners_data)@, final(owners_data)@, s.to_set(), riot_territory_id),
        exists|draws: Seq<(u16, bool)>, s: Seq<u16>|
            #[trigger] riot_by_draws(targets_data@, old(owners_data)@, riot_territory_id, draws, s)
            && reassigned(old(owners_data)@, final(owners_data)@, s.to_set(), riot_territory_id),
{
    let ghost g = targets_data@;
    let ghost owners0 = owners_data@;
    let ghost owns0 = owns_data@;
    let ghost rem0 = remaining@;
    let ghost riot = riot_territory_id;
    assert(within(g, riot, 0).contains(riot));
    let old_owner_id = *owners_data.get(&riot_territory_id).unwrap();
    let mut rioting: Vec<u16> = Vec::new();
    rioting.push(riot_territory_id);
    let mut visited: HashSet<u16> = HashSet::new();
    visited.insert(riot_territory_id);
    let mut eligible = initial_riot_candidates(riot_territory_id, owners_data, targets_data, old_owner_id);
    let mut draws: Vec<(u16, bool)> = Vec::new();
    proof {
        assert(rioting@ =~= seq![riot]);
        assert(g.dom().finite());
        assert(owners0.dom().finite());
        vstd::set_lib::lemma_len_subset(visited@, owners0.dom());
    }
    loop
        invariant
            g == targets_data@,
            owners0 == owners_data@,
            riot == riot_territory_id,
            owners0.dom().finite(),
            closed_from(g, owners0, riot),
            owners0.contains_key(riot),
            old_owner_id == owners0[riot],
            riot_spread(g, owners0, riot, rioting@),
            forall|t: u16| rioting@.contains(t) ==> visited@.contains(t),
            forall|t: u16| rioting@.contains(t) ==> reachable(g, riot, t),
            visited@.subset_of(owners0.dom()),
            visited@.finite(),
            forall|e: u16| #[trigger] eligible@.contains(e) ==> spread_candidate(g, owners0, riot, rioting@, e),
        ensures
            riot_spread(g, owners0, riot, rioting@),
        decreases owners0.dom().len() - visited@.len(),
    {
        let current_eligible = unvisited(&eligible, &visited);
        if current_eligible.len() == 0 {
            break;
        }
        let chosen = rng::choose_one(&current_eligible);
        assert(current_eligible@.contains(chosen));
        assert(spread_candidate(g, owners0, riot, rioting@, chosen));
        let ghost before_visited = visited@;
        visited.insert(chosen);
        proof {
            before_visited.lemma_subset_not_in_lt(owners0.dom(), chosen);
            vstd::set_lib::lemma_len_subset(visited@, owners0.dom());
        }
        let spreads = roll(spread_odds());
        draws.push((chosen, spreads));
        if spreads {
            let ghost before = rioting@;
            rioting.push(chosen);
            proof {
                assert(!before.contains(chosen));
                assert forall|a: int, b: int| 0 <= a < b < rioting@.len() implies rioting@[a] != rioting@[b] by {
                    if b == rioting@.len() - 1 {
                        assert(before.contains(before[a]));
                    }
                }
                assert forall|i: int| 1 <= i < rioting@.len() implies {
                    &&& owners0.contains_key(#[trigger] rioting@[i])
                    &&& owners0[rioting@[i]] == owners0[riot]
                    &&& rioting@[i] != owners0[riot]
                    &&& exists|j: int| 0 <= j < i && adjacent(g, rioting@[j], rioting@[i])
                } by {
                    if i == rioting@.len() - 1 {
                        let j = choose|j: int| 0 <= j < before.len() && adjacent(g, before[j], chosen);
                        assert(rioting@[j] == before[j]);
                    } else {
                        assert(rioting@[i] == before[i]);
                        let j = choose|j: int| 0 <= j < i && adjacent(g, before[j], before[i]);
                        assert(rioting@[j] == before[j]);
                    }
                }
                assert forall|t: u16| rioting@.contains(t) implies visited@.contains(t) && reachable(g, riot, t) by {
                    if t != chosen {
                        let q = choose|q: int| 0 <= q < rioting@.len() && rioting@[q] == t;
                        assert(before[q] == t);
                        assert(before.contains(t));
                    }
                }
                assert forall|e: u16| #[trigger] eligible@.contains(e)
                    implies spread_candidate(g, owners0, riot, rioting@, e) by {
                    assert(spread_candidate(g, owners0, riot, before, e));
                    let j = choose|j: int| 0 <= j < before.len() && adjacent(g, before[j], e);
                    assert(rioting@[j] == before[j]);
                }
            }
            add_riot_candidates(chosen, owners_data, targets_data, &visited, &mut eligible,
                old_owner_id, Ghost(riot), Ghost(rioting@));
        } else {
            break;
        }
    }
    let rioted = riot_with_draws(riot_territory_id, owners_data, owns_data, targets_data, remaining, &draws);
    proof {
        assert(riot_by_draws(g, owners0, riot, draws@, rioted@));
        assert(riot_spread(g, owners0, riot, rioted@));
    }
}

/// Why a recorded capitulation breaks the cession rules.
#[derive(Debug, Clone, Copy, PartialEq, Eq)]
pub enum CapitulationError {
    /// More territories were ceded than the rules allow.
    TooManyCeded { ceded: usize, limit: usize },
    /// A ceded territory cannot be reached from the capital.
    CededUnreachable(u16),
    /// A territory kept by the defender cannot be reached from the capital.
    RemainingUnreachable(u16),
    /// A territory kept by the defender is closer to the capital than a ceded one.
    RemainingCloser { territory: u16, distance: usize, max_ceded_distance: usize },
}

impl CapitulationError {
    /// The explanation of the error, as the capitulation check words it.
    pub open spec fn text(self) -> Seq<char> {
        match self {
            CapitulationError::TooManyCeded { ceded, limit } => "Capitulation ceded too many territories: "@
                + decimal(ceded as nat) + " > "@ + decimal(limit as nat),
            CapitulationError::CededUnreachable(id) => "Ceded territory "@ + decimal(id as nat)
                + " unreachable from capital?"@,
            CapitulationError::RemainingUnreachable(id) => "Remaining territory "@ + decimal(id as nat)
                + " unreachable from capital?"@,
            CapitulationError::RemainingCloser { territory, distance, max_ceded_distance } => "Remaining territory "@
                + decimal(territory as nat) + " is closer ("@ + decimal(distance as nat)
                + ") than some ceded territory (max dist "@ + decimal(max_ceded_distance as nat) + ")"@,
        }
    }

    /// The explanation of the error, as the capitulation check words it.
    pub fn message(&self) -> (s: String)
        ensures
            s@ == self.text(),
    {
        let mut s = String::new();
        match self {
            CapitulationError::TooManyCeded { ceded, limit } => {
                s.append("Capitulation ceded too many territories: ");
                push_decimal(&mut s, *ceded as u64);
                s.append(" > ");
                push_decimal(&mut s, *limit as u64);
            },
            CapitulationError::CededUnreachable(id) => {
                s.append("Ceded territory ");
                push_decimal(&mut s, *id as u64);
                s.append(" unreachable from capital?");
            },
            CapitulationError::RemainingUnreachable(id) => {
                s.append("Remaining territory ");
                push_decimal(&mut s, *id as u64);
                s.append(" unreachable from capital?");
            },
            CapitulationError::RemainingCloser { territory, distance, max_ceded_distance } => {
                s.append("Remaining territory ");
                push_decimal(&mut s, *territory as u64);
                s.append(" is closer (");
                push_decimal(&mut s, *distance as u64);
                s.append(") than some ceded territory (max dist ");
                push_decimal(&mut s, *max_ceded_distance as u64);
                s.append(")");
            },
        }
        assert(s@ =~= self.text());
        s
    }
}

/// The most territories a capitulation may cede besides the capital: half of the
/// defender's territories (rounded up) minus one.
pub open spec fn cession_limit(owners: Map<u16, u16>, capital: u16) -> int {
    (owned_by(owners, owners[capital]).len() + 1) / 2 - 1
}

/// The defender's territories that were neither the capital nor ceded.
pub open spec fn kept_territories(owners: Map<u16, u16>, capital: u16, ceded: Seq<u16>) -> Set<u16> {
    owned_by(owners, owners[capital]).remove(capital).difference(ceded.to_set())
}

/// `m` is the largest distance from `capital` of a territory of `ceded` (0 for none).
pub open spec fn max_distance(g: Map<u16, Vec<u16>>, capital: u16, ceded: Seq<u16>, m: nat) -> bool {
    &&& forall|p: u16, d: nat| ceded.contains(p) && #[trigger] at_distance(g, capital, p, d) ==> d <= m
    &&& (m == 0 || exists|p: u16| ceded.contains(p) && #[trigger] at_distance(g, capital, p, m))
}

/// Every ceded and every kept territory is reachable from the capital, and no kept
/// territory is strictly closer to the capital than a ceded one.
pub open spec fn ceded_nearest_first(g: Map<u16, Vec<u16>>, owners: Map<u16, u16>, capital: u16, ceded: Seq<u16>) -> bool {
    &&& forall|p: u16| #[trigger] ceded.contains(p) ==> reachable(g, capital, p)
    &&& forall|t: u16| #[trigger] kept_territories(owners, capital, ceded).contains(t) ==> reachable(g, capital, t)
    &&& forall|p: u16, t: u16, dp: nat, dt: nat|
        ceded.contains(p) && kept_territories(owners, capital, ceded).contains(t)
        && #[trigger] at_distance(g, capital, p, dp) && #[trigger] at_distance(g, capital, t, dt) ==> dp <= dt
}

/// A capitulation at `capital` that ceded `ceded` on top of it obeys the rules.
pub open spec fn capitulation_valid(g: Map<u16, Vec<u16>>, owners: Map<u16, u16>, capital: u16, ceded: Seq<u16>) -> bool {
    &&& ceded.len() <= cession_limit(owners, capital)
    &&& ceded_nearest_first(g, owners, capital, ceded)
}

/// What `validate_capitulation` may answer for a capitulation at `capital` that ceded
/// `ceded` on top of it: success exactly for a valid capitulation, the cession limit
/// exactly when too many territories were ceded, and otherwise an error naming a
/// territory that breaks the rules.
pub open spec fn capitulation_outcome(
    g: Map<u16, Vec<u16>>,
    owners: Map<u16, u16>,
    capital: u16,
    ceded: Seq<u16>,
    result: Result<(), CapitulationError>,
) -> bool {
    &&& (result is Ok <==> capitulation_valid(g, owners, capital, ceded))
    &&& (ceded.len() > cession_limit(owners, capital) <==> result == Err::<(), CapitulationError>(
        CapitulationError::TooManyCeded { ceded: ceded.len() as usize, limit: cession_limit(owners, capital) as usize },
    ))
    &&& (result matches Err(CapitulationError::TooManyCeded { .. }) ==> ceded.len() > cession_limit(owners, capital))
    &&& (result matches Err(CapitulationError::CededUnreachable(id)) ==> {
        &&& ceded.len() <= cession_limit(owners, capital)
        &&& ceded.contains(id)
        &&& !reachable(g, capital, id)
    })
    &&& (result matches Err(CapitulationError::RemainingUnreachable(id)) ==> {
        &&& ceded.len() <= cession_limit(owners, capital)
        &&& forall|p: u16| #[trigger] ceded.contains(p) ==> reachable(g, capital, p)
        &&& kept_territories(owners, capital, ceded).contains(id)
        &&& !reachable(g, capital, id)
    })
    &&& (result matches Err(CapitulationError::RemainingCloser { territory, distance, max_ceded_distance }) ==> {
        &&& ceded.len() <= cession_limit(owners, capital)
        &&& forall|p: u16| #[trigger] ceded.contains(p) ==> reachable(g, capital, p)
        &&& kept_territories(owners, capital, ceded).contains(territory)
        &&& at_distance(g, capital, territory, distance as nat)
        &&& max_distance(g, capital, ceded, max_ceded_distance as nat)
        &&& distance < max_ceded_distance
    })
}

/// Checks a capitulation recorded by the game: the country owning `capital_id` lost it
/// and ceded `ceded_additional_ids` on top of it. At most half of its territories
/// (rounded up) minus one may be ceded, and no territory it keeps may be strictly
/// closer to the capital (by breadth-first distance) than a ceded one.
pub fn validate_capitulation(
    capital_id: u16,
    ceded_additional_ids: &[u16],
    owners_before: &HashMap<u16, u16>,
    targets_data: &HashMap<u16, Vec<u16>>,
) -> (result: Result<(), CapitulationError>)
    requires
        owners_before@.contains_key(capital_id),
        closed_from(targets_data@, targets_data@, capital_id),
    ensures
        result is Ok <==> capitulation_valid(targets_data@, owners_before@, capital_id, ceded_additional_ids@),
        ceded_additional_ids@.len() > cession_limit(owners_before@, capital_id) <==> result == Err::<(), CapitulationError>(
            CapitulationError::TooManyCeded {
                ceded: ceded_additional_ids@.len() as usize,
                limit: cession_limit(owners_before@, capital_id) as usize,
            },
        ),
        result matches Err(CapitulationError::TooManyCeded { .. })
            ==> ceded_additional_ids@.len() > cession_limit(owners_before@, capital_id),
        result matches Err(CapitulationError::CededUnreachable(id)) ==> {
            &&& ceded_additional_ids@.len() <= cession_limit(owners_before@, capital_id)
            &&& ceded_additional_ids@.contains(id)
            &&& !reachable(targets_data@, capital_id, id)
        },
        result matches Err(CapitulationError::RemainingUnreachable(id)) ==> {
            &&& ceded_additional_ids@.len() <= cession_limit(owners_before@, capital_id)
            &&& forall|p: u16| #[trigger] ceded_additional_ids@.contains(p) ==> reachable(targets_data@, capital_id, p)
            &&& kept_territories(owners_before@, capital_id, ceded_additional_ids@).contains(id)
            &&& !reachable(targets_data@, capital_id, id)
        },
        result matches Err(CapitulationError::RemainingCloser { territory, distance, max_ceded_distance }) ==> {
            &&& ceded_additional_ids@.len() <= cession_limit(owners_before@, capital_id)
            &&& forall|p: u16| #[trigger] ceded_additional_ids@.contains(p) ==> reachable(targets_data@, capital_id, p)
            &&& kept_territories(owners_before@, capital_id, ceded_additional_ids@).contains(territory)
            &&& at_distance(targets_data@, capital_id, territory, distance as nat)
            &&& max_distance(targets_data@, capital_id, ceded_additional_ids@, max_ceded_distance as nat)
            &&& distance < max_ceded_distance
        },
{
    let ghost g = targets_data@;
    let ghost owners = owners_before@;
    let ghost ceded = ceded_additional_ids@;
    let defender_id = *owners_before.get(&capital_id).unwrap();
    let n_before = count_owned_by(owners_before, defender_id);
    proof {
        lemma_owned_nonempty(owners, defender_id, capital_id);
    }
    let n_ceded_additional = ceded_additional_ids.len();
    let limit = n_before / 2 + n_before % 2 - 1;
    assert(limit == cession_limit(owners, capital_id));
    if n_ceded_additional > limit {
        return Err(CapitulationError::TooManyCeded { ceded: n_ceded_additional, limit });
    }
    let distances = bfs_distances(capital_id, targets_data);
    let mut max_ceded_dist: usize = 0;
    let mut i: usize = 0;
    while i < ceded_additional_ids.len()
        invariant
            i <= ceded_additional_ids.len(),
            ceded == ceded_additional_ids@,
            g == targets_data@,
            owners == owners_before@,
            n_ceded_additional == ceded.len(),
            n_ceded_additional <= limit,
            limit == cession_limit(owners, capital_id),
            forall|t: u16| distances@.contains_key(t) <==> reachable(g, capital_id, t),
            forall|t: u16| #[trigger] distances@.contains_key(t) ==> at_distance(g, capital_id, t, distances@[t] as nat),
            forall|p: u16| #[trigger] ceded.subrange(0, i as int).contains(p) ==> reachable(g, capital_id, p),
            max_distance(g, capital_id, ceded.subrange(0, i as int), max_ceded_dist as nat),
        decreases ceded_additional_ids.len() - i,
    {
        let id = ceded_additional_ids[i];
        let ghost pre = ceded.subrange(0, i as int);
        assert(ceded.subrange(0, i + 1) =~= pre.push(id));
        match distances.get(&id) {
            None => {
                proof {
                    assert(ceded.contains(id)) by { assert(ceded[i as int] == id); }
                }
                return Err(CapitulationError::CededUnreachable(id));
            }
            Some(d) => {
                let d = *d;
                proof {
                    assert forall|p: u16, e: nat| pre.push(id).contains(p) && #[trigger] at_distance(g, capital_id, p, e)
                        implies e <= (if d > max_ceded_dist { d } else { max_ceded_dist }) by {
                        if p == id {
                            lemma_shell_unique(g, capital_id, e, d as nat, id);
                        } else {
                            let q = choose|q: int| 0 <= q < pre.push(id).len() && pre.push(id)[q] == p;
                            assert(pre[q] == p);
                            assert(pre.contains(p));
                        }
                    }
                    assert forall|p: u16| #[trigger] pre.push(id).contains(p) implies reachable(g, capital_id, p) by {
                        if p != id {
                            let q = choose|q: int| 0 <= q < pre.push(id).len() && pre.push(id)[q] == p;
                            assert(pre[q] == p);
                            assert(pre.contains(p));
                        }
                    }
                    if d > max_ceded_dist {
                        assert(pre.push(id)[i as int] == id);
                        assert(pre.push(id).contains(id) && at_distance(g, capital_id, id, d as nat));
                    } else if max_ceded_dist > 0 {
                        let p = choose|p: u16| pre.contains(p) && #[trigger] at_distance(g, capital_id, p, max_ceded_dist as nat);
                        let q = choose|q: int| 0 <= q < pre.len() && pre[q] == p;
                        assert(pre.push(id)[q] == p);
                        assert(pre.push(id).contains(p));
                    }
                }
                if d > max_ceded_dist {
                    max_ceded_dist = d;
                }
            }
        }
        i += 1;
    }
    assert(ceded.subrange(0, ceded.len() as int) =~= ceded);
    let keys = collect_keys(owners_before);
    let mut j: usize = 0;
    while j < keys.len()
        invariant
            j <= keys.len(),
            ceded == ceded_additional_ids@,
            g == targets_data@,
            n_ceded_additional == ceded.len(),
            n_ceded_additional <= limit,
            limit == cession_limit(owners, capital_id),
            owners.contains_key(capital_id),
            owners == owners_before@,
            defender_id == owners[capital_id],
            keys@.to_set() == owners.dom(),
            forall|t: u16| distances@.contains_key(t) <==> reachable(g, capital_id, t),
            forall|t: u16| #[trigger] distances@.contains_key(t) ==> at_distance(g, capital_id, t, distances@[t] as nat),
            forall|p: u16| #[trigger] ceded.contains(p) ==> reachable(g, capital_id, p),
            max_distance(g, capital_id, ceded, max_ceded_dist as nat),
            forall|t: u16| #[trigger] kept_territories(owners, capital_id, ceded).contains(t)
                && keys@.subrange(0, j as int).contains(t) ==> reachable(g, capital_id, t)
                    && at_distance(g, capital_id, t, distances@[t] as nat)
                    && distances@[t] >= max_ceded_dist,
        decreases keys.len() - j,
    {
        let id = keys[j];
        let ghost pre = keys@.subrange(0, j as int);
        assert(keys@.subrange(0, j + 1) =~= pre.push(id));
        assert(keys@.to_set().contains(id));
        let owner = *owners_before.get(&id).unwrap();
        let kept = owner == defender_id && id != capital_id && !contains_id_slice(ceded_additional_ids, id);
        proof {
            reveal(owned_by);
            assert(kept == kept_territories(owners, capital_id, ceded).contains(id));
        }
        if kept {
            match distances.get(&id) {
                None => {
                    return Err(CapitulationError::RemainingUnreachable(id));
                }
                Some(d) => {
                    let d = *d;
                    if d < max_ceded_dist {
                        return Err(CapitulationError::RemainingCloser {
                            territory: id,
                            distance: d,
                            max_ceded_distance: max_ceded_dist,
                        });
                    }
                }
            }
        }
        proof {
            assert forall|t: u16| #[trigger] kept_territories(owners, capital_id, ceded).contains(t)
                && keys@.subrange(0, j + 1).contains(t) implies reachable(g, capital_id, t)
                    && at_distance(g, capital_id, t, distances@[t] as nat)
                    && distances@[t] >= max_ceded_dist by {
                if t != id {
                    let q = choose|q: int| 0 <= q < pre.push(id).len() && pre.push(id)[q] == t;
                    assert(pre[q] == t);
                    assert(pre.contains(t));
                }
            }
        }
        j += 1;
    }
    proof {
        assert(keys@.subrange(0, keys@.len() as int) =~= keys@);
        assert forall|t: u16| #[trigger] kept_territories(owners, capital_id, ceded).contains(t)
            implies reachable(g, capital_id, t) by {
            reveal(owned_by);
            assert(keys@.to_set().contains(t));
            assert(keys@.contains(t));
        }
        assert forall|p: u16, t: u16, dp: nat, dt: nat|
            ceded.contains(p) && kept_territories(owners, capital_id, ceded).contains(t)
            && #[trigger] at_distance(g, capital_id, p, dp) && #[trigger] at_distance(g, capital_id, t, dt)
            implies dp <= dt by {
            reveal(owned_by);
            assert(keys@.to_set().contains(t));
            assert(keys@.contains(t));
            lemma_shell_unique(g, capital_id, dt, distances@[t] as nat, t);
        }
    }
    Ok(())
}

/// Whether `x` occurs in `v`.
fn contains_id_slice(v: &[u16], x: u16) -> (r: bool)
    ensures
        r == v@.contains(x),
{
    let mut i: usize = 0;
    while i < v.len()
        invariant
            i <= v.len(),
            forall|q: int| 0 <= q < i ==> v@[q] != x,
        decreases v.len() - i,
    {
        if v[i] == x {
            return true;
        }
        i += 1;
    }
    false
}

/// What one turn did to the ownership map `new`, starting from `old`, when the
/// territory `chosen` was drawn: a riot of the eliminated country `chosen`, a conquest
/// from `chosen` of a territory in its nearest foreign shell, or nothing when no
/// foreign territory can be reached from `chosen`.
pub open spec fn turn_result(
    g: Map<u16, Vec<u16>>,
    old: Map<u16, u16>,
    old_owns: Map<u16, u16>,
    new: Map<u16, u16>,
    chosen: u16,
) -> bool {
    ||| (old_owns[chosen] == 0 && exists|s: Seq<u16>| #[trigger] riot_spread(g, old, chosen, s)
            && reassigned(old, new, s.to_set(), chosen))
    ||| exists|target: u16, picks: Set<u16>| #[trigger] conquest_outcome(g, old, new, chosen, target, picks)
            && exists|d: nat| #[trigger] nearest_foreign_distance(g, old, chosen, d)
                && foreign_in_shell(g, old, chosen, d).contains(target)
    ||| (new == old && forall|t: u16| reachable(g, chosen, t) ==> old[t] == old[chosen])
}

/// What one turn did under the draws `chosen` (the territory drawn), `riot_roll`
/// (the riot roll succeeded) and `target_draw` (a raw number): a riot of `chosen` if
/// its country is eliminated and the roll succeeded; otherwise, if `chosen` has attack
/// targets, a conquest of the target at position `target_draw % (number of targets)`
/// of the list of attack targets; otherwise nothing.
pub open spec fn turn_by_draws(
    g: Map<u16, Vec<u16>>,
    old: Map<u16, u16>,
    old_owns: Map<u16, u16>,
    new: Map<u16, u16>,
    chosen: u16,
    riot_roll: bool,
    target_draw: u64,
) -> bool {
    if old_owns[chosen] == 0 && riot_roll {
        exists|s: Seq<u16>| #[trigger] riot_spread(g, old, chosen, s) && reassigned(old, new, s.to_set(), chosen)
    } else if attack_targets(g, old, chosen).len() == 0 {
        new == old
    } else {
        let targets = attack_targets(g, old, chosen);
        exists|picks: Set<u16>| #[trigger] conquest_outcome(g, old, new, chosen,
            targets[(target_draw as int) % (targets.len() as int)], picks)
    }
}

/// Plays one turn under the draws `chosen_id`, `riot_roll` and `target_draw` (see
/// `turn_by_draws`), advancing the epoch. The riot or conquest makes its own draws.
pub fn turn_with_draws(
    epoch: &mut usize,
    owners_data: &mut HashMap<u16, u16>,
    owns_data: &mut HashMap<u16, u16>,
    targets_data: &HashMap<u16, Vec<u16>>,
    remaining: &mut HashSet<u16>,
    chosen_id: u16,
    riot_roll: bool,
    target_draw: u64,
)
    requires
        consistent_state(old(owners_data)@, old(owns_data)@, old(remaining)@),
        world_closed(targets_data@, old(owners_data)@),
        old(owners_data)@.dom().len() <= u16::MAX,
        old(owners_data)@.contains_key(chosen_id),
        *old(epoch) < usize::MAX,
    ensures
        *final(epoch) == *old(epoch) + 1,
        consistent_state(final(owners_data)@, final(owns_data)@, final(remaining)@),
        final(owners_data)@.dom() == old(owners_data)@.dom(),
        turn_by_draws(targets_data@, old(owners_data)@, old(owns_data)@, final(owners_data)@, chosen_id,
            riot_roll, target_draw),
        turn_result(targets_data@, old(owners_data)@, old(owns_data)@, final(owners_data)@, chosen_id),
{
    let ghost g = targets_data@;
    let ghost owners0 = owners_data@;
    let ghost owns0 = owns_data@;
    *epoch = *epoch + 1;
    proof {
        lemma_world_closed(g, owners0, chosen_id);
    }
    let owned = *owns_data.get(&chosen_id).unwrap();
    if owned == 0 && riot_roll {
        perform_riot(chosen_id, owners_data, owns_data, targets_data, remaining);
        proof {
            assert(turn_result(g, owners0, owns0, owners_data@, chosen_id));
        }
        return;
    }
    let targets = find_attack_targets(chosen_id, owners_data, targets_data);
    proof {
        if exists|d: nat| #[trigger] nearest_foreign_distance(g, owners0, chosen_id, d) {
            let d = choose|d: nat| #[trigger] nearest_foreign_distance(g, owners0, chosen_id, d);
            assert(targets@ == attack_targets(g, owners0, chosen_id));
        } else {
            assert(targets@.len() == 0);
            assert(targets@ =~= attack_targets(g, owners0, chosen_id));
        }
    }
    if targets.len() == 0 {
        proof {
            assert(owners_data@ =~= owners0);
            assert(turn_result(g, owners0, owns0, owners_data@, chosen_id));
        }
        return;
    }
    let len: u64 = targets.len() as u64;
    let idx: u64 = target_draw % len;
    let target_id = targets[idx as usize];
    proof {
        let d = choose|d: nat| #[trigger] nearest_foreign_distance(g, owners0, chosen_id, d);
        assert(targets@.contains(target_id));
        assert(targets@.to_set().contains(target_id));
        assert(foreign_in_shell(g, owners0, chosen_id, d).contains(target_id));
        let k = d;
        assert(within(g, chosen_id, k).contains(target_id));
        assert(owners0.contains_key(target_id));
        if capitulation_possible(owners0, target_id) {
            lemma_world_closed(g, owners0, target_id);
        }
    }
    perform_conquest(chosen_id, target_id, owners_data, owns_data, targets_data, remaining);
    proof {
        let picks = choose|picks: Set<u16>| #[trigger] conquest_outcome(g, owners0, owners_data@, chosen_id, target_id, picks);
        assert(conquest_outcome(g, owners0, owners_data@, chosen_id, target_id, picks));
        assert(turn_result(g, owners0, owns0, owners_data@, chosen_id));
    }
}

/// Plays one turn: advances the epoch, draws a random territory, lets it riot with
/// the odds `riot_odds` of the new epoch if its country is eliminated, and otherwise
/// lets its owner conquer a random territory of the nearest foreign shell around it.
pub fn play_turn(
    epoch: &mut usize,
    owners_data: &mut HashMap<u16, u16>,
    owns_data: &mut HashMap<u16, u16>,
    targets_data: &HashMap<u16, Vec<u16>>,
    remaining: &mut HashSet<u16>,
)
    requires
        consistent_state(old(owners_data)@, old(owns_data)@, old(remaining)@),
        world_closed(targets_data@, old(owners_data)@),
        old(owners_data)@.dom().len() > 0,
        old(owners_data)@.dom().len() <= u16::MAX,
        *old(epoch) <= LAST_TURN_EPOCH,
    ensures
        *final(epoch) == *old(epoch) + 1,
        consistent_state(final(owners_data)@, final(owns_data)@, final(remaining)@),
        final(owners_data)@.dom() == old(owners_data)@.dom(),
        exists|chosen: u16| old(owners_data)@.contains_key(chosen)
            && #[trigger] turn_result(targets_data@, old(owners_data)@, old(owns_data)@, final(owners_data)@, chosen),
        exists|chosen: u16, riot_roll: bool, target_draw: u64| old(owners_data)@.contains_key(chosen)
            && #[trigger] turn_by_draws(targets_data@, old(owners_data)@, old(owns_data)@, final(owners_data)@,
                chosen, riot_roll, target_draw),
{
    let ghost owners0 = owners_data@;
    let active_territories_ids = collect_keys(owners_data);
    proof {
        owners0.dom().lemma_to_seq_to_set_id();
        assert(active_territories_ids@.len() > 0) by {
            let t = owners0.dom().choose();
            assert(active_territories_ids@.to_set().contains(t));
        }
    }
    let chosen_id = rng::choose_one(&active_territories_ids);
    assert(active_territories_ids@.to_set().contains(chosen_id));
    let riot_roll = roll(riot_odds(*epoch + 1));
    let target_draw = rng::draw_below(u64::MAX);
    turn_with_draws(epoch, owners_data, owns_data, targets_data, remaining, chosen_id, riot_roll, target_draw);
}

/// The largest epoch at which a turn can still be played.
pub const LAST_TURN_EPOCH: usize = usize::MAX - 121;

/// `states` is a sequence of (owners, counts) states in which each one follows from
/// the one before by a single turn.
pub open spec fn played_turns(g: Map<u16, Vec<u16>>, states: Seq<(Map<u16, u16>, Map<u16, u16>)>) -> bool {
    &&& forall|i: int| 0 <= i < states.len() ==> #[trigger] counted_state(states[i])
    &&& forall|i: int| 0 <= i < states.len() - 1 ==> #[trigger] turn_between(g, states[i], states[i + 1])
}

/// The counts of the (owners, counts) state `s` are those of its ownership map, and
/// every owner is itself a territory.
pub open spec fn counted_state(s: (Map<u16, u16>, Map<u16, u16>)) -> bool {
    &&& s.0.dom().finite()
    &&& s.1.dom() == s.0.dom()
    &&& forall|t: u16| s.0.contains_key(t) ==> s.0.contains_key(#[trigger] s.0[t])
    &&& forall|c: u16| #[trigger] s.1.contains_key(c) ==> s.1[c] == owned_by(s.0, c).len()
}

/// The state `b` follows from the state `a` by one turn, in which some territory was
/// drawn.
pub open spec fn turn_between(g: Map<u16, Vec<u16>>, a: (Map<u16, u16>, Map<u16, u16>), b: (Map<u16, u16>, Map<u16, u16>)) -> bool {
    exists|chosen: u16| a.0.contains_key(chosen) && #[trigger] turn_result(g, a.0, a.1, b.0, chosen)
}

proof fn lemma_played_turn_push(
    g: Map<u16, Vec<u16>>,
    states: Seq<(Map<u16, u16>, Map<u16, u16>)>,
    next: (Map<u16, u16>, Map<u16, u16>),
    chosen: u16,
)
    requires
        played_turns(g, states),
        states.len() >= 1,
        counted_state(next),
        states.last().0.contains_key(chosen),
        turn_result(g, states.last().0, states.last().1, next.0, chosen),
    ensures
        played_turns(g, states.push(next)),
{
    let s2 = states.push(next);
    assert forall|i: int| 0 <= i < s2.len() implies #[trigger] counted_state(s2[i]) by {
        if i < states.len() {
            assert(s2[i] == states[i]);
        }
    }
    assert forall|i: int| 0 <= i < s2.len() - 1 implies #[trigger] turn_between(g, s2[i], s2[i + 1]) by {
        if i < states.len() - 1 {
            assert(s2[i] == states[i]);
            assert(s2[i + 1] == states[i + 1]);
            assert(turn_between(g, states[i], states[i + 1]));
        } else {
            assert(s2[i] == states.last());
            assert(s2[i + 1] == next);
            assert(turn_result(g, s2[i].0, s2[i].1, s2[i + 1].0, chosen));
        }
    }
    assert(played_turns(g, s2));
}

/// The state `to` follows from the state `from` by exactly `n` turns.
pub open spec fn reached_in_turns(
    g: Map<u16, Vec<u16>>,
    from: (Map<u16, u16>, Map<u16, u16>),
    to: (Map<u16, u16>, Map<u16, u16>),
    n: nat,
) -> bool {
    exists|states: Seq<(Map<u16, u16>, Map<u16, u16>)>|
        #[trigger] played_turns(g, states) && states.len() == n + 1 && states[0] == from && states.last() == to
}

/// Plays turns from `epoch` until a single country is left. Returns that country and
/// the epoch of the last turn; every territory then belongs to it. Returns the epoch
/// reached, with several countries left, if it passes `LAST_TURN_EPOCH` first.
pub fn simulate_run(
    epoch: usize,
    owners_data: &mut HashMap<u16, u16>,
    owns_data: &mut HashMap<u16, u16>,
    targets_data: &HashMap<u16, Vec<u16>>,
    remaining: &mut HashSet<u16>,
) -> (r: Result<(u16, usize), usize>)
    requires
        consistent_state(old(owners_data)@, old(owns_data)@, old(remaining)@),
        world_closed(targets_data@, old(owners_data)@),
        old(owners_data)@.dom().len() > 0,
        old(owners_data)@.dom().len() <= u16::MAX,
    ensures
        consistent_state(final(owners_data)@, final(owns_data)@, final(remaining)@),
        final(owners_data)@.dom() == old(owners_data)@.dom(),
        match r {
            Ok((winner, last)) => {
                &&& last >= epoch
                &&& final(remaining)@ == Set::<u16>::empty().insert(winner)
                &&& forall|t: u16| #[trigger] final(owners_data)@.contains_key(t) ==> final(owners_data)@[t] == winner
            },
            Err(last) => {
                &&& last == (if epoch > LAST_TURN_EPOCH { epoch } else { (LAST_TURN_EPOCH + 1) as usize })
                &&& final(remaining)@.len() > 1
            },
        },
        match r {
            Ok((_, last)) => reached_in_turns(targets_data@, (old(owners_data)@, old(owns_data)@),
                (final(owners_data)@, final(owns_data)@), (last - epoch) as nat),
            Err(last) => reached_in_turns(targets_data@, (old(owners_data)@, old(owns_data)@),
                (final(owners_data)@, final(owns_data)@), (last - epoch) as nat),
        },
{
    let ghost dom0 = owners_data@.dom();
    let ghost g = targets_data@;
    let ghost start = (owners_data@, owns_data@);
    let ghost mut states: Seq<(Map<u16, u16>, Map<u16, u16>)> = seq![start];
    assert(played_turns(g, states)) by {
        assert(counted_state(states[0]));
    }
    let mut e = epoch;
    loop
        invariant
            g == targets_data@,
            start == (old(owners_data)@, old(owns_data)@),
            states.len() == e - epoch + 1,
            states[0] == start,
            states.last() == (owners_data@, owns_data@),
            played_turns(g, states),
            e == epoch || (epoch <= LAST_TURN_EPOCH && e <= LAST_TURN_EPOCH + 1),
            consistent_state(owners_data@, owns_data@, remaining@),
            owners_data@.dom() == dom0,
            dom0 == old(owners_data)@.dom(),
            world_closed(targets_data@, owners_data@),
            dom0.len() > 0,
            dom0.len() <= u16::MAX,
            e >= epoch,
        ensures
            consistent_state(owners_data@, owns_data@, remaining@),
            owners_data@.dom() == dom0,
            dom0 == old(owners_data)@.dom(),
            dom0.len() > 0,
            e >= epoch,
            remaining@.len() <= 1,
            states.len() == e - epoch + 1,
            states[0] == start,
            states.last() == (owners_data@, owns_data@),
            played_turns(g, states),
        decreases usize::MAX - e,
    {
        if remaining.len() <= 1 {
            break;
        }
        if e > LAST_TURN_EPOCH {
            assert(states.len() == e - epoch + 1);
            return Err(e);
        }
        let ghost before = (owners_data@, owns_data@);
        play_turn(&mut e, owners_data, owns_data, targets_data, remaining);
        proof {
            let c = choose|c: u16| before.0.contains_key(c)
                && #[trigger] turn_result(g, before.0, before.1, owners_data@, c);
            lemma_played_turn_push(g, states, (owners_data@, owns_data@), c);
            states = states.push((owners_data@, owns_data@));
        }
    }
    let keys = collect_keys(owners_data);
    proof {
        owners_data@.dom().lemma_to_seq_to_set_id();
        let t = owners_data@.dom().choose();
        assert(keys@.to_set().contains(t));
    }
    let first = keys[0];
    assert(keys@.to_set().contains(first));
    let winner = *owners_data.get(&first).unwrap();
    proof {
        let rem = remaining@;
        lemma_owned_nonempty(owners_data@, winner, first);
        assert(rem.contains(winner));
        assert(rem.subset_of(owners_data@.dom())) by {
            assert forall|c: u16| #[trigger] rem.contains(c) implies owners_data@.dom().contains(c) by {
                reveal(owned_by);
                let t = owned_by(owners_data@, c).choose();
                assert(owned_by(owners_data@, c).contains(t));
            }
        }
        vstd::set_lib::lemma_len_subset(rem, owners_data@.dom());
        vstd::set::axiom_set_contains_len(rem, winner);
        assert(rem.len() == 1);
        rem.remove(winner).lemma_len0_is_empty();
        assert(rem =~= Set::<u16>::empty().insert(winner)) by {
            assert forall|x: u16| #[trigger] rem.contains(x) implies x == winner by {
                if x != winner {
                    assert(rem.remove(winner).contains(x));
                }
            }
        }
        crate::laws::law_last_country_owns_everything(owners_data@, owns_data@, rem, winner);
    }
    Ok((winner, e))
}

} // verus!
