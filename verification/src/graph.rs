//! Breadth-first structure of the territory adjacency graph.
//!
//! The graph maps each territory id to the ids of its neighbouring territories.
//! `within(g, s, k)` is the set of territories at most `k` steps away from `s`,
//! and `shell(g, s, k)` the set of territories exactly `k` steps away.

use std::collections::{HashMap, HashSet};
use vstd::prelude::*;

verus! {

broadcast use vstd::std_specs::hash::group_hash_axioms;

/// `n` is listed among the neighbours of `t`.
pub open spec fn adjacent(g: Map<u16, Vec<u16>>, t: u16, n: u16) -> bool {
    g.contains_key(t) && g[t]@.contains(n)
}

/// All territories that are a neighbour of some member of `s`.
pub open spec fn step(g: Map<u16, Vec<u16>>, s: Set<u16>) -> Set<u16> {
    Set::new(|n: u16| exists|t: u16| s.contains(t) && #[trigger] adjacent(g, t, n))
}

/// Territories at most `k` steps away from `start`.
pub open spec fn within(g: Map<u16, Vec<u16>>, start: u16, k: nat) -> Set<u16>
    decreases k,
{
    if k == 0 {
        Set::empty().insert(start)
    } else {
        let prev = within(g, start, (k - 1) as nat);
        prev.union(step(g, prev))
    }
}

/// Territories exactly `k` steps away from `start`.
pub open spec fn shell(g: Map<u16, Vec<u16>>, start: u16, k: nat) -> Set<u16> {
    if k == 0 {
        Set::empty().insert(start)
    } else {
        within(g, start, k).difference(within(g, start, (k - 1) as nat))
    }
}

/// `t` can be reached from `start` by following adjacency lists.
pub open spec fn reachable(g: Map<u16, Vec<u16>>, start: u16, t: u16) -> bool {
    exists|k: nat| #[trigger] within(g, start, k).contains(t)
}

/// `t` is exactly `d` steps away from `start`.
pub open spec fn at_distance(g: Map<u16, Vec<u16>>, start: u16, t: u16, d: nat) -> bool {
    shell(g, start, d).contains(t)
}

/// Every territory reachable from `start` has an adjacency list in `g`
/// and an entry in `m`.
pub open spec fn closed_from<V>(g: Map<u16, Vec<u16>>, m: Map<u16, V>, start: u16) -> bool {
    forall|k: nat, t: u16| #[trigger]
        within(g, start, k).contains(t) ==> g.contains_key(t) && m.contains_key(t)
}

pub proof fn lemma_within_mono(g: Map<u16, Vec<u16>>, start: u16, j: nat, k: nat)
    requires
        j <= k,
    ensures
        within(g, start, j).subset_of(within(g, start, k)),
    decreases k - j,
{
    if j < k {
        lemma_within_mono(g, start, j, (k - 1) as nat);
    }
}

pub proof fn lemma_step_union(g: Map<u16, Vec<u16>>, a: Set<u16>, b: Set<u16>)
    ensures
        step(g, a.union(b)) == step(g, a).union(step(g, b)),
{
    assert(step(g, a.union(b)) =~= step(g, a).union(step(g, b)));
}

/// The next ball is the current ball plus the neighbours of the outermost shell.
pub proof fn lemma_within_next(g: Map<u16, Vec<u16>>, start: u16, k: nat)
    ensures
        within(g, start, k + 1) == within(g, start, k).union(step(g, shell(g, start, k))),
{
    if k == 0 {
        assert(within(g, start, 1) =~= within(g, start, 0).union(step(g, shell(g, start, 0))));
    } else {
        let prev = within(g, start, (k - 1) as nat);
        let cur = within(g, start, k);
        let sh = shell(g, start, k);
        assert(cur =~= prev.union(sh));
        lemma_step_union(g, prev, sh);
        assert(within(g, start, k + 1) =~= cur.union(step(g, sh)));
    }
}

/// Once a shell is empty, the ball stops growing.
pub proof fn lemma_fixpoint(g: Map<u16, Vec<u16>>, start: u16, k: nat, m: nat)
    requires
        within(g, start, k + 1) == within(g, start, k),
        k <= m,
    ensures
        within(g, start, m) == within(g, start, k),
    decreases m - k,
{
    if m > k {
        lemma_fixpoint(g, start, k, (m - 1) as nat);
        assert(within(g, start, m) =~= within(g, start, (m - 1) as nat).union(
            step(g, within(g, start, (m - 1) as nat)),
        ));
        if m - 1 > k {
            assert(within(g, start, (m - 1) as nat) =~= within(g, start, k));
        }
    }
}

/// Membership in the ball is exactly membership in one of its shells.
pub proof fn lemma_within_has_shell(g: Map<u16, Vec<u16>>, start: u16, k: nat, t: u16)
    requires
        within(g, start, k).contains(t),
    ensures
        exists|d: nat| d <= k && #[trigger] shell(g, start, d).contains(t),
    decreases k,
{
    if k == 0 {
        assert(shell(g, start, 0).contains(t));
    } else if within(g, start, (k - 1) as nat).contains(t) {
        lemma_within_has_shell(g, start, (k - 1) as nat, t);
        let d = choose|d: nat| d <= k - 1 && #[trigger] shell(g, start, d).contains(t);
        assert(d <= k && shell(g, start, d).contains(t));
    } else {
        assert(shell(g, start, k).contains(t));
    }
}

/// Shells are disjoint: a territory has a single distance.
pub proof fn lemma_shell_unique(g: Map<u16, Vec<u16>>, start: u16, d1: nat, d2: nat, t: u16)
    requires
        shell(g, start, d1).contains(t),
        shell(g, start, d2).contains(t),
    ensures
        d1 == d2,
{
    if d1 < d2 {
        lemma_within_mono(g, start, d1, (d2 - 1) as nat);
    } else if d2 < d1 {
        lemma_within_mono(g, start, d2, (d1 - 1) as nat);
    }
}

/// `acc` (territories found, territories seen) after looking at `nbrs` in order: each
/// one not seen yet is appended and marked seen.
pub open spec fn add_new(nbrs: Seq<u16>, acc: (Seq<u16>, Set<u16>)) -> (Seq<u16>, Set<u16>)
    decreases nbrs.len(),
{
    if nbrs.len() == 0 {
        acc
    } else {
        let p = add_new(nbrs.drop_last(), acc);
        let n = nbrs.last();
        if p.1.contains(n) { p } else { (p.0.push(n), p.1.insert(n)) }
    }
}

/// `acc` after looking, in order, at the adjacency list of each member of `current`.
pub open spec fn expand_from(g: Map<u16, Vec<u16>>, current: Seq<u16>, acc: (Seq<u16>, Set<u16>)) -> (Seq<u16>, Set<u16>)
    decreases current.len(),
{
    if current.len() == 0 {
        acc
    } else {
        add_new(g[current.last()]@, expand_from(g, current.drop_last(), acc))
    }
}

/// Breadth-first search from `start`: the territories first found at step `k`, in the
/// order of discovery along the adjacency lists, and the territories seen by then.
pub open spec fn bfs_layer(g: Map<u16, Vec<u16>>, start: u16, k: nat) -> (Seq<u16>, Set<u16>)
    decreases k,
{
    if k == 0 {
        (seq![start], Set::empty().insert(start))
    } else {
        let prev = bfs_layer(g, start, (k - 1) as nat);
        expand_from(g, prev.0, (Seq::empty(), prev.1))
    }
}

/// The members of `ids`, in order, whose owner equals `owner` (when `same`) or differs
/// from it (when `!same`).
pub open spec fn owner_filter(ids: Seq<u16>, owners: Map<u16, u16>, owner: u16, same: bool) -> Seq<u16>
    decreases ids.len(),
{
    if ids.len() == 0 {
        Seq::empty()
    } else {
        let p = owner_filter(ids.drop_last(), owners, owner, same);
        if (owners[ids.last()] == owner) == same { p.push(ids.last()) } else { p }
    }
}

/// Adds each of `nbrs` that is not yet in `visited` to `visited` and to the end of `next`.
fn add_unvisited(nbrs: &Vec<u16>, visited: &mut HashSet<u16>, next: &mut Vec<u16>)
    requires
        old(next)@.to_set().subset_of(old(visited)@),
        old(next)@.no_duplicates(),
    ensures
        (final(next)@, final(visited)@) == add_new(nbrs@, (old(next)@, old(visited)@)),
        final(visited)@ == old(visited)@.union(nbrs@.to_set()),
        final(next)@.to_set() == old(next)@.to_set().union(nbrs@.to_set().difference(old(visited)@)),
        final(next)@.to_set().subset_of(final(visited)@),
        final(next)@.no_duplicates(),
{
    let ghost visited0 = visited@;
    let ghost next0 = next@;
    let mut j: usize = 0;
    while j < nbrs.len()
        invariant
            j <= nbrs.len(),
            (next@, visited@) == add_new(nbrs@.subrange(0, j as int), (next0, visited0)),
            visited@ == visited0.union(nbrs@.subrange(0, j as int).to_set()),
            next@.to_set() == next0.to_set().union(
                nbrs@.subrange(0, j as int).to_set().difference(visited0),
            ),
            next@.to_set().subset_of(visited@),
            next@.no_duplicates(),
        decreases nbrs.len() - j,
    {
        let n = nbrs[j];
        let ghost pre = nbrs@.subrange(0, j as int);
        assert(nbrs@.subrange(0, j + 1) =~= pre.push(n));
        assert(pre.push(n).drop_last() =~= pre);
        proof { pre.lemma_push_to_set_commute(n); }
        if visited.insert(n) {
            let ghost before = next@;
            next.push(n);
            proof { before.lemma_push_to_set_commute(n); }
            assert(next@.no_duplicates()) by {
                assert forall|a: int, b: int| 0 <= a < b < next@.len() implies next@[a] != next@[b] by {
                    if b == next@.len() - 1 {
                        assert(before.to_set().contains(before[a]));
                    }
                }
            }
        }
        j += 1;
        assert(visited@ =~= visited0.union(nbrs@.subrange(0, j as int).to_set()));
        assert(next@.to_set() =~= next0.to_set().union(
            nbrs@.subrange(0, j as int).to_set().difference(visited0),
        ));
    }
    assert(nbrs@.subrange(0, nbrs@.len() as int) =~= nbrs@);
    assert(nbrs@.subrange(0, 0) =~= Seq::<u16>::empty());
}

/// Computes the shell after `current`: returns the territories exactly `k + 1`
/// steps away from `start`, each once, and marks them visited.
pub(crate) fn expand_shell(
    targets: &HashMap<u16, Vec<u16>>,
    current: &Vec<u16>,
    visited: &mut HashSet<u16>,
    Ghost(start): Ghost<u16>,
    Ghost(k): Ghost<nat>,
) -> (next: Vec<u16>)
    requires
        old(visited)@ == within(targets@, start, k),
        current@.to_set() == shell(targets@, start, k),
        forall|t: u16| #[trigger] within(targets@, start, k).contains(t) ==> targets@.contains_key(t),
    ensures
        (next@, final(visited)@) == expand_from(targets@, current@, (Seq::empty(), old(visited)@)),
        final(visited)@ == within(targets@, start, k + 1),
        next@.to_set() == shell(targets@, start, k + 1),
        next@.no_duplicates(),
{
    let ghost g = targets@;
    let ghost ball = within(g, start, k);
    let ghost visited0 = visited@;
    let mut next: Vec<u16> = Vec::new();
    let mut i: usize = 0;
    proof {
        lemma_within_mono(g, start, 0, k);
        if k > 0 {
            assert(current@.to_set().subset_of(ball));
        }
        assert(current@.subrange(0, 0).to_set() =~= Set::<u16>::empty());
        assert(step(g, Set::<u16>::empty()) =~= Set::<u16>::empty());
        assert(visited@ =~= ball.union(step(g, current@.subrange(0, 0).to_set())));
        assert(next@.to_set() =~= Set::<u16>::empty());
        assert(current@.subrange(0, 0) =~= Seq::<u16>::empty());
    }
    while i < current.len()
        invariant
            i <= current.len(),
            g == targets@,
            ball == within(g, start, k),
            current@.to_set() == shell(g, start, k),
            shell(g, start, k).subset_of(ball),
            forall|t: u16| #[trigger] ball.contains(t) ==> g.contains_key(t),
            visited0 == ball,
            (next@, visited@) == expand_from(g, current@.subrange(0, i as int), (Seq::empty(), visited0)),
            visited@ == ball.union(step(g, current@.subrange(0, i as int).to_set())),
            next@.to_set() == visited@.difference(ball),
            next@.no_duplicates(),
        decreases current.len() - i,
    {
        let id = current[i];
        assert(current@.to_set().contains(id));
        let nbrs = targets.get(&id).unwrap();
        let ghost pre = current@.subrange(0, i as int);
        add_unvisited(nbrs, visited, &mut next);
        proof {
            assert(current@.subrange(0, i + 1) =~= pre.push(id));
            assert(pre.push(id).drop_last() =~= pre);
            pre.lemma_push_to_set_commute(id);
            lemma_step_union(g, pre.to_set(), Set::empty().insert(id));
            assert(step(g, Set::empty().insert(id)) =~= nbrs@.to_set()) by {
                assert forall|n: u16| nbrs@.to_set().contains(n) implies step(g, Set::empty().insert(id)).contains(n) by {
                    assert(adjacent(g, id, n));
                }
            }
            assert(pre.push(id).to_set() =~= pre.to_set().union(Set::empty().insert(id)));
            assert(visited@ =~= ball.union(step(g, current@.subrange(0, i + 1).to_set())));
            assert(next@.to_set() =~= visited@.difference(ball));
        }
        i += 1;
    }
    proof {
        assert(current@.subrange(0, current@.len() as int) =~= current@);
        lemma_within_next(g, start, k);
        assert(next@.to_set() =~= shell(g, start, k + 1));
    }
    next
}

/// The territories `d` steps from `attacker` that another country owns.
pub open spec fn foreign_in_shell(
    g: Map<u16, Vec<u16>>,
    owners: Map<u16, u16>,
    attacker: u16,
    d: nat,
) -> Set<u16> {
    shell(g, attacker, d).filter(|t: u16| owners[t] != owners[attacker])
}

/// `d` is the smallest distance at which `attacker` has a foreign territory.
pub open spec fn nearest_foreign_distance(
    g: Map<u16, Vec<u16>>,
    owners: Map<u16, u16>,
    attacker: u16,
    d: nat,
) -> bool {
    &&& !foreign_in_shell(g, owners, attacker, d).is_empty()
    &&& forall|j: nat| j < d ==> (#[trigger] foreign_in_shell(g, owners, attacker, j)).is_empty()
}

/// The attack targets from `attacker`: the foreign territories of the nearest shell
/// that holds any, in breadth-first discovery order; empty when there are none.
pub open spec fn attack_targets(g: Map<u16, Vec<u16>>, owners: Map<u16, u16>, attacker: u16) -> Seq<u16> {
    if exists|d: nat| #[trigger] nearest_foreign_distance(g, owners, attacker, d) {
        let d = choose|d: nat| #[trigger] nearest_foreign_distance(g, owners, attacker, d);
        owner_filter(bfs_layer(g, attacker, d).0, owners, owners[attacker], false)
    } else {
        Seq::empty()
    }
}

/// Keeps the members of `ids` whose owner equals `owner` (when `same`) or differs
/// from it (when `!same`), in their order.
pub(crate) fn select_by_owner(ids: &Vec<u16>, owners: &HashMap<u16, u16>, owner: u16, same: bool) -> (res: Vec<u16>)
    requires
        ids@.no_duplicates(),
        forall|t: u16| ids@.contains(t) ==> owners@.contains_key(t),
    ensures
        res@ == owner_filter(ids@, owners@, owner, same),
        res@.no_duplicates(),
        res@.to_set() == ids@.to_set().filter(|t: u16| (owners@[t] == owner) == same),
        res.len() <= ids.len(),
{
    let ghost pred = |t: u16| (owners@[t] == owner) == same;
    let mut res: Vec<u16> = Vec::new();
    let mut i: usize = 0;
    assert(ids@.subrange(0, 0).to_set() =~= Set::<u16>::empty());
    assert(res@.to_set() =~= ids@.subrange(0, 0).to_set().filter(pred));
    while i < ids.len()
        invariant
            i <= ids.len(),
            ids@.no_duplicates(),
            forall|t: u16| ids@.contains(t) ==> owners@.contains_key(t),
            res@ == owner_filter(ids@.subrange(0, i as int), owners@, owner, same),
            res@.no_duplicates(),
            res@.to_set() == ids@.subrange(0, i as int).to_set().filter(pred),
            res.len() <= i,
            pred == (|t: u16| (owners@[t] == owner) == same),
        decreases ids.len() - i,
    {
        let id = ids[i];
        assert(ids@.contains(id));
        let o = *owners.get(&id).unwrap();
        let ghost pre = ids@.subrange(0, i as int);
        proof {
            assert(ids@.subrange(0, i + 1) =~= pre.push(id));
            assert(pre.push(id).drop_last() =~= pre);
            pre.lemma_push_to_set_commute(id);
        }
        if (o == owner) == same {
            let ghost before = res@;
            res.push(id);
            proof {
                before.lemma_push_to_set_commute(id);
                assert(!pre.to_set().contains(id)) by {
                    if pre.to_set().contains(id) {
                        let q = choose|q: int| 0 <= q < pre.len() && pre[q] == id;
                        assert(ids@[q] == ids@[i as int]);
                    }
                }
                assert(res@.no_duplicates()) by {
                    assert forall|a: int, b: int| 0 <= a < b < res@.len() implies res@[a] != res@[b] by {
                        if b == res@.len() - 1 {
                            assert(before.to_set().contains(before[a]));
                        }
                    }
                }
            }
        }
        i += 1;
        assert(res@.to_set() =~= ids@.subrange(0, i as int).to_set().filter(pred));
    }
    assert(ids@.subrange(0, ids@.len() as int) =~= ids@);
    res
}

/// Returns every territory of the nearest shell around `attacker_id` (by breadth-first
/// search over `targets_data`) that holds territories of another country than the one
/// owning `attacker_id`. Returns an empty vector when every territory reachable from
/// `attacker_id` belongs to its owner.
pub fn find_attack_targets(
    attacker_id: u16,
    owners_data: &HashMap<u16, u16>,
    targets_data: &HashMap<u16, Vec<u16>>,
) -> (targets: Vec<u16>)
    requires
        closed_from(targets_data@, owners_data@, attacker_id),
    ensures
        targets@.no_duplicates(),
        targets@.len() > 0 <==> exists|d: nat| #[trigger] nearest_foreign_distance(targets_data@, owners_data@, attacker_id, d),
        forall|d: nat| #[trigger] nearest_foreign_distance(targets_data@, owners_data@, attacker_id, d)
            ==> targets@.to_set() == foreign_in_shell(targets_data@, owners_data@, attacker_id, d),
        forall|d: nat| #[trigger] nearest_foreign_distance(targets_data@, owners_data@, attacker_id, d)
            ==> targets@ == owner_filter(bfs_layer(targets_data@, attacker_id, d).0, owners_data@,
                owners_data@[attacker_id], false),
        targets@.len() == 0 <==> forall|t: u16| reachable(targets_data@, attacker_id, t)
            ==> owners_data@[t] == owners_data@[attacker_id],
{
    let ghost g = targets_data@;
    let ghost owners = owners_data@;
    let ghost a = attacker_id;
    assert(within(g, a, 0).contains(a));
    let attacker_owner = *owners_data.get(&attacker_id).unwrap();
    let mut visited: HashSet<u16> = HashSet::new();
    visited.insert(attacker_id);
    let mut current: Vec<u16> = Vec::new();
    current.push(attacker_id);
    let ghost mut k: nat = 0;
    proof {
        assert(g.dom().finite());
        assert(current@ =~= Seq::<u16>::empty().push(a));
        Seq::<u16>::empty().lemma_push_to_set_commute(a);
        assert(visited@ =~= within(g, a, 0));
        assert(current@.to_set() =~= shell(g, a, 0));
        assert(current@ =~= seq![a]);
        assert(visited@ =~= Set::empty().insert(a));
        assert(foreign_in_shell(g, owners, a, 0) =~= Set::empty());
        lemma_within_dom(g, owners, a, 0);
        vstd::set_lib::lemma_len_subset(visited@, g.dom());
    }
    loop
        invariant
            g == targets_data@,
            owners == owners_data@,
            a == attacker_id,
            closed_from(g, owners, a),
            g.dom().finite(),
            attacker_owner == owners[a],
            (current@, visited@) == bfs_layer(g, a, k),
            visited@ == within(g, a, k),
            current@.to_set() == shell(g, a, k),
            visited@.finite(),
            visited@.len() <= g.dom().len(),
            forall|j: nat| j <= k ==> (#[trigger] foreign_in_shell(g, owners, a, j)).is_empty(),
        decreases g.dom().len() - visited@.len(),
    {
        let ghost before = visited@;
        let next = expand_shell(targets_data, &current, &mut visited, Ghost(a), Ghost(k));
        proof {
            k = k + 1;
            lemma_within_dom(g, owners, a, k);
            vstd::set_lib::lemma_len_subset(visited@, g.dom());
        }
        current = next;
        if current.len() == 0 {
            proof {
                assert(current@.to_set() =~= Set::<u16>::empty());
                assert(shell(g, a, k).is_empty());
                assert forall|t: u16| within(g, a, k).contains(t) implies within(g, a, (k - 1) as nat).contains(t) by {
                    if !within(g, a, (k - 1) as nat).contains(t) {
                        assert(shell(g, a, k).contains(t));
                    }
                }
                lemma_within_mono(g, a, (k - 1) as nat, k);
                assert(within(g, a, k) =~= within(g, a, (k - 1) as nat));
                lemma_no_foreign_reachable(g, owners, a, (k - 1) as nat);
                lemma_no_nearest(g, owners, a);
            }
            return Vec::new();
        }
        proof {
            assert forall|t: u16| current@.contains(t) implies owners.contains_key(t) by {
                assert(current@.to_set().contains(t));
            }
        }
        let foreign = select_by_owner(&current, owners_data, attacker_owner, false);
        assert(foreign@.to_set() =~= foreign_in_shell(g, owners, a, k));
        if foreign.len() > 0 {
            proof {
                assert(!foreign_in_shell(g, owners, a, k).is_empty()) by {
                    assert(foreign@.to_set().contains(foreign@[0]));
                }
                assert(nearest_foreign_distance(g, owners, a, k));
                assert forall|d: nat| #[trigger] nearest_foreign_distance(g, owners, a, d)
                    implies foreign@.to_set() == foreign_in_shell(g, owners, a, d)
                        && foreign@ == owner_filter(bfs_layer(g, a, d).0, owners, owners[a], false) by {
                    if d < k {
                    } else if d > k {
                        assert(foreign_in_shell(g, owners, a, k).is_empty());
                    }
                }
                let t = foreign@[0];
                assert(foreign@.to_set().contains(t));
                assert(reachable(g, a, t) && owners[t] != owners[a]) by {
                    assert(within(g, a, k).contains(t));
                }
            }
            return foreign;
        }
        proof {
            assert(foreign_in_shell(g, owners, a, k).is_empty()) by {
                assert(foreign@.to_set() =~= Set::<u16>::empty()) by {
                    if foreign@.len() > 0 { assert(foreign@.to_set().contains(foreign@[0])); }
                }
            }
            assert(!before.contains(current@[0]) && visited@.contains(current@[0])) by {
                assert(current@.to_set().contains(current@[0]));
            }
            assert(before.subset_of(visited@)) by { lemma_within_mono(g, a, (k - 1) as nat, k); }
            before.lemma_subset_not_in_lt(visited@, current@[0]);
        }
    }
}

/// Every member of the ball around `start` is a key of the graph, so the ball is finite.
pub proof fn lemma_within_dom<V>(g: Map<u16, Vec<u16>>, m: Map<u16, V>, start: u16, k: nat)
    requires
        closed_from(g, m, start),
        g.dom().finite(),
    ensures
        within(g, start, k).subset_of(g.dom()),
        within(g, start, k).finite(),
{
    assert forall|t: u16| within(g, start, k).contains(t) implies g.dom().contains(t) by {}
    vstd::set_lib::lemma_set_subset_finite(g.dom(), within(g, start, k));
}

/// When the ball has stopped growing and none of its shells holds a foreign territory,
/// no reachable territory is foreign.
pub proof fn lemma_no_foreign_reachable(g: Map<u16, Vec<u16>>, owners: Map<u16, u16>, a: u16, k: nat)
    requires
        within(g, a, k + 1) == within(g, a, k),
        forall|j: nat| j <= k ==> (#[trigger] foreign_in_shell(g, owners, a, j)).is_empty(),
    ensures
        forall|t: u16| reachable(g, a, t) ==> owners[t] == owners[a],
{
    assert forall|t: u16| reachable(g, a, t) implies owners[t] == owners[a] by {
        let m = choose|m: nat| #[trigger] within(g, a, m).contains(t);
        if m > k {
            lemma_fixpoint(g, a, k, m);
        } else {
            lemma_within_mono(g, a, m, k);
        }
        assert(within(g, a, k).contains(t));
        lemma_within_has_shell(g, a, k, t);
        let d = choose|d: nat| d <= k && #[trigger] shell(g, a, d).contains(t);
        assert(foreign_in_shell(g, owners, a, d).is_empty());
        if owners[t] != owners[a] {
            assert(foreign_in_shell(g, owners, a, d).contains(t));
        }
    }
}

pub proof fn lemma_no_nearest(g: Map<u16, Vec<u16>>, owners: Map<u16, u16>, a: u16)
    requires
        forall|t: u16| reachable(g, a, t) ==> owners[t] == owners[a],
    ensures
        forall|d: nat| !#[trigger] nearest_foreign_distance(g, owners, a, d),
{
    assert forall|d: nat| !#[trigger] nearest_foreign_distance(g, owners, a, d) by {
        if nearest_foreign_distance(g, owners, a, d) {
            let t = choose|t: u16| foreign_in_shell(g, owners, a, d).contains(t);
            assert(foreign_in_shell(g, owners, a, d).contains(t));
            assert(within(g, a, d).contains(t));
            assert(reachable(g, a, t));
        }
    }
}

/// Breadth-first distances from `start`: maps every territory reachable from `start`
/// to its number of steps from `start`, and nothing else.
pub fn bfs_distances(start: u16, targets_data: &HashMap<u16, Vec<u16>>) -> (dist: HashMap<u16, usize>)
    requires
        closed_from(targets_data@, targets_data@, start),
    ensures
        forall|t: u16| dist@.contains_key(t) <==> reachable(targets_data@, start, t),
        forall|t: u16| #[trigger] dist@.contains_key(t) ==> at_distance(targets_data@, start, t, dist@[t] as nat),
{
    let ghost g = targets_data@;
    let ghost s = start;
    let mut dist: HashMap<u16, usize> = HashMap::new();
    dist.insert(start, 0);
    let mut visited: HashSet<u16> = HashSet::new();
    visited.insert(start);
    let mut current: Vec<u16> = Vec::new();
    current.push(start);
    let mut k: usize = 0;
    proof {
        assert(g.dom().finite());
        assert(current@ =~= Seq::<u16>::empty().push(start));
        Seq::<u16>::empty().lemma_push_to_set_commute(start);
        assert(visited@ =~= within(g, s, 0));
        assert(current@.to_set() =~= shell(g, s, 0));
        assert(dist@.dom() =~= within(g, s, 0));
        lemma_within_dom(g, g, s, 0);
        vstd::set_lib::lemma_len_subset(visited@, g.dom());
        assert(targets_data@.len() == targets_data.len());
    }
    loop
        invariant
            g == targets_data@,
            s == start,
            closed_from(g, g, s),
            g.dom().finite(),
            g.dom().len() <= usize::MAX,
            visited@ == within(g, s, k as nat),
            current@.to_set() == shell(g, s, k as nat),
            visited@.finite(),
            visited@.len() <= g.dom().len(),
            k + 1 <= visited@.len(),
            dist@.dom() == within(g, s, k as nat),
            forall|t: u16| #[trigger] dist@.contains_key(t) ==> at_distance(g, s, t, dist@[t] as nat),
        decreases g.dom().len() - visited@.len(),
    {
        let ghost before = visited@;
        let next = expand_shell(targets_data, &current, &mut visited, Ghost(s), Ghost(k as nat));
        proof {
            lemma_within_dom(g, g, s, (k + 1) as nat);
            vstd::set_lib::lemma_len_subset(visited@, g.dom());
        }
        if next.len() == 0 {
            proof {
                assert(next@.to_set() =~= Set::<u16>::empty());
                assert forall|t: u16| within(g, s, (k + 1) as nat).contains(t) implies within(g, s, k as nat).contains(t) by {
                    if !within(g, s, k as nat).contains(t) {
                        assert(shell(g, s, (k + 1) as nat).contains(t));
                    }
                }
                lemma_within_mono(g, s, k as nat, (k + 1) as nat);
                assert(within(g, s, (k + 1) as nat) =~= within(g, s, k as nat));
                assert forall|t: u16| dist@.contains_key(t) <==> reachable(g, s, t) by {
                    if reachable(g, s, t) {
                        let m = choose|m: nat| #[trigger] within(g, s, m).contains(t);
                        if m > k {
                            lemma_fixpoint(g, s, k as nat, m);
                        } else {
                            lemma_within_mono(g, s, m, k as nat);
                        }
                    }
                    if dist@.contains_key(t) {
                        assert(within(g, s, k as nat).contains(t));
                    }
                }
            }
            return dist;
        }
        proof {
            assert(next@.to_set().contains(next@[0]));
            assert(!before.contains(next@[0]) && visited@.contains(next@[0]));
            assert(before.subset_of(visited@)) by { lemma_within_mono(g, s, k as nat, (k + 1) as nat); }
            before.lemma_subset_not_in_lt(visited@, next@[0]);
        }
        let mut i: usize = 0;
        assert(next@.subrange(0, 0).to_set() =~= Set::<u16>::empty());
        while i < next.len()
            invariant
                i <= next.len(),
                g == targets_data@,
                k + 1 <= g.dom().len(),
                k + 1 <= usize::MAX,
                next@.to_set() == shell(g, s, (k + 1) as nat),
                dist@.dom() == within(g, s, k as nat).union(next@.subrange(0, i as int).to_set()),
                forall|t: u16| #[trigger] dist@.contains_key(t) ==> at_distance(g, s, t, dist@[t] as nat),
            decreases next.len() - i,
        {
            let t = next[i];
            assert(next@.to_set().contains(t));
            dist.insert(t, k + 1);
            proof {
                let pre = next@.subrange(0, i as int);
                assert(next@.subrange(0, i + 1) =~= pre.push(t));
                pre.lemma_push_to_set_commute(t);
                assert(dist@.dom() =~= within(g, s, k as nat).union(next@.subrange(0, i + 1).to_set()));
            }
            i += 1;
        }
        proof {
            assert(next@.subrange(0, next@.len() as int) =~= next@);
            lemma_within_mono(g, s, k as nat, (k + 1) as nat);
            assert(dist@.dom() =~= within(g, s, (k + 1) as nat));
        }
        k = k + 1;
        current = next;
    }
}

/// A neighbour of a reachable territory is reachable.
pub proof fn lemma_adjacent_reachable(g: Map<u16, Vec<u16>>, start: u16, t: u16, n: u16)
    requires
        reachable(g, start, t),
        adjacent(g, t, n),
    ensures
        reachable(g, start, n),
{
    let k = choose|k: nat| #[trigger] within(g, start, k).contains(t);
    assert(step(g, within(g, start, k)).contains(n));
    assert(within(g, start, k + 1).contains(n));
}

/// Whether `x` occurs in `v`.
pub(crate) fn contains_id(v: &Vec<u16>, x: u16) -> (r: bool)
    ensures
        r == v@.contains(x),
{
    let mut i: usize = 0;
    while i < v.len()
        invariant
            i <= v.len(),
            forall|q: int| 0 <= q < i ==> v@[q] != x,
        decreases v.len() - i,
    {
        if v[i] == x {
            return true;
        }
        i += 1;
    }
    false
}

/// Whether every territory reachable from `start` has an adjacency list and an entry
/// in `m`.
pub fn region_closed<V>(targets_data: &HashMap<u16, Vec<u16>>, m: &HashMap<u16, V>, start: u16) -> (ok: bool)
    ensures
        ok == closed_from(targets_data@, m@, start),
{
    let ghost g = targets_data@;
    assert(within(g, start, 0).contains(start));
    if !targets_data.contains_key(&start) || !m.contains_key(&start) {
        return false;
    }
    let mut visited: HashSet<u16> = HashSet::new();
    visited.insert(start);
    let mut current: Vec<u16> = Vec::new();
    current.push(start);
    let ghost mut k: nat = 0;
    proof {
        assert(g.dom().finite());
        assert(visited@ =~= within(g, start, 0));
        assert(current@ =~= Seq::<u16>::empty().push(start));
        Seq::<u16>::empty().lemma_push_to_set_commute(start);
        assert(current@.to_set() =~= shell(g, start, 0));
        vstd::set_lib::lemma_len_subset(within(g, start, 0), g.dom());
    }
    loop
        invariant
            g == targets_data@,
            g.dom().finite(),
            visited@ == within(g, start, k),
            current@.to_set() == shell(g, start, k),
            forall|t: u16| #[trigger] within(g, start, k).contains(t) ==> g.contains_key(t) && m@.contains_key(t),
            within(g, start, k).len() <= g.dom().len(),
        decreases g.dom().len() - within(g, start, k).len(),
    {
        let next = expand_shell(targets_data, &current, &mut visited, Ghost(start), Ghost(k));
        let mut i: usize = 0;
        while i < next.len()
            invariant
                i <= next.len(),
                g == targets_data@,
                next@.to_set() == shell(g, start, k + 1),
                forall|j: int| 0 <= j < i ==> g.contains_key(#[trigger] next@[j]) && m@.contains_key(next@[j]),
            decreases next.len() - i,
        {
            if !targets_data.contains_key(&next[i]) || !m.contains_key(&next[i]) {
                proof {
                    assert(next@.to_set().contains(next@[i as int]));
                    assert(within(g, start, k + 1).contains(next@[i as int]));
                }
                return false;
            }
            i += 1;
        }
        proof {
            lemma_within_mono(g, start, k, k + 1);
            assert forall|t: u16| #[trigger] within(g, start, k + 1).contains(t) implies g.contains_key(t)
                && m@.contains_key(t) by {
                if !within(g, start, k).contains(t) {
                    assert(shell(g, start, k + 1).contains(t));
                    assert(next@.to_set().contains(t));
                    let q = choose|q: int| 0 <= q < next@.len() && next@[q] == t;
                }
            }
            assert(within(g, start, k + 1).subset_of(g.dom()));
            vstd::set_lib::lemma_len_subset(within(g, start, k + 1), g.dom());
        }
        if next.len() == 0 {
            proof {
                assert(within(g, start, k + 1) =~= within(g, start, k)) by {
                    assert forall|t: u16| within(g, start, k + 1).contains(t) implies within(g, start, k).contains(t) by {
                        if !within(g, start, k).contains(t) {
                            assert(shell(g, start, k + 1).contains(t));
                            assert(next@.to_set().contains(t));
                        }
                    }
                }
                assert forall|j: nat, t: u16| #[trigger] within(g, start, j).contains(t)
                    implies g.contains_key(t) && m@.contains_key(t) by {
                    if j > k {
                        lemma_fixpoint(g, start, k, j);
                    } else {
                        lemma_within_mono(g, start, j, k);
                    }
                }
            }
            return true;
        }
        proof {
            assert(next@.to_set().contains(next@[0]));
            vstd::set_lib::lemma_set_subset_finite(g.dom(), within(g, start, k + 1));
            within(g, start, k).lemma_subset_not_in_lt(within(g, start, k + 1), next@[0]);
            k = k + 1;
        }
        current = next;
    }
}

/// The map is self-contained: the territories with an adjacency list are exactly
/// those of `m`, and every listed neighbour has an adjacency list itself.
pub open spec fn world_closed<V>(g: Map<u16, Vec<u16>>, m: Map<u16, V>) -> bool {
    &&& g.dom() == m.dom()
    &&& forall|t: u16, n: u16| #[trigger] adjacent(g, t, n) ==> g.contains_key(n)
}

/// In a self-contained map, every search from a known territory stays on the map.
pub proof fn lemma_world_closed<V>(g: Map<u16, Vec<u16>>, m: Map<u16, V>, start: u16)
    requires
        world_closed(g, m),
        m.contains_key(start),
    ensures
        closed_from(g, m, start),
        closed_from(g, g, start),
{
    assert forall|k: nat, t: u16| #[trigger] within(g, start, k).contains(t) implies g.contains_key(t) && m.contains_key(t) by {
        lemma_within_in_dom(g, m, start, k);
    }
}

proof fn lemma_within_in_dom<V>(g: Map<u16, Vec<u16>>, m: Map<u16, V>, start: u16, k: nat)
    requires
        world_closed(g, m),
        m.contains_key(start),
    ensures
        within(g, start, k).subset_of(g.dom()),
    decreases k,
{
    if k > 0 {
        lemma_within_in_dom(g, m, start, (k - 1) as nat);
        let prev = within(g, start, (k - 1) as nat);
        assert forall|n: u16| step(g, prev).contains(n) implies g.contains_key(n) by {
            let t = choose|t: u16| prev.contains(t) && #[trigger] adjacent(g, t, n);
        }
    }
}

/// Whether the map is self-contained: `owners` has exactly the territories that have
/// adjacency lists, and every listed neighbour has an adjacency list itself.
pub fn map_is_closed(targets_data: &HashMap<u16, Vec<u16>>, owners: &HashMap<u16, u16>) -> (ok: bool)
    ensures
        ok == world_closed(targets_data@, owners@),
{
    let ghost g = targets_data@;
    let keys = crate::state::collect_keys(targets_data);
    let mut i: usize = 0;
    while i < keys.len()
        invariant
            i <= keys.len(),
            g == targets_data@,
            keys@.to_set() == g.dom(),
            forall|j: int| 0 <= j < i ==> owners@.contains_key(#[trigger] keys@[j]),
            forall|j: int, n: u16| 0 <= j < i && #[trigger] adjacent(g, keys@[j], n) ==> g.contains_key(n),
        decreases keys.len() - i,
    {
        let t = keys[i];
        assert(keys@.to_set().contains(t));
        if !owners.contains_key(&t) {
            return false;
        }
        let nbrs = targets_data.get(&t).unwrap();
        let mut k: usize = 0;
        while k < nbrs.len()
            invariant
                k <= nbrs.len(),
                g == targets_data@,
                g.contains_key(t),
                nbrs@ == g[t]@,
                forall|q: int| 0 <= q < k ==> g.contains_key(#[trigger] nbrs@[q]),
            decreases nbrs.len() - k,
        {
            if !targets_data.contains_key(&nbrs[k]) {
                assert(adjacent(g, t, nbrs@[k as int]));
                return false;
            }
            k += 1;
        }
        proof {
            assert forall|j: int, n: u16| 0 <= j < i + 1 && #[trigger] adjacent(g, keys@[j], n)
                implies g.contains_key(n) by {
                if j == i {
                    let q = choose|q: int| 0 <= q < nbrs@.len() && nbrs@[q] == n;
                }
            }
        }
        i += 1;
    }
    proof {
        assert(g.dom().subset_of(owners@.dom())) by {
            assert forall|t: u16| g.dom().contains(t) implies owners@.dom().contains(t) by {
                let j = choose|j: int| 0 <= j < keys@.len() && keys@[j] == t;
                assert(owners@.contains_key(keys@[j]));
            }
        }
        assert forall|t: u16, n: u16| #[trigger] adjacent(g, t, n) implies g.contains_key(n) by {
            assert(keys@.to_set().contains(t));
            let j = choose|j: int| 0 <= j < keys@.len() && keys@[j] == t;
            assert(adjacent(g, keys@[j], n));
        }
    }
    if targets_data.len() != owners.len() {
        return false;
    }
    proof {
        vstd::set_lib::lemma_subset_equality(g.dom(), owners@.dom());
    }
    true
}

} // verus!
