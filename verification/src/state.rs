//! Game-state bookkeeping: which country owns each territory, how many territories
//! each country owns, and which countries are still in the game.
//!
//! Countries are identified by the id of their original capital territory, so the
//! owner of a territory is itself a territory id.

use std::collections::HashMap;
use vstd::prelude::*;
use vstd::std_specs::iter::IteratorSpec;

verus! {

broadcast use vstd::std_specs::hash::group_hash_axioms;

/// The territories that country `c` owns.
#[verifier::opaque]
pub open spec fn owned_by(owners: Map<u16, u16>, c: u16) -> Set<u16> {
    owners.dom().filter(|t: u16| owners[t] == c)
}

/// The three views of the game state agree: `owns` counts, for every territory id,
/// the territories owned by that country, and `remaining` holds exactly the countries
/// that own at least one territory. Every owner is itself a territory.
pub open spec fn consistent_state(owners: Map<u16, u16>, owns: Map<u16, u16>, remaining: Set<u16>) -> bool {
    &&& owners.dom().finite()
    &&& owns.dom() == owners.dom()
    &&& forall|t: u16| owners.contains_key(t) ==> owners.contains_key(#[trigger] owners[t])
    &&& forall|c: u16| #[trigger] owns.contains_key(c) ==> owns[c] == owned_by(owners, c).len()
    &&& forall|c: u16| #[trigger] remaining.contains(c) <==> owned_by(owners, c).len() > 0
}

/// `new` is `old` with every territory of `moved` handed to `to`.
pub open spec fn reassigned(old: Map<u16, u16>, new: Map<u16, u16>, moved: Set<u16>, to: u16) -> bool {
    &&& new.dom() == old.dom()
    &&& forall|t: u16| #[trigger] new.contains_key(t) ==> new[t] == (if moved.contains(t) { to } else { old[t] })
}

pub proof fn lemma_owned_finite(owners: Map<u16, u16>, c: u16)
    requires
        owners.dom().finite(),
    ensures
        owned_by(owners, c).finite(),
        owned_by(owners, c).len() <= owners.dom().len(),
{
    reveal(owned_by);
    vstd::set_lib::lemma_len_subset(owned_by(owners, c), owners.dom());
}

/// A country owns something exactly when one of its territories exists.
pub proof fn lemma_owned_nonempty(owners: Map<u16, u16>, c: u16, t: u16)
    requires
        owners.dom().finite(),
        owners.contains_key(t),
        owners[t] == c,
    ensures
        owned_by(owners, c).contains(t),
        owned_by(owners, c).len() > 0,
{
    reveal(owned_by);
    lemma_owned_finite(owners, c);
    assert(owned_by(owners, c).contains(t));
}

/// Moving one territory from its owner to `to` moves one unit of count.
pub proof fn lemma_move_one(owners: Map<u16, u16>, t: u16, to: u16, c: u16)
    requires
        owners.dom().finite(),
        owners.contains_key(t),
    ensures
        ({
            let from = owners[t];
            let new = owners.insert(t, to);
            &&& owned_by(new, c).finite()
            &&& if from == to {
                owned_by(new, c).len() == owned_by(owners, c).len()
            } else if c == from {
                owned_by(new, c).len() + 1 == owned_by(owners, c).len()
            } else if c == to {
                owned_by(new, c).len() == owned_by(owners, c).len() + 1
            } else {
                owned_by(new, c).len() == owned_by(owners, c).len()
            }
        }),
{
    reveal(owned_by);
    let from = owners[t];
    let new = owners.insert(t, to);
    assert(new.dom() =~= owners.dom());
    lemma_owned_finite(owners, c);
    lemma_owned_finite(new, c);
    if from == to {
        assert(owned_by(new, c) =~= owned_by(owners, c));
    } else if c == from {
        assert(owned_by(new, c) =~= owned_by(owners, c).remove(t));
    } else if c == to {
        assert(owned_by(new, c) =~= owned_by(owners, c).insert(t));
    } else {
        assert(owned_by(new, c) =~= owned_by(owners, c));
    }
}

/// Hands every territory of `ids` (all currently owned by one country) to `to`,
/// keeping the territory counts in `owns_data` exact.
pub(crate) fn transfer_territories(
    ids: &Vec<u16>,
    to: u16,
    owners_data: &mut HashMap<u16, u16>,
    owns_data: &mut HashMap<u16, u16>,
    Ghost(from): Ghost<u16>,
)
    requires
        ids@.no_duplicates(),
        forall|t: u16| #[trigger] ids@.contains(t) ==> old(owners_data)@.contains_key(t) && old(owners_data)@[t] == from,
        old(owners_data)@.contains_key(to),
        old(owners_data)@.contains_key(from),
        old(owners_data)@.dom().finite(),
        old(owners_data)@.dom().len() <= u16::MAX,
        old(owns_data)@.dom() == old(owners_data)@.dom(),
        forall|c: u16| #[trigger] old(owns_data)@.contains_key(c)
            ==> old(owns_data)@[c] == owned_by(old(owners_data)@, c).len(),
    ensures
        reassigned(old(owners_data)@, final(owners_data)@, ids@.to_set(), to),
        final(owns_data)@.dom() == final(owners_data)@.dom(),
        forall|c: u16| #[trigger] final(owns_data)@.contains_key(c)
            ==> final(owns_data)@[c] == owned_by(final(owners_data)@, c).len(),
{
    let ghost owners0 = owners_data@;
    let ghost dom = owners0.dom();
    let mut i: usize = 0;
    assert(ids@.subrange(0, 0).to_set() =~= Set::<u16>::empty());
    while i < ids.len()
        invariant
            i <= ids.len(),
            ids@.no_duplicates(),
            forall|t: u16| #[trigger] ids@.contains(t) ==> owners0.contains_key(t) && owners0[t] == from,
            dom == owners0.dom(),
            dom.contains(to),
            dom.contains(from),
            dom.finite(),
            dom.len() <= u16::MAX,
            owns_data@.dom() == dom,
            reassigned(owners0, owners_data@, ids@.subrange(0, i as int).to_set(), to),
            forall|c: u16| #[trigger] owns_data@.contains_key(c)
                ==> owns_data@[c] == owned_by(owners_data@, c).len(),
        decreases ids.len() - i,
    {
        let id = ids[i];
        let ghost pre = ids@.subrange(0, i as int);
        let ghost cur = owners_data@;
        assert(ids@.contains(id));
        assert(!pre.to_set().contains(id)) by {
            if pre.to_set().contains(id) {
                let q = choose|q: int| 0 <= q < pre.len() && pre[q] == id;
                assert(ids@[q] == ids@[i as int]);
            }
        }
        assert(cur.dom() == dom);
        assert(cur[id] == from);
        let old_owner = *owners_data.get(&id).unwrap();
        owners_data.insert(id, to);
        if old_owner != to {
            proof {
                lemma_owned_nonempty(cur, old_owner, id);
                lemma_move_one(cur, id, to, old_owner);
                lemma_move_one(cur, id, to, to);
                lemma_owned_finite(owners_data@, to);
                assert(owners_data@.dom() =~= dom);
            }
            let f = *owns_data.get(&old_owner).unwrap();
            owns_data.insert(old_owner, f - 1);
            let n = *owns_data.get(&to).unwrap();
            owns_data.insert(to, n + 1);
        }
        proof {
            assert(ids@.subrange(0, i + 1) =~= pre.push(id));
            pre.lemma_push_to_set_commute(id);
            assert(owners_data@.dom() =~= dom);
            assert(owns_data@.dom() =~= dom);
            assert forall|c: u16| #[trigger] owns_data@.contains_key(c)
                implies owns_data@[c] == owned_by(owners_data@, c).len() by {
                lemma_move_one(cur, id, to, c);
            }
        }
        i += 1;
    }
    assert(ids@.subrange(0, ids@.len() as int) =~= ids@);
}

/// Countries other than the giver and the receiver keep exactly their territories.
pub proof fn lemma_reassign_other(old: Map<u16, u16>, new: Map<u16, u16>, moved: Set<u16>, from: u16, to: u16, c: u16)
    requires
        reassigned(old, new, moved, to),
        moved.subset_of(owned_by(old, from)),
        c != from,
        c != to,
    ensures
        owned_by(new, c) == owned_by(old, c),
{
    reveal(owned_by);
    assert(owned_by(new, c) =~= owned_by(old, c));
}

/// The receiver owns every moved territory afterwards.
pub proof fn lemma_reassign_receiver(old: Map<u16, u16>, new: Map<u16, u16>, moved: Set<u16>, to: u16, t: u16)
    requires
        reassigned(old, new, moved, to),
        old.dom().finite(),
        moved.contains(t),
        old.contains_key(t),
    ensures
        owned_by(new, to).len() > 0,
{
    lemma_owned_nonempty(new, to, t);
}

/// After the territories `moved` of `from` go to `to`, the state is consistent again
/// once `to` is listed as remaining and `from` is dropped if it lost everything.
pub proof fn lemma_settle(
    owners0: Map<u16, u16>,
    owns0: Map<u16, u16>,
    rem0: Set<u16>,
    new: Map<u16, u16>,
    owns_new: Map<u16, u16>,
    rem_new: Set<u16>,
    moved: Set<u16>,
    from: u16,
    to: u16,
    tm: u16,
)
    requires
        consistent_state(owners0, owns0, rem0),
        reassigned(owners0, new, moved, to),
        moved.subset_of(owned_by(owners0, from)),
        moved.contains(tm),
        owners0.contains_key(to),
        owns_new.dom() == new.dom(),
        forall|c: u16| #[trigger] owns_new.contains_key(c) ==> owns_new[c] == owned_by(new, c).len(),
        rem_new == (if owned_by(new, from).len() == 0 { rem0.insert(to).remove(from) } else { rem0.insert(to) }),
    ensures
        consistent_state(new, owns_new, rem_new),
{
    assert(owners0.contains_key(tm) && owners0[tm] == from) by {
        reveal(owned_by);
    }
    lemma_reassign_receiver(owners0, new, moved, to, tm);
    assert forall|t: u16| new.contains_key(t) implies new.contains_key(#[trigger] new[t]) by {
        assert(owners0.contains_key(t));
    }
    assert forall|c: u16| #[trigger] rem_new.contains(c) <==> owned_by(new, c).len() > 0 by {
        if c != from && c != to {
            lemma_reassign_other(owners0, new, moved, from, to, c);
        }
        if c == from && c != to {
            lemma_owned_nonempty(owners0, from, tm);
        }
    }
}

/// Every key of `m`, each once, in the map's iteration order.
pub(crate) fn collect_keys<V>(m: &HashMap<u16, V>) -> (res: Vec<u16>)
    ensures
        res@.to_set() == m@.dom(),
        res@.no_duplicates(),
{
    let mut res: Vec<u16> = Vec::new();
    let ghost keys = m.keys().remaining();
    for k in it: m.keys()
        invariant
            it.seq() == keys,
            keys.unref().to_set() == m@.dom(),
            keys.no_duplicates(),
            res@ == keys.take(it.index() as int).map_values(|r: &u16| *r),
    {
        res.push(*k);
    }
    assert(res@ =~= keys.unref());
    res
}

/// How many territories country `c` owns.
pub fn count_owned_by(owners_data: &HashMap<u16, u16>, c: u16) -> (n: usize)
    ensures
        n == owned_by(owners_data@, c).len(),
{
    let keys = collect_keys(owners_data);
    let ghost owners = owners_data@;
    let ghost pred = |t: u16| owners[t] == c;
    let mut n: usize = 0;
    let mut i: usize = 0;
    proof {
        assert(keys@.subrange(0, 0).to_set().filter(pred) =~= Set::<u16>::empty());
        keys@.unique_seq_to_set();
        assert(owners.dom().finite());
    }
    while i < keys.len()
        invariant
            i <= keys.len(),
            owners == owners_data@,
            pred == (|t: u16| owners[t] == c),
            keys@.to_set() == owners.dom(),
            keys@.no_duplicates(),
            keys@.len() == owners.dom().len(),
            n == keys@.subrange(0, i as int).to_set().filter(pred).len(),
            keys@.subrange(0, i as int).to_set().filter(pred).finite(),
            n <= i,
        decreases keys.len() - i,
    {
        let t = keys[i];
        assert(keys@.to_set().contains(t));
        let o = *owners_data.get(&t).unwrap();
        let ghost pre = keys@.subrange(0, i as int);
        proof {
            assert(keys@.subrange(0, i + 1) =~= pre.push(t));
            pre.lemma_push_to_set_commute(t);
            assert(!pre.to_set().contains(t)) by {
                if pre.to_set().contains(t) {
                    let q = choose|q: int| 0 <= q < pre.len() && pre[q] == t;
                    assert(keys@[q] == keys@[i as int]);
                }
            }
        }
        if o == c {
            proof {
                assert(pre.push(t).to_set().filter(pred) =~= pre.to_set().filter(pred).insert(t));
            }
            n = n + 1;
        } else {
            proof {
                assert(pre.push(t).to_set().filter(pred) =~= pre.to_set().filter(pred));
            }
        }
        i += 1;
    }
    proof {
        assert(keys@.subrange(0, keys@.len() as int) =~= keys@);
        reveal(owned_by);
        assert(keys@.to_set().filter(pred) =~= owned_by(owners, c));
    }
    n
}

} // verus!
