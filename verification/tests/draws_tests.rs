use std::collections::{HashMap, HashSet};

use wwsim::country::colors_from_json;
use wwsim::game::{conquest_with_draws, riot_with_draws, turn_with_draws};
use wwsim::graph::region_closed;
use wwsim::json::stored_body;

/// A line 0 - 1 - 2 - 3 - 4.
fn line() -> HashMap<u16, Vec<u16>> {
    let mut g = HashMap::new();
    g.insert(0, vec![1]);
    g.insert(1, vec![0, 2]);
    g.insert(2, vec![1, 3]);
    g.insert(3, vec![2, 4]);
    g.insert(4, vec![3]);
    g
}

fn state(pairs: &[(u16, u16)]) -> (HashMap<u16, u16>, HashMap<u16, u16>, HashSet<u16>) {
    let owners: HashMap<u16, u16> = pairs.iter().copied().collect();
    let mut owns: HashMap<u16, u16> = owners.keys().map(|&k| (k, 0)).collect();
    for &o in owners.values() {
        *owns.get_mut(&o).unwrap() += 1;
    }
    let remaining: HashSet<u16> = owners.values().copied().collect();
    (owners, owns, remaining)
}

#[test]
fn riot_takes_drawn_candidates_until_a_roll_fails() {
    let g = line();
    let (mut owners, mut owns, mut remaining) = state(&[(0, 0), (1, 0), (2, 0), (3, 0), (4, 4)]);
    let r = riot_with_draws(2, &mut owners, &mut owns, &g, &mut remaining, &vec![(3, true), (1, false), (1, true)]);
    assert_eq!(r, vec![2, 3]);
    assert_eq!(owners[&2], 2);
    assert_eq!(owners[&3], 2);
    assert_eq!(owners[&1], 0);
    assert_eq!(owns[&2], 2);
    assert_eq!(owns[&0], 2);
    assert!(remaining.contains(&2));
}

#[test]
fn riot_stops_at_a_candidate_that_cannot_spread() {
    let g = line();
    // Territory 0 is the owner's capital and 4 has another owner: neither can join.
    for draws in [vec![(1, true), (0, true), (3, true)], vec![(1, true), (4, true)]] {
        let (mut owners, mut owns, mut remaining) = state(&[(0, 0), (1, 0), (2, 0), (3, 0), (4, 4)]);
        let r = riot_with_draws(2, &mut owners, &mut owns, &g, &mut remaining, &draws);
        assert_eq!(r, vec![2, 1]);
        assert_eq!(owners[&3], 0);
    }
    let (mut owners, mut owns, mut remaining) = state(&[(0, 0), (1, 0), (2, 0), (3, 0), (4, 4)]);
    assert_eq!(riot_with_draws(2, &mut owners, &mut owns, &g, &mut remaining, &vec![]), vec![2]);
    assert_eq!(owns[&2], 1);
}

#[test]
fn conquest_cedes_the_drawn_number_nearest_first() {
    let g = line();
    // Four territories: at most one is ceded besides the capital.
    let (mut owners, mut owns, mut remaining) = state(&[(0, 0), (1, 1), (2, 1), (3, 1), (4, 1)]);
    conquest_with_draws(0, 1, &mut owners, &mut owns, &g, &mut remaining, true, 1);
    // extra 1 gives 1 % 1 + 1 = 1 further territory: the nearest, 2.
    assert_eq!(owners[&1], 0);
    assert_eq!(owners[&2], 0);
    assert_eq!(owners[&3], 1);
    assert_eq!(owners[&4], 1);
    assert_eq!(owns[&0], 3);
    assert_eq!(owns[&1], 2);
}

#[test]
fn conquest_without_capitulation_takes_the_target_only() {
    let g = line();
    let (mut owners, mut owns, mut remaining) = state(&[(0, 0), (1, 1), (2, 1), (3, 1), (4, 1)]);
    conquest_with_draws(0, 1, &mut owners, &mut owns, &g, &mut remaining, false, 7);
    assert_eq!(owners[&1], 0);
    assert_eq!(owns[&1], 3);
    assert!(remaining.contains(&1));
}

#[test]
fn capitulation_limit_of_five_territories() {
    let mut g = line();
    g.insert(4, vec![3, 5]);
    g.insert(5, vec![4, 6]);
    g.insert(6, vec![5]);
    let (mut owners, mut owns, mut remaining) = state(&[(0, 0), (1, 1), (2, 1), (3, 1), (4, 1), (5, 1), (6, 6)]);
    // limit (5 + 1) / 2 - 1 = 2; extra 3 gives 3 % 2 + 1 = 2 further territories.
    conquest_with_draws(0, 1, &mut owners, &mut owns, &g, &mut remaining, true, 3);
    assert_eq!(owners[&2], 0);
    assert_eq!(owners[&3], 0);
    assert_eq!(owners[&4], 1);
    assert_eq!(owners[&5], 1);
    assert_eq!(owns[&1], 2);
}

#[test]
fn turn_conquers_the_drawn_target() {
    let g = line();
    for (draw, target) in [(0u64, 0u16), (1, 2), (5, 2), (6, 0)] {
        let (mut owners, mut owns, mut remaining) = state(&[(0, 0), (1, 1), (2, 2), (3, 3), (4, 4)]);
        let mut epoch = 7;
        turn_with_draws(&mut epoch, &mut owners, &mut owns, &g, &mut remaining, 1, true, draw);
        assert_eq!(epoch, 8);
        assert_eq!(owners[&target], 1);
        assert_eq!(owns[&1], 2);
    }
}

#[test]
fn turn_riots_only_with_a_successful_roll() {
    let g = line();
    let (mut owners, mut owns, mut remaining) = state(&[(0, 0), (1, 0), (2, 0), (3, 3), (4, 3)]);
    let mut epoch = 0;
    turn_with_draws(&mut epoch, &mut owners, &mut owns, &g, &mut remaining, 1, true, 0);
    assert_eq!(owners[&1], 1);
    assert!(remaining.contains(&1));
    let (mut owners, mut owns, mut remaining) = state(&[(0, 0), (1, 0), (2, 0), (3, 3), (4, 3)]);
    turn_with_draws(&mut epoch, &mut owners, &mut owns, &g, &mut remaining, 1, false, 0);
    // No riot: territory 1 (owned by 0) attacks its nearest foreign shell, {3}.
    assert_eq!(owners[&1], 0);
    assert_eq!(owners[&3], 0);
    assert_eq!(epoch, 2);
}

#[test]
fn colours_of_the_country_list() {
    let text = r##"[["France", {"color": "#0055a4", "x": 1}], ["Bad"], ["Spain", {"colour": "#fff"}], 5, ["Italy", {"color": "#009246"}]]"##;
    assert_eq!(
        colors_from_json(text),
        vec![("France".to_string(), "#0055a4".to_string()), ("Italy".to_string(), "#009246".to_string())]
    );
    assert_eq!(colors_from_json("not json"), vec![]);
    assert_eq!(colors_from_json(r##"{"France": {"color": "#000000"}}"##), vec![]);
}

#[test]
fn fetched_documents_are_stored_pretty() {
    assert_eq!(stored_body("[1,2]"), ("[\n  1,\n  2\n]".to_string(), true));
    assert_eq!(stored_body("{\"a\":{\"b\":true}}"), ("{\n  \"a\": {\n    \"b\": true\n  }\n}".to_string(), true));
    assert_eq!(stored_body("<html>"), ("<html>".to_string(), false));
}

#[test]
fn riot_draws_decide_the_riot() {
    let g = line();
    let draws = vec![(1, true), (3, true), (4, false)];
    let mut results = Vec::new();
    for _ in 0..2 {
        let (mut owners, mut owns, mut remaining) = state(&[(0, 0), (1, 0), (2, 0), (3, 0), (4, 0)]);
        let r = riot_with_draws(2, &mut owners, &mut owns, &g, &mut remaining, &draws);
        results.push((r, owns[&2], owns[&0]));
    }
    assert_eq!(results[0], results[1]);
    assert_eq!(results[0], (vec![2, 1, 3], 3, 2));
}

#[test]
fn closed_regions() {
    let mut g = line();
    let owners: HashMap<u16, u16> = [(0, 0), (1, 0), (2, 0), (3, 0), (4, 0), (7, 7)].into_iter().collect();
    g.insert(7, vec![8]);
    assert!(region_closed(&g, &owners, 2));
    assert!(!region_closed(&g, &owners, 7));
    assert!(!region_closed(&g, &owners, 9));
    assert!(region_closed(&g, &g, 0));
}
