use std::collections::{HashMap, HashSet};

use wwsim::game::{
    capitulation_odds, perform_conquest, perform_riot, play_turn, riot_odds, simulate_run, spread_odds,
    validate_capitulation, CapitulationError,
};

/// A line 0 - 1 - 2 - 3 - 4 and an island 9.
fn line_with_island() -> HashMap<u16, Vec<u16>> {
    let mut g = HashMap::new();
    g.insert(0, vec![1]);
    g.insert(1, vec![0, 2]);
    g.insert(2, vec![1, 3]);
    g.insert(3, vec![2, 4]);
    g.insert(4, vec![3]);
    g.insert(9, vec![]);
    g
}

fn all_owned_by(ids: &[u16], c: u16) -> HashMap<u16, u16> {
    ids.iter().map(|&t| (t, c)).collect()
}

/// The counts and remaining countries of an ownership map.
fn derived(owners: &HashMap<u16, u16>) -> (HashMap<u16, u16>, HashSet<u16>) {
    let mut owns: HashMap<u16, u16> = owners.keys().map(|&k| (k, 0)).collect();
    for &o in owners.values() {
        *owns.get_mut(&o).unwrap() += 1;
    }
    let remaining: HashSet<u16> = owners.values().copied().collect();
    (owns, remaining)
}

fn assert_consistent(owners: &HashMap<u16, u16>, owns: &HashMap<u16, u16>, remaining: &HashSet<u16>) {
    let (o2, r2) = derived(owners);
    assert_eq!(&o2, owns);
    assert_eq!(&r2, remaining);
}

#[test]
fn capitulation_within_rules_is_valid() {
    let g = line_with_island();
    let o = all_owned_by(&[0, 1, 2, 3, 4], 0);
    assert_eq!(validate_capitulation(0, &[1, 2], &o, &g), Ok(()));
}

#[test]
fn capitulation_ceding_too_many() {
    let g = line_with_island();
    let o = all_owned_by(&[0, 1, 2, 3, 4], 0);
    let r = validate_capitulation(0, &[1, 2, 3], &o, &g);
    assert_eq!(r, Err(CapitulationError::TooManyCeded { ceded: 3, limit: 2 }));
    assert_eq!(r.unwrap_err().message(), "Capitulation ceded too many territories: 3 > 2");
}

#[test]
fn capitulation_keeping_a_closer_territory() {
    let g = line_with_island();
    let o = all_owned_by(&[0, 1, 2, 3, 4], 0);
    match validate_capitulation(0, &[3], &o, &g) {
        Err(CapitulationError::RemainingCloser { territory, distance, max_ceded_distance }) => {
            assert!(territory == 1 || territory == 2);
            assert_eq!(max_ceded_distance, 3);
            assert_eq!(distance as u16, territory);
        }
        other => panic!("unexpected {:?}", other),
    }
}

#[test]
fn capitulation_ceding_unreachable() {
    let g = line_with_island();
    let o = all_owned_by(&[0, 1, 2, 3, 4, 9], 0);
    let r = validate_capitulation(0, &[9], &o, &g);
    assert_eq!(r, Err(CapitulationError::CededUnreachable(9)));
    assert_eq!(r.unwrap_err().message(), "Ceded territory 9 unreachable from capital?");
}

#[test]
fn capitulation_keeping_unreachable() {
    let g = line_with_island();
    let o = all_owned_by(&[0, 1, 2, 3, 4, 9], 0);
    let r = validate_capitulation(0, &[1], &o, &g);
    assert_eq!(r, Err(CapitulationError::RemainingUnreachable(9)));
    assert_eq!(r.unwrap_err().message(), "Remaining territory 9 unreachable from capital?");
}

#[test]
fn capitulation_error_messages() {
    let e = CapitulationError::RemainingCloser { territory: 7, distance: 1, max_ceded_distance: 4 };
    assert_eq!(e.message(), "Remaining territory 7 is closer (1) than some ceded territory (max dist 4)");
}

#[test]
fn conquest_moves_one_territory() {
    let g = line_with_island();
    let mut owners: HashMap<u16, u16> = [(0, 0), (1, 0), (2, 2), (3, 3), (4, 3)].into_iter().collect();
    let (mut owns, mut remaining) = derived(&owners);
    perform_conquest(1, 2, &mut owners, &mut owns, &g, &mut remaining);
    assert_eq!(owners[&2], 0);
    assert_eq!(owns[&0], 3);
    assert!(!remaining.contains(&2));
    assert_consistent(&owners, &owns, &remaining);
}

#[test]
fn conquest_of_a_capital_cedes_nearest_first() {
    let g = line_with_island();
    for _ in 0..50 {
        let mut owners: HashMap<u16, u16> = [(0, 0), (1, 1), (2, 1), (3, 1), (4, 1)].into_iter().collect();
        let before = owners.clone();
        let (mut owns, mut remaining) = derived(&owners);
        perform_conquest(0, 1, &mut owners, &mut owns, &g, &mut remaining);
        assert_consistent(&owners, &owns, &remaining);
        assert_eq!(owners[&1], 0);
        let ceded: Vec<u16> = [2, 3, 4].into_iter().filter(|t| owners[t] == 0).collect();
        // Ceded territories are the nearest ones to the lost capital.
        for (i, t) in [2u16, 3, 4].iter().enumerate() {
            if owners[t] == 0 {
                for nearer in &[2u16, 3, 4][..i] {
                    assert_eq!(owners[nearer], 0);
                }
            }
        }
        if ceded.len() <= 1 {
            assert_eq!(validate_capitulation(1, &ceded, &before, &g), Ok(()));
        }
    }
}

#[test]
fn riot_frees_the_rioting_territory() {
    let g = line_with_island();
    for _ in 0..20 {
        let mut owners: HashMap<u16, u16> = [(0, 0), (1, 0), (2, 0), (3, 3), (4, 3)].into_iter().collect();
        let (mut owns, mut remaining) = derived(&owners);
        perform_riot(2, &mut owners, &mut owns, &g, &mut remaining);
        assert_eq!(owners[&2], 2);
        assert_eq!(owners[&0], 0);
        assert!(remaining.contains(&2));
        assert_consistent(&owners, &owns, &remaining);
    }
}

#[test]
fn turn_advances_epoch() {
    let g = line_with_island();
    let mut owners: HashMap<u16, u16> = [(0, 0), (1, 1), (2, 2), (3, 3), (4, 4), (9, 9)].into_iter().collect();
    let (mut owns, mut remaining) = derived(&owners);
    let mut epoch = 10usize;
    play_turn(&mut epoch, &mut owners, &mut owns, &g, &mut remaining);
    assert_eq!(epoch, 11);
    assert_consistent(&owners, &owns, &remaining);
}

#[test]
fn run_ends_with_one_country_owning_everything() {
    let mut g = HashMap::new();
    g.insert(0, vec![1]);
    g.insert(1, vec![0, 2]);
    g.insert(2, vec![1, 3]);
    g.insert(3, vec![2]);
    let mut owners: HashMap<u16, u16> = [(0, 0), (1, 1), (2, 2), (3, 3)].into_iter().collect();
    let (mut owns, mut remaining) = derived(&owners);
    let (winner, last) = simulate_run(5, &mut owners, &mut owns, &g, &mut remaining).unwrap();
    assert!(last >= 5);
    assert_eq!(remaining.len(), 1);
    assert!(remaining.contains(&winner));
    assert!(owners.values().all(|&o| o == winner));
    assert_consistent(&owners, &owns, &remaining);
}

#[test]
fn capitulation_of_three_territories_keeps_one() {
    let g = line_with_island();
    for _ in 0..60 {
        let mut owners: HashMap<u16, u16> = [(0, 0), (1, 1), (2, 1), (3, 1), (4, 4)].into_iter().collect();
        let (mut owns, mut remaining) = derived(&owners);
        perform_conquest(0, 1, &mut owners, &mut owns, &g, &mut remaining);
        assert_consistent(&owners, &owns, &remaining);
        assert_eq!(owners[&1], 0);
        // At most one further territory, the nearest, is ceded: the defender survives.
        assert_eq!(owners[&3], 1);
        assert!(remaining.contains(&1));
    }
}

#[test]
fn odds_of_the_random_events() {
    assert_eq!(capitulation_odds(), (1, 3));
    assert_eq!(spread_odds(), (1, 5));
    assert_eq!(riot_odds(0), (10, 120));
    assert_eq!(riot_odds(30), (10, 150));
}
