use std::collections::HashMap;

use wwsim::country::Country;
use wwsim::standings::{chart_bars, rank_wins, record_win, wins_of_all};

#[test]
fn wins_are_counted() {
    let mut wins: HashMap<u16, u32> = HashMap::new();
    record_win(&mut wins, 4);
    record_win(&mut wins, 4);
    record_win(&mut wins, 7);
    assert_eq!(wins[&4], 2);
    assert_eq!(wins[&7], 1);
    assert_eq!(wins.len(), 2);
}

#[test]
fn every_country_gets_its_wins() {
    let mut wins: HashMap<u16, u32> = HashMap::new();
    wins.insert(3, 5);
    assert_eq!(wins_of_all(&vec![1, 3, 8], &wins), vec![(1, 0), (3, 5), (8, 0)]);
}

#[test]
fn ranking_by_wins_then_id() {
    let ranked = rank_wins(&vec![(5, 2), (1, 2), (9, 7), (3, 0), (2, 7)]);
    assert_eq!(ranked, vec![(2, 7), (9, 7), (1, 2), (5, 2), (3, 0)]);
    assert!(rank_wins(&vec![]).is_empty());
}

#[test]
fn chart_keeps_leading_winners_with_short_names() {
    let mut countries = HashMap::new();
    countries.insert(1, Country { name: "A".repeat(40), color: None });
    countries.insert(2, Country { name: "Beta".to_string(), color: None });
    let bars = chart_bars(&vec![(1, 9), (2, 3), (3, 0), (2, 1)], &countries);
    assert_eq!(bars, vec![("A".repeat(32), 9), ("Beta".to_string(), 3)]);
    let many: Vec<(u16, u32)> = (0..30).map(|_| (2u16, 1u32)).collect();
    assert_eq!(chart_bars(&many, &countries).len(), 20);
}
