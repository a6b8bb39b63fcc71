use std::collections::HashMap;

use wwsim::graph::{bfs_distances, find_attack_targets, map_is_closed};

/// A line of territories 0 - 1 - 2 - 3.
fn line_map() -> HashMap<u16, Vec<u16>> {
    let mut g = HashMap::new();
    g.insert(0, vec![1]);
    g.insert(1, vec![0, 2]);
    g.insert(2, vec![1, 3]);
    g.insert(3, vec![2]);
    g
}

fn owners(pairs: &[(u16, u16)]) -> HashMap<u16, u16> {
    pairs.iter().copied().collect()
}

#[test]
fn attack_targets_skip_own_shell() {
    let g = line_map();
    let o = owners(&[(0, 0), (1, 0), (2, 2), (3, 2)]);
    let mut t = find_attack_targets(0, &o, &g);
    t.sort();
    assert_eq!(t, vec![2]);
}

#[test]
fn attack_targets_nearest_shell_only() {
    let g = line_map();
    let o = owners(&[(0, 0), (1, 1), (2, 2), (3, 3)]);
    assert_eq!(find_attack_targets(1, &o, &g).len(), 2);
    assert_eq!(find_attack_targets(0, &o, &g), vec![1]);
}

#[test]
fn attack_targets_empty_when_all_own() {
    let g = line_map();
    let o = owners(&[(0, 0), (1, 0), (2, 0), (3, 0)]);
    assert!(find_attack_targets(3, &o, &g).is_empty());
}

#[test]
fn bfs_distances_on_line() {
    let g = line_map();
    let d = bfs_distances(0, &g);
    assert_eq!(d.len(), 4);
    assert_eq!(d[&0], 0);
    assert_eq!(d[&1], 1);
    assert_eq!(d[&2], 2);
    assert_eq!(d[&3], 3);
}

#[test]
fn map_closure_checks() {
    let g = line_map();
    let o = owners(&[(0, 0), (1, 0), (2, 2), (3, 2)]);
    assert!(map_is_closed(&g, &o));
    let mut open = line_map();
    open.insert(3, vec![2, 9]);
    assert!(!map_is_closed(&open, &o));
    let fewer = owners(&[(0, 0), (1, 0), (2, 2)]);
    assert!(!map_is_closed(&g, &fewer));
}

#[test]
fn attack_targets_in_discovery_order() {
    let mut g = HashMap::new();
    g.insert(0, vec![2, 1, 1]);
    g.insert(1, vec![0]);
    g.insert(2, vec![0]);
    let o = owners(&[(0, 0), (1, 1), (2, 2)]);
    assert_eq!(find_attack_targets(0, &o, &g), vec![2, 1]);
    let mut h = HashMap::new();
    h.insert(0, vec![1, 1]);
    h.insert(1, vec![0]);
    assert_eq!(find_attack_targets(0, &owners(&[(0, 0), (1, 1)]), &h), vec![1]);
}
