use std::collections::HashMap;

use wwsim::country::{country_data_from_text, hex_to_rgb, Rgb};
use wwsim::gamestate::gamestate_from_territories;
use wwsim::rounds::{conquest_schema, lookup_id, lookup_name, subject_id, ConquestSchema, SubjectValue};
use wwsim::topology::{targets_data_from_json, targets_from_arrays};

#[test]
fn colours_from_hex() {
    assert_eq!(hex_to_rgb("#ff8000"), Some(Rgb { r: 255, g: 128, b: 0 }));
    assert_eq!(hex_to_rgb("  #0A0b0C "), Some(Rgb { r: 10, g: 11, b: 12 }));
    assert_eq!(hex_to_rgb("ff8000"), None);
    assert_eq!(hex_to_rgb("#ff80"), None);
    assert_eq!(hex_to_rgb("#gg0000"), None);
}

#[test]
fn countries_from_csv_text() {
    let colors = vec![("Beta".to_string(), "#010203".to_string())];
    let countries = country_data_from_text("0;Alpha;1;2\n\n1; Beta ;3;4\n;NoId\nx;Bad\n7\n", &colors);
    assert_eq!(countries.len(), 2);
    assert_eq!(countries[&0].name, "Alpha");
    assert_eq!(countries[&0].color, None);
    assert_eq!(countries[&1].name, "Beta");
    assert_eq!(countries[&1].color, Some(Rgb { r: 1, g: 2, b: 3 }));
}

#[test]
fn map_from_json() {
    let g = targets_data_from_json("[[1],[0,2],[1]]").unwrap();
    assert_eq!(g.len(), 3);
    assert_eq!(g[&1], vec![0, 2]);
    assert!(targets_data_from_json("[[1],").is_none());
    assert!(targets_data_from_json("[[-1]]").is_none());
    let h = targets_from_arrays(vec![vec![], vec![0]]);
    assert_eq!(h[&1], vec![0]);
    assert!(h[&0].is_empty());
}

#[test]
fn state_from_recorded_territories() {
    let s = gamestate_from_territories(&vec![(0, 0), (1, 0), (2, 2)], 7, 3, 2025);
    assert_eq!(s.owners_data, [(0, 0), (1, 0), (2, 2)].into_iter().collect::<HashMap<u16, u16>>());
    assert_eq!(s.owns_data[&0], 2);
    assert_eq!(s.owns_data[&1], 0);
    assert_eq!(s.owns_data[&2], 1);
    assert_eq!(s.remaining.len(), 2);
    assert!(s.remaining.contains(&0) && s.remaining.contains(&2));
    assert_eq!((s.epoch, s.initial_month, s.initial_year), (7, 3, 2025));
}

#[test]
fn schema_by_round() {
    assert_eq!(conquest_schema(1), ConquestSchema::Initial);
    assert_eq!(conquest_schema(228), ConquestSchema::Initial);
    assert_eq!(conquest_schema(229), ConquestSchema::CapitalRelocation);
    assert_eq!(conquest_schema(230), ConquestSchema::CapitalTracking);
}

#[test]
fn subject_ids_from_json_values() {
    assert_eq!(subject_id(&SubjectValue::Number(12)), 12);
    assert_eq!(subject_id(&SubjectValue::Number(65537)), 1);
    assert_eq!(subject_id(&SubjectValue::Text("42".to_string())), 42);
    assert_eq!(subject_id(&SubjectValue::Text("x".to_string())), 0);
    assert_eq!(subject_id(&SubjectValue::Other), 0);
}

#[test]
fn names_and_ids_are_looked_up() {
    let names = vec![(3u16, "Gamma".to_string()), (1, "Alpha".to_string()), (5, "Alpha".to_string())];
    assert_eq!(lookup_id(&names, &"Alpha".to_string()), Some(1));
    assert_eq!(lookup_id(&names, &"Delta".to_string()), None);
    assert_eq!(lookup_name(&names, 3), Some("Gamma".to_string()));
    assert_eq!(lookup_name(&names, 9), None);
}
