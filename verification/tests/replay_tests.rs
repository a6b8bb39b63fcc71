use std::collections::HashMap;

use wwsim::replay::{replay_ready, replay_round, ReplayState, RoundIssue};
use wwsim::game::CapitulationError;
use wwsim::rounds::{
    CapitalsFile, CapitulationEvent, ConquestData, ConquestInfo, PostFile, RoundRecords, SaveFile, SubjectValue,
};

fn names() -> Vec<(u16, String)> {
    vec![(0, "Alpha".to_string()), (1, "Beta".to_string()), (2, "Gamma".to_string())]
}

/// A line of territories 0 - 1 - 2.
fn map() -> HashMap<u16, Vec<u16>> {
    let mut g = HashMap::new();
    g.insert(0, vec![1]);
    g.insert(1, vec![0, 2]);
    g.insert(2, vec![1]);
    g
}

fn start_state() -> ReplayState {
    ReplayState {
        epoch: 0,
        initial_month: 12,
        initial_year: 2024,
        country_data: [(0, 0), (1, 1), (2, 2)].into_iter().collect(),
        capital_overrides: HashMap::new(),
    }
}

fn text(s: &str) -> String {
    s.to_string()
}

/// Round 1: Alpha, from territory 0, conquers Beta's only territory 1.
fn conquest_round(caption: &str) -> RoundRecords {
    RoundRecords {
        save: SaveFile {
            iteration: 1,
            conquests: (1, ConquestData::Conquer(0, 1, vec![1])),
            countries: vec![(text("Alpha"), vec![0, 1]), (text("Gamma"), vec![2])],
            alliances_empty: true,
        },
        post: PostFile {
            attacker: text("Alpha"),
            defender: text("Beta"),
            territory: text("Beta"),
            action_type: text("conquest"),
            alliances_empty: true,
            pic: text("000001.png"),
            zoom: text("000001.png"),
            caption: text(caption),
        },
        capitals: CapitalsFile {
            iteration: 1,
            original_capital_by_admin: vec![(text("Alpha"), 0), (text("Beta"), 1), (text("Gamma"), 2)],
            current_capital_by_admin: vec![(text("Alpha"), 0), (text("Beta"), 1), (text("Gamma"), 2)],
        },
        conquest: ConquestInfo {
            attacker: 0,
            defender: 1,
            action_type: text("conquer"),
            subjects: vec![],
            capitulation: false,
            capitulation_event: None,
            fallen_capital_remnant: false,
            defender_admin_before: text("Beta"),
            capital_index_after: None,
            defender_capital_territory_after: None,
            capital_index_before: None,
            original_capital_index: None,
            capital_moved: None,
            defender_territory_rank_before: None,
        },
    }
}

const CAPTION: &str = "January 2025, Alpha conquered Beta territory.\nBeta has been completely defeated.\n2 countries remaining.\nCheck the full map at https://worldwarbot.com";

#[test]
fn consistent_round_is_applied() {
    let state = start_state();
    let rec = conquest_round(CAPTION);
    assert!(replay_ready(1, &state, &rec, &names(), &map()));
    let out = replay_round(1, &state, &rec, &names(), &map());
    assert_eq!(out.issues, vec![]);
    assert_eq!(out.caption, CAPTION);
    assert_eq!(
        out.summary,
        "Round 1: January 2025, Alpha conquered Beta territory. Beta has been completely defeated. 2 countries remaining."
    );
    assert_eq!(out.state.epoch, 1);
    assert_eq!(out.state.country_data, [(0, 0), (1, 0), (2, 2)].into_iter().collect());
    assert!(out.state.capital_overrides.is_empty());
}

#[test]
fn mismatching_records_are_reported_in_order() {
    let state = start_state();
    let mut rec = conquest_round("January 2025, Alpha conquered Beta territory.");
    rec.capitals.iteration = 2;
    rec.post.pic = text("1.png");
    rec.save.countries = vec![(text("Gamma"), vec![2]), (text("Alpha"), vec![0, 1])];
    let out = replay_round(1, &state, &rec, &names(), &map());
    assert_eq!(
        out.issues,
        vec![RoundIssue::CapitalsIteration(2), RoundIssue::Caption, RoundIssue::PostFiles, RoundIssue::SaveCountries]
    );
    assert_eq!(out.state.country_data[&1], 0);
}

#[test]
fn wrong_owner_and_fallen_flag_are_reported() {
    let mut state = start_state();
    state.country_data.insert(1, 2);
    let mut rec = conquest_round(CAPTION);
    rec.conquest.fallen_capital_remnant = true;
    let out = replay_round(1, &state, &rec, &names(), &map());
    assert_eq!(out.issues[0], RoundIssue::DefenderMismatch { territory: 1, expected: 1, found: 2 });
    assert_eq!(
        out.issues[1],
        RoundIssue::FallenCapital { expected: false, conquered: 1, capital: 1, eliminated: true }
    );
    assert!(out.issues.contains(&RoundIssue::Caption));
}

#[test]
fn unreachable_target_is_reported() {
    // Alpha holds 0 and Gamma 1, Beta holds 2: from 0 the nearest foreign shell is {1}.
    let mut state = start_state();
    state.country_data.insert(1, 2);
    state.country_data.insert(2, 1);
    let mut rec = conquest_round(CAPTION);
    rec.save.conquests = (1, ConquestData::Conquer(0, 2, vec![2]));
    rec.conquest.defender = 2;
    let out = replay_round(1, &state, &rec, &names(), &map());
    assert!(out.issues.contains(&RoundIssue::Unreachable { from: 0, to: 2 }));

    // With 1 already Alpha's, the nearest foreign shell is {2}.
    state.country_data.insert(1, 0);
    let out2 = replay_round(1, &state, &rec, &names(), &map());
    assert!(!out2.issues.contains(&RoundIssue::Unreachable { from: 0, to: 2 }));
}

#[test]
fn unknown_country_is_not_ready() {
    let state = start_state();
    let mut rec = conquest_round(CAPTION);
    rec.post.attacker = text("Nowhere");
    assert!(!replay_ready(1, &state, &rec, &names(), &map()));
}

#[test]
fn riot_round_restores_a_country() {
    let mut state = start_state();
    state.country_data.insert(1, 0);
    state.epoch = 99;
    let rec = RoundRecords {
        save: SaveFile {
            iteration: 100,
            conquests: (100, ConquestData::Riot(1, 1)),
            countries: vec![(text("Alpha"), vec![0]), (text("Beta"), vec![1]), (text("Gamma"), vec![2])],
            alliances_empty: true,
        },
        post: PostFile {
            attacker: text("Alpha"),
            defender: text("Alpha"),
            territory: text("Beta"),
            action_type: text("riot"),
            alliances_empty: true,
            pic: text("000100.png"),
            zoom: text("000100.png"),
            caption: text("April 2033, Beta rose against Alpha and reunited its homeland.\nCheck the full map at https://worldwarbot.com"),
        },
        capitals: CapitalsFile {
            iteration: 100,
            original_capital_by_admin: vec![(text("Alpha"), 0), (text("Beta"), 1), (text("Gamma"), 2)],
            current_capital_by_admin: vec![(text("Alpha"), 0), (text("Beta"), 1), (text("Gamma"), 2)],
        },
        conquest: ConquestInfo {
            attacker: 1,
            defender: 1,
            action_type: text("riot"),
            subjects: vec![],
            capitulation: false,
            capitulation_event: None,
            fallen_capital_remnant: false,
            defender_admin_before: text("Alpha"),
            capital_index_after: None,
            defender_capital_territory_after: None,
            capital_index_before: None,
            original_capital_index: None,
            capital_moved: None,
            defender_territory_rank_before: None,
        },
    };
    assert!(replay_ready(100, &state, &rec, &names(), &map()));
    let out = replay_round(100, &state, &rec, &names(), &map());
    assert_eq!(out.issues, vec![]);
    assert_eq!(out.state.country_data[&1], 1);
    assert_eq!(out.summary, "Round 100: April 2033, Beta rose against Alpha and reunited its homeland.");
}

#[test]
fn capitulation_subjects_change_hands() {
    let mut state = start_state();
    state.country_data.insert(2, 1);
    let mut rec = conquest_round(CAPTION);
    rec.conquest.capitulation = true;
    rec.conquest.capitulation_event = Some(CapitulationEvent {
        round: 1,
        attacker_territories_before: 1,
        defender_territories_before: 2,
        territories_ceded: 1,
    });
    rec.conquest.subjects = vec![SubjectValue::Number(2)];
    assert!(replay_ready(1, &state, &rec, &names(), &map()));
    let out = replay_round(1, &state, &rec, &names(), &map());
    assert!(out.issues.contains(&RoundIssue::Capitulation(CapitulationError::TooManyCeded { ceded: 1, limit: 0 })));
    assert_eq!(out.state.country_data, [(0, 0), (1, 0), (2, 0)].into_iter().collect());
}

#[test]
fn relocated_capital_round_is_applied() {
    let mut state = start_state();
    state.country_data.insert(2, 1);
    state.epoch = 229;
    let mut rec = conquest_round(
        "February 2044, Alpha conquered Beta territory.\nThe government of Beta relocated its capital to Gamma and continues in exile.",
    );
    rec.save.iteration = 230;
    rec.save.conquests = (230, ConquestData::Conquer(0, 1, vec![1]));
    rec.save.countries = vec![(text("Alpha"), vec![0, 1]), (text("Beta"), vec![2])];
    rec.post.pic = text("000230.png");
    rec.post.zoom = text("000230.png");
    rec.capitals.iteration = 230;
    rec.capitals.current_capital_by_admin = vec![(text("Alpha"), 0), (text("Beta"), 2)];
    rec.conquest.fallen_capital_remnant = true;
    rec.conquest.capital_index_after = Some(2);
    rec.conquest.defender_capital_territory_after = Some(text("Gamma"));
    rec.conquest.capital_index_before = Some(1);
    rec.conquest.original_capital_index = Some(1);
    rec.conquest.capital_moved = Some(true);
    assert!(replay_ready(230, &state, &rec, &names(), &map()));
    let out = replay_round(230, &state, &rec, &names(), &map());
    assert_eq!(out.issues, vec![]);
    assert_eq!(out.state.capital_overrides, [(1, 2)].into_iter().collect());
    assert_eq!(
        out.summary,
        "Round 230: February 2044, Alpha conquered Beta territory. The government of Beta relocated its capital to Gamma and continues in exile."
    );

    let mut ranked = rec;
    ranked.conquest.defender_territory_rank_before = Some(3);
    let out3 = replay_round(230, &state, &ranked, &names(), &map());
    assert_eq!(out3.issues, vec![RoundIssue::TerritoryRankBefore(3)]);

    let mut moved_wrong = ranked;
    moved_wrong.conquest.defender_territory_rank_before = None;
    moved_wrong.conquest.capital_moved = Some(false);
    moved_wrong.conquest.capital_index_after = Some(0);
    let out2 = replay_round(230, &state, &moved_wrong, &names(), &map());
    assert_eq!(
        out2.issues,
        vec![
            RoundIssue::CurrentCapital { index: 1, expected: 0 },
            RoundIssue::CapitalIndexAfter { found: 0, expected: 2, defender: 1 },
            RoundIssue::CapitalNameMismatch(0),
            RoundIssue::NewCapitalUnowned { capital: 0, defender: 1 },
            RoundIssue::CapitalMoved,
        ]
    );
}
