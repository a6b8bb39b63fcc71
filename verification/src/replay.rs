//! Replaying a round of the real game.
//!
//! The records of a round (save file, post, capitals file) are checked against the
//! game rules and against the locally tracked state, and the state is advanced by the
//! round's conquest or riot. Every mismatch found is reported as a [`RoundIssue`], in
//! the order in which the checks run.

use std::collections::{HashMap, HashSet};
use vstd::prelude::*;
use crate::calendar::{div_toward_zero, month_index, month_name, num_to_month, rem_toward_zero};
use crate::game::{capitulation_outcome, validate_capitulation, CapitulationError};
use crate::graph::{
    contains_id, find_attack_targets, foreign_in_shell, nearest_foreign_distance,
    closed_from,
};
use crate::rounds::{
    id_of_name, lookup_id, lookup_name, name_of_id, names_view, subject_id_list, subject_ids,
    ConquestData, RoundRecords,
};
use crate::state::{count_owned_by, collect_keys, lemma_owned_finite, owned_by};
use crate::text::{
    contains_text, decimal, has_substring, join, join_texts, lines, push_decimal,
    push_signed_decimal, signed_decimal, split_lines, str_eq, texts,
};

verus! {

broadcast use vstd::std_specs::hash::group_hash_axioms;

/// The locally tracked state of the real game after a round.
pub struct ReplayState {
    /// The last round applied.
    pub epoch: usize,
    /// Month (1 to 12) before the game's first round.
    pub initial_month: u32,
    /// Year of `initial_month`.
    pub initial_year: i32,
    /// Owner (country id) of every territory.
    pub country_data: HashMap<u16, u16>,
    /// Current capital of every country whose capital is not its original territory.
    pub capital_overrides: HashMap<u16, u16>,
}

/// A disagreement between the records of a round and the rules or the tracked state.
/// Details that the records themselves hold are left out; the values that the checks
/// derive are included.
#[derive(Debug, Clone, Copy, PartialEq, Eq)]
pub enum RoundIssue {
    /// The capitals file is numbered with another round (its number is given).
    CapitalsIteration(usize),
    /// Entry `i` of the original capitals does not name a known country with that id.
    OriginalCapital(usize),
    /// A conquest record whose post type is not "conquest".
    PostNotConquest,
    /// A conquest record whose conquest section type is not "conquer".
    ConquestNotConquer,
    /// The save file and the post disagree on the attacking territory.
    SaveAttacker,
    /// The save file and the post disagree on the conquered territory.
    SaveDefender,
    /// The save file's conquest does not list exactly the conquered territory.
    SaveSubjects,
    /// A riot record whose post type is not "riot".
    PostNotRiot,
    /// A riot record whose conquest section type is not "riot".
    ConquestNotRiot,
    /// The two territory ids of a riot record differ.
    RiotIdsDiffer,
    /// The riot territory is not the post's attacker and defender territory.
    RiotIdMismatch,
    /// A riot post lists subjects.
    RiotSubjects,
    /// A riot post names different attacker and defender countries.
    RiotSides,
    /// The conquered territory was not owned by the defender.
    DefenderMismatch { territory: u16, expected: u16, found: u16 },
    /// The post's defender before the round is not its defender.
    AdminBefore,
    /// The fallen-capital flag disagrees with the state.
    FallenCapital { expected: bool, conquered: u16, capital: u16, eliminated: bool },
    /// A capitulation lists another number of subjects than it cedes.
    CededCount,
    /// A capitulation breaks the cession rules.
    Capitulation(CapitulationError),
    /// A conquest without capitulation lists subjects.
    ConquestSubjects,
    /// The attacker does not own the attacking territory.
    AttackerNotOwner { attacker: u16, territory: u16, owner: u16 },
    /// The conquered territory cannot be attacked from the attacking territory.
    Unreachable { from: u16, to: u16 },
    /// Entry `index` of the current capitals differs from the expected capital.
    CurrentCapital { index: usize, expected: u16 },
    /// Entry `i` of the current capitals is a territory its country does not own.
    CapitalUnowned(usize),
    /// A conquest from round 229 on lacks the capital after it.
    MissingCapitalIndexAfter,
    /// The capital given for an eliminated defender is not its original one.
    EliminatedCapitalIndex { expected: u16, found: u16 },
    /// A capital name is given for an eliminated defender.
    EliminatedCapitalName,
    /// The capital after the conquest differs from the defender's current capital.
    CapitalIndexAfter { found: u16, expected: u16, defender: u16 },
    /// No capital name is given although the capital fell.
    CapitalNameMissing,
    /// A capital name is given although the capital did not fall.
    CapitalNameUnexpected,
    /// The capital name is not the name of the given territory.
    CapitalNameMismatch(u16),
    /// The given capital territory has no name.
    CapitalNameUnknown(u16),
    /// The new capital is not owned by the defender.
    NewCapitalUnowned { capital: u16, defender: u16 },
    /// The capital before the conquest differs from the defender's capital.
    CapitalIndexBefore { expected: u16, defender: u16 },
    /// The original capital given is not the defender's id.
    OriginalCapitalIndex(u16),
    /// The capital-moved flag differs from the fallen-capital flag.
    CapitalMoved,
    /// The defender's territory rank before the conquest is given; it must be empty.
    TerritoryRankBefore(usize),
    /// The caption differs from the expected one.
    Caption,
    /// The post's picture names or alliances are not as expected.
    PostFiles,
    /// The save file's round numbers or alliances are not as expected.
    SaveHeader,
    /// The save file's list of countries differs from the state.
    SaveCountries,
}

/// The outcome of replaying a round.
pub struct RoundReplay {
    /// The state with the round applied.
    pub state: ReplayState,
    /// Every mismatch found, in the order of the checks.
    pub issues: Vec<RoundIssue>,
    /// The caption the post should have.
    pub caption: String,
    /// One-line summary of the round for the log.
    pub summary: String,
}

/// The post reports a conquest.
pub open spec fn is_conquest(rec: RoundRecords) -> bool {
    rec.post.action_type@ == "conquest"@
}

/// The post reports a riot.
pub open spec fn is_riot(rec: RoundRecords) -> bool {
    rec.post.action_type@ == "riot"@
}

/// The territory that changes hands, as the save file gives it.
pub open spec fn conquered_id(rec: RoundRecords) -> u16 {
    match rec.save.conquests.1 {
        ConquestData::Conquer(_, d, _) => d as u16,
        ConquestData::Riot(t, _) => t as u16,
    }
}

/// The name of the country that gains the territory: the attacker of a conquest, the
/// rising territory's country in a riot.
pub open spec fn gaining_name(rec: RoundRecords) -> Seq<char> {
    if is_conquest(rec) { rec.post.attacker@ } else { rec.post.territory@ }
}

/// The name of the country that loses the territory.
pub open spec fn losing_name(rec: RoundRecords) -> Seq<char> {
    if is_conquest(rec) { rec.post.defender@ } else { rec.post.attacker@ }
}

/// Id of the country that gains the territory.
pub open spec fn attacker_of(rec: RoundRecords, names: Seq<(u16, Seq<char>)>) -> u16 {
    id_of_name(names, gaining_name(rec)).unwrap()
}

/// Id of the country that loses the territory.
pub open spec fn defender_of(rec: RoundRecords, names: Seq<(u16, Seq<char>)>) -> u16 {
    id_of_name(names, losing_name(rec)).unwrap()
}

/// The current capital of country `c`: its override, or its own id.
pub open spec fn capital_of(overrides: Map<u16, u16>, c: u16) -> u16 {
    if overrides.contains_key(c) { overrides[c] } else { c }
}

/// The defender's capital before the round.
pub open spec fn capital_before(state: ReplayState, rec: RoundRecords, names: Seq<(u16, Seq<char>)>) -> u16 {
    capital_of(state.capital_overrides@, defender_of(rec, names))
}

/// The defender loses all its territories in the round.
pub open spec fn defeated(state: ReplayState, rec: RoundRecords, names: Seq<(u16, Seq<char>)>) -> bool {
    1 + rec.conquest.subjects@.len() >= owned_by(state.country_data@, defender_of(rec, names)).len()
}

/// The defender's capital falls and the defender survives without capitulating.
pub open spec fn expected_fallen(state: ReplayState, rec: RoundRecords, names: Seq<(u16, Seq<char>)>) -> bool {
    &&& conquered_id(rec) == capital_before(state, rec, names)
    &&& !defeated(state, rec, names)
    &&& !rec.conquest.capitulation
}

/// `m` with every territory of `ids` handed to `owner`, in order.
pub open spec fn assign_all(m: Map<u16, u16>, ids: Seq<u16>, owner: u16) -> Map<u16, u16>
    decreases ids.len(),
{
    if ids.len() == 0 {
        m
    } else {
        assign_all(m, ids.drop_last(), owner).insert(ids.last(), owner)
    }
}

/// Territory owners after the round: the conquered territory, and for a conquest every
/// listed subject, go to the attacker.
pub open spec fn owners_after(state: ReplayState, rec: RoundRecords, names: Seq<(u16, Seq<char>)>) -> Map<u16, u16> {
    let m = state.country_data@.insert(conquered_id(rec), attacker_of(rec, names));
    if is_conquest(rec) {
        assign_all(m, subject_ids(rec.conquest.subjects@), attacker_of(rec, names))
    } else {
        m
    }
}

/// The capital overrides that a list of (country name, capital) entries sets, in order:
/// a country whose capital is its own id gets none.
pub open spec fn overrides_of(entries: Seq<(String, u16)>, names: Seq<(u16, Seq<char>)>) -> Map<u16, u16>
    decreases entries.len(),
{
    if entries.len() == 0 {
        Map::empty()
    } else {
        let prev = overrides_of(entries.drop_last(), names);
        let c = id_of_name(names, entries.last().0@).unwrap();
        if entries.last().1 != c { prev.insert(c, entries.last().1) } else { prev }
    }
}

/// The countries that own at least one territory.
pub open spec fn owner_set(owners: Map<u16, u16>) -> Set<u16> {
    owners.dom().map(|t: u16| owners[t])
}

/// A single issue when `c` holds, none otherwise.
pub open spec fn issue_if(c: bool, issue: RoundIssue) -> Seq<RoundIssue> {
    if c { seq![issue] } else { Seq::empty() }
}

/// Checks of the capitals file's number and original capitals.
pub open spec fn capitals_file_issues(round: usize, rec: RoundRecords, names: Seq<(u16, Seq<char>)>) -> Seq<RoundIssue> {
    issue_if(rec.capitals.iteration != round, RoundIssue::CapitalsIteration(rec.capitals.iteration))
        + original_capital_issues(rec.capitals.original_capital_by_admin@, names)
}

/// One issue for every original capital entry whose name is not a country with that id.
pub open spec fn original_capital_issues(entries: Seq<(String, u16)>, names: Seq<(u16, Seq<char>)>) -> Seq<RoundIssue>
    decreases entries.len(),
{
    if entries.len() == 0 {
        Seq::empty()
    } else {
        original_capital_issues(entries.drop_last(), names) + issue_if(
            id_of_name(names, entries.last().0@) != Some(entries.last().1),
            RoundIssue::OriginalCapital((entries.len() - 1) as usize),
        )
    }
}

/// Checks that the save file's conquest agrees with the post's.
pub open spec fn shape_issues(rec: RoundRecords) -> Seq<RoundIssue> {
    let c = rec.conquest;
    (match c.defender_territory_rank_before {
        Some(r) => seq![RoundIssue::TerritoryRankBefore(r)],
        None => Seq::empty(),
    }) + save_shape_issues(rec)
}

/// Checks of the save file's conquest record against the post.
pub open spec fn save_shape_issues(rec: RoundRecords) -> Seq<RoundIssue> {
    let c = rec.conquest;
    match rec.save.conquests.1 {
        ConquestData::Conquer(a, d, subs) => {
            issue_if(!is_conquest(rec), RoundIssue::PostNotConquest)
                + issue_if(c.action_type@ != "conquer"@, RoundIssue::ConquestNotConquer)
                + issue_if(a != c.attacker, RoundIssue::SaveAttacker)
                + issue_if(d != c.defender, RoundIssue::SaveDefender)
                + issue_if(subs@.len() != 1 || subs@[0] != d, RoundIssue::SaveSubjects)
        },
        ConquestData::Riot(t1, t2) => {
            issue_if(!is_riot(rec), RoundIssue::PostNotRiot)
                + issue_if(c.action_type@ != "riot"@, RoundIssue::ConquestNotRiot)
                + issue_if(t1 != t2, RoundIssue::RiotIdsDiffer)
                + issue_if(t1 != c.attacker || t1 != c.defender, RoundIssue::RiotIdMismatch)
                + issue_if(c.subjects@.len() != 0, RoundIssue::RiotSubjects)
        },
    }
}

/// Checks of the two sides against the state.
pub open spec fn party_issues(state: ReplayState, rec: RoundRecords, names: Seq<(u16, Seq<char>)>) -> Seq<RoundIssue> {
    let before = state.country_data@;
    let conquered = conquered_id(rec);
    let defender = defender_of(rec, names);
    issue_if(!is_conquest(rec) && rec.post.attacker@ != rec.post.defender@, RoundIssue::RiotSides)
        + issue_if(before[conquered] != defender, RoundIssue::DefenderMismatch {
            territory: conquered,
            expected: defender,
            found: before[conquered],
        })
        + issue_if(rec.conquest.defender_admin_before@ != rec.post.defender@, RoundIssue::AdminBefore)
        + issue_if(rec.conquest.fallen_capital_remnant != expected_fallen(state, rec, names), RoundIssue::FallenCapital {
            expected: expected_fallen(state, rec, names),
            conquered,
            capital: capital_before(state, rec, names),
            eliminated: defeated(state, rec, names),
        })
}

/// `target` lies in the nearest shell around `from` holding a territory of another owner.
pub open spec fn can_attack(g: Map<u16, Vec<u16>>, owners: Map<u16, u16>, from: u16, target: u16) -> bool {
    exists|d: nat| #[trigger] nearest_foreign_distance(g, owners, from, d)
        && foreign_in_shell(g, owners, from, d).contains(target)
}

/// Checks of a conquest: its capitulation or subjects, the attacker's ownership of the
/// attacking territory, and the reach of the attack. `cession` is the answer of the
/// capitulation check.
pub open spec fn conquest_issues(
    state: ReplayState,
    rec: RoundRecords,
    names: Seq<(u16, Seq<char>)>,
    g: Map<u16, Vec<u16>>,
    cession: Result<(), CapitulationError>,
) -> Seq<RoundIssue> {
    let before = state.country_data@;
    let c = rec.conquest;
    let attacking = c.attacker as u16;
    let attacker = attacker_of(rec, names);
    if !is_conquest(rec) {
        Seq::empty()
    } else {
        (if c.capitulation {
            issue_if(c.subjects@.len() != c.capitulation_event.unwrap().territories_ceded, RoundIssue::CededCount)
                + (match cession {
                    Ok(()) => Seq::empty(),
                    Err(e) => seq![RoundIssue::Capitulation(e)],
                })
        } else {
            issue_if(c.subjects@.len() != 0, RoundIssue::ConquestSubjects)
        })
            + issue_if(before[attacking] != attacker, RoundIssue::AttackerNotOwner {
                attacker,
                territory: attacking,
                owner: before[attacking],
            })
            + issue_if(!can_attack(g, before, attacking, conquered_id(rec)), RoundIssue::Unreachable {
                from: attacking,
                to: conquered_id(rec),
            })
    }
}

/// The capital that the capitals file should give country `country`, which it gives
/// as `cur`: any capital for an eliminated country or for a capital that had to
/// move, the attacker's own territory when it retakes it, and otherwise the capital
/// it had.
pub open spec fn expected_capital(
    round: usize,
    state: ReplayState,
    rec: RoundRecords,
    names: Seq<(u16, Seq<char>)>,
    country: u16,
    cur: u16,
) -> u16 {
    let before = state.country_data@;
    let after = owners_after(state, rec, names);
    let defender = defender_of(rec, names);
    let attacker = attacker_of(rec, names);
    let conquered = conquered_id(rec);
    let cap_before = capital_before(state, rec, names);
    let prev = capital_of(state.capital_overrides@, country);
    if owned_by(after, country).len() == 0 {
        cur
    } else if country == defender {
        if is_riot(rec) {
            if conquered == cap_before { cur } else { cap_before }
        } else if defeated(state, rec, names) {
            cur
        } else if round >= 229 {
            match rec.conquest.capital_index_after {
                Some(ci) => ci as u16,
                None => cur,
            }
        } else if conquered == cap_before {
            cur
        } else {
            cap_before
        }
    } else if country == attacker && conquered == attacker {
        attacker
    } else if !(before.contains_key(prev) && before[prev] == country) {
        cur
    } else {
        prev
    }
}

/// Checks of the current capitals listed in `entries`, a prefix of the capitals file.
pub open spec fn current_capital_issues(
    entries: Seq<(String, u16)>,
    round: usize,
    state: ReplayState,
    rec: RoundRecords,
    names: Seq<(u16, Seq<char>)>,
) -> Seq<RoundIssue>
    decreases entries.len(),
{
    if entries.len() == 0 {
        Seq::empty()
    } else {
        let i = (entries.len() - 1) as usize;
        let country = id_of_name(names, entries.last().0@).unwrap();
        let cur = entries.last().1;
        let after = owners_after(state, rec, names);
        let expected = expected_capital(round, state, rec, names, country, cur);
        current_capital_issues(entries.drop_last(), round, state, rec, names)
            + issue_if(cur != expected, RoundIssue::CurrentCapital { index: i, expected })
            + issue_if(
                owned_by(after, country).len() > 0
                    && !(country == defender_of(rec, names) && rec.conquest.capitulation)
                    && !(after.contains_key(cur) && after[cur] == country),
                RoundIssue::CapitalUnowned(i),
            )
    }
}

/// Checks of the capital after a conquest, as the conquest section gives it.
pub open spec fn capital_after_issues(state: ReplayState, rec: RoundRecords, names: Seq<(u16, Seq<char>)>) -> Seq<RoundIssue> {
    let c = rec.conquest;
    let defender = defender_of(rec, names);
    let fallen = c.fallen_capital_remnant;
    let after = owners_after(state, rec, names);
    match c.capital_index_after {
        None => seq![RoundIssue::MissingCapitalIndexAfter],
        Some(ci) => {
            let cap = ci as u16;
            if defeated(state, rec, names) {
                issue_if(cap != defender, RoundIssue::EliminatedCapitalIndex { expected: defender, found: cap })
                    + issue_if(c.defender_capital_territory_after is Some, RoundIssue::EliminatedCapitalName)
            } else {
                let expected = capital_of(overrides_of(rec.capitals.current_capital_by_admin@, names), defender);
                issue_if(cap != expected, RoundIssue::CapitalIndexAfter { found: cap, expected, defender })
                    + (match c.defender_capital_territory_after {
                        None => issue_if(fallen, RoundIssue::CapitalNameMissing),
                        Some(n) => issue_if(!fallen, RoundIssue::CapitalNameUnexpected) + (match name_of_id(names, cap) {
                            Some(e) => issue_if(n@ != e, RoundIssue::CapitalNameMismatch(cap)),
                            None => seq![RoundIssue::CapitalNameUnknown(cap)],
                        }),
                    })
                    + issue_if(
                        fallen && !(after.contains_key(cap) && after[cap] == defender),
                        RoundIssue::NewCapitalUnowned { capital: cap, defender },
                    )
            }
        },
    }
}

/// Checks of the capital-tracking fields that conquests carry from round 230 on.
pub open spec fn capital_tracking_issues(state: ReplayState, rec: RoundRecords, names: Seq<(u16, Seq<char>)>) -> Seq<RoundIssue> {
    let c = rec.conquest;
    let defender = defender_of(rec, names);
    let cap_before = capital_before(state, rec, names);
    (match c.capital_index_before {
        Some(b) => issue_if(b as u16 != cap_before, RoundIssue::CapitalIndexBefore { expected: cap_before, defender }),
        None => Seq::empty(),
    }) + (match c.original_capital_index {
        Some(o) => issue_if(o as u16 != defender, RoundIssue::OriginalCapitalIndex(defender)),
        None => Seq::empty(),
    }) + (match c.capital_moved {
        Some(m) => issue_if(m != c.fallen_capital_remnant, RoundIssue::CapitalMoved),
        None => Seq::empty(),
    })
}

/// Checks of the capital fields of a conquest from round 229 on.
pub open spec fn capital_index_issues(
    round: usize,
    state: ReplayState,
    rec: RoundRecords,
    names: Seq<(u16, Seq<char>)>,
) -> Seq<RoundIssue> {
    if !(round >= 229 && is_conquest(rec)) {
        Seq::empty()
    } else {
        capital_after_issues(state, rec, names)
            + (if round >= 230 { capital_tracking_issues(state, rec, names) } else { Seq::empty() })
    }
}

/// "<Month> <year>, " for month index `t`; the month is left empty when the
/// remainder is negative.
pub open spec fn date_prefix(t: int) -> Seq<char> {
    let r = rem_toward_zero(t, 12);
    (if r >= 0 { month_name((r + 1) as u32) } else { Seq::empty() }) + " "@ + signed_decimal(div_toward_zero(t, 12)) + ", "@
}

/// How a conquest ended for the defender, as the caption tells it.
pub open spec fn outcome_text(
    defeated: bool,
    capitulation: bool,
    fallen: bool,
    relocated: bool,
    remaining: nat,
    ceded: nat,
    attacker: Seq<char>,
    defender: Seq<char>,
    new_capital: Seq<char>,
) -> Seq<char> {
    if defeated {
        ".\n"@ + defender + " has been completely defeated.\n"@ + decimal(remaining) + " countries remaining."@
    } else if capitulation {
        ".\n"@ + defender + " capitulated, ceding "@ + decimal(ceded) + " additional territor"@
            + (if ceded == 1 { "y"@ } else { "ies"@ }) + " to "@ + attacker + "."@
    } else if fallen {
        if relocated {
            ".\nThe government of "@ + defender + " relocated its capital to "@ + new_capital + " and continues in exile."@
        } else {
            ".\nThe government of "@ + defender + " continues in exile, based in its remaining territories."@
        }
    } else {
        "."@
    }
}

/// The number of territories a capitulation cedes, as its event gives it.
pub open spec fn ceded_count(rec: RoundRecords) -> nat {
    match rec.conquest.capitulation_event {
        Some(e) => e.territories_ceded as nat,
        None => 0,
    }
}

/// The name given for the defender's new capital, or nothing.
pub open spec fn new_capital_name(rec: RoundRecords) -> Seq<char> {
    match rec.conquest.defender_capital_territory_after {
        Some(n) => n@,
        None => Seq::empty(),
    }
}

/// The caption the post of `round` should have.
pub open spec fn expected_caption(round: usize, state: ReplayState, rec: RoundRecords, names: Seq<(u16, Seq<char>)>) -> Seq<char> {
    let before = state.country_data@;
    let conquered = conquered_id(rec);
    let reconquest = is_conquest(rec) && conquered == attacker_of(rec, names);
    let occupied = !reconquest && before[conquered] != conquered;
    let details = (if occupied { " previously occupied by "@ + rec.post.defender@ } else { Seq::empty() })
        + outcome_text(
            defeated(state, rec, names),
            rec.conquest.capitulation,
            rec.conquest.fallen_capital_remnant,
            round >= 229,
            owner_set(owners_after(state, rec, names)).len(),
            ceded_count(rec),
            rec.post.attacker@,
            rec.post.defender@,
            new_capital_name(rec),
        );
    let event = if is_conquest(rec) {
        if reconquest {
            rec.post.attacker@ + " reconquered its homeland from "@ + rec.post.defender@ + details
        } else {
            rec.post.attacker@ + " conquered "@ + rec.post.territory@ + " territory"@ + details
        }
    } else {
        rec.post.territory@ + " rose against "@ + rec.post.attacker@ + " and "@
            + (if round < 85 { "gained independence."@ } else { "reunited its homeland."@ })
    };
    date_prefix(month_index(round, state.initial_month, state.initial_year)) + event
        + (if round < 167 { "\nCheck the full map at https://worldwarbot.com"@ } else { Seq::empty() })
}

/// `n` in decimal, padded with zeros to six digits, followed by ".png".
pub open spec fn png_name(n: nat) -> Seq<char> {
    let d = decimal(n);
    Seq::new((if d.len() < 6 { 6 - d.len() } else { 0 }) as nat, |i: int| '0') + d + ".png"@
}

/// The ids are in strictly increasing order.
pub open spec fn increasing(ids: Seq<u16>) -> bool {
    forall|i: int, j: int| 0 <= i < j < ids.len() ==> ids[i] < ids[j]
}

/// A save-file entry (name, territories) lists all territories of one country, in
/// increasing order, under the country's name.
pub open spec fn listed_group(entry: (Seq<char>, Seq<u16>), owners: Map<u16, u16>, names: Seq<(u16, Seq<char>)>) -> bool {
    let ids = entry.1;
    &&& ids.len() > 0
    &&& owners.contains_key(ids[0])
    &&& increasing(ids)
    &&& ids.to_set() == owned_by(owners, owners[ids[0]])
    &&& name_of_id(names, owners[ids[0]]) == Some(entry.0)
}

/// The save file's country list is the state grouped by owner: one entry per country
/// owning territories, listing them in increasing order, the entries ordered by their
/// first territory.
pub open spec fn country_listing(list: Seq<(Seq<char>, Seq<u16>)>, owners: Map<u16, u16>, names: Seq<(u16, Seq<char>)>) -> bool {
    &&& list.len() == owner_set(owners).len()
    &&& forall|i: int| 0 <= i < list.len() ==> #[trigger] listed_group(list[i], owners, names)
    &&& forall|i: int, j: int| 0 <= i < j < list.len() ==> list[i].1[0] < list[j].1[0]
}

/// The save file's country list as (name, territories) views.
pub open spec fn listing_view(list: Seq<(String, Vec<u16>)>) -> Seq<(Seq<char>, Seq<u16>)> {
    list.map_values(|e: (String, Vec<u16>)| (e.0@, e.1@))
}

/// Checks of the caption, the post's and save file's headers and the country list.
pub open spec fn record_issues(round: usize, state: ReplayState, rec: RoundRecords, names: Seq<(u16, Seq<char>)>) -> Seq<RoundIssue> {
    let png = png_name(round as nat);
    issue_if(rec.post.caption@ != expected_caption(round, state, rec, names), RoundIssue::Caption)
        + issue_if(rec.post.pic@ != png || rec.post.zoom@ != png || !rec.post.alliances_empty, RoundIssue::PostFiles)
        + issue_if(
            rec.save.iteration != round || rec.save.conquests.0 != round || !rec.save.alliances_empty,
            RoundIssue::SaveHeader,
        )
        + issue_if(
            !country_listing(listing_view(rec.save.countries@), owners_after(state, rec, names), names),
            RoundIssue::SaveCountries,
        )
}

/// Every issue found in `round`, in the order of the checks; `cession` is the answer
/// of the capitulation check.
pub open spec fn round_issues(
    round: usize,
    state: ReplayState,
    rec: RoundRecords,
    names: Seq<(u16, Seq<char>)>,
    g: Map<u16, Vec<u16>>,
    cession: Result<(), CapitulationError>,
) -> Seq<RoundIssue> {
    capitals_file_issues(round, rec, names)
        + shape_issues(rec)
        + party_issues(state, rec, names)
        + conquest_issues(state, rec, names, g, cession)
        + current_capital_issues(rec.capitals.current_capital_by_admin@, round, state, rec, names)
        + capital_index_issues(round, state, rec, names)
        + record_issues(round, state, rec, names)
}

/// The lines of a caption kept in the log: all but a last line naming the website.
pub open spec fn kept_lines(caption: Seq<char>) -> Seq<Seq<char>> {
    let ls = lines(caption);
    if ls.len() > 0 && has_substring(ls.last(), "worldwarbot.com"@) { ls.drop_last() } else { ls }
}

/// "Round <round>: " followed by the kept lines of the caption joined by spaces.
pub open spec fn summary_text(round: usize, caption: Seq<char>) -> Seq<char> {
    "Round "@ + decimal(round as nat) + ": "@ + join(kept_lines(caption), " "@)
}

/// The inputs for which replaying `round` is defined: the dates fit, the countries the
/// post names are known, the territories the round reads are in the state, a
/// capitulation that is reported carries its event, the map is closed for the
/// searches a conquest runs, and every country in the capitals file and every owner
/// after the round has a name.
pub open spec fn replay_defined(
    round: usize,
    state: ReplayState,
    rec: RoundRecords,
    names: Seq<(u16, Seq<char>)>,
    g: Map<u16, Vec<u16>>,
) -> bool {
    let before = state.country_data@;
    &&& round <= i64::MAX
    &&& month_index(round, state.initial_month, state.initial_year) <= i64::MAX
    &&& id_of_name(names, gaining_name(rec)) is Some
    &&& id_of_name(names, losing_name(rec)) is Some
    &&& before.contains_key(conquered_id(rec))
    &&& (rec.conquest.capitulation && (is_conquest(rec) || !defeated(state, rec, names))
        ==> rec.conquest.capitulation_event is Some)
    &&& (is_conquest(rec) ==> before.contains_key(rec.conquest.attacker as u16)
        && closed_from(g, before, rec.conquest.attacker as u16))
    &&& (is_conquest(rec) && rec.conquest.capitulation ==> before.contains_key(rec.conquest.defender as u16)
        && closed_from(g, g, rec.conquest.defender as u16))
    &&& forall|i: int| 0 <= i < rec.capitals.current_capital_by_admin@.len()
        ==> (#[trigger] id_of_name(names, rec.capitals.current_capital_by_admin@[i].0@)) is Some
    &&& forall|t: u16| #[trigger] owners_after(state, rec, names).contains_key(t)
        ==> name_of_id(names, owners_after(state, rec, names)[t]) is Some
}

/// Appends the checks of the capitals file's number and original capitals.
fn check_capitals_file(round: usize, rec: &RoundRecords, names: &Vec<(u16, String)>, issues: &mut Vec<RoundIssue>)
    ensures
        final(issues)@ == old(issues)@ + capitals_file_issues(round, *rec, names_view(names@)),
{
    let ghost nv = names_view(names@);
    if rec.capitals.iteration != round {
        issues.push(RoundIssue::CapitalsIteration(rec.capitals.iteration));
    }
    let ghost start = issues@;
    let entries = &rec.capitals.original_capital_by_admin;
    proof {
        assert(entries@.take(0) =~= Seq::<(String, u16)>::empty());
        assert(start + original_capital_issues(entries@.take(0), nv) =~= start);
    }
    let mut i: usize = 0;
    while i < entries.len()
        invariant
            i <= entries.len(),
            nv == names_view(names@),
            issues@ == start + original_capital_issues(entries@.take(i as int), nv),
        decreases entries.len() - i,
    {
        proof {
            let t = entries@.take(i + 1);
            assert(t.drop_last() =~= entries@.take(i as int));
            assert(t.last() == entries@[i as int]);
        }
        let known = match lookup_id(names, &entries[i].0) {
            Some(id) => id == entries[i].1,
            None => false,
        };
        if !known {
            issues.push(RoundIssue::OriginalCapital(i));
        }
        proof {
            let t = entries@.take(i + 1);
            assert(issues@ =~= start + original_capital_issues(t, nv));
        }
        i += 1;
    }
    assert(entries@.take(entries@.len() as int) =~= entries@);
    assert(final(issues)@ =~= old(issues)@ + capitals_file_issues(round, *rec, nv));
}

/// Appends the checks that the save file's conquest agrees with the post's.
fn check_save_shape(rec: &RoundRecords, issues: &mut Vec<RoundIssue>)
    ensures
        final(issues)@ == old(issues)@ + save_shape_issues(*rec),
{
    let c = &rec.conquest;
    match &rec.save.conquests.1 {
        ConquestData::Conquer(a, d, subs) => {
            let ghost i0 = issues@;
            if !str_eq(rec.post.action_type.as_str(), "conquest") {
                issues.push(RoundIssue::PostNotConquest);
            }
            if !str_eq(c.action_type.as_str(), "conquer") {
                issues.push(RoundIssue::ConquestNotConquer);
            }
            if *a != c.attacker {
                issues.push(RoundIssue::SaveAttacker);
            }
            if *d != c.defender {
                issues.push(RoundIssue::SaveDefender);
            }
            if subs.len() != 1 || subs[0] != *d {
                issues.push(RoundIssue::SaveSubjects);
            }
            assert(issues@ =~= i0 + save_shape_issues(*rec));
        },
        ConquestData::Riot(t1, t2) => {
            let ghost i0 = issues@;
            if !str_eq(rec.post.action_type.as_str(), "riot") {
                issues.push(RoundIssue::PostNotRiot);
            }
            if !str_eq(c.action_type.as_str(), "riot") {
                issues.push(RoundIssue::ConquestNotRiot);
            }
            if *t1 != *t2 {
                issues.push(RoundIssue::RiotIdsDiffer);
            }
            if *t1 != c.attacker || *t1 != c.defender {
                issues.push(RoundIssue::RiotIdMismatch);
            }
            if c.subjects.len() != 0 {
                issues.push(RoundIssue::RiotSubjects);
            }
            assert(issues@ =~= i0 + save_shape_issues(*rec));
        },
    }
}

/// Appends the checks of the conquest section's shape and the save file's record.
fn check_shape(rec: &RoundRecords, issues: &mut Vec<RoundIssue>)
    ensures
        final(issues)@ == old(issues)@ + shape_issues(*rec),
{
    let ghost start = issues@;
    match rec.conquest.defender_territory_rank_before {
        Some(r) => {
            issues.push(RoundIssue::TerritoryRankBefore(r));
            assert(issues@ =~= start + seq![RoundIssue::TerritoryRankBefore(r)]);
        },
        None => {
            assert(issues@ =~= start + Seq::<RoundIssue>::empty());
        },
    }
    check_save_shape(rec, issues);
    assert(issues@ =~= start + shape_issues(*rec));
}

/// Appends the checks of the two sides against the state.
fn check_parties(
    state: &ReplayState,
    rec: &RoundRecords,
    names: &Vec<(u16, String)>,
    conquest: bool,
    conquered: u16,
    defender: u16,
    owner: u16,
    capital: u16,
    defeated_now: bool,
    issues: &mut Vec<RoundIssue>,
)
    requires
        conquest == is_conquest(*rec),
        conquered == conquered_id(*rec),
        defender == defender_of(*rec, names_view(names@)),
        state.country_data@.contains_key(conquered),
        owner == state.country_data@[conquered],
        capital == capital_before(*state, *rec, names_view(names@)),
        defeated_now == defeated(*state, *rec, names_view(names@)),
    ensures
        final(issues)@ == old(issues)@ + party_issues(*state, *rec, names_view(names@)),
{
    let ghost i0 = issues@;
    if !conquest && !str_eq(rec.post.attacker.as_str(), rec.post.defender.as_str()) {
        issues.push(RoundIssue::RiotSides);
    }
    if owner != defender {
        issues.push(RoundIssue::DefenderMismatch { territory: conquered, expected: defender, found: owner });
    }
    if !str_eq(rec.conquest.defender_admin_before.as_str(), rec.post.defender.as_str()) {
        issues.push(RoundIssue::AdminBefore);
    }
    let fallen = conquered == capital && !defeated_now && !rec.conquest.capitulation;
    if rec.conquest.fallen_capital_remnant != fallen {
        issues.push(RoundIssue::FallenCapital { expected: fallen, conquered, capital, eliminated: defeated_now });
    }
    assert(issues@ =~= i0 + party_issues(*state, *rec, names_view(names@)));
}

/// Appends the checks of a conquest; returns the answer of the capitulation check.
fn check_conquest(
    state: &ReplayState,
    rec: &RoundRecords,
    names: &Vec<(u16, String)>,
    targets_data: &HashMap<u16, Vec<u16>>,
    conquest: bool,
    attacker: u16,
    conquered: u16,
    issues: &mut Vec<RoundIssue>,
) -> (cession: Ghost<Result<(), CapitulationError>>)
    requires
        conquest == is_conquest(*rec),
        attacker == attacker_of(*rec, names_view(names@)),
        conquered == conquered_id(*rec),
        conquest ==> state.country_data@.contains_key(rec.conquest.attacker as u16)
            && closed_from(targets_data@, state.country_data@, rec.conquest.attacker as u16),
        conquest && rec.conquest.capitulation ==> state.country_data@.contains_key(rec.conquest.defender as u16)
            && closed_from(targets_data@, targets_data@, rec.conquest.defender as u16)
            && rec.conquest.capitulation_event is Some,
    ensures
        conquest && rec.conquest.capitulation ==> capitulation_outcome(
            targets_data@,
            state.country_data@,
            rec.conquest.defender as u16,
            subject_ids(rec.conquest.subjects@),
            cession@,
        ),
        final(issues)@ == old(issues)@ + conquest_issues(*state, *rec, names_view(names@), targets_data@, cession@),
{
    let ghost g = targets_data@;
    let ghost before = state.country_data@;
    let ghost i0 = issues@;
    if !conquest {
        assert(issues@ =~= i0 + conquest_issues(*state, *rec, names_view(names@), g, Ok(())));
        return Ghost(Ok(()));
    }
    let ghost mut cession: Result<(), CapitulationError> = Ok(());
    let c = &rec.conquest;
    if c.capitulation {
        let ceded = match &c.capitulation_event {
            Some(e) => e.territories_ceded,
            None => 0,
        };
        let ceded_ids = subject_id_list(&c.subjects);
        if ceded_ids.len() != ceded {
            issues.push(RoundIssue::CededCount);
        }
        let capital = c.defender as u16;
        let r = validate_capitulation(capital, ceded_ids.as_slice(), &state.country_data, targets_data);
        proof {
            cession = r;
        }
        match r {
            Ok(()) => {},
            Err(e) => {
                issues.push(RoundIssue::Capitulation(e));
            },
        }
    } else if c.subjects.len() != 0 {
        issues.push(RoundIssue::ConquestSubjects);
    }
    let attacking = c.attacker as u16;
    let owner = *state.country_data.get(&attacking).unwrap();
    if owner != attacker {
        issues.push(RoundIssue::AttackerNotOwner { attacker, territory: attacking, owner });
    }
    let targets = find_attack_targets(attacking, &state.country_data, targets_data);
    let reached = contains_id(&targets, conquered);
    proof {
        if reached {
            assert(targets@.to_set().contains(conquered));
            let d = choose|d: nat| #[trigger] nearest_foreign_distance(g, before, attacking, d);
            assert(can_attack(g, before, attacking, conquered));
        } else {
            if can_attack(g, before, attacking, conquered) {
                let d = choose|d: nat| #[trigger] nearest_foreign_distance(g, before, attacking, d)
                    && foreign_in_shell(g, before, attacking, d).contains(conquered);
                assert(targets@.to_set().contains(conquered));
            }
        }
    }
    if !reached {
        issues.push(RoundIssue::Unreachable { from: attacking, to: conquered });
    }
    assert(issues@ =~= i0 + conquest_issues(*state, *rec, names_view(names@), g, cession));
    Ghost(cession)
}

/// Hands every territory of `ids` to `owner`, in order.
fn assign_subjects(m: &mut HashMap<u16, u16>, ids: &Vec<u16>, owner: u16)
    ensures
        final(m)@ == assign_all(old(m)@, ids@, owner),
{
    let ghost m0 = m@;
    let mut i: usize = 0;
    assert(ids@.take(0) =~= Seq::<u16>::empty());
    while i < ids.len()
        invariant
            i <= ids.len(),
            m@ == assign_all(m0, ids@.take(i as int), owner),
        decreases ids.len() - i,
    {
        proof {
            let t = ids@.take(i + 1);
            assert(t.drop_last() =~= ids@.take(i as int));
            assert(t.last() == ids@[i as int]);
        }
        m.insert(ids[i], owner);
        i += 1;
    }
    assert(ids@.take(ids@.len() as int) =~= ids@);
}

/// The capital overrides that the capitals file's current capitals set.
fn overrides_from_file(entries: &Vec<(String, u16)>, names: &Vec<(u16, String)>) -> (m: HashMap<u16, u16>)
    requires
        forall|i: int| 0 <= i < entries@.len() ==> (#[trigger] id_of_name(names_view(names@), entries@[i].0@)) is Some,
    ensures
        m@ == overrides_of(entries@, names_view(names@)),
{
    let ghost nv = names_view(names@);
    let mut m: HashMap<u16, u16> = HashMap::new();
    let mut i: usize = 0;
    assert(entries@.take(0) =~= Seq::<(String, u16)>::empty());
    while i < entries.len()
        invariant
            i <= entries.len(),
            nv == names_view(names@),
            forall|i: int| 0 <= i < entries@.len() ==> (#[trigger] id_of_name(nv, entries@[i].0@)) is Some,
            m@ == overrides_of(entries@.take(i as int), nv),
        decreases entries.len() - i,
    {
        proof {
            let t = entries@.take(i + 1);
            assert(t.drop_last() =~= entries@.take(i as int));
            assert(t.last() == entries@[i as int]);
        }
        let c = lookup_id(names, &entries[i].0).unwrap();
        if entries[i].1 != c {
            m.insert(c, entries[i].1);
        }
        i += 1;
    }
    assert(entries@.take(entries@.len() as int) =~= entries@);
    m
}

/// The number of countries that own at least one territory.
fn count_owners(m: &HashMap<u16, u16>) -> (n: usize)
    ensures
        n == owner_set(m@).len(),
{
    let keys = collect_keys(m);
    let ghost mv = m@;
    let mut seen: HashSet<u16> = HashSet::new();
    let mut i: usize = 0;
    while i < keys.len()
        invariant
            i <= keys.len(),
            mv == m@,
            keys@.to_set() == mv.dom(),
            seen@ == Set::new(|c: u16| exists|j: int| 0 <= j < i && #[trigger] mv[keys@[j]] == c),
        decreases keys.len() - i,
    {
        let k = keys[i];
        assert(keys@.to_set().contains(k));
        let o = *m.get(&k).unwrap();
        seen.insert(o);
        proof {
            assert(seen@ =~= Set::new(|c: u16| exists|j: int| 0 <= j < i + 1 && #[trigger] mv[keys@[j]] == c)) by {
                assert forall|c: u16| #[trigger] seen@.contains(c) implies
                    (exists|j: int| 0 <= j < i + 1 && #[trigger] mv[keys@[j]] == c) by {
                    if c == o {
                        assert(mv[keys@[i as int]] == c);
                    } else {
                        let j = choose|j: int| 0 <= j < i && #[trigger] mv[keys@[j]] == c;
                    }
                }
            }
        }
        i += 1;
    }
    proof {
        assert(seen@ =~= owner_set(mv)) by {
            assert forall|c: u16| #[trigger] owner_set(mv).contains(c) implies seen@.contains(c) by {
                let t = choose|t: u16| mv.dom().contains(t) && c == mv[t];
                assert(keys@.to_set().contains(t));
                let j = choose|j: int| 0 <= j < keys@.len() && keys@[j] == t;
                assert(mv[keys@[j]] == c);
            }
            assert forall|c: u16| #[trigger] seen@.contains(c) implies owner_set(mv).contains(c) by {
                let j = choose|j: int| 0 <= j < keys@.len() && #[trigger] mv[keys@[j]] == c;
                assert(keys@.to_set().contains(keys@[j]));
            }
        }
    }
    seen.len()
}

/// Whether one entry (name, territories) of the save file lists all territories of one
/// country, in increasing order, under the country's name.
fn check_group(name: &String, ids: &Vec<u16>, owners: &HashMap<u16, u16>, names: &Vec<(u16, String)>) -> (ok: bool)
    ensures
        ok == listed_group((name@, ids@), owners@, names_view(names@)),
{
    let ghost ov = owners@;
    if ids.len() == 0 {
        return false;
    }
    let first = ids[0];
    let o = match owners.get(&first) {
        Some(o) => *o,
        None => {
            return false;
        },
    };
    let mut k: usize = 1;
    while k < ids.len()
        invariant
            1 <= k <= ids.len(),
            forall|a: int, b: int| 0 <= a < b < k ==> ids@[a] < ids@[b],
        decreases ids.len() - k,
    {
        if ids[k - 1] >= ids[k] {
            return false;
        }
        k += 1;
    }
    assert(increasing(ids@));
    let mut j: usize = 0;
    while j < ids.len()
        invariant
            j <= ids.len(),
            ov == owners@,
            ids@.len() > 0,
            first == ids@[0],
            ov.contains_key(first),
            o == ov[first],
            forall|q: int| 0 <= q < j ==> ov.contains_key(ids@[q]) && ov[ids@[q]] == o,
        decreases ids.len() - j,
    {
        match owners.get(&ids[j]) {
            Some(x) => {
                if *x != o {
                    proof {
                        reveal(owned_by);
                        assert(ids@.to_set().contains(ids@[j as int]));
                        assert(!owned_by(ov, o).contains(ids@[j as int]));
                    }
                    return false;
                }
            },
            None => {
                proof {
                    reveal(owned_by);
                    assert(ids@.to_set().contains(ids@[j as int]));
                }
                return false;
            },
        }
        j += 1;
    }
    let count = count_owned_by(owners, o);
    proof {
        assert(ids@.no_duplicates()) by {
            assert forall|a: int, b: int| 0 <= a < ids@.len() && 0 <= b < ids@.len() && a != b
                implies ids@[a] != ids@[b] by {
                if a < b {
                    assert(ids@[a] < ids@[b]);
                } else {
                    assert(ids@[b] < ids@[a]);
                }
            }
        }
        ids@.unique_seq_to_set();
        lemma_owned_finite(ov, o);
        assert(ids@.to_set().subset_of(owned_by(ov, o))) by {
            reveal(owned_by);
        }
    }
    if ids.len() != count {
        return false;
    }
    proof {
        vstd::set_lib::lemma_subset_equality(ids@.to_set(), owned_by(ov, o));
    }
    match lookup_name(names, o) {
        Some(n) => str_eq(n.as_str(), name.as_str()),
        None => false,
    }
}

/// Whether the save file's country list is the state grouped by owner.
fn check_listing(list: &Vec<(String, Vec<u16>)>, owners: &HashMap<u16, u16>, names: &Vec<(u16, String)>) -> (ok: bool)
    ensures
        ok == country_listing(listing_view(list@), owners@, names_view(names@)),
{
    let ghost lv = listing_view(list@);
    let ghost nv = names_view(names@);
    let n_owners = count_owners(owners);
    if list.len() != n_owners {
        return false;
    }
    let mut i: usize = 0;
    while i < list.len()
        invariant
            i <= list.len(),
            lv == listing_view(list@),
            nv == names_view(names@),
            list.len() == owner_set(owners@).len(),
            forall|k: int| 0 <= k < i ==> #[trigger] listed_group(lv[k], owners@, nv),
            forall|a: int, b: int| 0 <= a < b < i ==> lv[a].1[0] < lv[b].1[0],
        decreases list.len() - i,
    {
        assert(lv[i as int] == (list@[i as int].0@, list@[i as int].1@));
        if !check_group(&list[i].0, &list[i].1, owners, names) {
            return false;
        }
        if i > 0 {
            assert(listed_group(lv[i - 1], owners@, nv));
            assert(lv[i - 1] == (list@[i - 1].0@, list@[i - 1].1@));
            if list[i - 1].1[0] >= list[i].1[0] {
                return false;
            }
        }
        proof {
            assert forall|a: int, b: int| 0 <= a < b < i + 1 implies lv[a].1[0] < lv[b].1[0] by {
                if b == i && a < i - 1 {
                    assert(lv[a].1[0] < lv[i - 1].1[0]);
                }
            }
        }
        i += 1;
    }
    true
}

/// The facts about a round that the checks after the move read, computed once.
struct RoundSides {
    conquest: bool,
    riot: bool,
    conquered: u16,
    attacker: u16,
    defender: u16,
    capital: u16,
    defeated: bool,
}

/// `sides` holds the facts of the round.
spec fn sides_of(sides: RoundSides, state: ReplayState, rec: RoundRecords, names: Seq<(u16, Seq<char>)>) -> bool {
    &&& sides.conquest == is_conquest(rec)
    &&& sides.riot == is_riot(rec)
    &&& sides.conquered == conquered_id(rec)
    &&& sides.attacker == attacker_of(rec, names)
    &&& sides.defender == defender_of(rec, names)
    &&& sides.capital == capital_before(state, rec, names)
    &&& sides.defeated == defeated(state, rec, names)
}

/// The capital that the capitals file should give `country`, which it gives as `cur`.
fn capital_expected(
    round: usize,
    state: &ReplayState,
    rec: &RoundRecords,
    names: &Vec<(u16, String)>,
    sides: &RoundSides,
    after: &HashMap<u16, u16>,
    country: u16,
    cur: u16,
) -> (r: (u16, bool))
    requires
        sides_of(*sides, *state, *rec, names_view(names@)),
        after@ == owners_after(*state, *rec, names_view(names@)),
    ensures
        r.0 == expected_capital(round, *state, *rec, names_view(names@), country, cur),
        r.1 == (owned_by(after@, country).len() == 0),
{
    let eliminated = count_owned_by(after, country) == 0;
    let expected = if eliminated {
        cur
    } else if country == sides.defender {
        if sides.riot {
            if sides.conquered == sides.capital { cur } else { sides.capital }
        } else if sides.defeated {
            cur
        } else if round >= 229 {
            match rec.conquest.capital_index_after {
                Some(ci) => ci as u16,
                None => cur,
            }
        } else if sides.conquered == sides.capital {
            cur
        } else {
            sides.capital
        }
    } else if country == sides.attacker && sides.conquered == sides.attacker {
        sides.attacker
    } else {
        let prev = match state.capital_overrides.get(&country) {
            Some(p) => *p,
            None => country,
        };
        let held = match state.country_data.get(&prev) {
            Some(o) => *o == country,
            None => false,
        };
        if !held { cur } else { prev }
    };
    (expected, eliminated)
}

/// Appends the checks of the current capitals in the capitals file.
fn check_current_capitals(
    round: usize,
    state: &ReplayState,
    rec: &RoundRecords,
    names: &Vec<(u16, String)>,
    sides: &RoundSides,
    after: &HashMap<u16, u16>,
    issues: &mut Vec<RoundIssue>,
)
    requires
        sides_of(*sides, *state, *rec, names_view(names@)),
        after@ == owners_after(*state, *rec, names_view(names@)),
        forall|i: int| 0 <= i < rec.capitals.current_capital_by_admin@.len()
            ==> (#[trigger] id_of_name(names_view(names@), rec.capitals.current_capital_by_admin@[i].0@)) is Some,
    ensures
        final(issues)@ == old(issues)@ + current_capital_issues(
            rec.capitals.current_capital_by_admin@, round, *state, *rec, names_view(names@)),
{
    let ghost nv = names_view(names@);
    let entries = &rec.capitals.current_capital_by_admin;
    let ghost start = issues@;
    proof {
        assert(entries@.take(0) =~= Seq::<(String, u16)>::empty());
        assert(start + current_capital_issues(entries@.take(0), round, *state, *rec, nv) =~= start);
    }
    let mut i: usize = 0;
    while i < entries.len()
        invariant
            i <= entries.len(),
            nv == names_view(names@),
            entries == &rec.capitals.current_capital_by_admin,
            sides_of(*sides, *state, *rec, nv),
            after@ == owners_after(*state, *rec, nv),
            forall|i: int| 0 <= i < entries@.len() ==> (#[trigger] id_of_name(nv, entries@[i].0@)) is Some,
            issues@ == start + current_capital_issues(entries@.take(i as int), round, *state, *rec, nv),
        decreases entries.len() - i,
    {
        proof {
            let t = entries@.take(i + 1);
            assert(t.drop_last() =~= entries@.take(i as int));
            assert(t.last() == entries@[i as int]);
        }
        let country = lookup_id(names, &entries[i].0).unwrap();
        let cur = entries[i].1;
        let (expected, eliminated) = capital_expected(round, state, rec, names, sides, after, country, cur);
        if cur != expected {
            issues.push(RoundIssue::CurrentCapital { index: i, expected });
        }
        if !eliminated && !(country == sides.defender && rec.conquest.capitulation) {
            let held = match after.get(&cur) {
                Some(o) => *o == country,
                None => false,
            };
            if !held {
                issues.push(RoundIssue::CapitalUnowned(i));
            }
        }
        proof {
            let t = entries@.take(i + 1);
            assert(issues@ =~= start + current_capital_issues(t, round, *state, *rec, nv));
        }
        i += 1;
    }
    assert(entries@.take(entries@.len() as int) =~= entries@);
}

/// Appends the checks of the capital after a conquest.
fn check_capital_after(
    state: &ReplayState,
    rec: &RoundRecords,
    names: &Vec<(u16, String)>,
    sides: &RoundSides,
    after: &HashMap<u16, u16>,
    new_overrides: &HashMap<u16, u16>,
    issues: &mut Vec<RoundIssue>,
)
    requires
        sides_of(*sides, *state, *rec, names_view(names@)),
        after@ == owners_after(*state, *rec, names_view(names@)),
        new_overrides@ == overrides_of(rec.capitals.current_capital_by_admin@, names_view(names@)),
    ensures
        final(issues)@ == old(issues)@ + capital_after_issues(*state, *rec, names_view(names@)),
{
    let ghost nv = names_view(names@);
    let ghost i0 = issues@;
    let c = &rec.conquest;
    let defender = sides.defender;
    let fallen = c.fallen_capital_remnant;
    match c.capital_index_after {
        None => {
            issues.push(RoundIssue::MissingCapitalIndexAfter);
            assert(issues@ =~= i0 + capital_after_issues(*state, *rec, nv));
        },
        Some(ci) => {
            let cap = ci as u16;
            if sides.defeated {
                if cap != defender {
                    issues.push(RoundIssue::EliminatedCapitalIndex { expected: defender, found: cap });
                }
                if c.defender_capital_territory_after.is_some() {
                    issues.push(RoundIssue::EliminatedCapitalName);
                }
                assert(issues@ =~= i0 + capital_after_issues(*state, *rec, nv));
            } else {
                let expected = match new_overrides.get(&defender) {
                    Some(x) => *x,
                    None => defender,
                };
                if cap != expected {
                    issues.push(RoundIssue::CapitalIndexAfter { found: cap, expected, defender });
                }
                match &c.defender_capital_territory_after {
                    None => {
                        if fallen {
                            issues.push(RoundIssue::CapitalNameMissing);
                        }
                    },
                    Some(n) => {
                        if !fallen {
                            issues.push(RoundIssue::CapitalNameUnexpected);
                        }
                        match lookup_name(names, cap) {
                            Some(e) => {
                                if !str_eq(n.as_str(), e.as_str()) {
                                    issues.push(RoundIssue::CapitalNameMismatch(cap));
                                }
                            },
                            None => {
                                issues.push(RoundIssue::CapitalNameUnknown(cap));
                            },
                        }
                    },
                }
                if fallen {
                    let held = match after.get(&cap) {
                        Some(o) => *o == defender,
                        None => false,
                    };
                    if !held {
                        issues.push(RoundIssue::NewCapitalUnowned { capital: cap, defender });
                    }
                }
                assert(issues@ =~= i0 + capital_after_issues(*state, *rec, nv));
            }
        },
    }
}

/// Appends the checks of the capital-tracking fields.
fn check_capital_tracking(
    state: &ReplayState,
    rec: &RoundRecords,
    names: &Vec<(u16, String)>,
    sides: &RoundSides,
    issues: &mut Vec<RoundIssue>,
)
    requires
        sides_of(*sides, *state, *rec, names_view(names@)),
    ensures
        final(issues)@ == old(issues)@ + capital_tracking_issues(*state, *rec, names_view(names@)),
{
    let ghost i0 = issues@;
    let c = &rec.conquest;
    let defender = sides.defender;
    match c.capital_index_before {
        Some(b) => {
            if b as u16 != sides.capital {
                issues.push(RoundIssue::CapitalIndexBefore { expected: sides.capital, defender });
            }
        },
        None => {},
    }
    match c.original_capital_index {
        Some(o) => {
            if o as u16 != defender {
                issues.push(RoundIssue::OriginalCapitalIndex(defender));
            }
        },
        None => {},
    }
    match c.capital_moved {
        Some(m) => {
            if m != c.fallen_capital_remnant {
                issues.push(RoundIssue::CapitalMoved);
            }
        },
        None => {},
    }
    assert(issues@ =~= i0 + capital_tracking_issues(*state, *rec, names_view(names@)));
}

/// Appends the checks of the capital fields of a conquest from round 229 on.
fn check_capital_index(
    round: usize,
    state: &ReplayState,
    rec: &RoundRecords,
    names: &Vec<(u16, String)>,
    sides: &RoundSides,
    after: &HashMap<u16, u16>,
    new_overrides: &HashMap<u16, u16>,
    issues: &mut Vec<RoundIssue>,
)
    requires
        sides_of(*sides, *state, *rec, names_view(names@)),
        after@ == owners_after(*state, *rec, names_view(names@)),
        new_overrides@ == overrides_of(rec.capitals.current_capital_by_admin@, names_view(names@)),
    ensures
        final(issues)@ == old(issues)@ + capital_index_issues(round, *state, *rec, names_view(names@)),
{
    let ghost nv = names_view(names@);
    let ghost i0 = issues@;
    if !(round >= 229 && sides.conquest) {
        assert(issues@ =~= i0 + capital_index_issues(round, *state, *rec, nv));
        return;
    }
    check_capital_after(state, rec, names, sides, after, new_overrides, issues);
    if round >= 230 {
        check_capital_tracking(state, rec, names, sides, issues);
    }
    assert(issues@ =~= i0 + capital_index_issues(round, *state, *rec, nv));
}

/// "<Month> <year>, " for month index `t`.
fn date_prefix_text(t: i64) -> (s: String)
    ensures
        s@ == date_prefix(t as int),
{
    let year = t / 12;
    let rem = t % 12;
    let mut s = String::new();
    if rem >= 0 {
        s.append(num_to_month((rem + 1) as u32));
    }
    s.append(" ");
    push_signed_decimal(&mut s, year);
    s.append(", ");
    proof {
        assert(year == div_toward_zero(t as int, 12));
        assert(rem == rem_toward_zero(t as int, 12));
    }
    assert(s@ =~= date_prefix(t as int));
    s
}

/// How a conquest ended for the defender, as the caption tells it.
fn outcome_string(
    defeated: bool,
    capitulation: bool,
    fallen: bool,
    relocated: bool,
    remaining: usize,
    ceded: usize,
    attacker: &str,
    defender: &str,
    new_capital: &str,
) -> (s: String)
    ensures
        s@ == outcome_text(defeated, capitulation, fallen, relocated, remaining as nat, ceded as nat,
            attacker@, defender@, new_capital@),
{
    let mut s = String::new();
    if defeated {
        s.append(".\n");
        s.append(defender);
        s.append(" has been completely defeated.\n");
        push_decimal(&mut s, remaining as u64);
        s.append(" countries remaining.");
    } else if capitulation {
        s.append(".\n");
        s.append(defender);
        s.append(" capitulated, ceding ");
        push_decimal(&mut s, ceded as u64);
        s.append(" additional territor");
        s.append(if ceded == 1 { "y" } else { "ies" });
        s.append(" to ");
        s.append(attacker);
        s.append(".");
    } else if fallen {
        s.append(".\nThe government of ");
        s.append(defender);
        if relocated {
            s.append(" relocated its capital to ");
            s.append(new_capital);
            s.append(" and continues in exile.");
        } else {
            s.append(" continues in exile, based in its remaining territories.");
        }
    } else {
        s.append(".");
    }
    assert(s@ =~= outcome_text(defeated, capitulation, fallen, relocated, remaining as nat, ceded as nat,
        attacker@, defender@, new_capital@));
    s
}

/// The caption the post of `round` should have.
fn build_caption(
    round: usize,
    state: &ReplayState,
    rec: &RoundRecords,
    names: &Vec<(u16, String)>,
    sides: &RoundSides,
    owner: u16,
    remaining: usize,
) -> (s: String)
    requires
        sides_of(*sides, *state, *rec, names_view(names@)),
        state.country_data@.contains_key(sides.conquered),
        owner == state.country_data@[sides.conquered],
        remaining == owner_set(owners_after(*state, *rec, names_view(names@))).len(),
        round <= i64::MAX,
        month_index(round, state.initial_month, state.initial_year) <= i64::MAX,
    ensures
        s@ == expected_caption(round, *state, *rec, names_view(names@)),
{
    let ghost nv = names_view(names@);
    let post = &rec.post;
    let c = &rec.conquest;
    let reconquest = sides.conquest && sides.conquered == sides.attacker;
    let occupied = !reconquest && owner != sides.conquered;
    let ceded: usize = match &c.capitulation_event {
        Some(e) => e.territories_ceded,
        None => 0,
    };
    let new_capital: &str = match &c.defender_capital_territory_after {
        Some(n) => n.as_str(),
        None => "",
    };
    let mut details = String::new();
    if occupied {
        details.append(" previously occupied by ");
        details.append(post.defender.as_str());
    }
    let outcome = outcome_string(
        sides.defeated,
        c.capitulation,
        c.fallen_capital_remnant,
        round >= 229,
        remaining,
        ceded,
        post.attacker.as_str(),
        post.defender.as_str(),
        new_capital,
    );
    details.append(outcome.as_str());
    let mut event = String::new();
    if sides.conquest {
        event.append(post.attacker.as_str());
        if reconquest {
            event.append(" reconquered its homeland from ");
            event.append(post.defender.as_str());
        } else {
            event.append(" conquered ");
            event.append(post.territory.as_str());
            event.append(" territory");
        }
        event.append(details.as_str());
    } else {
        event.append(post.territory.as_str());
        event.append(" rose against ");
        event.append(post.attacker.as_str());
        event.append(" and ");
        event.append(if round < 85 { "gained independence." } else { "reunited its homeland." });
    }
    let total: i64 = (state.initial_year as i64) * 12 + (state.initial_month as i64 - 1) + round as i64;
    let mut s = date_prefix_text(total);
    s.append(event.as_str());
    if round < 167 {
        s.append("\nCheck the full map at https://worldwarbot.com");
    }
    proof {
        reveal_strlit("");
        assert(total == month_index(round, state.initial_month, state.initial_year));
        assert(ceded == ceded_count(*rec));
        assert(new_capital@ == new_capital_name(*rec));
    }
    assert(s@ =~= expected_caption(round, *state, *rec, nv));
    s
}

/// `n` in decimal, padded with zeros to six digits, followed by ".png".
fn png_file_name(n: usize) -> (s: String)
    ensures
        s@ == png_name(n as nat),
{
    let d = crate::text::decimal_string(n as u64);
    let len = d.as_str().unicode_len();
    let mut s = String::new();
    let mut k = len;
    while k < 6
        invariant
            len == decimal(n as nat).len(),
            len <= k,
            k <= 6 || k == len,
            s@ == Seq::new((k - len) as nat, |i: int| '0'),
        decreases 6 - k,
    {
        s.append("0");
        proof {
            reveal_strlit("0");
        }
        assert(s@ =~= Seq::new((k + 1 - len) as nat, |i: int| '0'));
        k += 1;
    }
    s.append(d.as_str());
    s.append(".png");
    assert(s@ =~= png_name(n as nat));
    s
}

/// "Round <round>: " followed by the kept lines of the caption joined by spaces.
fn summary_line(round: usize, caption: &String) -> (s: String)
    ensures
        s@ == summary_text(round, caption@),
{
    let mut ls = split_lines(caption.as_str());
    let n = ls.len();
    if n > 0 && contains_text(ls[n - 1].as_str(), "worldwarbot.com") {
        let ghost before = ls@;
        ls.pop();
        assert(texts(ls@) =~= texts(before).drop_last());
    }
    assert(texts(ls@) == kept_lines(caption@));
    let body = join_texts(&ls, " ");
    let mut s = String::new();
    s.append("Round ");
    push_decimal(&mut s, round as u64);
    s.append(": ");
    s.append(body.as_str());
    assert(s@ =~= summary_text(round, caption@));
    s
}

/// Appends the checks of the caption, the headers and the country list; returns the
/// caption the post should have.
fn check_records(
    round: usize,
    state: &ReplayState,
    rec: &RoundRecords,
    names: &Vec<(u16, String)>,
    sides: &RoundSides,
    owner: u16,
    after: &HashMap<u16, u16>,
    issues: &mut Vec<RoundIssue>,
) -> (caption: String)
    requires
        sides_of(*sides, *state, *rec, names_view(names@)),
        state.country_data@.contains_key(sides.conquered),
        owner == state.country_data@[sides.conquered],
        after@ == owners_after(*state, *rec, names_view(names@)),
        round <= i64::MAX,
        month_index(round, state.initial_month, state.initial_year) <= i64::MAX,
    ensures
        caption@ == expected_caption(round, *state, *rec, names_view(names@)),
        final(issues)@ == old(issues)@ + record_issues(round, *state, *rec, names_view(names@)),
{
    let ghost i0 = issues@;
    let remaining = count_owners(after);
    let caption = build_caption(round, state, rec, names, sides, owner, remaining);
    if !str_eq(rec.post.caption.as_str(), caption.as_str()) {
        issues.push(RoundIssue::Caption);
    }
    let png = png_file_name(round);
    if !str_eq(rec.post.pic.as_str(), png.as_str()) || !str_eq(rec.post.zoom.as_str(), png.as_str())
        || !rec.post.alliances_empty {
        issues.push(RoundIssue::PostFiles);
    }
    if rec.save.iteration != round || rec.save.conquests.0 != round || !rec.save.alliances_empty {
        issues.push(RoundIssue::SaveHeader);
    }
    if !check_listing(&rec.save.countries, after, names) {
        issues.push(RoundIssue::SaveCountries);
    }
    assert(issues@ =~= i0 + record_issues(round, *state, *rec, names_view(names@)));
    caption
}

/// Replays `round` on the tracked `state`: checks the round's records against the rules
/// and the state, and applies the round's conquest or riot. The result holds the new
/// state, every mismatch found in the order of the checks, the caption the post
/// should have, and the round's summary line for the log.
pub fn replay_round(
    round: usize,
    state: &ReplayState,
    rec: &RoundRecords,
    names: &Vec<(u16, String)>,
    targets_data: &HashMap<u16, Vec<u16>>,
) -> (out: RoundReplay)
    requires
        replay_defined(round, *state, *rec, names_view(names@), targets_data@),
    ensures
        out.state.epoch == round,
        out.state.initial_month == state.initial_month,
        out.state.initial_year == state.initial_year,
        out.state.country_data@ == owners_after(*state, *rec, names_view(names@)),
        out.state.capital_overrides@ == overrides_of(rec.capitals.current_capital_by_admin@, names_view(names@)),
        exists|cession: Result<(), CapitulationError>|
            (is_conquest(*rec) && rec.conquest.capitulation ==> capitulation_outcome(
                targets_data@,
                state.country_data@,
                rec.conquest.defender as u16,
                subject_ids(rec.conquest.subjects@),
                cession,
            )) && out.issues@ == #[trigger] round_issues(round, *state, *rec, names_view(names@), targets_data@, cession),
        out.caption@ == expected_caption(round, *state, *rec, names_view(names@)),
        out.summary@ == summary_text(round, rec.post.caption@),
{
    let ghost nv = names_view(names@);
    let ghost g = targets_data@;
    let conquest = str_eq(rec.post.action_type.as_str(), "conquest");
    let riot = str_eq(rec.post.action_type.as_str(), "riot");
    let territory: usize = match &rec.save.conquests.1 {
        ConquestData::Conquer(_, d, _) => *d,
        ConquestData::Riot(t, _) => *t,
    };
    let conquered = territory as u16;
    let gaining = if conquest { &rec.post.attacker } else { &rec.post.territory };
    let losing = if conquest { &rec.post.defender } else { &rec.post.attacker };
    let attacker = lookup_id(names, gaining).unwrap();
    let defender = lookup_id(names, losing).unwrap();
    let capital = match state.capital_overrides.get(&defender) {
        Some(c) => *c,
        None => defender,
    };
    let owner = *state.country_data.get(&conquered).unwrap();
    let defender_count = count_owned_by(&state.country_data, defender);
    let defeated_now = defender_count == 0 || rec.conquest.subjects.len() >= defender_count - 1;
    let sides = RoundSides { conquest, riot, conquered, attacker, defender, capital, defeated: defeated_now };
    assert(sides_of(sides, *state, *rec, nv));

    let mut issues: Vec<RoundIssue> = Vec::new();
    check_capitals_file(round, rec, names, &mut issues);
    check_shape(rec, &mut issues);
    check_parties(state, rec, names, conquest, conquered, defender, owner, capital, defeated_now, &mut issues);
    let cession = check_conquest(state, rec, names, targets_data, conquest, attacker, conquered, &mut issues);

    let mut after = state.country_data.clone();
    after.insert(conquered, attacker);
    if conquest {
        let ids = subject_id_list(&rec.conquest.subjects);
        assign_subjects(&mut after, &ids, attacker);
    }
    assert(after@ == owners_after(*state, *rec, nv));
    check_current_capitals(round, state, rec, names, &sides, &after, &mut issues);
    let new_overrides = overrides_from_file(&rec.capitals.current_capital_by_admin, names);
    check_capital_index(round, state, rec, names, &sides, &after, &new_overrides, &mut issues);

    let caption = check_records(round, state, rec, names, &sides, owner, &after, &mut issues);
    proof {
        assert(issues@ =~= round_issues(round, *state, *rec, nv, g, cession@));
    }
    let summary = summary_line(round, &rec.post.caption);
    RoundReplay {
        state: ReplayState {
            epoch: round,
            initial_month: state.initial_month,
            initial_year: state.initial_year,
            country_data: after,
            capital_overrides: new_overrides,
        },
        issues,
        caption,
        summary,
    }
}

/// Whether `replay_round` can replay `round` on these inputs: the inputs for which
/// the replay is defined.
pub fn replay_ready(
    round: usize,
    state: &ReplayState,
    rec: &RoundRecords,
    names: &Vec<(u16, String)>,
    targets_data: &HashMap<u16, Vec<u16>>,
) -> (ok: bool)
    ensures
        ok == replay_defined(round, *state, *rec, names_view(names@), targets_data@),
{
    let ghost nv = names_view(names@);
    if round as u64 > 9223372036854775807u64 {
        return false;
    }
    let total: i128 = (state.initial_year as i128) * 12 + (state.initial_month as i128 - 1) + round as i128;
    if total > 9223372036854775807i128 {
        return false;
    }
    let conquest = str_eq(rec.post.action_type.as_str(), "conquest");
    let gaining = if conquest { &rec.post.attacker } else { &rec.post.territory };
    let losing = if conquest { &rec.post.defender } else { &rec.post.attacker };
    let attacker = match lookup_id(names, gaining) {
        Some(a) => a,
        None => {
            return false;
        },
    };
    let defender = match lookup_id(names, losing) {
        Some(d) => d,
        None => {
            return false;
        },
    };
    let territory: usize = match &rec.save.conquests.1 {
        ConquestData::Conquer(_, d, _) => *d,
        ConquestData::Riot(t, _) => *t,
    };
    let conquered = territory as u16;
    if !state.country_data.contains_key(&conquered) {
        return false;
    }
    let defender_count = count_owned_by(&state.country_data, defender);
    let defeated_now = defender_count == 0 || rec.conquest.subjects.len() >= defender_count - 1;
    if rec.conquest.capitulation && (conquest || !defeated_now) && rec.conquest.capitulation_event.is_none() {
        return false;
    }
    if conquest {
        if !state.country_data.contains_key(&(rec.conquest.attacker as u16)) {
            return false;
        }
        if !crate::graph::region_closed(targets_data, &state.country_data, rec.conquest.attacker as u16) {
            return false;
        }
        if rec.conquest.capitulation && (!state.country_data.contains_key(&(rec.conquest.defender as u16))
            || !crate::graph::region_closed(targets_data, targets_data, rec.conquest.defender as u16)) {
            return false;
        }
    }
    let entries = &rec.capitals.current_capital_by_admin;
    let mut i: usize = 0;
    while i < entries.len()
        invariant
            i <= entries.len(),
            nv == names_view(names@),
            entries@ == rec.capitals.current_capital_by_admin@,
            forall|j: int| 0 <= j < i ==> (#[trigger] id_of_name(nv, entries@[j].0@)) is Some,
        decreases entries.len() - i,
    {
        if lookup_id(names, &entries[i].0).is_none() {
            assert(id_of_name(nv, rec.capitals.current_capital_by_admin@[i as int].0@) is None);
            return false;
        }
        i += 1;
    }
    let mut after = state.country_data.clone();
    after.insert(conquered, attacker);
    if conquest {
        let ids = subject_id_list(&rec.conquest.subjects);
        assign_subjects(&mut after, &ids, attacker);
    }
    assert(after@ == owners_after(*state, *rec, nv));
    let keys = collect_keys(&after);
    let mut k: usize = 0;
    while k < keys.len()
        invariant
            k <= keys.len(),
            nv == names_view(names@),
            keys@.to_set() == after@.dom(),
            after@ == owners_after(*state, *rec, nv),
            forall|j: int| 0 <= j < k ==> (#[trigger] name_of_id(nv, after@[keys@[j]])) is Some,
        decreases keys.len() - k,
    {
        assert(keys@.to_set().contains(keys@[k as int]));
        let o = *after.get(&keys[k]).unwrap();
        if lookup_name(names, o).is_none() {
            assert(owners_after(*state, *rec, nv).contains_key(keys@[k as int]));
            return false;
        }
        k += 1;
    }
    proof {
        assert forall|t: u16| #[trigger] owners_after(*state, *rec, nv).contains_key(t)
            implies name_of_id(nv, owners_after(*state, *rec, nv)[t]) is Some by {
            assert(keys@.to_set().contains(t));
            let j = choose|j: int| 0 <= j < keys@.len() && keys@[j] == t;
            assert(name_of_id(nv, after@[keys@[j]]) is Some);
        }
        assert(total == month_index(round, state.initial_month, state.initial_year));
    }
    true
}

} // verus!
