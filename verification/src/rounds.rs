//! The records that the real game publishes for each round (save file, post with its
//! conquest section, capitals file), and lookups between country names and ids.

use vstd::prelude::*;
use crate::text::parsed_u16;

verus! {

broadcast use vstd::std_specs::hash::group_hash_axioms;

/// The conquest recorded in a save file.
pub enum ConquestData {
    /// Attacking territory, conquered territory, and the territories taken with it.
    Conquer(usize, usize, Vec<usize>),
    /// The rioting territory, twice.
    Riot(usize, usize),
}

/// The save file of a round.
pub struct SaveFile {
    pub iteration: usize,
    /// Round number and conquest of the round.
    pub conquests: (usize, ConquestData),
    /// Each country's name with the ids of its territories.
    pub countries: Vec<(String, Vec<u16>)>,
    /// The save file lists no alliances.
    pub alliances_empty: bool,
}

/// The post of a round.
pub struct PostFile {
    pub attacker: String,
    pub defender: String,
    pub territory: String,
    pub action_type: String,
    /// The post lists no alliances.
    pub alliances_empty: bool,
    pub pic: String,
    pub zoom: String,
    pub caption: String,
}

/// The capitals file of a round.
pub struct CapitalsFile {
    pub iteration: usize,
    /// (country name, original capital id) entries.
    pub original_capital_by_admin: Vec<(String, u16)>,
    /// (country name, current capital id) entries.
    pub current_capital_by_admin: Vec<(String, u16)>,
}

/// Details of a capitulation recorded in a post.
pub struct CapitulationEvent {
    pub round: usize,
    pub attacker_territories_before: usize,
    pub defender_territories_before: usize,
    pub territories_ceded: usize,
}

/// A JSON value listing a ceded territory: a non-negative integer, a text, or
/// anything else.
pub enum SubjectValue {
    Number(u64),
    Text(String),
    Other,
}

/// The conquest section of a post, common to all schema versions.
pub struct ConquestInfo {
    pub attacker: usize,
    pub defender: usize,
    pub action_type: String,
    pub subjects: Vec<SubjectValue>,
    pub capitulation: bool,
    pub capitulation_event: Option<CapitulationEvent>,
    pub fallen_capital_remnant: bool,
    pub defender_admin_before: String,
    pub capital_index_after: Option<usize>,
    pub defender_capital_territory_after: Option<String>,
    pub capital_index_before: Option<usize>,
    pub original_capital_index: Option<usize>,
    pub capital_moved: Option<bool>,
    /// The defender's territory rank before the conquest, which the records always
    /// leave empty (from round 230 on).
    pub defender_territory_rank_before: Option<usize>,
}

/// The records of one round: its save file, its post, its capitals file and the
/// post's conquest section.
pub struct RoundRecords {
    pub save: SaveFile,
    pub post: PostFile,
    pub capitals: CapitalsFile,
    pub conquest: ConquestInfo,
}

/// Version of the post's conquest section.
#[derive(Clone, Copy, Debug, PartialEq, Eq, Structural)]
pub enum ConquestSchema {
    /// Rounds before 229.
    Initial,
    /// Round 229: adds the capital after the conquest.
    CapitalRelocation,
    /// Rounds from 230: renames the fallen-capital flag and adds capital tracking.
    CapitalTracking,
}

/// The schema of the conquest section in the post of `round`.
pub fn conquest_schema(round: usize) -> (s: ConquestSchema)
    ensures
        s == (if round < 229 {
            ConquestSchema::Initial
        } else if round == 229 {
            ConquestSchema::CapitalRelocation
        } else {
            ConquestSchema::CapitalTracking
        }),
{
    if round < 229 {
        ConquestSchema::Initial
    } else if round == 229 {
        ConquestSchema::CapitalRelocation
    } else {
        ConquestSchema::CapitalTracking
    }
}

/// The territory id that a listed subject stands for: a number is truncated to 16
/// bits, a text is read as a decimal number, and anything unreadable stands for 0.
pub open spec fn subject_id_of(v: SubjectValue) -> u16 {
    match v {
        SubjectValue::Number(n) => n as u16,
        SubjectValue::Text(s) => match parsed_u16(s@) {
            Some(id) => id,
            None => 0,
        },
        SubjectValue::Other => 0,
    }
}

/// The territory id that a listed subject stands for.
pub fn subject_id(v: &SubjectValue) -> (id: u16)
    ensures
        id == subject_id_of(*v),
{
    match v {
        SubjectValue::Number(n) => *n as u16,
        SubjectValue::Text(s) => match crate::text::parse_u16(s.as_str()) {
            Some(id) => id,
            None => 0,
        },
        SubjectValue::Other => 0,
    }
}

/// The territory ids of the listed subjects, in order.
pub open spec fn subject_ids(subjects: Seq<SubjectValue>) -> Seq<u16> {
    subjects.map_values(|v: SubjectValue| subject_id_of(v))
}

pub(crate) fn subject_id_list(subjects: &Vec<SubjectValue>) -> (ids: Vec<u16>)
    ensures
        ids@ == subject_ids(subjects@),
{
    let mut ids: Vec<u16> = Vec::new();
    let mut i: usize = 0;
    while i < subjects.len()
        invariant
            i <= subjects.len(),
            ids@ == subject_ids(subjects@.take(i as int)),
        decreases subjects.len() - i,
    {
        let id = subject_id(&subjects[i]);
        ids.push(id);
        i += 1;
        assert(ids@ =~= subject_ids(subjects@.take(i as int)));
    }
    assert(subjects@.take(subjects@.len() as int) =~= subjects@);
    ids
}

/// The country list as (id, name text) pairs.
pub open spec fn names_view(names: Seq<(u16, String)>) -> Seq<(u16, Seq<char>)> {
    names.map_values(|p: (u16, String)| (p.0, p.1@))
}

/// The id of the first country called `name`.
pub open spec fn id_of_name(names: Seq<(u16, Seq<char>)>, name: Seq<char>) -> Option<u16>
    decreases names.len(),
{
    if names.len() == 0 {
        None
    } else if names[0].1 == name {
        Some(names[0].0)
    } else {
        id_of_name(names.drop_first(), name)
    }
}

/// The name of the first country with id `id`.
pub open spec fn name_of_id(names: Seq<(u16, Seq<char>)>, id: u16) -> Option<Seq<char>>
    decreases names.len(),
{
    if names.len() == 0 {
        None
    } else if names[0].0 == id {
        Some(names[0].1)
    } else {
        name_of_id(names.drop_first(), id)
    }
}

/// The id of the country called `name`.
pub fn lookup_id(names: &Vec<(u16, String)>, name: &String) -> (r: Option<u16>)
    ensures
        r == id_of_name(names_view(names@), name@),
{
    let mut i: usize = 0;
    assert(names_view(names@).skip(0) =~= names_view(names@));
    while i < names.len()
        invariant
            i <= names.len(),
            id_of_name(names_view(names@), name@) == id_of_name(names_view(names@).skip(i as int), name@),
        decreases names.len() - i,
    {
        assert(names_view(names@).skip(i as int)[0] == (names@[i as int].0, names@[i as int].1@));
        assert(names_view(names@).skip(i as int).drop_first() =~= names_view(names@).skip(i + 1));
        if names[i].1 == *name {
            return Some(names[i].0);
        }
        i += 1;
    }
    None
}

/// The name of the country with id `id`.
pub fn lookup_name(names: &Vec<(u16, String)>, id: u16) -> (r: Option<String>)
    ensures
        match r {
            Some(n) => name_of_id(names_view(names@), id) == Some(n@),
            None => name_of_id(names_view(names@), id) is None,
        },
{
    let mut i: usize = 0;
    assert(names_view(names@).skip(0) =~= names_view(names@));
    while i < names.len()
        invariant
            i <= names.len(),
            name_of_id(names_view(names@), id) == name_of_id(names_view(names@).skip(i as int), id),
        decreases names.len() - i,
    {
        assert(names_view(names@).skip(i as int)[0] == (names@[i as int].0, names@[i as int].1@));
        assert(names_view(names@).skip(i as int).drop_first() =~= names_view(names@).skip(i + 1));
        if names[i].0 == id {
            return Some(names[i].1.clone());
        }
        i += 1;
    }
    None
}

} // verus!
