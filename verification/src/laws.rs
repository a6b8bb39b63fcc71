//! Properties of the game that span several operations.

use vstd::prelude::*;
use crate::calendar::{days_hours_parts, duration_parts, month_name, month_number};
use crate::game::{capitulation_valid, cedable, cession_limit, conquest_outcome, kept_territories, valid_cession};
use crate::graph::{at_distance, lemma_within_mono, reachable, within};
use crate::state::{consistent_state, lemma_owned_finite, lemma_owned_nonempty, owned_by, reassigned};
use crate::replay::{
    assign_all, attacker_of, can_attack, capital_after_issues, capital_before, capital_index_issues, capital_of,
    capital_tracking_issues, capitals_file_issues, conquered_id, conquest_issues, current_capital_issues, date_prefix,
    defeated, defender_of, expected_caption, expected_fallen, is_conquest, owners_after, overrides_of, party_issues,
    record_issues, round_issues, shape_issues, ReplayState, RoundIssue, ceded_count, outcome_text, new_capital_name,
    owner_set,
};
use crate::game::{fresh_candidate, riot_by_draws, CapitulationError};
use crate::calendar::{date_text, div_toward_zero, month_index, rem_toward_zero};
use crate::rounds::{id_of_name, name_of_id};
use crate::rounds::{subject_ids, RoundRecords};
use crate::country::{country_rows, lemma_first_index_is, parse_row, row_fields, rows_of};
use crate::reset::{added_rows, caption_start, is_row_order, keyed_rows, renumbered, row_precedes, rows_text};
use crate::text::{parsed_i32, text_lt, trim_commas};
use crate::text::{all_digits, decimal, digit_char, digits_value, is_ws, parsed_u16, split, trim, trim_end, trim_start};

verus! {

/// A capitulation that a simulated conquest makes (nearest territories first, at
/// most half of the defender's remaining territories) passes the check applied to
/// the real game's capitulations, provided every territory of the defender can be
/// reached from the lost capital.
pub proof fn law_simulated_cession_is_valid(
    g: Map<u16, Vec<u16>>,
    owners: Map<u16, u16>,
    new: Map<u16, u16>,
    attacker: u16,
    capital: u16,
    picks: Seq<u16>,
)
    requires
        conquest_outcome(g, owners, new, attacker, capital, picks.to_set()),
        picks.len() > 0,
        picks.no_duplicates(),
        forall|t: u16| #[trigger] cedable(owners, capital).contains(t) ==> reachable(g, capital, t),
    ensures
        capitulation_valid(g, owners, capital, picks),
{
    assert(picks.to_set().contains(picks[0]));
    let quota = choose|q: nat| 1 <= q <= cession_limit(owners, capital) && #[trigger] valid_cession(g, owners, capital, picks.to_set(), q);
    picks.unique_seq_to_set();
    let k = choose|k: nat| #![trigger within(g, capital, k)]
        k >= 1
        && cedable(owners, capital).intersect(within(g, capital, (k - 1) as nat)).subset_of(picks.to_set())
        && picks.to_set().subset_of(within(g, capital, k));
    assert forall|p: u16| #[trigger] picks.contains(p) implies reachable(g, capital, p) by {
        assert(picks.to_set().contains(p));
        assert(within(g, capital, k).contains(p));
    }
    assert forall|t: u16| #[trigger] kept_territories(owners, capital, picks).contains(t)
        implies reachable(g, capital, t) by {
        assert(cedable(owners, capital).contains(t));
    }
    assert forall|p: u16, t: u16, dp: nat, dt: nat|
        picks.contains(p) && kept_territories(owners, capital, picks).contains(t)
        && #[trigger] at_distance(g, capital, p, dp) && #[trigger] at_distance(g, capital, t, dt)
        implies dp <= dt by {
        assert(picks.to_set().contains(p));
        assert(within(g, capital, k).contains(p));
        assert(!picks.to_set().contains(t));
        assert(cedable(owners, capital).contains(t));
        if dt <= k - 1 {
            lemma_within_mono(g, capital, dt, (k - 1) as nat);
            assert(cedable(owners, capital).intersect(within(g, capital, (k - 1) as nat)).contains(t));
        }
        if dp > k {
            lemma_within_mono(g, capital, k, (dp - 1) as nat);
        }
    }
}

/// When a single country is left in the game, it owns every territory.
pub proof fn law_last_country_owns_everything(
    owners: Map<u16, u16>,
    owns: Map<u16, u16>,
    remaining: Set<u16>,
    winner: u16,
)
    requires
        consistent_state(owners, owns, remaining),
        remaining == Set::<u16>::empty().insert(winner),
    ensures
        forall|t: u16| #[trigger] owners.contains_key(t) ==> owners[t] == winner,
{
    assert forall|t: u16| #[trigger] owners.contains_key(t) implies owners[t] == winner by {
        lemma_owned_nonempty(owners, owners[t], t);
        assert(remaining.contains(owners[t]));
    }
}

/// Month names and numbers convert back and forth: the number of the name of month
/// `m` is `m`.
pub proof fn law_month_name_then_number(m: u32)
    requires
        1 <= m <= 12,
    ensures
        month_number(month_name(m)) == Some(m),
{
    if m != 1 { lemma_month_names_distinct(1, m); }
    if m != 2 { lemma_month_names_distinct(2, m); }
    if m != 3 { lemma_month_names_distinct(3, m); }
    if m != 4 { lemma_month_names_distinct(4, m); }
    if m != 5 { lemma_month_names_distinct(5, m); }
    if m != 6 { lemma_month_names_distinct(6, m); }
    if m != 7 { lemma_month_names_distinct(7, m); }
    if m != 8 { lemma_month_names_distinct(8, m); }
    if m != 9 { lemma_month_names_distinct(9, m); }
    if m != 10 { lemma_month_names_distinct(10, m); }
    if m != 11 { lemma_month_names_distinct(11, m); }
    if m != 12 { lemma_month_names_distinct(12, m); }
}

proof fn lemma_month_names_distinct(a: u32, b: u32)
    requires
        1 <= a <= 12,
        1 <= b <= 12,
        a != b,
    ensures
        month_name(a) != month_name(b),
{
    reveal_strlit("January");
    reveal_strlit("February");
    reveal_strlit("March");
    reveal_strlit("April");
    reveal_strlit("May");
    reveal_strlit("June");
    reveal_strlit("July");
    reveal_strlit("August");
    reveal_strlit("September");
    reveal_strlit("October");
    reveal_strlit("November");
    reveal_strlit("December");
    let x = month_name(a);
    let y = month_name(b);
    if x.len() == y.len() && x[0] == y[0] {
        assert(x[2] != y[2]);
    }
}

/// A text that names a month is the name of that month.
pub proof fn law_month_number_then_name(s: Seq<char>)
    ensures
        month_number(s) matches Some(m) ==> month_name(m) == s && 1 <= m <= 12,
{
}

/// Handing the territories of `ids` to `owner` one after the other hands each of them
/// to `owner` and leaves every other territory as it was.
pub proof fn lemma_assign_all(m: Map<u16, u16>, ids: Seq<u16>, owner: u16)
    ensures
        forall|t: u16| #[trigger] assign_all(m, ids, owner).contains_key(t) <==> (m.contains_key(t) || ids.contains(t)),
        forall|t: u16| #[trigger] assign_all(m, ids, owner).contains_key(t)
            ==> assign_all(m, ids, owner)[t] == (if ids.contains(t) { owner } else { m[t] }),
    decreases ids.len(),
{
    if ids.len() > 0 {
        let prev = ids.drop_last();
        lemma_assign_all(m, prev, owner);
        assert(assign_all(m, ids, owner) == assign_all(m, prev, owner).insert(ids.last(), owner));
        assert forall|t: u16| #[trigger] ids.contains(t) <==> (prev.contains(t) || t == ids.last()) by {
            if ids.contains(t) && t != ids.last() {
                let i = choose|i: int| 0 <= i < ids.len() && ids[i] == t;
                assert(prev[i] == t);
            }
            if prev.contains(t) {
                let i = choose|i: int| 0 <= i < prev.len() && prev[i] == t;
                assert(ids[i] == t);
            }
            if t == ids.last() {
                assert(ids[ids.len() - 1] == t);
            }
        }
    } else {
        assert(assign_all(m, ids, owner) == m);
        assert forall|t: u16| !ids.contains(t) by {}
    }
}

/// Replaying a round hands the territory it names, and for a conquest every listed
/// subject, to the country that gains it, and leaves every other territory with its
/// owner: the same kind of transfer that a simulated conquest or riot makes.
#[verifier::spinoff_prover]
pub proof fn law_replayed_round_is_a_transfer(state: ReplayState, rec: RoundRecords, names: Seq<(u16, Seq<char>)>)
    requires
        state.country_data@.contains_key(conquered_id(rec)),
        is_conquest(rec) ==> forall|i: int| 0 <= i < subject_ids(rec.conquest.subjects@).len()
            ==> state.country_data@.contains_key(#[trigger] subject_ids(rec.conquest.subjects@)[i]),
    ensures
        reassigned(
            state.country_data@,
            owners_after(state, rec, names),
            if is_conquest(rec) {
                subject_ids(rec.conquest.subjects@).to_set().insert(conquered_id(rec))
            } else {
                Set::empty().insert(conquered_id(rec))
            },
            attacker_of(rec, names),
        ),
{
    let before = state.country_data@;
    let c = conquered_id(rec);
    let a = attacker_of(rec, names);
    let m = before.insert(c, a);
    let after = owners_after(state, rec, names);
    if is_conquest(rec) {
        let ids = subject_ids(rec.conquest.subjects@);
        lemma_assign_all(m, ids, a);
        let moved = ids.to_set().insert(c);
        assert(after.dom() =~= before.dom()) by {
            assert forall|t: u16| after.dom().contains(t) implies before.dom().contains(t) by {
                if ids.contains(t) {
                    let i = choose|i: int| 0 <= i < ids.len() && ids[i] == t;
                    assert(before.contains_key(ids[i]));
                }
            }
        }
        assert forall|t: u16| #[trigger] after.contains_key(t) implies after[t] == (if moved.contains(t) { a } else { before[t] }) by {
            assert(ids.to_set().contains(t) == ids.contains(t));
        }
    } else {
        assert(after.dom() =~= before.dom());
    }
}

/// The decimal rendering of `n` is a run of digits with value `n`.
proof fn lemma_decimal_digits(n: nat)
    ensures
        all_digits(decimal(n)),
        digits_value(decimal(n)) == n,
    decreases n,
{
    if n < 10 {
        let s = decimal(n);
        assert(s.drop_last() =~= Seq::<char>::empty());
        assert(digits_value(s) == digits_value(s.drop_last()) * 10 + ((s.last() as nat) - ('0' as nat)) as nat);
    } else {
        lemma_decimal_digits(n / 10);
        let s = decimal(n);
        let p = decimal(n / 10);
        assert(s == p.push(digit_char(n % 10)));
        assert(s.drop_last() =~= p);
        assert forall|i: int| 0 <= i < s.len() implies '0' <= #[trigger] s[i] <= '9' by {
            if i < p.len() {
                assert(s[i] == p[i]);
            }
        }
    }
}

/// A `u16` written in decimal reads back as itself.
proof fn lemma_decimal_parses(k: u16)
    ensures
        parsed_u16(decimal(k as nat)) == Some(k),
{
    lemma_decimal_digits(k as nat);
}

/// `trim_end(s)` is a prefix of `s` followed only by whitespace.
proof fn lemma_trim_end_prefix(s: Seq<char>)
    ensures
        trim_end(s).len() <= s.len(),
        trim_end(s) == s.take(trim_end(s).len() as int),
        forall|q: int| trim_end(s).len() <= q < s.len() ==> is_ws(#[trigger] s[q]),
    decreases s.len(),
{
    if s.len() > 0 && is_ws(s.last()) {
        lemma_trim_end_prefix(s.drop_last());
        let t = trim_end(s.drop_last());
        assert(s.drop_last().take(t.len() as int) =~= s.take(t.len() as int));
        assert forall|q: int| t.len() <= q < s.len() implies is_ws(#[trigger] s[q]) by {
            if q < s.len() - 1 {
                assert(s[q] == s.drop_last()[q]);
            }
        }
    } else {
        assert(s.take(s.len() as int) =~= s);
    }
}

/// The line of the country list that holds a row: `id;name;longitude;latitude`.
pub open spec fn row_line(r: (Seq<char>, Seq<char>, Seq<char>, Seq<char>)) -> Seq<char> {
    r.0 + ";"@ + r.1 + ";"@ + r.2 + ";"@ + r.3
}

/// A row that the country list can hold: its id is empty or a number in decimal, its
/// name holds no `;`, and no field holds a line break.
pub open spec fn writable_row(r: (Seq<char>, Seq<char>, Seq<char>, Seq<char>)) -> bool {
    &&& (r.0.len() == 0 || exists|k: u16| r.0 == #[trigger] decimal(k as nat))
    &&& !r.1.contains(';')
    &&& !r.1.contains('\n')
    &&& !r.2.contains('\n')
    &&& !r.3.contains('\n')
}

/// The (id, name) pairs a reader finds for rows: each row with an id, its name
/// trimmed.
pub open spec fn listed_countries(rows: Seq<(Seq<char>, Seq<char>, Seq<char>, Seq<char>)>) -> Seq<(u16, Seq<char>)>
    decreases rows.len(),
{
    if rows.len() == 0 {
        Seq::empty()
    } else {
        (if rows[0].0.len() > 0 {
            seq![(parsed_u16(rows[0].0).unwrap(), trim(rows[0].1))]
        } else {
            Seq::empty()
        }) + listed_countries(rows.drop_first())
    }
}

proof fn lemma_rows_text_first(rows: Seq<(Seq<char>, Seq<char>, Seq<char>, Seq<char>)>)
    requires
        rows.len() > 0,
    ensures
        rows_text(rows) == row_line(rows[0]) + "\n"@ + rows_text(rows.drop_first()),
    decreases rows.len(),
{
    if rows.len() == 1 {
        assert(rows.drop_last() =~= Seq::<(Seq<char>, Seq<char>, Seq<char>, Seq<char>)>::empty());
        assert(rows.drop_first() =~= Seq::<(Seq<char>, Seq<char>, Seq<char>, Seq<char>)>::empty());
        assert(rows_text(rows) =~= row_line(rows[0]) + "\n"@ + rows_text(rows.drop_first()));
    } else {
        let front = rows.drop_last();
        lemma_rows_text_first(front);
        assert(front.drop_first() =~= rows.drop_first().drop_last());
        assert(rows.drop_first().last() == rows.last());
        assert(front[0] == rows[0]);
        assert(rows_text(rows) =~= row_line(rows[0]) + "\n"@ + rows_text(rows.drop_first()));
    }
}

proof fn lemma_split_first_line(a: Seq<char>, b: Seq<char>)
    requires
        !a.contains('\n'),
    ensures
        split(a + "\n"@ + b, '\n') == seq![a] + split(b, '\n'),
{
    reveal_strlit("\n");
    let s = a + "\n"@ + b;
    assert forall|j: int| 0 <= j < a.len() implies s[j] != '\n' by {
        assert(s[j] == a[j]);
    }
    lemma_first_index_is(s, '\n', a.len() as int);
    assert(s.take(a.len() as int) =~= a);
    assert(s.skip(a.len() as int + 1) =~= b);
}

proof fn lemma_row_line_parses(r: (Seq<char>, Seq<char>, Seq<char>, Seq<char>))
    requires
        writable_row(r),
    ensures
        !row_line(r).contains('\n'),
        trim(row_line(r)).len() > 0,
        parse_row(trim(row_line(r))) == (if r.0.len() > 0 {
            Some((parsed_u16(r.0).unwrap(), trim(r.1)))
        } else {
            None::<(u16, Seq<char>)>
        }),
{
    reveal_strlit(";");
    let line = row_line(r);
    let id = r.0;
    let name = r.1;
    if id.len() > 0 {
        let k = choose|k: u16| id == #[trigger] decimal(k as nat);
        lemma_decimal_digits(k as nat);
        lemma_decimal_parses(k);
    }
    let a = id.len() as int;
    let p = a + 1 + name.len();
    assert(line =~= id + seq![';'] + name + seq![';'] + r.2 + seq![';'] + r.3);
    assert forall|i: int| 0 <= i < a implies line[i] == id[i] && '0' <= #[trigger] id[i] <= '9' by {}
    assert(line[a] == ';');
    assert forall|j: int| 0 <= j < name.len() implies line[a + 1 + j] == #[trigger] name[j] by {}
    assert(line[p] == ';');
    assert(!line.contains('\n')) by {
        assert forall|i: int| 0 <= i < line.len() implies line[i] != '\n' by {
            if i < a {
            } else if i == a || i == p {
            } else if i < p {
                assert(line[i] == name[i - a - 1]);
                assert(name.contains(name[i - a - 1]));
            } else if i == p + 1 + r.2.len() {
            } else if i < p + 1 + r.2.len() {
                assert(line[i] == r.2[i - p - 1]);
                assert(r.2.contains(r.2[i - p - 1]));
            } else {
                assert(line[i] == r.3[i - p - 2 - r.2.len()]);
                assert(r.3.contains(r.3[i - p - 2 - r.2.len()]));
            }
        }
    }
    assert(!is_ws(line[0]));
    assert(trim_start(line) == line);
    lemma_trim_end_prefix(line);
    let t = trim(line);
    let m = t.len() as int;
    assert(m > p) by {
        if m <= p {
            assert(is_ws(line[p]));
        }
    }
    assert forall|j: int| 0 <= j < a implies t[j] != ';' by {
        assert(t[j] == line[j]);
    }
    lemma_first_index_is(t, ';', a);
    let rest = t.skip(a + 1);
    assert forall|j: int| 0 <= j < name.len() implies rest[j] != ';' by {
        assert(rest[j] == line[a + 1 + j]);
        assert(name.contains(name[j]));
    }
    assert(rest[name.len() as int] == line[p]);
    lemma_first_index_is(rest, ';', name.len() as int);
    assert(t.take(a) =~= id);
    assert(rest.take(name.len() as int) =~= name);
    assert(row_fields(t) == (id, Some(name)));
}

/// The country list written for a new game reads back, through the reader the
/// simulator uses, as every row that has an id, under that id and with its name
/// trimmed, in order: for rows whose ids are empty or numbers in decimal, whose names
/// hold no `;` and whose fields hold no line break.
pub proof fn law_country_list_reads_back(rows: Seq<(Seq<char>, Seq<char>, Seq<char>, Seq<char>)>)
    requires
        forall|i: int| 0 <= i < rows.len() ==> #[trigger] writable_row(rows[i]),
    ensures
        country_rows(rows_text(rows)) == listed_countries(rows),
    decreases rows.len(),
{
    if rows.len() == 0 {
        let e = Seq::<char>::empty();
        assert(rows_text(rows) == e);
        crate::country::lemma_first_index_none(e, '\n');
        assert(split(e, '\n') == seq![e]);
        assert(trim(e) == e);
        assert(seq![e].drop_first() =~= Seq::<Seq<char>>::empty());
        assert(seq![e][0] == e);
        assert(trim_start(e) == e);
        assert(trim_end(e) == e);
        assert(rows_of(Seq::<Seq<char>>::empty()) == Seq::<(u16, Seq<char>)>::empty());
        assert(rows_of(seq![e]) =~= Seq::<(u16, Seq<char>)>::empty());
        assert(listed_countries(rows) =~= Seq::<(u16, Seq<char>)>::empty());
    } else {
        let tail = rows.drop_first();
        assert forall|i: int| 0 <= i < tail.len() implies #[trigger] writable_row(tail[i]) by {
            assert(tail[i] == rows[i + 1]);
        }
        law_country_list_reads_back(tail);
        lemma_rows_text_first(rows);
        lemma_row_line_parses(rows[0]);
        lemma_split_first_line(row_line(rows[0]), rows_text(tail));
        let lines = seq![row_line(rows[0])] + split(rows_text(tail), '\n');
        assert(lines[0] == row_line(rows[0]));
        assert(lines.drop_first() =~= split(rows_text(tail), '\n'));
        assert(country_rows(rows_text(rows)) == rows_of(lines));
        let line0 = trim(row_line(rows[0]));
        let here: Seq<(u16, Seq<char>)> = if rows[0].0.len() > 0 {
            seq![(parsed_u16(rows[0].0).unwrap(), trim(rows[0].1))]
        } else {
            Seq::empty()
        };
        assert(rows_of(lines) == here + rows_of(lines.drop_first()));
        assert(listed_countries(rows) == here + listed_countries(tail));
    }
}

/// A round that replays without any issue passes every group of checks.
pub proof fn lemma_accepted_round(
    round: usize,
    state: ReplayState,
    rec: RoundRecords,
    names: Seq<(u16, Seq<char>)>,
    g: Map<u16, Vec<u16>>,
    cession: Result<(), CapitulationError>,
)
    requires
        round_issues(round, state, rec, names, g, cession).len() == 0,
    ensures
        capitals_file_issues(round, rec, names).len() == 0,
        shape_issues(rec).len() == 0,
        party_issues(state, rec, names).len() == 0,
        conquest_issues(state, rec, names, g, cession).len() == 0,
        current_capital_issues(rec.capitals.current_capital_by_admin@, round, state, rec, names).len() == 0,
        capital_index_issues(round, state, rec, names).len() == 0,
        record_issues(round, state, rec, names).len() == 0,
{
}

/// Replaying a round maps the territory it names, and for a conquest every listed
/// subject, to the country that gains it; every other territory keeps its owner.
#[verifier::spinoff_prover]
pub proof fn law_replayed_owners(state: ReplayState, rec: RoundRecords, names: Seq<(u16, Seq<char>)>)
    ensures
        forall|t: u16| #[trigger] owners_after(state, rec, names).contains_key(t) <==> (state.country_data@.contains_key(t)
            || t == conquered_id(rec) || (is_conquest(rec) && subject_ids(rec.conquest.subjects@).contains(t))),
        forall|t: u16| #[trigger] owners_after(state, rec, names).contains_key(t) ==> owners_after(state, rec, names)[t]
            == (if t == conquered_id(rec) || (is_conquest(rec) && subject_ids(rec.conquest.subjects@).contains(t)) {
                attacker_of(rec, names)
            } else {
                state.country_data@[t]
            }),
{
    let m = state.country_data@.insert(conquered_id(rec), attacker_of(rec, names));
    lemma_assign_all(m, subject_ids(rec.conquest.subjects@), attacker_of(rec, names));
}

/// A round that replays without any issue had the fallen-capital flag the rules give:
/// set exactly when the conquered territory was the defender's capital, the defender
/// keeps territories (one plus the subjects is fewer than it had) and did not
/// capitulate.
#[verifier::spinoff_prover]
pub proof fn law_accepted_fallen_flag(
    round: usize,
    state: ReplayState,
    rec: RoundRecords,
    names: Seq<(u16, Seq<char>)>,
    g: Map<u16, Vec<u16>>,
    cession: Result<(), CapitulationError>,
)
    requires
        round_issues(round, state, rec, names, g, cession).len() == 0,
    ensures
        rec.conquest.fallen_capital_remnant == (conquered_id(rec) == capital_before(state, rec, names)
            && 1 + rec.conquest.subjects@.len() < crate::state::owned_by(state.country_data@, defender_of(rec, names)).len()
            && !rec.conquest.capitulation),
{
    lemma_accepted_round(round, state, rec, names, g, cession);
}

/// A conquest that replays without any issue was launched from a territory of the
/// attacker, reached the conquered territory through the nearest foreign shell, and
/// either capitulated with as many subjects as it ceded and a capitulation the check
/// accepts, or listed no subjects.
#[verifier::spinoff_prover]
pub proof fn law_accepted_conquest(
    round: usize,
    state: ReplayState,
    rec: RoundRecords,
    names: Seq<(u16, Seq<char>)>,
    g: Map<u16, Vec<u16>>,
    cession: Result<(), CapitulationError>,
)
    requires
        round_issues(round, state, rec, names, g, cession).len() == 0,
        is_conquest(rec),
    ensures
        state.country_data@[rec.conquest.attacker as u16] == attacker_of(rec, names),
        can_attack(g, state.country_data@, rec.conquest.attacker as u16, conquered_id(rec)),
        rec.conquest.capitulation ==> rec.conquest.subjects@.len() == rec.conquest.capitulation_event.unwrap().territories_ceded
            && cession is Ok,
        !rec.conquest.capitulation ==> rec.conquest.subjects@.len() == 0,
{
    lemma_accepted_round(round, state, rec, names, g, cession);
    if rec.conquest.capitulation {
        if cession is Err {
            let e = cession->Err_0;
            assert(conquest_issues(state, rec, names, g, cession).len() > 0);
        }
    }
}

/// A conquest from round 229 on that replays without any issue gives as the capital
/// after it the defender's original capital when the defender is eliminated and its
/// current capital otherwise; it names no capital for an eliminated defender, and
/// otherwise names one exactly when the capital fell, and then the name of that
/// territory.
#[verifier::spinoff_prover]
pub proof fn law_accepted_capital_after(
    round: usize,
    state: ReplayState,
    rec: RoundRecords,
    names: Seq<(u16, Seq<char>)>,
    g: Map<u16, Vec<u16>>,
    cession: Result<(), CapitulationError>,
)
    requires
        round_issues(round, state, rec, names, g, cession).len() == 0,
        is_conquest(rec),
        round >= 229,
    ensures
        rec.conquest.capital_index_after is Some,
        rec.conquest.capital_index_after.unwrap() as u16 == (if defeated(state, rec, names) {
            defender_of(rec, names)
        } else {
            capital_of(overrides_of(rec.capitals.current_capital_by_admin@, names), defender_of(rec, names))
        }),
        defeated(state, rec, names) ==> rec.conquest.defender_capital_territory_after is None,
        !defeated(state, rec, names) ==> (rec.conquest.defender_capital_territory_after is Some
            <==> rec.conquest.fallen_capital_remnant),
        !defeated(state, rec, names) && rec.conquest.defender_capital_territory_after is Some ==>
            name_of_id(names, rec.conquest.capital_index_after.unwrap() as u16)
                == Some(rec.conquest.defender_capital_territory_after.unwrap()@),
{
    lemma_accepted_round(round, state, rec, names, g, cession);
    assert(capital_after_issues(state, rec, names).len() == 0);
}

/// A conquest from round 230 on that replays without any issue has its capital-moved
/// flag equal to the fallen-capital flag, the defender's id as original capital, the
/// defender's capital before the round as capital before, and no territory rank.
#[verifier::spinoff_prover]
#[verifier::rlimit(30)]
pub proof fn law_accepted_capital_tracking(
    round: usize,
    state: ReplayState,
    rec: RoundRecords,
    names: Seq<(u16, Seq<char>)>,
    g: Map<u16, Vec<u16>>,
    cession: Result<(), CapitulationError>,
)
    requires
        round_issues(round, state, rec, names, g, cession).len() == 0,
        is_conquest(rec),
        round >= 230,
    ensures
        rec.conquest.capital_moved matches Some(m) ==> m == rec.conquest.fallen_capital_remnant,
        rec.conquest.original_capital_index matches Some(o) ==> o as u16 == defender_of(rec, names),
        rec.conquest.capital_index_before matches Some(b) ==> b as u16 == capital_before(state, rec, names),
        rec.conquest.defender_territory_rank_before is None,
{
    lemma_accepted_round(round, state, rec, names, g, cession);
    assert(capital_tracking_issues(state, rec, names).len() == 0);
    assert(shape_issues(rec).len() == 0);
}

/// The caption a riot round must have: the date, then "<territory> rose against
/// <owner> and gained independence." before round 85 or "... and reunited its
/// homeland." from it, then the link line before round 167. A riot round that
/// passes its other checks is accepted exactly when its caption is this one.
#[verifier::spinoff_prover]
pub proof fn law_riot_caption(round: usize, state: ReplayState, rec: RoundRecords, names: Seq<(u16, Seq<char>)>)
    requires
        !is_conquest(rec),
        month_index(round, state.initial_month, state.initial_year) >= 0,
    ensures
        expected_caption(round, state, rec, names) == date_text(month_index(round, state.initial_month, state.initial_year))
            + ", "@ + rec.post.territory@ + " rose against "@ + rec.post.attacker@ + " and "@
            + (if round < 85 { "gained independence."@ } else { "reunited its homeland."@ })
            + (if round < 167 { "\nCheck the full map at https://worldwarbot.com"@ } else { Seq::empty() }),
        record_issues(round, state, rec, names).contains(RoundIssue::Caption)
            <==> rec.post.caption@ != expected_caption(round, state, rec, names),
{
    let t = month_index(round, state.initial_month, state.initial_year);
    assert(t >= 0);
    assert(rem_toward_zero(t, 12) == t % 12);
    assert(date_prefix(t) =~= date_text(t) + ", "@);
    let e = expected_caption(round, state, rec, names);
    let r = record_issues(round, state, rec, names);
    if rec.post.caption@ != e {
        assert(r[0] == RoundIssue::Caption);
    } else {
        assert forall|i: int| 0 <= i < r.len() implies r[i] != RoundIssue::Caption by {}
    }
}

/// The capital overrides kept after a round: for each country listed once in the
/// capitals file, its listed capital when that is not its own id, and none otherwise.
pub proof fn law_replayed_overrides(entries: Seq<(String, u16)>, names: Seq<(u16, Seq<char>)>)
    requires
        forall|i: int| 0 <= i < entries.len() ==> (#[trigger] id_of_name(names, entries[i].0@)) is Some,
        forall|i: int, j: int| 0 <= i < j < entries.len()
            ==> id_of_name(names, #[trigger] entries[i].0@) != id_of_name(names, #[trigger] entries[j].0@),
    ensures
        forall|c: u16| #[trigger] overrides_of(entries, names).contains_key(c) <==> exists|i: int| 0 <= i < entries.len()
            && id_of_name(names, #[trigger] entries[i].0@) == Some(c) && entries[i].1 != c,
        forall|i: int| 0 <= i < entries.len() && entries[i].1 != id_of_name(names, entries[i].0@).unwrap()
            ==> overrides_of(entries, names)[id_of_name(names, #[trigger] entries[i].0@).unwrap()] == entries[i].1,
    decreases entries.len(),
{
    if entries.len() > 0 {
        let front = entries.drop_last();
        assert forall|i: int| 0 <= i < front.len() implies (#[trigger] id_of_name(names, front[i].0@)) is Some by {
            assert(front[i] == entries[i]);
        }
        assert forall|i: int, j: int| 0 <= i < j < front.len()
            implies id_of_name(names, #[trigger] front[i].0@) != id_of_name(names, #[trigger] front[j].0@) by {
            assert(front[i] == entries[i]);
            assert(front[j] == entries[j]);
        }
        law_replayed_overrides(front, names);
        let last = entries.len() - 1;
        assert(entries.last() == entries[last]);
        assert(id_of_name(names, entries[last].0@) is Some);
        let cl = id_of_name(names, entries[last].0@).unwrap();
        assert forall|c: u16| #[trigger] overrides_of(entries, names).contains_key(c) <==> exists|i: int| 0 <= i < entries.len()
            && id_of_name(names, #[trigger] entries[i].0@) == Some(c) && entries[i].1 != c by {
            if overrides_of(front, names).contains_key(c) {
                let i = choose|i: int| 0 <= i < front.len() && id_of_name(names, #[trigger] front[i].0@) == Some(c) && front[i].1 != c;
                assert(entries[i] == front[i]);
            }
            if exists|i: int| 0 <= i < entries.len() && id_of_name(names, #[trigger] entries[i].0@) == Some(c) && entries[i].1 != c {
                let i = choose|i: int| 0 <= i < entries.len() && id_of_name(names, #[trigger] entries[i].0@) == Some(c) && entries[i].1 != c;
                if i < last {
                    assert(front[i] == entries[i]);
                }
            }
        }
        assert forall|i: int| 0 <= i < entries.len() && entries[i].1 != id_of_name(names, entries[i].0@).unwrap()
            implies overrides_of(entries, names)[id_of_name(names, #[trigger] entries[i].0@).unwrap()] == entries[i].1 by {
            if i < last {
                assert(front[i] == entries[i]);
                assert(id_of_name(names, entries[i].0@) != id_of_name(names, entries[last].0@));
                assert(id_of_name(names, front[i].0@) is Some);
            }
        }
    }
}

/// The draws decide a riot completely: two riots of the same territory under the
/// same draws take the same territories in the same order.
pub proof fn law_riot_draws_determine(
    g: Map<u16, Vec<u16>>,
    owners: Map<u16, u16>,
    riot: u16,
    draws: Seq<(u16, bool)>,
    s1: Seq<u16>,
    s2: Seq<u16>,
)
    requires
        riot_by_draws(g, owners, riot, draws, s1),
        riot_by_draws(g, owners, riot, draws, s2),
    ensures
        s1 == s2,
{
    assert forall|a: Seq<u16>, b: Seq<u16>|
        riot_by_draws(g, owners, riot, draws, a) && riot_by_draws(g, owners, riot, draws, b) && a.len() <= b.len()
        implies #[trigger] b.take(a.len() as int) == a && a.len() == b.len() by {
        assert forall|i: int| 0 <= i < a.len() implies b[i] == a[i] by {
            if i > 0 {
                assert(draws[i - 1].0 == a[i]);
                assert(draws[i - 1].0 == b[i]);
            }
        }
        assert(b.take(a.len() as int) =~= a);
        if a.len() < b.len() {
            let m = a.len() - 1;
            assert(draws[m].1 && fresh_candidate(g, owners, riot, b.take(m + 1), draws[m].0));
        }
    }
    if s1.len() <= s2.len() {
        assert(s2.take(s1.len() as int) == s1);
        assert(s2 =~= s1);
    } else {
        assert(s1.take(s2.len() as int) == s2);
        assert(s1 =~= s2);
    }
}

/// The cedable territories that can be reached from the lost capital `target`.
pub open spec fn reachable_cedable(g: Map<u16, Vec<u16>>, owners: Map<u16, u16>, target: u16) -> Set<u16> {
    cedable(owners, target).filter(|t: u16| reachable(g, target, t))
}

/// A cession with the quota `quota` cedes exactly `quota` territories, or every
/// reachable cedable territory when there are fewer.
pub proof fn law_cession_count(g: Map<u16, Vec<u16>>, owners: Map<u16, u16>, target: u16, picks: Set<u16>, quota: nat)
    requires
        owners.dom().finite(),
        valid_cession(g, owners, target, picks, quota),
    ensures
        picks.len() == (if quota <= reachable_cedable(g, owners, target).len() {
            quota
        } else {
            reachable_cedable(g, owners, target).len()
        }),
{
    let r = reachable_cedable(g, owners, target);
    lemma_owned_finite(owners, owners[target]);
    assert(r.finite()) by {
        assert(r.subset_of(owned_by(owners, owners[target])));
        vstd::set_lib::lemma_len_subset(r, owned_by(owners, owners[target]));
    }
    let k = choose|k: nat| #![trigger within(g, target, k)]
        k >= 1
        && cedable(owners, target).intersect(within(g, target, (k - 1) as nat)).subset_of(picks)
        && picks.subset_of(within(g, target, k));
    assert(picks.subset_of(r)) by {
        assert forall|t: u16| picks.contains(t) implies r.contains(t) by {
            assert(within(g, target, k).contains(t));
        }
    }
    vstd::set_lib::lemma_len_subset(picks, r);
    if picks.len() < quota {
        assert(r.subset_of(picks));
        vstd::set_lib::lemma_len_subset(r, picks);
    }
}

/// A conquest cedes, besides the conquered territory, at most half of the defender's
/// remaining territories, all of them the defender's.
pub proof fn law_conquest_cedes_at_most_half(
    g: Map<u16, Vec<u16>>,
    owners: Map<u16, u16>,
    new: Map<u16, u16>,
    attacker: u16,
    target: u16,
    picks: Set<u16>,
)
    requires
        conquest_outcome(g, owners, new, attacker, target, picks),
    ensures
        picks.subset_of(owned_by(owners, owners[target])),
        !picks.contains(target),
        2 * picks.len() <= owned_by(owners, owners[target]).len() - 1 || picks.is_empty(),
{
    if !picks.is_empty() {
        let q = choose|q: nat| 1 <= q <= cession_limit(owners, target) && #[trigger] valid_cession(g, owners, target, picks, q);
        assert(picks.subset_of(cedable(owners, target)));
    }
}

/// A capitulation accepted by the check cedes, besides the fallen capital, at most
/// half of the defender's remaining territories.
pub proof fn law_valid_capitulation_cedes_at_most_half(
    g: Map<u16, Vec<u16>>,
    owners: Map<u16, u16>,
    capital: u16,
    ceded: Seq<u16>,
)
    requires
        capitulation_valid(g, owners, capital, ceded),
    ensures
        2 * ceded.len() <= owned_by(owners, owners[capital]).len() - 1,
{
}

/// A cession works outwards from the lost capital: every ceded territory is at most
/// as far from it as any reachable cedable territory that is kept.
pub proof fn law_cession_nearest_first(
    g: Map<u16, Vec<u16>>,
    owners: Map<u16, u16>,
    target: u16,
    picks: Set<u16>,
    quota: nat,
    p: u16,
    t: u16,
    dp: nat,
    dt: nat,
)
    requires
        valid_cession(g, owners, target, picks, quota),
        picks.contains(p),
        cedable(owners, target).contains(t),
        !picks.contains(t),
        at_distance(g, target, p, dp),
        at_distance(g, target, t, dt),
    ensures
        dp <= dt,
{
    let k = choose|k: nat| #![trigger within(g, target, k)]
        k >= 1
        && cedable(owners, target).intersect(within(g, target, (k - 1) as nat)).subset_of(picks)
        && picks.subset_of(within(g, target, k));
    assert(within(g, target, k).contains(p));
    if dt <= k - 1 {
        lemma_within_mono(g, target, dt, (k - 1) as nat);
        assert(cedable(owners, target).intersect(within(g, target, (k - 1) as nat)).contains(t));
    }
    if dp > k {
        lemma_within_mono(g, target, k, (dp - 1) as nat);
    }
}

/// Handing the territories `moved` of country `from` to country `to` (as a riot or a
/// conquest does) adds their number to the count of `to`, takes it from the count of
/// `from`, and leaves every other count unchanged.
pub proof fn law_transfer_counts(
    old: Map<u16, u16>,
    owns: Map<u16, u16>,
    rem: Set<u16>,
    new: Map<u16, u16>,
    new_owns: Map<u16, u16>,
    new_rem: Set<u16>,
    moved: Set<u16>,
    from: u16,
    to: u16,
)
    requires
        consistent_state(old, owns, rem),
        consistent_state(new, new_owns, new_rem),
        reassigned(old, new, moved, to),
        moved.subset_of(owned_by(old, from)),
        from != to,
        owns.contains_key(from),
        owns.contains_key(to),
    ensures
        new_owns[to] == owns[to] + moved.len(),
        new_owns[from] == owns[from] - moved.len(),
        forall|c: u16| #[trigger] owns.contains_key(c) && c != from && c != to ==> new_owns[c] == owns[c],
{
    lemma_owned_finite(old, from);
    lemma_owned_finite(old, to);
    vstd::set_lib::lemma_set_subset_finite(owned_by(old, from), moved);
    reveal(owned_by);
    assert(owned_by(new, to) =~= owned_by(old, to) + moved);
    assert(owned_by(old, to).disjoint(moved));
    vstd::set_lib::lemma_set_disjoint_lens(owned_by(old, to), moved);
    assert(owned_by(new, from) =~= owned_by(old, from).difference(moved));
    assert(owned_by(old, from).intersect(moved) =~= moved);
    vstd::set_lib::lemma_set_difference_len(owned_by(old, from), moved);
    assert forall|c: u16| #[trigger] owns.contains_key(c) && c != from && c != to implies new_owns[c] == owns[c] by {
        crate::state::lemma_reassign_other(old, new, moved, from, to, c);
    }
}

/// A new game starts one month before its first round: the date of round 1, counted
/// from the start read off the first round's caption "<Month> <year>, ...", is the
/// caption's own "<Month> <year>".
pub proof fn law_first_round_has_caption_date(caption: Seq<char>, month: u32, year: i32)
    requires
        split(caption, ' ').len() >= 2,
        month_number(split(caption, ' ')[0]) is Some,
        parsed_i32(trim_commas(split(caption, ' ')[1])) matches Some(y) && y >= 1,
    ensures
        caption_start(caption, month, year) matches Some((m0, y0))
            && date_text(month_index(1, m0, y0)) == split(caption, ' ')[0] + " "@
                + decimal(parsed_i32(trim_commas(split(caption, ' ')[1])).unwrap() as nat),
{
    let parts = split(caption, ' ');
    law_month_number_then_name(parts[0]);
    let m = month_number(parts[0]).unwrap();
    let y = parsed_i32(trim_commas(parts[1])).unwrap();
    let (m0, y0) = caption_start(caption, month, year).unwrap();
    let t = month_index(1, m0, y0);
    assert(t == 12 * y + m - 1);
    assert(div_toward_zero(t, 12) == y);
    assert(rem_toward_zero(t, 12) == m - 1);
}

/// The outcome of a capitulation without defeat, written out.
proof fn lemma_capitulation_outcome(
    fallen: bool,
    relocated: bool,
    remaining: nat,
    n: nat,
    a: Seq<char>,
    d: Seq<char>,
    c: Seq<char>,
)
    ensures
        outcome_text(false, true, fallen, relocated, remaining, n, a, d, c)
            == ".\n"@ + d + " capitulated, ceding "@ + decimal(n)
                + (if n == 1 { " additional territory to "@ } else { " additional territories to "@ }) + (a + "."@),
{
    lemma_cession_wording(n);
    let p = ".\n"@ + d + " capitulated, ceding "@ + decimal(n);
    let y = if n == 1 { "y"@ } else { "ies"@ };
    assert(p + " additional territor"@ + y + " to "@ + a + "."@
        =~= p + (" additional territor"@ + y + " to "@) + (a + "."@));
}

proof fn lemma_caption_shape(
    dp: Seq<char>,
    ev: Seq<char>,
    occ: Seq<char>,
    head: Seq<char>,
    tail: Seq<char>,
    end: Seq<char>,
    link: Seq<char>,
)
    ensures
        dp + (ev + (occ + (head + tail + end))) + link == dp + ev + occ + head + tail + end + link,
{
    assert(dp + (ev + (occ + (head + tail + end))) + link =~= dp + ev + occ + head + tail + end + link);
}

/// The wording of a cession of `n` further territories.
proof fn lemma_cession_wording(n: nat)
    ensures
        " additional territor"@ + (if n == 1 { "y"@ } else { "ies"@ }) + " to "@
            == (if n == 1 { " additional territory to "@ } else { " additional territories to "@ }),
{
    reveal_strlit(" additional territor");
    reveal_strlit("y");
    reveal_strlit("ies");
    reveal_strlit(" to ");
    reveal_strlit(" additional territory to ");
    reveal_strlit(" additional territories to ");
    if n == 1 {
        assert(" additional territor"@ + "y"@ + " to "@ =~= " additional territory to "@);
    } else {
        assert(" additional territor"@ + "ies"@ + " to "@ =~= " additional territories to "@);
    }
}

/// The caption of a conquest in which the defender capitulates without being
/// defeated: the date, "<attacker> conquered <territory> territory" (with "previously
/// occupied by <defender>" when the territory was not the occupier's own), then
/// "<defender> capitulated, ceding <n> additional territory to <attacker>." with
/// "territories" for any number but one, and the link line before round 167. The round
/// is flagged for its caption exactly when the caption differs.
#[verifier::spinoff_prover]
proof fn lemma_capitulation_caption_text(round: usize, state: ReplayState, rec: RoundRecords, names: Seq<(u16, Seq<char>)>)
    requires
        is_conquest(rec),
        rec.conquest.capitulation,
        !defeated(state, rec, names),
        conquered_id(rec) != attacker_of(rec, names),
    ensures
        expected_caption(round, state, rec, names) == date_prefix(month_index(round, state.initial_month, state.initial_year))
            + rec.post.attacker@ + " conquered "@ + rec.post.territory@ + " territory"@
            + (if state.country_data@[conquered_id(rec)] != conquered_id(rec) {
                " previously occupied by "@ + rec.post.defender@
            } else {
                Seq::empty()
            })
            + ".\n"@ + rec.post.defender@ + " capitulated, ceding "@ + decimal(ceded_count(rec))
            + (if ceded_count(rec) == 1 { " additional territory to "@ } else { " additional territories to "@ })
            + rec.post.attacker@ + "."@
            + (if round < 167 { "\nCheck the full map at https://worldwarbot.com"@ } else { Seq::empty() }),
{
    let n = ceded_count(rec);
    let a = rec.post.attacker@;
    let d = rec.post.defender@;
    let occ = if state.country_data@[conquered_id(rec)] != conquered_id(rec) {
        " previously occupied by "@ + d
    } else {
        Seq::empty()
    };
    let o = outcome_text(defeated(state, rec, names), rec.conquest.capitulation, rec.conquest.fallen_capital_remnant,
        round >= 229, owner_set(owners_after(state, rec, names)).len(), n, a, d, new_capital_name(rec));
    let dp = date_prefix(month_index(round, state.initial_month, state.initial_year));
    let link = if round < 167 { "\nCheck the full map at https://worldwarbot.com"@ } else { Seq::<char>::empty() };
    assert(expected_caption(round, state, rec, names)
        == dp + (a + " conquered "@ + rec.post.territory@ + " territory"@ + (occ + o)) + link);
    lemma_capitulation_outcome(rec.conquest.fallen_capital_remnant, round >= 229,
        owner_set(owners_after(state, rec, names)).len(), n, a, d, new_capital_name(rec));
    let tail = if n == 1 { " additional territory to "@ } else { " additional territories to "@ };
    lemma_caption_shape(dp, a + " conquered "@ + rec.post.territory@ + " territory"@, occ,
        ".\n"@ + d + " capitulated, ceding "@ + decimal(n), tail, a + "."@, link);
}

#[verifier::spinoff_prover]
pub proof fn law_capitulation_caption(round: usize, state: ReplayState, rec: RoundRecords, names: Seq<(u16, Seq<char>)>)
    requires
        is_conquest(rec),
        rec.conquest.capitulation,
        !defeated(state, rec, names),
        conquered_id(rec) != attacker_of(rec, names),
    ensures
        expected_caption(round, state, rec, names) == date_prefix(month_index(round, state.initial_month, state.initial_year))
            + rec.post.attacker@ + " conquered "@ + rec.post.territory@ + " territory"@
            + (if state.country_data@[conquered_id(rec)] != conquered_id(rec) {
                " previously occupied by "@ + rec.post.defender@
            } else {
                Seq::empty()
            })
            + ".\n"@ + rec.post.defender@ + " capitulated, ceding "@ + decimal(ceded_count(rec))
            + (if ceded_count(rec) == 1 { " additional territory to "@ } else { " additional territories to "@ })
            + rec.post.attacker@ + "."@
            + (if round < 167 { "\nCheck the full map at https://worldwarbot.com"@ } else { Seq::empty() }),
        record_issues(round, state, rec, names).contains(RoundIssue::Caption)
            <==> rec.post.caption@ != expected_caption(round, state, rec, names),
{
    lemma_capitulation_caption_text(round, state, rec, names);
    let e = expected_caption(round, state, rec, names);
    let r = record_issues(round, state, rec, names);
    if rec.post.caption@ != e {
        assert(r[0] == RoundIssue::Caption);
    } else {
        assert forall|i: int| 0 <= i < r.len() implies r[i] != RoundIssue::Caption by {}
    }
}

/// The caption of a conquest of the attacking country's own homeland territory (the
/// conquered territory's id is the attacking country's id): the date, "<attacker>
/// reconquered its homeland from <defender>", the outcome, and the link line before
/// round 167. The round is flagged for its caption exactly when the caption differs.
pub proof fn law_reconquest_caption(round: usize, state: ReplayState, rec: RoundRecords, names: Seq<(u16, Seq<char>)>)
    requires
        is_conquest(rec),
        conquered_id(rec) == attacker_of(rec, names),
    ensures
        expected_caption(round, state, rec, names) == date_prefix(month_index(round, state.initial_month, state.initial_year))
            + rec.post.attacker@ + " reconquered its homeland from "@ + rec.post.defender@
            + outcome_text(
                defeated(state, rec, names),
                rec.conquest.capitulation,
                rec.conquest.fallen_capital_remnant,
                round >= 229,
                owner_set(owners_after(state, rec, names)).len(),
                ceded_count(rec),
                rec.post.attacker@,
                rec.post.defender@,
                new_capital_name(rec),
            )
            + (if round < 167 { "\nCheck the full map at https://worldwarbot.com"@ } else { Seq::empty() }),
        record_issues(round, state, rec, names).contains(RoundIssue::Caption)
            <==> rec.post.caption@ != expected_caption(round, state, rec, names),
{
    let e = expected_caption(round, state, rec, names);
    let r = record_issues(round, state, rec, names);
    if rec.post.caption@ != e {
        assert(r[0] == RoundIssue::Caption);
    } else {
        assert forall|i: int| 0 <= i < r.len() implies r[i] != RoundIssue::Caption by {}
    }
}

/// "<n> <unit>", with an "s" unless `n` is 1.
pub open spec fn amount_text(n: nat, unit: Seq<char>) -> Seq<char> {
    decimal(n) + " "@ + unit + (if n == 1 { Seq::<char>::empty() } else { "s"@ })
}

/// A readable duration names, in this order, the hours, the minutes and the seconds
/// of `secs = 3600 h + 60 m + s` (`m`, `s` under 60): each unit whose amount is not
/// zero, whatever the others are, and "0 seconds" for no time at all.
pub proof fn law_duration_names_each_unit(secs: u64, h: nat, m: nat, s: nat)
    requires
        secs == 3600 * h + 60 * m + s,
        m < 60,
        s < 60,
    ensures
        duration_parts(secs)
            == (if h > 0 { seq![amount_text(h, "hour"@)] } else { Seq::empty() })
            + (if m > 0 { seq![amount_text(m, "minute"@)] } else { Seq::empty() })
            + (if s > 0 || (h == 0 && m == 0) { seq![amount_text(s, "second"@)] } else { Seq::empty() }),
{
    let rest: int = (60 * m + s) as int;
    vstd::arithmetic::div_mod::lemma_fundamental_div_mod_converse(secs as int, 3600, h as int, rest);
    vstd::arithmetic::div_mod::lemma_fundamental_div_mod_converse(rest, 60, m as int, s as int);
    assert(secs as int == (60 * h + m) * 60 + s) by (nonlinear_arith)
        requires secs == 3600 * h + 60 * m + s;
    vstd::arithmetic::div_mod::lemma_fundamental_div_mod_converse(secs as int, 60, (60 * h + m) as int, s as int);
    let hp = if h > 0 { seq![amount_text(h, "hour"@)] } else { Seq::<Seq<char>>::empty() };
    let mp = if m > 0 { seq![amount_text(m, "minute"@)] } else { Seq::<Seq<char>>::empty() };
    assert((hp + mp).len() == 0 <==> (h == 0 && m == 0));
}

/// The renumbered country list of a new game (`remap_rows`) is sorted: rows with an
/// id come first, their ids in ascending order; the rows without an id follow, their
/// names in ascending text order. Every id written parses back as a number.
pub proof fn law_renumbered_rows_sorted(
    rows: Seq<(Seq<char>, Seq<char>, Seq<char>, Seq<char>)>,
    caps: Seq<(u16, Seq<char>)>,
    out: Seq<(Seq<char>, Seq<char>, Seq<char>, Seq<char>)>,
)
    requires
        exists|order: Seq<int>| #[trigger] is_row_order(order, keyed_rows(rows, caps))
            && out == order.map_values(|i: int| keyed_rows(rows, caps)[i].1),
    ensures
        forall|a: int| 0 <= a < out.len() ==> (#[trigger] out[a]).0.len() == 0 || parsed_u16(out[a].0) is Some,
        forall|a: int, b: int| 0 <= a < b < out.len() ==> {
            &&& ((#[trigger] out[a]).0.len() == 0 ==> (#[trigger] out[b]).0.len() == 0)
            &&& (parsed_u16(out[a].0) is Some && parsed_u16(out[b].0) is Some
                ==> parsed_u16(out[a].0).unwrap() <= parsed_u16(out[b].0).unwrap())
            &&& (out[a].0.len() == 0 && out[b].0.len() == 0 ==> text_lt(out[a].1, out[b].1) || out[a].1 == out[b].1)
        },
{
    let order = choose|order: Seq<int>| #[trigger] is_row_order(order, keyed_rows(rows, caps))
        && out == order.map_values(|i: int| keyed_rows(rows, caps)[i].1);
    lemma_sorted_rows(rows, caps, order);
    assert forall|a: int| 0 <= a < out.len() implies (#[trigger] out[a]).0.len() == 0 || parsed_u16(out[a].0) is Some by {
        assert(out[a] == keyed_rows(rows, caps)[order[a]].1);
    }
    assert forall|a: int, b: int| 0 <= a < b < out.len() implies {
        &&& ((#[trigger] out[a]).0.len() == 0 ==> (#[trigger] out[b]).0.len() == 0)
        &&& (parsed_u16(out[a].0) is Some && parsed_u16(out[b].0) is Some
            ==> parsed_u16(out[a].0).unwrap() <= parsed_u16(out[b].0).unwrap())
        &&& (out[a].0.len() == 0 && out[b].0.len() == 0 ==> text_lt(out[a].1, out[b].1) || out[a].1 == out[b].1)
    } by {
        assert(out[a] == keyed_rows(rows, caps)[order[a]].1);
        assert(out[b] == keyed_rows(rows, caps)[order[b]].1);
    }
}

/// The rows of the keyed country list, taken in a sort order of it, are sorted by
/// the ids written in them, then by name.
proof fn lemma_sorted_rows(
    rows: Seq<(Seq<char>, Seq<char>, Seq<char>, Seq<char>)>,
    caps: Seq<(u16, Seq<char>)>,
    order: Seq<int>,
)
    requires
        is_row_order(order, keyed_rows(rows, caps)),
    ensures
        forall|a: int| #![trigger order[a]] 0 <= a < order.len() ==> {
            let r = keyed_rows(rows, caps)[order[a]].1;
            r.0.len() == 0 || parsed_u16(r.0) is Some
        },
        forall|a: int, b: int| #![trigger order[a], order[b]] 0 <= a < b < order.len() ==> {
            let ra = keyed_rows(rows, caps)[order[a]].1;
            let rb = keyed_rows(rows, caps)[order[b]].1;
            &&& (ra.0.len() == 0 ==> rb.0.len() == 0)
            &&& (parsed_u16(ra.0) is Some && parsed_u16(rb.0) is Some ==> parsed_u16(ra.0).unwrap() <= parsed_u16(rb.0).unwrap())
            &&& (ra.0.len() == 0 && rb.0.len() == 0 ==> text_lt(ra.1, rb.1) || ra.1 == rb.1)
        },
{
    let keyed = keyed_rows(rows, caps);
    lemma_keyed_id_text(rows, caps);
    assert forall|a: int| #![trigger order[a]] 0 <= a < order.len() implies {
        let r = keyed_rows(rows, caps)[order[a]].1;
        r.0.len() == 0 || parsed_u16(r.0) is Some
    } by {
        let k = keyed[order[a]];
        if let Some(x) = k.0 {
            lemma_decimal_parses(x);
        }
    }
    assert forall|a: int, b: int| #![trigger order[a], order[b]] 0 <= a < b < order.len() implies {
        let ra = keyed_rows(rows, caps)[order[a]].1;
        let rb = keyed_rows(rows, caps)[order[b]].1;
        &&& (ra.0.len() == 0 ==> rb.0.len() == 0)
        &&& (parsed_u16(ra.0) is Some && parsed_u16(rb.0) is Some ==> parsed_u16(ra.0).unwrap() <= parsed_u16(rb.0).unwrap())
        &&& (ra.0.len() == 0 && rb.0.len() == 0 ==> text_lt(ra.1, rb.1) || ra.1 == rb.1)
    } by {
        let ka = keyed[order[a]];
        let kb = keyed[order[b]];
        assert(0 <= order[a] < keyed.len());
        assert(0 <= order[b] < keyed.len());
        assert(row_precedes(keyed, order[a], order[b]));
        assert(ka.1.0 == match ka.0 { Some(id) => decimal(id as nat), None => Seq::<char>::empty() });
        assert(kb.1.0 == match kb.0 { Some(id) => decimal(id as nat), None => Seq::<char>::empty() });
        if let Some(x) = ka.0 {
            lemma_decimal_parses(x);
            lemma_decimal_digits(x as nat);
        }
        if let Some(y) = kb.0 {
            lemma_decimal_parses(y);
            lemma_decimal_digits(y as nat);
        }
        assert(parsed_u16(Seq::<char>::empty()) is None);
        assert(ka.1.0.len() == 0 <==> ka.0 is None);
        assert(kb.1.0.len() == 0 <==> kb.0 is None);
        assert(ka.1.0.len() == 0 ==> kb.1.0.len() == 0);
        match (ka.0, kb.0) {
            (Some(x), Some(y)) => {
                assert(parsed_u16(ka.1.0) == Some(x));
                assert(parsed_u16(kb.1.0) == Some(y));
                assert(x <= y);
                assert(parsed_u16(ka.1.0) is Some && parsed_u16(kb.1.0) is Some ==> parsed_u16(ka.1.0).unwrap() <= parsed_u16(kb.1.0).unwrap());
            },
            _ => {
                assert(parsed_u16(ka.1.0) is None || parsed_u16(kb.1.0) is None);
                assert(parsed_u16(ka.1.0) is Some && parsed_u16(kb.1.0) is Some ==> parsed_u16(ka.1.0).unwrap() <= parsed_u16(kb.1.0).unwrap());
            },
        }
        assert(ka.1.0.len() == 0 && kb.1.0.len() == 0 ==> text_lt(ka.1.1, kb.1.1) || ka.1.1 == kb.1.1);
    }
}

/// In the keyed country list, the id written in a row is its sort key: the key's
/// decimal form, or nothing for a row without a key.
proof fn lemma_keyed_id_text(rows: Seq<(Seq<char>, Seq<char>, Seq<char>, Seq<char>)>, caps: Seq<(u16, Seq<char>)>)
    ensures
        forall|i: int| 0 <= i < keyed_rows(rows, caps).len() ==> (#[trigger] keyed_rows(rows, caps)[i]).1.0 == match
            keyed_rows(rows, caps)[i].0 {
            Some(id) => decimal(id as nat),
            None => Seq::<char>::empty(),
        },
{
    let n = rows.len();
    let m = rows.map_values(|r: (Seq<char>, Seq<char>, Seq<char>, Seq<char>)| renumbered(r, caps));
    lemma_added_id_text(rows, caps);
    assert forall|i: int| 0 <= i < keyed_rows(rows, caps).len() implies (#[trigger] keyed_rows(rows, caps)[i]).1.0 == match
        keyed_rows(rows, caps)[i].0 {
        Some(id) => decimal(id as nat),
        None => Seq::<char>::empty(),
    } by {
        if i < n {
            assert(keyed_rows(rows, caps)[i] == m[i]);
        } else {
            assert(keyed_rows(rows, caps)[i] == added_rows(rows, caps)[i - n]);
        }
    }
}

proof fn lemma_added_id_text(rows: Seq<(Seq<char>, Seq<char>, Seq<char>, Seq<char>)>, caps: Seq<(u16, Seq<char>)>)
    ensures
        forall|i: int| 0 <= i < added_rows(rows, caps).len() ==> (#[trigger] added_rows(rows, caps)[i]).0 is Some
            && added_rows(rows, caps)[i].1.0 == decimal(added_rows(rows, caps)[i].0.unwrap() as nat),
    decreases caps.len(),
{
    if caps.len() > 0 {
        lemma_added_id_text(rows, caps.drop_last());
    }
}

/// How a conquest ended for the defender, as the caption words it: a defeated defender
/// "has been completely defeated" with the number of countries remaining; a
/// capitulating one cedes its further territories ("territory" for one, "territories"
/// otherwise) to the attacker; a defender whose capital fell continues in exile,
/// relocated to its new capital from round 229 on; otherwise the sentence just ends.
pub proof fn law_outcome_wording(
    defeated: bool,
    capitulation: bool,
    fallen: bool,
    relocated: bool,
    remaining: nat,
    ceded: nat,
    attacker: Seq<char>,
    defender: Seq<char>,
    new_capital: Seq<char>,
)
    ensures
        defeated ==> outcome_text(defeated, capitulation, fallen, relocated, remaining, ceded, attacker, defender, new_capital)
            == ".\n"@ + defender + " has been completely defeated.\n"@ + decimal(remaining) + " countries remaining."@,
        !defeated && capitulation ==> outcome_text(defeated, capitulation, fallen, relocated, remaining, ceded, attacker,
            defender, new_capital) == ".\n"@ + defender + " capitulated, ceding "@ + decimal(ceded)
            + (if ceded == 1 { " additional territory to "@ } else { " additional territories to "@ }) + (attacker + "."@),
        !defeated && !capitulation && fallen && relocated ==> outcome_text(defeated, capitulation, fallen, relocated,
            remaining, ceded, attacker, defender, new_capital) == ".\nThe government of "@ + defender
            + " relocated its capital to "@ + new_capital + " and continues in exile."@,
        !defeated && !capitulation && fallen && !relocated ==> outcome_text(defeated, capitulation, fallen, relocated,
            remaining, ceded, attacker, defender, new_capital) == ".\nThe government of "@ + defender
            + " continues in exile, based in its remaining territories."@,
        !defeated && !capitulation && !fallen ==> outcome_text(defeated, capitulation, fallen, relocated, remaining,
            ceded, attacker, defender, new_capital) == "."@,
{
    lemma_capitulation_outcome(fallen, relocated, remaining, ceded, attacker, defender, new_capital);
}

/// The caption of a conquest of a territory other than the attacking country's own
/// homeland: the date, "<attacker> conquered <territory> territory", "previously
/// occupied by <defender>" when the territory was not its occupier's own, the outcome,
/// and the link line before round 167. The round is flagged for its caption exactly
/// when the caption differs.
pub proof fn law_conquest_caption(round: usize, state: ReplayState, rec: RoundRecords, names: Seq<(u16, Seq<char>)>)
    requires
        is_conquest(rec),
        conquered_id(rec) != attacker_of(rec, names),
    ensures
        expected_caption(round, state, rec, names) == date_prefix(month_index(round, state.initial_month, state.initial_year))
            + (rec.post.attacker@ + " conquered "@ + rec.post.territory@ + " territory"@
            + ((if state.country_data@[conquered_id(rec)] != conquered_id(rec) {
                " previously occupied by "@ + rec.post.defender@
            } else {
                Seq::empty()
            })
            + outcome_text(
                defeated(state, rec, names),
                rec.conquest.capitulation,
                rec.conquest.fallen_capital_remnant,
                round >= 229,
                owner_set(owners_after(state, rec, names)).len(),
                ceded_count(rec),
                rec.post.attacker@,
                rec.post.defender@,
                new_capital_name(rec),
            )))
            + (if round < 167 { "\nCheck the full map at https://worldwarbot.com"@ } else { Seq::empty() }),
        record_issues(round, state, rec, names).contains(RoundIssue::Caption)
            <==> rec.post.caption@ != expected_caption(round, state, rec, names),
{
    let e = expected_caption(round, state, rec, names);
    let r = record_issues(round, state, rec, names);
    if rec.post.caption@ != e {
        assert(r[0] == RoundIssue::Caption);
    } else {
        assert forall|i: int| 0 <= i < r.len() implies r[i] != RoundIssue::Caption by {}
    }
}

/// The remaining play time names the days and the hours that are not zero, in this
/// order, and reads "less than 1 hour" when both are zero.
pub proof fn law_days_hours_wording(days: u64, hours: u64)
    ensures
        days_hours_parts(days, hours) == if days == 0 && hours == 0 {
            seq!["less than 1 hour"@]
        } else {
            (if days > 0 { seq![amount_text(days as nat, "day"@)] } else { Seq::empty() })
                + (if hours > 0 { seq![amount_text(hours as nat, "hour"@)] } else { Seq::empty() })
        },
{
}

} // verus!
