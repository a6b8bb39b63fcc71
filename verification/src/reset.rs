//! Starting a new game: reading the country list, renumbering its rows with the ids
//! that the game gives the countries in its first round, and deriving the month and
//! year before the first round.

use std::collections::HashMap;
use vstd::prelude::*;
use crate::calendar::{month_number, month_to_num};
use crate::rounds::{id_of_name, lookup_id, names_view};
use crate::text::{
    decimal, lines, parse_i32, parse_u16, parsed_i32, parsed_u16, split, split_lines,
    split_text, str_eq, text_chars, text_less, text_lt, texts, trim, trim_bounds, trim_commas,
    trim_trailing_commas, lemma_text_lt_order, decimal_string,
};

verus! {

broadcast use vstd::std_specs::hash::group_hash_axioms;

/// A row of the country list: `id;name;longitude;latitude`.
pub struct CountryRow {
    pub id: String,
    pub name: String,
    pub lon: String,
    pub lat: String,
}

/// The four fields of a row.
pub open spec fn row_view(r: CountryRow) -> (Seq<char>, Seq<char>, Seq<char>, Seq<char>) {
    (r.id@, r.name@, r.lon@, r.lat@)
}

/// The fields of the rows.
pub open spec fn rows_view(rows: Seq<CountryRow>) -> Seq<(Seq<char>, Seq<char>, Seq<char>, Seq<char>)> {
    rows.map_values(|r: CountryRow| row_view(r))
}

/// The lines of `ls` that hold more than whitespace.
pub open spec fn nonblank(ls: Seq<Seq<char>>) -> Seq<Seq<char>>
    decreases ls.len(),
{
    if ls.len() == 0 {
        Seq::empty()
    } else {
        let prev = nonblank(ls.drop_last());
        if trim(ls.last()).len() > 0 { prev.push(ls.last()) } else { prev }
    }
}

/// The row of a line: its `;`-separated fields, the longitude and latitude empty when
/// missing. The line must have at least two fields.
pub open spec fn row_of_line(line: Seq<char>) -> (Seq<char>, Seq<char>, Seq<char>, Seq<char>) {
    let parts = split(line, ';');
    (
        parts[0],
        parts[1],
        if parts.len() > 2 { parts[2] } else { Seq::empty() },
        if parts.len() > 3 { parts[3] } else { Seq::empty() },
    )
}

/// Each line of `ls` trimmed and followed by a newline.
pub open spec fn normalized(ls: Seq<Seq<char>>) -> Seq<char>
    decreases ls.len(),
{
    if ls.len() == 0 { Seq::empty() } else { normalized(ls.drop_last()) + trim(ls.last()) + "\n"@ }
}

/// Every non-blank line of `content` has a `;`.
pub open spec fn rows_readable(content: Seq<char>) -> bool {
    forall|i: int| 0 <= i < nonblank(lines(content)).len() ==> #[trigger] split(nonblank(lines(content))[i], ';').len() >= 2
}

/// Reads the country list `content`: one row for each non-blank line, and the list
/// rewritten with each non-blank line trimmed. `None` when a non-blank line has no `;`.
pub fn read_country_rows(content: &str) -> (r: Option<(Vec<CountryRow>, String)>)
    ensures
        r is Some <==> rows_readable(content@),
        r matches Some((rows, text)) ==> {
            &&& rows_view(rows@) == nonblank(lines(content@)).map_values(|l: Seq<char>| row_of_line(l))
            &&& text@ == normalized(nonblank(lines(content@)))
        },
{
    let ls = split_lines(content);
    let ghost all = texts(ls@);
    let mut rows: Vec<CountryRow> = Vec::new();
    let mut text = String::new();
    let mut i: usize = 0;
    proof {
        assert(all.take(0) =~= Seq::<Seq<char>>::empty());
    }
    while i < ls.len()
        invariant
            i <= ls.len(),
            all == texts(ls@),
            all == lines(content@),
            rows_view(rows@) == nonblank(all.take(i as int)).map_values(|l: Seq<char>| row_of_line(l)),
            text@ == normalized(nonblank(all.take(i as int))),
            forall|k: int| 0 <= k < nonblank(all.take(i as int)).len()
                ==> #[trigger] split(nonblank(all.take(i as int))[k], ';').len() >= 2,
        decreases ls.len() - i,
    {
        let ghost prev = nonblank(all.take(i as int));
        proof {
            assert(all.take(i + 1).drop_last() =~= all.take(i as int));
            assert(all.take(i + 1).last() == ls@[i as int]@);
        }
        let line = ls[i].as_str();
        let chars = text_chars(line);
        let (lo, hi) = trim_bounds(&chars, 0, chars.len());
        assert(chars@.subrange(0, chars@.len() as int) =~= line@);
        if lo < hi {
            let parts = split_text(line, ';');
            if parts.len() < 2 {
                proof {
                    let nb = nonblank(lines(content@));
                    lemma_nonblank_prefix(all, i as int + 1);
                    let k = prev.len() as int;
                    assert(trim(line@).len() > 0);
                    assert(nonblank(all.take(i + 1)) == prev.push(line@));
                    assert(nonblank(all.take(i + 1))[k] == line@);
                    assert(nonblank(all.take(i + 1))[k] == nonblank(all)[k]);
                    assert(nb[k] == line@);
                    assert(split(nb[k], ';').len() < 2);
                }
                return None;
            }
            let trimmed = line.substring_char(lo, hi).to_owned();
            assert(trimmed@ =~= chars@.subrange(lo as int, hi as int));
            text.append(trimmed.as_str());
            text.append("\n");
            let lon = if parts.len() > 2 { parts[2].clone() } else { String::new() };
            let lat = if parts.len() > 3 { parts[3].clone() } else { String::new() };
            let row = CountryRow { id: parts[0].clone(), name: parts[1].clone(), lon, lat };
            proof {
                let sp = split(line@, ';');
                assert(texts(parts@)[0] == sp[0]);
                assert(texts(parts@)[1] == sp[1]);
                if parts@.len() > 2 { assert(texts(parts@)[2] == sp[2]); }
                if parts@.len() > 3 { assert(texts(parts@)[3] == sp[3]); }
                reveal_strlit("");
                assert(row_view(row) == row_of_line(line@));
            }
            let ghost rows0 = rows@;
            rows.push(row);
            proof {
                assert(rows_view(rows@) =~= rows_view(rows0).push(row_view(row)));
                assert(nonblank(all.take(i + 1)) == prev.push(line@));
                assert(prev.push(line@).map_values(|l: Seq<char>| row_of_line(l))
                    =~= prev.map_values(|l: Seq<char>| row_of_line(l)).push(row_of_line(line@)));
                assert(prev.push(line@).drop_last() =~= prev);
                assert(text@ =~= normalized(prev.push(line@)));
            }
        } else {
            assert(nonblank(all.take(i + 1)) == prev);
        }
        i += 1;
    }
    proof {
        assert(all.take(all.len() as int) =~= all);
    }
    Some((rows, text))
}

/// The non-blank lines of a prefix are a prefix of the non-blank lines.
proof fn lemma_nonblank_prefix(ls: Seq<Seq<char>>, n: int)
    requires
        0 <= n <= ls.len(),
    ensures
        nonblank(ls.take(n)).len() <= nonblank(ls).len(),
        forall|k: int| 0 <= k < nonblank(ls.take(n)).len() ==> #[trigger] nonblank(ls.take(n))[k] == nonblank(ls)[k],
    decreases ls.len() - n,
{
    if n < ls.len() {
        lemma_nonblank_prefix(ls, n + 1);
        assert(ls.take(n + 1).drop_last() =~= ls.take(n));
        let a = nonblank(ls.take(n));
        let b = nonblank(ls.take(n + 1));
        assert(b == (if trim(ls[n]).len() > 0 { a.push(ls[n]) } else { a }));
        assert forall|k: int| 0 <= k < a.len() implies #[trigger] a[k] == nonblank(ls)[k] by {
            assert(a[k] == b[k]);
        }
    } else {
        assert(ls.take(n) =~= ls);
    }
}

/// The month and year before the game's first round, read from the first round's
/// caption ("<Month> <year>, ..."): the month before the caption's. The fallback is
/// kept when the caption does not start with a month name, and its year when the year
/// does not parse. `None` when the month before January of the earliest `i32` year
/// would be needed.
pub open spec fn caption_start(caption: Seq<char>, month: u32, year: i32) -> Option<(u32, i32)> {
    let parts = split(caption, ' ');
    if parts.len() >= 2 && month_number(parts[0]) is Some {
        let m = month_number(parts[0]).unwrap();
        let y = match parsed_i32(trim_commas(parts[1])) {
            Some(y) => y,
            None => year,
        };
        if m == 1 {
            if y == i32::MIN { None } else { Some((12u32, (y - 1) as i32)) }
        } else {
            Some(((m - 1) as u32, y))
        }
    } else {
        Some((month, year))
    }
}

/// The month and year before the first round, from the first round's caption, with
/// `month` and `year` as the fallback.
pub fn initial_date(caption: &str, month: u32, year: i32) -> (r: Option<(u32, i32)>)
    ensures
        r == caption_start(caption@, month, year),
{
    let parts = split_text(caption, ' ');
    proof {
        crate::laws::law_month_number_then_name(texts(parts@)[0]);
    }
    if parts.len() >= 2 {
        assert(texts(parts@)[0] == parts@[0]@);
        assert(texts(parts@)[1] == parts@[1]@);
        match month_to_num(parts[0].as_str()) {
            Some(m) => {
                let digits = trim_trailing_commas(parts[1].as_str());
                let y = match parse_i32(digits.as_str()) {
                    Some(y) => y,
                    None => year,
                };
                if m == 1 {
                    if y == i32::MIN { None } else { Some((12, y - 1)) }
                } else {
                    Some((m - 1, y))
                }
            },
            None => Some((month, year)),
        }
    } else {
        Some((month, year))
    }
}

/// A row renumbered with the capitals of the first round: its sort key, the id the
/// game gives its name if any, and its fields with the id field set to that id (empty
/// when the game does not know the name).
pub open spec fn renumbered(
    r: (Seq<char>, Seq<char>, Seq<char>, Seq<char>),
    caps: Seq<(u16, Seq<char>)>,
) -> (Option<u16>, (Seq<char>, Seq<char>, Seq<char>, Seq<char>)) {
    let k = id_of_name(caps, r.1);
    (k, (match k { Some(id) => decimal(id as nat), None => Seq::empty() }, r.1, r.2, r.3))
}

/// Some row is called `name`.
pub open spec fn has_row_named(rows: Seq<(Seq<char>, Seq<char>, Seq<char>, Seq<char>)>, name: Seq<char>) -> bool {
    exists|j: int| 0 <= j < rows.len() && #[trigger] rows[j].1 == name
}

/// New rows, in order, for the capitals whose country has no row.
pub open spec fn added_rows(
    rows: Seq<(Seq<char>, Seq<char>, Seq<char>, Seq<char>)>,
    caps: Seq<(u16, Seq<char>)>,
) -> Seq<(Option<u16>, (Seq<char>, Seq<char>, Seq<char>, Seq<char>))>
    decreases caps.len(),
{
    if caps.len() == 0 {
        Seq::empty()
    } else {
        let prev = added_rows(rows, caps.drop_last());
        let (id, name) = caps.last();
        if has_row_named(rows, name) {
            prev
        } else {
            prev.push((Some(id), (decimal(id as nat), name, Seq::empty(), Seq::empty())))
        }
    }
}

/// The renumbered rows followed by the added ones, each with its sort key.
pub open spec fn keyed_rows(
    rows: Seq<(Seq<char>, Seq<char>, Seq<char>, Seq<char>)>,
    caps: Seq<(u16, Seq<char>)>,
) -> Seq<(Option<u16>, (Seq<char>, Seq<char>, Seq<char>, Seq<char>))> {
    rows.map_values(|r: (Seq<char>, Seq<char>, Seq<char>, Seq<char>)| renumbered(r, caps)) + added_rows(rows, caps)
}

/// Row `a` sorts strictly before row `b`: rows with an id first, by id; rows
/// without one by name.
pub open spec fn key_before(
    a: (Option<u16>, (Seq<char>, Seq<char>, Seq<char>, Seq<char>)),
    b: (Option<u16>, (Seq<char>, Seq<char>, Seq<char>, Seq<char>)),
) -> bool {
    match (a.0, b.0) {
        (Some(x), Some(y)) => x < y,
        (Some(_), None) => true,
        (None, Some(_)) => false,
        (None, None) => text_lt(a.1.1, b.1.1),
    }
}

/// Rows `a` and `b` sort as equal: the same id, or no id and the same name.
pub open spec fn key_same(
    a: (Option<u16>, (Seq<char>, Seq<char>, Seq<char>, Seq<char>)),
    b: (Option<u16>, (Seq<char>, Seq<char>, Seq<char>, Seq<char>)),
) -> bool {
    match (a.0, b.0) {
        (Some(x), Some(y)) => x == y,
        (None, None) => a.1.1 == b.1.1,
        _ => false,
    }
}

/// In a stable sort of `keyed`, the row at position `i` comes before the one at `j`.
pub open spec fn row_precedes(keyed: Seq<(Option<u16>, (Seq<char>, Seq<char>, Seq<char>, Seq<char>))>, i: int, j: int) -> bool {
    key_before(keyed[i], keyed[j]) || (key_same(keyed[i], keyed[j]) && i < j)
}

/// `order` lists every position of `keyed` once, in the order of a stable sort.
pub open spec fn is_row_order(order: Seq<int>, keyed: Seq<(Option<u16>, (Seq<char>, Seq<char>, Seq<char>, Seq<char>))>) -> bool {
    &&& order.len() == keyed.len()
    &&& order.no_duplicates()
    &&& forall|a: int| 0 <= a < order.len() ==> 0 <= #[trigger] order[a] < keyed.len()
    &&& forall|a: int, b: int| 0 <= a < b < order.len() ==> row_precedes(keyed, order[a], order[b])
}

/// The sort keys and fields of keyed rows.
pub open spec fn keyed_view(v: Seq<(Option<u16>, CountryRow)>) -> Seq<(Option<u16>, (Seq<char>, Seq<char>, Seq<char>, Seq<char>))> {
    v.map_values(|e: (Option<u16>, CountryRow)| (e.0, row_view(e.1)))
}

proof fn lemma_row_precedes(keyed: Seq<(Option<u16>, (Seq<char>, Seq<char>, Seq<char>, Seq<char>))>, i: int, j: int, l: int)
    ensures
        i != j ==> row_precedes(keyed, i, j) || row_precedes(keyed, j, i),
        row_precedes(keyed, i, j) ==> !row_precedes(keyed, j, i),
        row_precedes(keyed, i, j) && row_precedes(keyed, j, l) ==> row_precedes(keyed, i, l),
{
    lemma_text_lt_order(keyed[i].1.1, keyed[j].1.1, keyed[l].1.1);
}

fn copy_row(r: &CountryRow) -> (c: CountryRow)
    ensures
        row_view(c) == row_view(*r),
{
    CountryRow { id: r.id.clone(), name: r.name.clone(), lon: r.lon.clone(), lat: r.lat.clone() }
}

/// The rows renumbered and completed with the capitals of the first round, with
/// their sort keys.
fn keyed_from(rows: &Vec<CountryRow>, capitals: &Vec<(u16, String)>) -> (keyed: Vec<(Option<u16>, CountryRow)>)
    ensures
        keyed_view(keyed@) == keyed_rows(rows_view(rows@), names_view(capitals@)),
{
    let ghost rv = rows_view(rows@);
    let ghost cv = names_view(capitals@);
    let mut keyed: Vec<(Option<u16>, CountryRow)> = Vec::new();
    let mut i: usize = 0;
    while i < rows.len()
        invariant
            i <= rows.len(),
            rv == rows_view(rows@),
            cv == names_view(capitals@),
            keyed_view(keyed@) == rv.take(i as int).map_values(|r: (Seq<char>, Seq<char>, Seq<char>, Seq<char>)| renumbered(r, cv)),
        decreases rows.len() - i,
    {
        let r = &rows[i];
        let k = lookup_id(capitals, &r.name);
        let id = match k {
            Some(x) => decimal_string(x as u64),
            None => String::new(),
        };
        let row = CountryRow { id, name: r.name.clone(), lon: r.lon.clone(), lat: r.lat.clone() };
        let ghost before = keyed@;
        keyed.push((k, row));
        proof {
            assert(rv[i as int] == row_view(rows@[i as int]));
            assert(keyed_view(keyed@) =~= keyed_view(before).push((k, row_view(row))));
            assert((k, row_view(row)) == renumbered(rv[i as int], cv));
            assert(rv.take(i + 1) =~= rv.take(i as int).push(rv[i as int]));
            assert(keyed_view(keyed@) =~= rv.take(i + 1).map_values(|r: (Seq<char>, Seq<char>, Seq<char>, Seq<char>)| renumbered(r, cv)));
        }
        i += 1;
    }
    assert(rv.take(rv.len() as int) =~= rv);
    let ghost base = keyed_view(keyed@);
    let mut c: usize = 0;
    assert(cv.take(0) =~= Seq::<(u16, Seq<char>)>::empty());
    assert(base + added_rows(rv, cv.take(0)) =~= base);
    while c < capitals.len()
        invariant
            c <= capitals.len(),
            rv == rows_view(rows@),
            cv == names_view(capitals@),
            keyed_view(keyed@) == base + added_rows(rv, cv.take(c as int)),
        decreases capitals.len() - c,
    {
        let (id, name) = (capitals[c].0, &capitals[c].1);
        proof {
            assert(cv.take(c + 1).drop_last() =~= cv.take(c as int));
            assert(cv.take(c + 1).last() == (id, name@));
        }
        let mut found = false;
        let mut j: usize = 0;
        while j < rows.len()
            invariant
                j <= rows.len(),
                rv == rows_view(rows@),
                found == exists|q: int| 0 <= q < j && #[trigger] rv[q].1 == name@,
            decreases rows.len() - j,
        {
            assert(rv[j as int].1 == rows@[j as int].name@);
            if str_eq(rows[j].name.as_str(), name.as_str()) {
                found = true;
            }
            j += 1;
        }
        if !found {
            let row = CountryRow { id: decimal_string(id as u64), name: name.clone(), lon: String::new(), lat: String::new() };
            let ghost before = keyed@;
            keyed.push((Some(id), row));
            proof {
                reveal_strlit("");
                assert(keyed_view(keyed@) =~= keyed_view(before).push((Some(id), row_view(row))));
            }
        }
        proof {
            assert(keyed_view(keyed@) =~= base + added_rows(rv, cv.take(c + 1)));
        }
        c += 1;
    }
    assert(cv.take(cv.len() as int) =~= cv);
    keyed
}

/// Whether the row at position `i` comes before the one at `j` in a stable sort.
fn precedes_at(keyed: &Vec<(Option<u16>, CountryRow)>, i: usize, j: usize) -> (r: bool)
    requires
        i < keyed.len(),
        j < keyed.len(),
    ensures
        r == row_precedes(keyed_view(keyed@), i as int, j as int),
{
    let a = &keyed[i];
    let b = &keyed[j];
    match (a.0, b.0) {
        (Some(x), Some(y)) => x < y || (x == y && i < j),
        (Some(_), None) => true,
        (None, Some(_)) => false,
        (None, None) => text_less(a.1.name.as_str(), b.1.name.as_str())
            || (str_eq(a.1.name.as_str(), b.1.name.as_str()) && i < j),
    }
}

/// The country list renumbered with the capitals of the first round, `(id, name)` for
/// each country: rows take the id of their name (none when the game does not know
/// it), a row is added for each capital whose name no row has, and the rows are
/// sorted stably, rows with an id first by id, the others by name.
pub fn remap_rows(rows: &Vec<CountryRow>, capitals: &Vec<(u16, String)>) -> (out: Vec<CountryRow>)
    ensures
        exists|order: Seq<int>| #[trigger] is_row_order(order, keyed_rows(rows_view(rows@), names_view(capitals@)))
            && rows_view(out@) == order.map_values(|i: int| keyed_rows(rows_view(rows@), names_view(capitals@))[i].1),
{
    let keyed = keyed_from(rows, capitals);
    let ghost kv = keyed_view(keyed@);
    let n = keyed.len();
    let mut order: Vec<usize> = Vec::new();
    let mut i: usize = 0;
    while i < n
        invariant
            i <= n,
            n == keyed.len(),
            kv == keyed_view(keyed@),
            order@.len() == i,
            forall|a: int| 0 <= a < order@.len() ==> #[trigger] order@[a] < i,
            order@.no_duplicates(),
            forall|a: int, b: int| 0 <= a < b < order@.len() ==> row_precedes(kv, order@[a] as int, order@[b] as int),
        decreases n - i,
    {
        let mut p: usize = 0;
        while p < order.len() && !precedes_at(&keyed, i, order[p])
            invariant
                p <= order@.len(),
                i < n,
                n == keyed.len(),
                kv == keyed_view(keyed@),
                forall|a: int| 0 <= a < order@.len() ==> #[trigger] order@[a] < i,
                forall|q: int| 0 <= q < p ==> !row_precedes(kv, i as int, #[trigger] order@[q] as int),
            decreases order@.len() - p,
        {
            p += 1;
        }
        let ghost old_order = order@;
        order.insert(p, i);
        proof {
            old_order.insert_ensures(p as int, i);
            assert forall|a: int, b: int| 0 <= a < b < order@.len() implies
                row_precedes(kv, order@[a] as int, order@[b] as int) by {
                if b < p {
                    assert(order@[a] == old_order[a]);
                    assert(order@[b] == old_order[b]);
                } else if b == p {
                    assert(order@[a] == old_order[a]);
                    lemma_row_precedes(kv, i as int, old_order[a] as int, i as int);
                } else if a < p {
                    assert(order@[a] == old_order[a]);
                    assert(order@[b] == old_order[b - 1]);
                } else if a == p {
                    assert(order@[b] == old_order[b - 1]);
                    assert(row_precedes(kv, i as int, old_order[p as int] as int));
                    if b - 1 > p {
                        lemma_row_precedes(kv, i as int, old_order[p as int] as int, old_order[b - 1] as int);
                    }
                } else {
                    assert(order@[a] == old_order[a - 1]);
                    assert(order@[b] == old_order[b - 1]);
                }
            }
            assert forall|a: int, b: int| 0 <= a < order@.len() && 0 <= b < order@.len() && a != b
                implies order@[a] != order@[b] by {
                if a != p && b != p {
                    let a0 = if a < p { a } else { a - 1 };
                    let b0 = if b < p { b } else { b - 1 };
                    assert(order@[a] == old_order[a0]);
                    assert(order@[b] == old_order[b0]);
                } else if a == p {
                    let b0 = if b < p { b } else { b - 1 };
                    assert(order@[b] == old_order[b0]);
                } else {
                    let a0 = if a < p { a } else { a - 1 };
                    assert(order@[a] == old_order[a0]);
                }
            }
            assert forall|a: int| 0 <= a < order@.len() implies #[trigger] order@[a] < i + 1 by {
                if a < p {
                    assert(order@[a] == old_order[a]);
                } else if a > p {
                    assert(order@[a] == old_order[a - 1]);
                }
            }
        }
        i += 1;
    }
    let ghost ord = order@.map_values(|u: usize| u as int);
    let mut out: Vec<CountryRow> = Vec::new();
    let mut k: usize = 0;
    while k < n
        invariant
            k <= n,
            n == keyed.len(),
            order@.len() == n,
            kv == keyed_view(keyed@),
            ord == order@.map_values(|u: usize| u as int),
            forall|a: int| 0 <= a < order@.len() ==> #[trigger] order@[a] < n,
            rows_view(out@) == ord.take(k as int).map_values(|q: int| kv[q].1),
        decreases n - k,
    {
        let idx = order[k];
        let row = copy_row(&keyed[idx].1);
        let ghost before = out@;
        out.push(row);
        proof {
            assert(ord.take(k + 1) =~= ord.take(k as int).push(idx as int));
            assert(rows_view(out@) =~= rows_view(before).push(row_view(row)));
            assert(kv[idx as int].1 == row_view(keyed@[idx as int].1));
            assert(rows_view(out@) =~= ord.take(k + 1).map_values(|q: int| kv[q].1));
        }
        k += 1;
    }
    proof {
        assert(ord.take(n as int) =~= ord);
        assert(is_row_order(ord, kv)) by {
            assert forall|a: int, b: int| 0 <= a < ord.len() && 0 <= b < ord.len() && a != b
                implies ord[a] != ord[b] by {
                assert(order@[a] != order@[b]);
            }
            assert forall|a: int, b: int| 0 <= a < b < ord.len() implies row_precedes(kv, ord[a], ord[b]) by {
                assert(row_precedes(kv, order@[a] as int, order@[b] as int));
            }
            assert forall|a: int| 0 <= a < ord.len() implies 0 <= #[trigger] ord[a] < kv.len() by {
                assert(order@[a] < n);
            }
        }
    }
    out
}

/// The country list written out: one `id;name;longitude;latitude` line per row.
pub open spec fn rows_text(rows: Seq<(Seq<char>, Seq<char>, Seq<char>, Seq<char>)>) -> Seq<char>
    decreases rows.len(),
{
    if rows.len() == 0 {
        Seq::empty()
    } else {
        let r = rows.last();
        rows_text(rows.drop_last()) + r.0 + ";"@ + r.1 + ";"@ + r.2 + ";"@ + r.3 + "\n"@
    }
}

/// Writes the country list out: one `id;name;longitude;latitude` line per row.
pub fn country_rows_text(rows: &Vec<CountryRow>) -> (s: String)
    ensures
        s@ == rows_text(rows_view(rows@)),
{
    let ghost rv = rows_view(rows@);
    let mut s = String::new();
    let mut i: usize = 0;
    assert(rv.take(0) =~= Seq::<(Seq<char>, Seq<char>, Seq<char>, Seq<char>)>::empty());
    while i < rows.len()
        invariant
            i <= rows.len(),
            rv == rows_view(rows@),
            s@ == rows_text(rv.take(i as int)),
        decreases rows.len() - i,
    {
        let r = &rows[i];
        s.append(r.id.as_str());
        s.append(";");
        s.append(r.name.as_str());
        s.append(";");
        s.append(r.lon.as_str());
        s.append(";");
        s.append(r.lat.as_str());
        s.append("\n");
        proof {
            assert(rv.take(i + 1).drop_last() =~= rv.take(i as int));
            assert(rv.take(i + 1).last() == row_view(rows@[i as int]));
            assert(s@ =~= rows_text(rv.take(i + 1)));
        }
        i += 1;
    }
    assert(rv.take(rv.len() as int) =~= rv);
    s
}

/// Every non-empty id field is a number.
pub open spec fn ids_parse(rows: Seq<(Seq<char>, Seq<char>, Seq<char>, Seq<char>)>) -> bool {
    forall|j: int| 0 <= j < rows.len() && rows[j].0.len() > 0 ==> (#[trigger] parsed_u16(rows[j].0)) is Some
}

/// The ids of the rows that have one.
pub open spec fn row_ids(rows: Seq<(Seq<char>, Seq<char>, Seq<char>, Seq<char>)>) -> Set<u16> {
    Set::new(|k: u16| exists|j: int| 0 <= j < rows.len() && rows[j].0.len() > 0 && #[trigger] parsed_u16(rows[j].0) == Some(k))
}

/// The ownership map of a new game: every country with an id owns its own territory.
/// `None` when a non-empty id is not a number.
pub fn starting_owners(rows: &Vec<CountryRow>) -> (r: Option<HashMap<u16, u16>>)
    ensures
        r is Some <==> ids_parse(rows_view(rows@)),
        r matches Some(m) ==> m@.dom() == row_ids(rows_view(rows@))
            && forall|k: u16| #[trigger] m@.contains_key(k) ==> m@[k] == k,
{
    let ghost rv = rows_view(rows@);
    let mut m: HashMap<u16, u16> = HashMap::new();
    let mut i: usize = 0;
    while i < rows.len()
        invariant
            i <= rows.len(),
            rv == rows_view(rows@),
            forall|j: int| 0 <= j < i && rv[j].0.len() > 0 ==> (#[trigger] parsed_u16(rv[j].0)) is Some,
            m@.dom() == Set::new(|k: u16| exists|j: int| 0 <= j < i && rv[j].0.len() > 0 && #[trigger] parsed_u16(rv[j].0) == Some(k)),
            forall|k: u16| #[trigger] m@.contains_key(k) ==> m@[k] == k,
        decreases rows.len() - i,
    {
        assert(rv[i as int] == row_view(rows@[i as int]));
        if rows[i].id.as_str().unicode_len() > 0 {
            match parse_u16(rows[i].id.as_str()) {
                Some(id) => {
                    m.insert(id, id);
                },
                None => {
                    return None;
                },
            }
        }
        proof {
            assert(m@.dom() =~= Set::new(|k: u16| exists|j: int| 0 <= j < i + 1 && rv[j].0.len() > 0 && #[trigger] parsed_u16(rv[j].0) == Some(k))) by {
                assert forall|k: u16| m@.dom().contains(k) implies
                    (exists|j: int| 0 <= j < i + 1 && rv[j].0.len() > 0 && #[trigger] parsed_u16(rv[j].0) == Some(k)) by {
                    if rv[i as int].0.len() > 0 && parsed_u16(rv[i as int].0) == Some(k) {
                    } else {
                        let j = choose|j: int| 0 <= j < i && rv[j].0.len() > 0 && #[trigger] parsed_u16(rv[j].0) == Some(k);
                    }
                }
            }
        }
        i += 1;
    }
    proof {
        assert(m@.dom() =~= row_ids(rv));
    }
    Some(m)
}

} // verus!
