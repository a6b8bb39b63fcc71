//! The country list (`country_data.csv`) and the country colours.
//!
//! Each line of the country list reads `id;name;longitude;latitude`; blank lines are
//! skipped, and lines whose id is missing or not a number are ignored.

use std::collections::HashMap;
use vstd::prelude::*;
use crate::json::{json_node_of, parse_json_node, JsonNode, JsonNodeView};
use crate::text::{first_index, str_eq, lemma_first_index, parse_u16_chars, parsed_u16, split, text_chars, trim, trim_bounds};

verus! {

broadcast use vstd::std_specs::hash::group_hash_axioms;

/// An RGB colour.
#[derive(Clone, Copy, Debug, PartialEq, Eq, Structural)]
pub struct Rgb {
    pub r: u8,
    pub g: u8,
    pub b: u8,
}

/// A country (or territory) of the game.
pub struct Country {
    /// Display name.
    pub name: String,
    /// Colour of the country on the game's map, when known.
    pub color: Option<Rgb>,
}

/// The first two `;`-separated fields of a line: the id text and, when the line has
/// a `;`, the text up to the next `;`.
pub open spec fn row_fields(line: Seq<char>) -> (Seq<char>, Option<Seq<char>>) {
    let i = first_index(line, ';');
    if i < 0 {
        (line, None)
    } else {
        let rest = line.skip(i + 1);
        let j = first_index(rest, ';');
        (line.take(i), Some(if j < 0 { rest } else { rest.take(j) }))
    }
}

/// The (id, name) of a trimmed, non-empty line, when its id field is a number and the
/// line has a name field; the name is trimmed.
pub open spec fn parse_row(line: Seq<char>) -> Option<(u16, Seq<char>)> {
    let (id_text, name) = row_fields(line);
    if id_text.len() == 0 {
        None
    } else {
        match (parsed_u16(id_text), name) {
            (Some(id), Some(n)) => Some((id, trim(n))),
            _ => None,
        }
    }
}

/// The rows read from `lines`, in order: each line is trimmed, blank lines are
/// skipped and lines that do not parse are ignored.
pub open spec fn rows_of(lines: Seq<Seq<char>>) -> Seq<(u16, Seq<char>)>
    decreases lines.len(),
{
    if lines.len() == 0 {
        Seq::empty()
    } else {
        let line = trim(lines[0]);
        let here = if line.len() == 0 {
            Seq::empty()
        } else {
            match parse_row(line) {
                Some(r) => seq![r],
                None => Seq::empty(),
            }
        };
        here + rows_of(lines.drop_first())
    }
}

/// The rows of the country list `text`.
pub open spec fn country_rows(text: Seq<char>) -> Seq<(u16, Seq<char>)> {
    rows_of(split(text, '\n'))
}

/// Names by id; a later row with the same id replaces an earlier one.
pub open spec fn rows_map(rows: Seq<(u16, Seq<char>)>) -> Map<u16, Seq<char>>
    decreases rows.len(),
{
    if rows.len() == 0 {
        Map::empty()
    } else {
        rows_map(rows.drop_last()).insert(rows.last().0, rows.last().1)
    }
}

/// The colour text that the last entry named `name` in `colors` gives, if any.
pub open spec fn color_text(colors: Seq<(Seq<char>, Seq<char>)>, name: Seq<char>) -> Option<Seq<char>>
    decreases colors.len(),
{
    if colors.len() == 0 {
        None
    } else if colors.last().0 == name {
        Some(colors.last().1)
    } else {
        color_text(colors.drop_last(), name)
    }
}

/// The value of hexadecimal digit `c`, if it is one.
pub open spec fn hex_digit(c: char) -> Option<u8> {
    if '0' <= c <= '9' {
        Some((c as u8 - '0' as u8) as u8)
    } else if 'a' <= c <= 'f' {
        Some((c as u8 - 'a' as u8 + 10) as u8)
    } else if 'A' <= c <= 'F' {
        Some((c as u8 - 'A' as u8 + 10) as u8)
    } else {
        None
    }
}

/// What `u8::from_str_radix` gives in base 16 for the two characters `a`, `b`: either
/// two hex digits, or `+` followed by one.
pub open spec fn hex_pair(a: char, b: char) -> Option<u8> {
    if a == '+' {
        hex_digit(b)
    } else {
        match (hex_digit(a), hex_digit(b)) {
            (Some(x), Some(y)) => Some((x * 16 + y) as u8),
            _ => None,
        }
    }
}

/// The colour written `#rrggbb` (surrounding whitespace allowed) in `text`.
pub open spec fn hex_color(text: Seq<char>) -> Option<Rgb> {
    let t = trim(text);
    if t.len() == 7 && t[0] == '#' && (forall|i: int| 0 <= i < 7 ==> (#[trigger] t[i] as u32) < 128) {
        match (hex_pair(t[1], t[2]), hex_pair(t[3], t[4]), hex_pair(t[5], t[6])) {
            (Some(r), Some(g), Some(b)) => Some(Rgb { r, g, b }),
            _ => None,
        }
    } else {
        None
    }
}

fn hex_digit_of(c: char) -> (r: Option<u8>)
    ensures
        r == hex_digit(c),
{
    if '0' <= c && c <= '9' {
        Some(c as u8 - '0' as u8)
    } else if 'a' <= c && c <= 'f' {
        Some(c as u8 - 'a' as u8 + 10)
    } else if 'A' <= c && c <= 'F' {
        Some(c as u8 - 'A' as u8 + 10)
    } else {
        None
    }
}

fn hex_pair_of(a: char, b: char) -> (r: Option<u8>)
    ensures
        r == hex_pair(a, b),
{
    if a == '+' {
        hex_digit_of(b)
    } else {
        match (hex_digit_of(a), hex_digit_of(b)) {
            (Some(x), Some(y)) => Some(x * 16 + y),
            _ => None,
        }
    }
}

/// Reads a colour written `#rrggbb` (hexadecimal, surrounding whitespace allowed).
pub fn hex_to_rgb(hex: &str) -> (r: Option<Rgb>)
    ensures
        r == hex_color(hex@),
{
    let chars = text_chars(hex);
    let (a, b) = trim_bounds(&chars, 0, chars.len());
    assert(chars@.subrange(0, chars@.len() as int) =~= hex@);
    let ghost t = chars@.subrange(a as int, b as int);
    if b - a != 7 || chars[a] != '#' {
        return None;
    }
    let mut i: usize = a;
    while i < b
        invariant
            a <= i <= b,
            b <= chars.len(),
            b - a == 7,
            t == chars@.subrange(a as int, b as int),
            t == trim(hex@),
            t[0] == '#',
            forall|q: int| 0 <= q < i - a ==> (#[trigger] t[q] as u32) < 128,
        decreases b - i,
    {
        if chars[i] as u32 >= 128 {
            assert(t[i - a] == chars[i as int]);
            assert(!(forall|q: int| 0 <= q < 7 ==> (#[trigger] t[q] as u32) < 128)) by {
                assert(t[i - a] as u32 >= 128);
            }
            return None;
        }
        i += 1;
    }
    match (hex_pair_of(chars[a + 1], chars[a + 2]), hex_pair_of(chars[a + 3], chars[a + 4]), hex_pair_of(chars[a + 5], chars[a + 6])) {
        (Some(r), Some(g), Some(b)) => Some(Rgb { r, g, b }),
        _ => None,
    }
}

/// `k` is the first index of `c` in `s`.
pub proof fn lemma_first_index_is(s: Seq<char>, c: char, k: int)
    requires
        0 <= k < s.len(),
        s[k] == c,
        forall|j: int| 0 <= j < k ==> s[j] != c,
    ensures
        first_index(s, c) == k,
{
    lemma_first_index(s, c);
}

/// `c` does not occur in `s`.
pub proof fn lemma_first_index_none(s: Seq<char>, c: char)
    requires
        forall|j: int| 0 <= j < s.len() ==> s[j] != c,
    ensures
        first_index(s, c) == -1,
{
    lemma_first_index(s, c);
}

/// Position of the first `c` in `chars[lo..hi]`, or `hi` when there is none.
fn find_char(chars: &Vec<char>, lo: usize, hi: usize, c: char) -> (r: usize)
    requires
        lo <= hi <= chars.len(),
    ensures
        lo <= r <= hi,
        first_index(chars@.subrange(lo as int, hi as int), c) == (if r == hi { -1 } else { r - lo }),
{
    let mut i = lo;
    while i < hi && chars[i] != c
        invariant
            lo <= i <= hi,
            hi <= chars.len(),
            forall|q: int| lo <= q < i ==> chars@[q] != c,
        decreases hi - i,
    {
        i += 1;
    }
    proof {
        let sub = chars@.subrange(lo as int, hi as int);
        if i == hi {
            lemma_first_index_none(sub, c);
        } else {
            lemma_first_index_is(sub, c, i - lo);
        }
    }
    i
}

/// The row of one line `chars[lo..hi]` of the country list.
fn parse_line(text: &str, chars: &Vec<char>, lo: usize, hi: usize) -> (r: Option<(u16, String)>)
    requires
        lo <= hi <= chars.len(),
        chars@ == text@,
    ensures
        ({
            let line = trim(chars@.subrange(lo as int, hi as int));
            let expected = if line.len() == 0 { None } else { parse_row(line) };
            match r {
                Some((id, name)) => expected == Some((id, name@)),
                None => expected is None,
            }
        }),
{
    let (a, b) = trim_bounds(chars, lo, hi);
    if a == b {
        return None;
    }
    let ghost line = chars@.subrange(a as int, b as int);
    let p = find_char(chars, a, b, ';');
    if p == b {
        return None;
    }
    let ghost rest = line.skip(p - a + 1);
    assert(rest =~= chars@.subrange(p + 1, b as int));
    let q = find_char(chars, p + 1, b, ';');
    assert(line.take(p - a) =~= chars@.subrange(a as int, p as int));
    assert(q < b ==> rest.take(q - p - 1) =~= chars@.subrange(p + 1, q as int));
    assert(q == b ==> rest =~= chars@.subrange(p + 1, q as int));
    if p == a {
        return None;
    }
    let id = parse_u16_chars(chars, a, p);
    match id {
        None => None,
        Some(id) => {
            let (na, nb) = trim_bounds(chars, p + 1, q);
            let name = text.substring_char(na, nb).to_owned();
            Some((id, name))
        }
    }
}

/// The rows after splitting off one more line.
proof fn lemma_rows_step(text: Seq<char>, start: int, i: int)
    requires
        0 <= start <= i < text.len(),
        text[i] == '\n',
        forall|q: int| start <= q < i ==> text[q] != '\n',
    ensures
        split(text.skip(start), '\n') == seq![text.subrange(start, i)] + split(text.skip(i + 1), '\n'),
{
    let s = text.skip(start);
    lemma_first_index_is(s, '\n', i - start);
    assert(s.take(i - start) =~= text.subrange(start, i));
    assert(s.skip(i - start + 1) =~= text.skip(i + 1));
}

proof fn lemma_rows_of_cons(line: Seq<char>, rest: Seq<Seq<char>>)
    ensures
        rows_of(seq![line] + rest) == (if trim(line).len() == 0 {
            Seq::empty()
        } else {
            match parse_row(trim(line)) {
                Some(r) => seq![r],
                None => Seq::<(u16, Seq<char>)>::empty(),
            }
        }) + rows_of(rest),
{
    assert((seq![line] + rest).drop_first() =~= rest);
    assert((seq![line] + rest)[0] == line);
}

/// The (id, name) rows of the country list `text`, in order.
fn read_rows(text: &str) -> (rows: Vec<(u16, String)>)
    ensures
        rows@.map_values(|p: (u16, String)| (p.0, p.1@)) == country_rows(text@),
{
    let chars = text_chars(text);
    let ghost full = text@;
    let mut rows: Vec<(u16, String)> = Vec::new();
    let mut start: usize = 0;
    let mut i: usize = 0;
    assert(full.skip(0) =~= full);
    assert(rows@.map_values(|p: (u16, String)| (p.0, p.1@)) =~= Seq::empty());
    while i < chars.len()
        invariant
            start <= i <= chars.len(),
            chars@ == text@,
            full == text@,
            forall|q: int| start <= q < i ==> chars@[q] != '\n',
            rows@.map_values(|p: (u16, String)| (p.0, p.1@)) + rows_of(split(full.skip(start as int), '\n'))
                == country_rows(full),
        decreases chars.len() - i,
    {
        if chars[i] == '\n' {
            let r = parse_line(text, &chars, start, i);
            proof {
                lemma_rows_step(full, start as int, i as int);
                lemma_rows_of_cons(full.subrange(start as int, i as int), split(full.skip(i + 1), '\n'));
            }
            let ghost before = rows@;
            match r {
                Some(row) => {
                    rows.push(row);
                }
                None => {}
            }
            proof {
                let f = |p: (u16, String)| (p.0, p.1@);
                assert(rows@.map_values(f) =~= before.map_values(f) + (if trim(full.subrange(start as int, i as int)).len() == 0 {
                    Seq::empty()
                } else {
                    match parse_row(trim(full.subrange(start as int, i as int))) {
                        Some(r) => seq![r],
                        None => Seq::<(u16, Seq<char>)>::empty(),
                    }
                }));
            }
            start = i + 1;
        }
        i += 1;
    }
    let r = parse_line(text, &chars, start, chars.len());
    proof {
        let s = full.skip(start as int);
        lemma_first_index_none(s, '\n');
        assert(s =~= full.subrange(start as int, full.len() as int));
        assert(split(s, '\n') == seq![s]);
        lemma_rows_of_cons(s, Seq::empty());
        assert(seq![s] + Seq::<Seq<char>>::empty() =~= seq![s]);
        assert(rows_of(Seq::<Seq<char>>::empty()) =~= Seq::empty());
    }
    let ghost before = rows@;
    match r {
        Some(row) => {
            rows.push(row);
        }
        None => {}
    }
    proof {
        let f = |p: (u16, String)| (p.0, p.1@);
        let s = full.skip(start as int);
        assert(rows@.map_values(f) =~= before.map_values(f) + rows_of(split(s, '\n')));
    }
    rows
}

/// The colour of the country called `name`, from the (name, colour text) entries.
pub open spec fn country_color(colors: Seq<(Seq<char>, Seq<char>)>, name: Seq<char>) -> Option<Rgb> {
    match color_text(colors, name) {
        Some(t) => hex_color(t),
        None => None,
    }
}

/// The (name, colour text) entries as plain text.
pub open spec fn colors_view(colors: Seq<(String, String)>) -> Seq<(Seq<char>, Seq<char>)> {
    colors.map_values(|p: (String, String)| (p.0@, p.1@))
}

/// The value of the first entry named `color` among the object entries `entries`.
pub open spec fn color_field(entries: Seq<(Seq<char>, Seq<char>)>) -> Option<Seq<char>>
    decreases entries.len(),
{
    if entries.len() == 0 {
        None
    } else if entries[0].0 == "color"@ {
        Some(entries[0].1)
    } else {
        color_field(entries.drop_first())
    }
}

/// The (name, colour) pair of an entry `[name, {"color": colour, ...}, ...]` of the
/// colour list, written as JSON text; nothing for an entry of another shape.
pub open spec fn item_color(item: Seq<char>) -> Option<(Seq<char>, Seq<char>)> {
    match json_node_of(item) {
        Some(JsonNodeView::Array(pair)) => if pair.len() >= 2 {
            match (json_node_of(pair[0]), json_node_of(pair[1])) {
                (Some(JsonNodeView::Str(name)), Some(JsonNodeView::Object(entries))) => match color_field(entries) {
                    Some(v) => match json_node_of(v) {
                        Some(JsonNodeView::Str(c)) => Some((name, c)),
                        _ => None,
                    },
                    None => None,
                },
                _ => None,
            }
        } else {
            None
        },
        _ => None,
    }
}

/// The (name, colour) pairs of the entries `items` that have the expected shape, in
/// order.
pub open spec fn color_pairs(items: Seq<Seq<char>>) -> Seq<(Seq<char>, Seq<char>)>
    decreases items.len(),
{
    if items.len() == 0 {
        Seq::empty()
    } else {
        let p = color_pairs(items.drop_last());
        match item_color(items.last()) {
            Some(c) => p.push(c),
            None => p,
        }
    }
}

/// The (name, colour) pairs of the colour list `text` (`countries.json`): a JSON array
/// of entries `[name, {"color": colour, ...}]`; entries of another shape are skipped,
/// and a text that is not a JSON array gives no pairs.
pub open spec fn color_entries(text: Seq<char>) -> Seq<(Seq<char>, Seq<char>)> {
    match json_node_of(text) {
        Some(JsonNodeView::Array(items)) => color_pairs(items),
        _ => Seq::empty(),
    }
}

/// The value of the first entry named `color` in `entries`.
fn find_color_field(entries: &Vec<(String, String)>) -> (r: Option<String>)
    ensures
        r matches Some(v) ==> color_field(entries@.map_values(|p: (String, String)| (p.0@, p.1@))) == Some(v@),
        r is None ==> color_field(entries@.map_values(|p: (String, String)| (p.0@, p.1@))) is None,
{
    let ghost ev = entries@.map_values(|p: (String, String)| (p.0@, p.1@));
    let mut i: usize = 0;
    assert(ev.skip(0) =~= ev);
    while i < entries.len()
        invariant
            i <= entries.len(),
            ev == entries@.map_values(|p: (String, String)| (p.0@, p.1@)),
            color_field(ev) == color_field(ev.skip(i as int)),
        decreases entries.len() - i,
    {
        assert(ev.skip(i as int)[0] == ev[i as int]);
        if str_eq(entries[i].0.as_str(), "color") {
            return Some(entries[i].1.clone());
        }
        assert(ev.skip(i as int).drop_first() =~= ev.skip(i + 1));
        i += 1;
    }
    assert(ev.skip(i as int).len() == 0);
    None
}

/// The (name, colour) pair of the colour-list entry `item` (see `item_color`).
fn color_of_item(item: &String) -> (r: Option<(String, String)>)
    ensures
        r matches Some(p) ==> item_color(item@) == Some((p.0@, p.1@)),
        r is None ==> item_color(item@) is None,
{
    match parse_json_node(item.as_str()) {
        Some(JsonNode::Array(pair)) => {
            if pair.len() < 2 {
                return None;
            }
            let name = match parse_json_node(pair[0].as_str()) {
                Some(JsonNode::Str(n)) => n,
                _ => return None,
            };
            let entries = match parse_json_node(pair[1].as_str()) {
                Some(JsonNode::Object(e)) => e,
                _ => return None,
            };
            let v = match find_color_field(&entries) {
                Some(v) => v,
                None => return None,
            };
            match parse_json_node(v.as_str()) {
                Some(JsonNode::Str(c)) => Some((name, c)),
                _ => None,
            }
        },
        _ => None,
    }
}

/// The (name, colour) pairs of the colour list `text` (see `color_entries`).
pub fn colors_from_json(text: &str) -> (colors: Vec<(String, String)>)
    ensures
        colors_view(colors@) == color_entries(text@),
{
    let mut colors: Vec<(String, String)> = Vec::new();
    match parse_json_node(text) {
        Some(JsonNode::Array(items)) => {
            let ghost iv = items@.map_values(|x: String| x@);
            let mut i: usize = 0;
            while i < items.len()
                invariant
                    i <= items.len(),
                    iv == items@.map_values(|x: String| x@),
                    colors_view(colors@) == color_pairs(iv.take(i as int)),
                decreases items.len() - i,
            {
                assert(iv.take(i + 1).drop_last() =~= iv.take(i as int));
                assert(iv.take(i + 1).last() == items@[i as int]@);
                match color_of_item(&items[i]) {
                    Some(p) => {
                        colors.push(p);
                        assert(colors_view(colors@) =~= color_pairs(iv.take(i as int)).push((p.0@, p.1@)));
                    },
                    None => {},
                }
                i += 1;
            }
            assert(iv.take(items.len() as int) =~= iv);
            colors
        },
        _ => colors,
    }
}

/// The colour given by the last entry of `colors` named `name`.
fn lookup_color(colors: &Vec<(String, String)>, name: &String) -> (r: Option<Rgb>)
    ensures
        r == country_color(colors_view(colors@), name@),
{
    let mut k = colors.len();
    assert(colors@.take(k as int) =~= colors@);
    while k > 0
        invariant
            k <= colors.len(),
            color_text(colors_view(colors@), name@) == color_text(colors_view(colors@.take(k as int)), name@),
        decreases k,
    {
        assert(colors_view(colors@.take(k as int)).drop_last() =~= colors_view(colors@.take(k - 1)));
        assert(colors_view(colors@.take(k as int)).last() == (colors@[k - 1].0@, colors@[k - 1].1@));
        if colors[k - 1].0 == *name {
            return hex_to_rgb(colors[k - 1].1.as_str());
        }
        k -= 1;
    }
    assert(colors_view(colors@.take(0)) =~= Seq::empty());
    None
}

/// Builds the countries by id from the country list `text` and the colours
/// `colors` (pairs of a country name and its colour written `#rrggbb`). A later line
/// with the same id replaces an earlier one; a country's colour comes from the last
/// entry with its name.
pub fn country_data_from_text(text: &str, colors: &Vec<(String, String)>) -> (countries: HashMap<u16, Country>)
    ensures
        countries@.dom() == rows_map(country_rows(text@)).dom(),
        forall|id: u16| #[trigger] countries@.contains_key(id) ==> {
            &&& countries@[id].name@ == rows_map(country_rows(text@))[id]
            &&& countries@[id].color == country_color(colors_view(colors@), countries@[id].name@)
        },
{
    let rows = read_rows(text);
    let ghost rv = rows@.map_values(|p: (u16, String)| (p.0, p.1@));
    let mut countries: HashMap<u16, Country> = HashMap::new();
    let mut j: usize = 0;
    assert(rv.take(0) =~= Seq::empty());
    assert(countries@.dom() =~= rows_map(rv.take(0)).dom());
    while j < rows.len()
        invariant
            j <= rows.len(),
            rv == rows@.map_values(|p: (u16, String)| (p.0, p.1@)),
            countries@.dom() == rows_map(rv.take(j as int)).dom(),
            forall|id: u16| #[trigger] countries@.contains_key(id) ==> {
                &&& countries@[id].name@ == rows_map(rv.take(j as int))[id]
                &&& countries@[id].color == country_color(colors_view(colors@), countries@[id].name@)
            },
        decreases rows.len() - j,
    {
        let id = rows[j].0;
        let name = rows[j].1.clone();
        let color = lookup_color(colors, &name);
        countries.insert(id, Country { name, color });
        proof {
            assert(rv.take(j + 1).drop_last() =~= rv.take(j as int));
            assert(rv.take(j + 1).last() == rv[j as int]);
            assert(countries@.dom() =~= rows_map(rv.take(j + 1)).dom());
        }
        j += 1;
    }
    assert(rv.take(rows.len() as int) =~= rv);
    countries
}

} // verus!
