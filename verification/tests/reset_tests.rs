use wwsim::country::country_data_from_text;
use wwsim::reset::{country_rows_text, initial_date, read_country_rows, remap_rows, starting_owners, CountryRow};

fn row(id: &str, name: &str, lon: &str, lat: &str) -> CountryRow {
    CountryRow { id: id.to_string(), name: name.to_string(), lon: lon.to_string(), lat: lat.to_string() }
}

fn fields(rows: &[CountryRow]) -> Vec<(String, String, String, String)> {
    rows.iter().map(|r| (r.id.clone(), r.name.clone(), r.lon.clone(), r.lat.clone())).collect()
}

#[test]
fn country_list_is_read() {
    let (rows, text) = read_country_rows("5;Alpha;1.0;2.0\n\n 7;Beta\n;Gamma;3;4\n").unwrap();
    assert_eq!(
        fields(&rows),
        vec![
            ("5".into(), "Alpha".into(), "1.0".into(), "2.0".into()),
            (" 7".into(), "Beta".into(), "".into(), "".into()),
            ("".into(), "Gamma".into(), "3".into(), "4".into()),
        ]
    );
    assert_eq!(text, "5;Alpha;1.0;2.0\n7;Beta\n;Gamma;3;4\n");
}

#[test]
fn country_list_line_without_separator() {
    assert!(read_country_rows("5;Alpha\nBeta\n").is_none());
}

#[test]
fn start_date_from_caption() {
    assert_eq!(initial_date("March 2025, Alpha conquered Beta territory.", 6, 2030), Some((2, 2025)));
    assert_eq!(initial_date("January 2025, x", 6, 2030), Some((12, 2024)));
    assert_eq!(initial_date("Foo 2025, x", 6, 2030), Some((6, 2030)));
    assert_eq!(initial_date("March soon, x", 6, 2030), Some((2, 2030)));
    assert_eq!(initial_date("March", 6, 2030), Some((6, 2030)));
    assert_eq!(initial_date("January -2147483648 x", 6, 2030), None);
}

#[test]
fn rows_take_the_game_ids_and_sort() {
    let rows = vec![row("5", "Alpha", "1", "2"), row("9", "Beta", "", ""), row("3", "Delta", "", "")];
    let caps = vec![(2u16, "Beta".to_string()), (1, "Alpha".to_string()), (4, "Gamma".to_string())];
    let out = remap_rows(&rows, &caps);
    assert_eq!(
        fields(&out),
        vec![
            ("1".into(), "Alpha".into(), "1".into(), "2".into()),
            ("2".into(), "Beta".into(), "".into(), "".into()),
            ("4".into(), "Gamma".into(), "".into(), "".into()),
            ("".into(), "Delta".into(), "".into(), "".into()),
        ]
    );
    assert_eq!(country_rows_text(&out), "1;Alpha;1;2\n2;Beta;;\n4;Gamma;;\n;Delta;;\n");
}

#[test]
fn unknown_rows_sort_by_name_stably() {
    let rows = vec![row("1", "Zeta", "a", ""), row("2", "Eta", "", ""), row("3", "Zeta", "b", "")];
    let out = remap_rows(&rows, &vec![]);
    let names: Vec<(String, String)> = out.iter().map(|r| (r.name.clone(), r.lon.clone())).collect();
    assert_eq!(
        names,
        vec![("Eta".into(), "".into()), ("Zeta".into(), "a".into()), ("Zeta".into(), "b".into())]
    );
}

#[test]
fn new_game_owners() {
    let rows = vec![row("1", "A", "", ""), row("", "B", "", ""), row("4", "C", "", "")];
    let owners = starting_owners(&rows).unwrap();
    assert_eq!(owners.len(), 2);
    assert_eq!(owners[&1], 1);
    assert_eq!(owners[&4], 4);
    assert!(starting_owners(&vec![row("x", "A", "", "")]).is_none());
}

#[test]
fn written_country_list_reads_back() {
    let rows = vec![row("5", " Alpha ", "1", "2"), row("9", "Beta", "", ""), row("", "Delta", "", "")];
    let caps = vec![(2u16, "Beta".to_string()), (1, " Alpha ".to_string()), (4, "Gamma".to_string())];
    let text = country_rows_text(&remap_rows(&rows, &caps));
    let countries = country_data_from_text(&text, &vec![]);
    assert_eq!(countries.len(), 3);
    assert_eq!(countries[&1].name, "Alpha");
    assert_eq!(countries[&2].name, "Beta");
    assert_eq!(countries[&4].name, "Gamma");
}

#[test]
fn first_round_date_is_the_caption_date() {
    for caption in ["March 2025, Alpha conquered Beta territory.", "January 2025, x", "December 1999, y"] {
        let (m, y) = initial_date(caption, 6, 2030).unwrap();
        let date = wwsim::calendar::epoch_to_date(1, m, y);
        assert!(caption.starts_with(&format!("{}, ", date)), "{} / {}", caption, date);
    }
}
