//! Texts, names, aliases and coordinates.
use marta_gtfs_rt::aliases::{add_stop_aliases, resolve_station, sort_stations, StationAlias};
use marta_gtfs_rt::coordinates::is_number_text;
use marta_gtfs_rt::names::{normalize_line, normalize_station_name};
use marta_gtfs_rt::text::{
    is_alphanumeric, is_digit, is_text_before, is_white_space, parse_i64, same_text, to_upper,
    trim, uppercase,
};

#[test]
fn characters_are_classed_as_by_std() {
    for number in 0..=0x10ffffu32 {
        if let Some(ch) = char::from_u32(number) {
            assert_eq!(is_white_space(ch), ch.is_whitespace(), "{}", number);
            assert_eq!(is_digit(ch), ch.is_ascii_digit(), "{}", number);
            assert_eq!(is_alphanumeric(ch), ch.is_ascii_alphanumeric(), "{}", number);
            assert_eq!(to_upper(ch), ch.to_ascii_uppercase(), "{}", number);
        }
    }
}

#[test]
fn trimming_and_upper_case() {
    for text in ["", " ", "\u{a0}a b\u{3000}", "\tGold\n", "\u{feff}x", "stra\u{df}e"] {
        assert_eq!(trim(text), text.trim());
        assert_eq!(uppercase(text), text.to_ascii_uppercase());
        assert_eq!(trim(&trim(text)), trim(text));
        assert_eq!(trim(&uppercase(text)), uppercase(&trim(text)));
    }
}

#[test]
fn integers_are_read_as_by_std() {
    for text in [
        "", "+", "-", "0", "-0", "+0", "007", "9223372036854775807", "9223372036854775808",
        "-9223372036854775808", "-9223372036854775809", "99999999999999999999999", "1 ", "1_0",
        "--1", "+-1", "\u{661}", "1e3",
    ] {
        assert_eq!(parse_i64(text), text.parse::<i64>().ok(), "{}", text);
    }
}

#[test]
fn texts_are_ordered_as_by_std() {
    let texts = ["", "a", "ab", "b", "\u{e9}", "\u{1f683}", "\u{ffff}", "A", "10", "9"];
    for left in texts {
        assert!(!is_text_before(left, left));
        for right in texts {
            assert_eq!(is_text_before(left, right), left < right);
            assert_eq!(same_text(left, right), left == right);
            assert!(left == right || is_text_before(left, right) || is_text_before(right, left));
        }
    }
}

#[test]
fn line_names() {
    assert_eq!(normalize_line(" Gold "), "GOLD");
    assert_eq!(normalize_line(&normalize_line(" red line ")), "RED LINE");
}

#[test]
fn station_names() {
    assert_eq!(normalize_station_name("LAKEWOOD STATION"), "LAKEWOOD");
    assert_eq!(normalize_station_name("Lakewood-Ft. McPherson"), "LAKEWOOD FORT MCPHERSON");
    assert_eq!(normalize_station_name("  Arts   Ctr. Sta Station "), "ARTS CENTER");
    assert_eq!(normalize_station_name("Station Square"), "STATION SQUARE");
    assert_eq!(normalize_station_name("STATION"), "");
    assert_eq!(normalize_station_name("Caf\u{e9} 5"), "CAF 5");
    assert_eq!(normalize_station_name(""), "");
}

#[test]
fn station_names_are_stable() {
    for name in [
        "Lakewood-Ft. McPherson Station",
        "Ctr Station Sta",
        "H. E. Holmes",
        "- -",
        "\u{e9}t\u{e9}",
    ] {
        let once = normalize_station_name(name);
        assert_eq!(normalize_station_name(&once), once);
        assert!(once.chars().all(|ch| ch == ' ' || ch.is_ascii_uppercase() || ch.is_ascii_digit()));
    }
}

fn table_of(names: &[&str]) -> Vec<StationAlias> {
    let mut table: Vec<StationAlias> = Vec::new();
    for (number, name) in names.iter().enumerate() {
        add_stop_aliases(&mut table, number as u32, Some(name));
    }
    sort_stations(table)
}

fn listed(table: &[StationAlias]) -> Vec<(&str, Vec<u32>)> {
    table.iter().map(|entry| (entry.name.as_str(), entry.stations.clone())).collect()
}

#[test]
fn stations_are_listed_one_after_the_other() {
    let mut table = vec![StationAlias { name: "FIVE".to_string(), stations: vec![9] }];
    add_stop_aliases(&mut table, 7, Some("Five"));
    // Once for the whole name and once for its only component.
    assert_eq!(listed(&table), vec![("FIVE", vec![9, 7, 7])]);
    add_stop_aliases(&mut table, 7, None);
    assert_eq!(listed(&table), vec![("FIVE", vec![9, 7, 7])]);
    add_stop_aliases(&mut table, 3, Some("Ab-Five-Five Park"));
    assert_eq!(
        listed(&table),
        vec![
            ("FIVE", vec![9, 7, 7, 3]),
            ("AB FIVE FIVE PARK", vec![3]),
            ("FIVE PARK", vec![3]),
            ("AB FIVE FIVE", vec![3]),
        ]
    );
    add_stop_aliases(&mut table, 1, Some("-"));
    assert_eq!(table.len(), 4);
    assert_eq!(listed(&sort_stations(table))[0], ("FIVE", vec![3, 7, 9]));
}

#[test]
fn compound_names_answer_to_their_parts() {
    let table = table_of(&["Lakewood-Ft. McPherson", "Airport", "Dome/GWCC/Philips"]);
    assert_eq!(resolve_station(&table, "LAKEWOOD STATION"), vec![0]);
    assert_eq!(resolve_station(&table, "Fort McPherson"), vec![0]);
    assert_eq!(resolve_station(&table, "Lakewood Ft McPherson"), vec![0]);
    assert_eq!(resolve_station(&table, "airport"), vec![1]);
    assert_eq!(resolve_station(&table, "GWCC"), vec![2]);
    assert_eq!(resolve_station(&table, "Nowhere"), Vec::<u32>::new());
}

#[test]
fn holmes_has_two_names() {
    let long = table_of(&["Hamilton E. Holmes"]);
    assert_eq!(resolve_station(&long, "H. E. Holmes"), vec![0]);
    let short = table_of(&["H.E. Holmes Station"]);
    assert_eq!(resolve_station(&short, "HAMILTON E HOLMES"), vec![0]);
}

#[test]
fn generic_suffixes_can_be_left_out() {
    let table = table_of(&["Arts Center", "Grant Park", "Bay Park"]);
    assert_eq!(resolve_station(&table, "Arts"), vec![0]);
    assert_eq!(resolve_station(&table, "Grant"), vec![1]);
    assert_eq!(resolve_station(&table, "Bay"), Vec::<u32>::new());
}

#[test]
fn shared_names_list_every_station() {
    let table = table_of(&["Peachtree-North", "Midtown", "Peachtree-South"]);
    assert_eq!(resolve_station(&table, "Peachtree"), vec![0, 2]);
    let mut again = table_of(&["Midtown"]);
    add_stop_aliases(&mut again, 0, Some("Midtown"));
    add_stop_aliases(&mut again, 1, None);
    assert_eq!(listed(&again), vec![("MIDTOWN", vec![0, 0, 0])]);
    assert_eq!(resolve_station(&sort_stations(again), "Midtown"), vec![0]);
}

#[test]
fn similar_names_are_a_last_resort() {
    let table = table_of(&["Edgewood Candler", "Inman", "Lindbergh"]);
    assert_eq!(resolve_station(&table, "Edgewood"), vec![0]);
    assert_eq!(resolve_station(&table, "Lindbergh Plaza"), vec![2]);
    assert_eq!(resolve_station(&table, "Edge"), Vec::<u32>::new());
    assert_eq!(resolve_station(&table, "Inman Reynoldstown"), vec![1]);
}

#[test]
fn numbers_are_told_as_by_std() {
    for text in [
        "", "1", "-84.38765", "33.758661", ".5", "5.", ".", "+.5e-3", "1e", "1e+", "1E5", "e5",
        ".e5", "inf", "-Infinity", "+NaN", "-nan", "infin", "nan1", "1 ", " 1", "1_0", "1.2.3",
        "1e5.0", "--1", "+", "-", "0x10", "1f32", "\u{661}", "1e99999",
    ] {
        assert_eq!(is_number_text(text), text.parse::<f32>().is_ok(), "{}", text);
    }
}

#[test]
fn short_number_texts_are_told_as_by_std() {
    let letters = ['1', '.', 'e', '+', '-', 'n', 'x'];
    let mut texts = vec![String::new()];
    for _ in 0..5 {
        let mut longer = Vec::new();
        for text in &texts {
            for letter in letters {
                longer.push(format!("{}{}", text, letter));
            }
        }
        for text in &longer {
            assert_eq!(is_number_text(text), text.parse::<f32>().is_ok(), "{}", text);
        }
        texts = longer;
    }
}
