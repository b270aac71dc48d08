//! Tests of the release listing, file-name parsing, the choice of files and
//! the list of years.

use haygeobr::metadata::{
    dataset_names, extract_year, find_file, parse_filename, parse_release_metadata, prefix_for,
    years_for_geography, GeoMeta,
};

fn meta(file: &str, geo: &str, year: u32, simplified: bool) -> GeoMeta {
    GeoMeta { file_name: file.to_string(), geography: geo.to_string(), year, simplified }
}

#[test]
fn parse_filename_simplified() {
    let m = parse_filename("states_2022_simplified.parquet").unwrap();
    assert_eq!(m.file_name, "states_2022_simplified.parquet");
    assert_eq!(m.geography, "states_2022");
    assert_eq!(m.year, 2022);
    assert!(m.simplified);
}

#[test]
fn parse_filename_detailed() {
    let m = parse_filename("municipalseats_2010.parquet").unwrap();
    assert_eq!(m.geography, "municipalseats_2010");
    assert_eq!(m.year, 2010);
    assert!(!m.simplified);
}

#[test]
fn parse_filename_refusals() {
    assert!(parse_filename("states_2022_simplified.csv").is_none());
    assert!(parse_filename("states_simplified.parquet").is_none());
    assert!(parse_filename("states_1500.parquet").is_none());
    assert!(parse_filename(".parquet").is_none());
}

#[test]
fn extract_year_takes_the_first_year_in_range() {
    assert_eq!(extract_year("conservationunits_202503"), Some(2025));
    assert_eq!(extract_year("x_1234_1999"), Some(1999));
    assert_eq!(extract_year("censustracts_2100"), Some(2100));
    assert_eq!(extract_year("a1870"), Some(1870));
    assert_eq!(extract_year("a1869"), None);
    assert_eq!(extract_year("a2101"), None);
    assert_eq!(extract_year("+202"), None);
    assert_eq!(extract_year("abc"), None);
    assert_eq!(extract_year(""), None);
}

#[test]
fn release_listing() {
    let body = r#"{"assets": [
        {"name": "states_2022_simplified.parquet"},
        {"name": "README.md"},
        {"id": 3},
        {"name": 5},
        {"name": "country_2024.parquet"}
    ]}"#;
    let entries = parse_release_metadata(body).unwrap();
    assert_eq!(entries.len(), 2);
    assert_eq!(entries[0].file_name, "states_2022_simplified.parquet");
    assert_eq!(entries[1].geography, "country_2024");
    assert!(!entries[1].simplified);
}

#[test]
fn release_listing_errors() {
    let e = parse_release_metadata("not json").unwrap_err();
    assert!(e.starts_with("cannot parse geobr release JSON: "));
    assert_eq!(parse_release_metadata("{}").unwrap_err(), "no assets in geobr release");
    assert_eq!(
        parse_release_metadata(r#"{"assets": {}}"#).unwrap_err(),
        "no assets in geobr release"
    );
    assert_eq!(
        parse_release_metadata(r#"{"assets": [{"name": "a.txt"}]}"#).unwrap_err(),
        "no parquet files found in geobr release"
    );
}

#[test]
fn prefix_lookup() {
    assert_eq!(prefix_for("statistical_grid"), Some("statsgrid"));
    assert_eq!(prefix_for("health_facility"), Some("healthfacilities"));
    assert_eq!(prefix_for("nowhere"), None);
}

#[test]
fn names_are_listed_in_table_order() {
    let names = dataset_names();
    assert_eq!(names.len(), 28);
    assert_eq!(names[0], "country");
    assert_eq!(names[27], "neighborhood");
    let mut sorted = names.clone();
    sorted.sort();
    sorted.dedup();
    assert_eq!(sorted.len(), 28);
}

#[test]
fn find_file_ties_and_messages() {
    let metas = vec![
        meta("states_2018_simplified.parquet", "states_2018", 2018, true),
        meta("states_2022_simplified.parquet", "states_2022", 2022, true),
        meta("statesx_2022_simplified.parquet", "statesx_2022", 2022, true),
    ];
    // 2020 is as close to 2018 as to 2022: the first of the closest wins.
    assert_eq!(find_file(&metas, "states", Some(2020), true).unwrap().year, 2018);
    // Without a year, the last of the latest wins.
    assert_eq!(
        find_file(&metas, "states", None, true).unwrap().file_name,
        "statesx_2022_simplified.parquet"
    );
    assert_eq!(
        find_file(&metas, "somewhere", None, true).unwrap_err(),
        "unknown geography: 'somewhere'"
    );
    assert_eq!(
        find_file(&metas, "biomes", None, false).unwrap_err(),
        "no data found for geography 'biomes' (simplified=false)"
    );
}

#[test]
fn years_are_sorted_and_unique() {
    let metas = vec![
        meta("a", "states_2022", 2022, true),
        meta("b", "states_2010", 2010, true),
        meta("c", "states_2022", 2022, true),
        meta("d", "states_2019", 2019, false),
        meta("e", "country_2000", 2000, true),
    ];
    assert_eq!(years_for_geography(&metas, "states"), vec![2010, 2022]);
    assert_eq!(years_for_geography(&metas, "country"), vec![2000]);
    // A name outside the table is used as the prefix itself.
    assert_eq!(years_for_geography(&metas, "count"), vec![2000]);
    assert!(years_for_geography(&metas, "biomes").is_empty());
}
