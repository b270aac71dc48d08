//! Tests of the option reading, the download steps and the column work.

use haygeobr::columns::{
    column_index, int_filter_mask, geometry_texts, is_geometry_column, missing_column_message, parse_i64,
    text_filter_mask,
};
use haygeobr::metadata::{download_after, download_begin, is_cache_hit, DownloadAction};
use haygeobr::options::{GeoOpts, OptionValue};

fn coord_text(bits: u64) -> String {
    format!("{}", f64::from_bits(bits))
}

#[test]
fn options_defaults() {
    let o = GeoOpts::default();
    assert_eq!(o.year, None);
    assert!(o.simplified);
    let o = GeoOpts::from_entries(None, None);
    assert_eq!(o.year, None);
    assert!(o.simplified);
}

#[test]
fn options_from_entries() {
    let o = GeoOpts::from_entries(Some(OptionValue::Int(2022)), Some(OptionValue::Bool(false)));
    assert_eq!(o.year, Some(2022));
    assert!(!o.simplified);
    let o = GeoOpts::from_entries(Some(OptionValue::FloatAsU32(2019)), Some(OptionValue::Int(0)));
    assert_eq!(o.year, Some(2019));
    assert!(!o.simplified);
    let o = GeoOpts::from_entries(Some(OptionValue::Other), Some(OptionValue::Int(3)));
    assert_eq!(o.year, None);
    assert!(o.simplified);
    // An integer is truncated to 32 bits, as `as u32` does.
    let o = GeoOpts::from_entries(Some(OptionValue::Int(-1)), Some(OptionValue::Other));
    assert_eq!(o.year, Some(u32::MAX));
    assert!(o.simplified);
}

#[test]
fn download_falls_back_to_the_mirror() {
    match download_begin("states_2022.parquet") {
        DownloadAction::Fetch(u) => assert_eq!(
            u,
            "https://github.com/ipea/geobr_prep_data/releases/download/v2.0.0/states_2022.parquet"
        ),
        _ => panic!("expected a fetch"),
    }
    match download_after("states_2022.parquet", 0, Err("HTTP error: 404".to_string())) {
        DownloadAction::Fetch(u) => {
            assert_eq!(u, "https://www.ipea.gov.br/geobr/data_v2.0.0/states_2022.parquet")
        }
        _ => panic!("expected a fetch"),
    }
    match download_after("states_2022.parquet", 1, Err("HTTP error: 500".to_string())) {
        DownloadAction::Finish(Err(e)) => {
            assert_eq!(e, "download failed for states_2022.parquet: HTTP error: 500")
        }
        _ => panic!("expected a failure"),
    }
    assert!(matches!(
        download_after("x.parquet", 0, Ok(())),
        DownloadAction::Finish(Ok(()))
    ));
    assert!(matches!(
        download_after("x.parquet", 1, Ok(())),
        DownloadAction::Finish(Ok(()))
    ));
}

#[test]
fn cache_hits() {
    assert!(is_cache_hit(Some(10)));
    assert!(!is_cache_hit(Some(0)));
    assert!(!is_cache_hit(None));
}

#[test]
fn geometry_columns() {
    assert!(is_geometry_column("geometry", true));
    assert!(!is_geometry_column("geometry", false));
    assert!(!is_geometry_column("geom", true));
    let mut point = vec![1u8];
    point.extend_from_slice(&1u32.to_le_bytes());
    point.extend_from_slice(&1.5f64.to_le_bytes());
    point.extend_from_slice(&(-2.0f64).to_le_bytes());
    let values = vec![Some(point), None, Some(vec![1u8, 2])];
    let texts = geometry_texts(&values, &coord_text);
    assert_eq!(texts, vec![Some("POINT (1.5 -2)".to_string()), None, None]);
}

#[test]
fn filters() {
    let names = vec!["code".to_string(), "name".to_string(), "code".to_string()];
    assert_eq!(column_index(&names, "code"), Some(0));
    assert_eq!(column_index(&names, "name"), Some(1));
    assert_eq!(column_index(&names, "year"), None);
    assert_eq!(missing_column_message("year"), "filter column 'year' not found");
    let values = vec![Some("RJ".to_string()), None, Some("SP".to_string()), Some("RJ".to_string())];
    assert_eq!(text_filter_mask(&values, "RJ"), vec![true, false, false, true]);
}

#[test]
fn integers_parse_as_std_does() {
    for s in ["0", "42", "-42", "+7", "9223372036854775807", "-9223372036854775808",
              "9223372036854775808", "-9223372036854775809", "", "-", "+", "1a", " 1",
              "99999999999999999999999"] {
        assert_eq!(parse_i64(s), s.parse::<i64>().ok(), "{s}");
    }
}

#[test]
fn integer_filters() {
    let values = vec![Some(33), None, Some(35), Some(i64::MIN)];
    assert_eq!(int_filter_mask(&values, "33"), vec![true, false, false, false]);
    assert_eq!(int_filter_mask(&values, "+35"), vec![false, false, true, false]);
    // Text that is not an integer keeps no row.
    assert_eq!(int_filter_mask(&values, "abc"), vec![false, false, false, false]);
    assert_eq!(int_filter_mask(&values, "-9223372036854775808"), vec![false, false, false, true]);
}
