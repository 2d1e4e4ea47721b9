use cp_solver::errors::DataFusionError;
use cp_solver::file_type::FileType;
use cp_solver::file_type::GetExt;

#[test]
fn from_str() {
    for (ext, file_type) in [
        ("csv", FileType::Csv),
        ("CSV", FileType::Csv),
        ("json", FileType::Json),
        ("JSON", FileType::Json),
        ("avro", FileType::Avro),
        ("AVRO", FileType::Avro),
        ("parquet", FileType::Parquet),
        ("PARQUET", FileType::Parquet),
    ] {
        assert_eq!(FileType::from_str(ext).unwrap(), file_type);
    }

    assert!(matches!(
        FileType::from_str("Unknown"),
        Err(DataFusionError::NotImplemented(_))
    ));
}

#[test]
fn from_str_ndjson_and_arrow() {
    assert_eq!(FileType::from_str("ndjson").unwrap(), FileType::Json);
    assert_eq!(FileType::from_str("NDJSON").unwrap(), FileType::Json);
    assert_eq!(FileType::from_str("arrow").unwrap(), FileType::Arrow);
    assert_eq!(FileType::from_str("Arrow").unwrap(), FileType::Arrow);
}

#[test]
fn from_str_folds_unicode_case() {
    // U+017F (long s) uppercases to S, so this three-character name
    // reads as CSV.
    assert_eq!(FileType::from_str("c\u{17F}v").unwrap(), FileType::Csv);
}

#[test]
fn from_str_error_carries_uppercased_name() {
    match FileType::from_str("Unknown") {
        Err(DataFusionError::NotImplemented(m)) => {
            assert_eq!(m, "Unknown FileType: UNKNOWN");
        },
        other => panic!("{:?}", other),
    }
}

#[test]
fn extensions() {
    assert_eq!(FileType::Arrow.get_ext(), ".arrow".to_string());
    assert_eq!(FileType::Avro.get_ext(), ".avro".to_string());
    assert_eq!(FileType::Parquet.get_ext(), ".parquet".to_string());
    assert_eq!(FileType::Csv.get_ext(), ".csv".to_string());
    assert_eq!(FileType::Json.get_ext(), ".json".to_string());
}

#[test]
fn display_names() {
    assert_eq!(FileType::Csv.display_string(), "csv".to_string());
    assert_eq!(FileType::Json.display_string(), "json".to_string());
    assert_eq!(FileType::Parquet.display_string(), "parquet".to_string());
    assert_eq!(FileType::Avro.display_string(), "avro".to_string());
    assert_eq!(FileType::Arrow.display_string(), "arrow".to_string());
}
