use updater_core::manifest::{manifest_entries, parse_manifest, Manifest, UpdateError};

fn entries(text: &str) -> Vec<String> {
    manifest_entries(&text.as_bytes().to_vec())
        .unwrap()
        .into_iter()
        .map(|v| String::from_utf8(v).unwrap())
        .collect()
}

fn parse_err(text: &str) -> UpdateError {
    manifest_entries(&text.as_bytes().to_vec()).unwrap_err()
}

#[test]
fn legacy_and_unified_give_the_same_entry_set() {
    let legacy = entries(r#"{"files":["x"],"data_folders":["saves/"]}"#);
    let unified = entries(r#"{"entries":["x","data/saves"]}"#);
    assert_eq!(legacy, unified);
    assert_eq!(legacy, vec!["data/saves".to_string(), "x".to_string()]);
}

#[test]
fn duplicate_spellings_collapse_to_one_entry() {
    let got = entries(r#"{"entries":["a/b","./a/b","a\\b"]}"#);
    assert_eq!(got, vec!["a/b".to_string()]);
}

#[test]
fn entries_are_sorted_and_empties_dropped() {
    let got = entries(r#"{"entries":["b","a","   ",""]}"#);
    assert_eq!(got, vec!["a".to_string(), "b".to_string()]);
}

#[test]
fn unknown_fields_are_ignored() {
    let got = entries(r#"{"version": 3, "entries":["x"], "meta": {"a":[1,2,true,null]}, "note":"hi"}"#);
    assert_eq!(got, vec!["x".to_string()]);
}

#[test]
fn empty_object_is_an_empty_legacy_manifest() {
    let got = entries("{}");
    assert!(got.is_empty());
}

#[test]
fn empty_entry_list_is_valid() {
    let got = entries(r#"{"entries":[]}"#);
    assert!(got.is_empty());
}

#[test]
fn legacy_lists_default_to_empty() {
    let got = entries(r#"{"data_folders":["mods"]}"#);
    assert_eq!(got, vec!["data/mods".to_string()]);
}

#[test]
fn folder_names_are_trimmed_of_separators() {
    let got = entries(r#"{"files":[],"data_folders":["/saves/","\\mods\\"]}"#);
    assert_eq!(got, vec!["data/mods".to_string(), "data/saves".to_string()]);
}

#[test]
fn not_json_is_a_parse_error() {
    assert_eq!(parse_err("nonsense"), UpdateError::ParseError);
}

#[test]
fn top_level_array_is_a_parse_error() {
    assert_eq!(parse_err(r#"["x"]"#), UpdateError::ParseError);
}

#[test]
fn entries_of_wrong_type_is_a_parse_error() {
    assert_eq!(parse_err(r#"{"entries": 5}"#), UpdateError::ParseError);
    assert_eq!(parse_err(r#"{"entries": [1,2]}"#), UpdateError::ParseError);
    assert_eq!(parse_err(r#"{"files": "x"}"#), UpdateError::ParseError);
}

#[test]
fn truncated_document_is_a_parse_error() {
    assert_eq!(parse_err(r#"{"entries":["x"]"#), UpdateError::ParseError);
    assert_eq!(parse_err(""), UpdateError::ParseError);
}

#[test]
fn trailing_garbage_is_a_parse_error() {
    assert_eq!(parse_err(r#"{"entries":["x"]} extra"#), UpdateError::ParseError);
}

#[test]
fn string_escapes_decode() {
    let got = entries(r#"{"entries":["A/\t b","q\/r"]}"#);
    assert_eq!(got, vec!["A/\t b".to_string(), "q/r".to_string()]);
}

#[test]
fn raw_utf8_passes_through() {
    let got = entries("{\"entries\":[\"d\u{e9}tails/\u{1F600}\"]}");
    assert_eq!(got, vec!["d\u{e9}tails/\u{1F600}".to_string()]);
}

#[test]
fn unicode_escapes_decode_and_lone_surrogate_fails() {
    let got = entries(r#"{"entries":["\uD83D\uDE00","\u0041\u00e9"]}"#);
    assert_eq!(got, vec!["A\u{e9}".to_string(), "\u{1F600}".to_string()]);
    assert_eq!(parse_err(r#"{"entries":["\uD83D"]}"#), UpdateError::ParseError);
}

#[test]
fn parse_manifest_reports_the_shape() {
    let m = parse_manifest(&r#"{"entries":["x"]}"#.as_bytes().to_vec()).unwrap();
    assert!(matches!(m, Manifest::Unified { .. }));
    let m = parse_manifest(&r#"{"files":["x"]}"#.as_bytes().to_vec()).unwrap();
    assert!(matches!(m, Manifest::Split { .. }));
}

#[test]
fn into_entries_rewrites_folders() {
    let m = parse_manifest(&r#"{"files":["a.txt"],"data_folders":["saves/"]}"#.as_bytes().to_vec())
        .unwrap();
    let raws: Vec<String> = m
        .into_entries()
        .into_iter()
        .map(|v| String::from_utf8(v).unwrap())
        .collect();
    assert_eq!(raws, vec!["a.txt".to_string(), "data/saves".to_string()]);
}

#[test]
fn later_duplicate_key_wins() {
    let got = entries(r#"{"entries":["a"],"entries":["b"]}"#);
    assert_eq!(got, vec!["b".to_string()]);
}

#[test]
fn error_labels_name_the_taxonomy() {
    assert_eq!(UpdateError::NotFound.label(), "not found");
    assert_eq!(UpdateError::ParseError.label(), "parse error");
    assert_eq!(UpdateError::IoFailure.label(), "io failure");
    assert_eq!(UpdateError::UpstreamFailure.label(), "upstream failure");
}

#[test]
fn whitespace_tolerated_between_tokens() {
    let got = entries("  {\n\t\"entries\" : [ \"x\" , \"y\" ]\r\n}  ");
    assert_eq!(got, vec!["x".to_string(), "y".to_string()]);
}
