use sanity::addons::{addons_from_json, AddonsError};
use sanity::buildpacks::{parse_buildpacks, ParseError};

#[test]
fn parses_numbered_listing() {
    let out = "=== myapp Buildpack URLs\n1. heroku/nodejs\n2. heroku/python\n";
    assert_eq!(
        parse_buildpacks(out).unwrap(),
        vec!["heroku/nodejs".to_string(), "heroku/python".to_string()]
    );
}

#[test]
fn parses_single_buildpack_listing() {
    let out = "=== myapp Buildpack URL\nheroku/ruby\n";
    assert_eq!(parse_buildpacks(out).unwrap(), vec!["heroku/ruby".to_string()]);
}

#[test]
fn empty_listing_is_no_buildpacks() {
    assert_eq!(parse_buildpacks("").unwrap(), Vec::<String>::new());
    assert_eq!(
        parse_buildpacks("=== myapp Buildpack URLs\n").unwrap(),
        Vec::<String>::new()
    );
}

#[test]
fn numbered_lines_insert_at_their_position() {
    // the later line claims position one as well and shifts the earlier entry
    let out = "1. b\n1. a\n";
    assert_eq!(
        parse_buildpacks(out).unwrap(),
        vec!["a".to_string(), "b".to_string()]
    );
}

#[test]
fn position_past_the_end_is_rejected() {
    assert_eq!(parse_buildpacks("2. b\n1. a\n"), Err(ParseError::BadPosition));
}

#[test]
fn position_zero_is_rejected() {
    assert_eq!(parse_buildpacks("0. x\n"), Err(ParseError::BadPosition));
}

#[test]
fn oversized_number_is_rejected() {
    assert_eq!(
        parse_buildpacks("99999999999999999999999999999. x\n"),
        Err(ParseError::BadNumber)
    );
}

#[test]
fn name_runs_to_the_end_of_its_line() {
    let out = "1. heroku/nodejs extra words\nnoise\n";
    assert_eq!(
        parse_buildpacks(out).unwrap(),
        vec!["heroku/nodejs extra words".to_string()]
    );
}

#[test]
fn header_without_name_is_no_buildpack() {
    assert_eq!(parse_buildpacks("Buildpack URL\n\n").unwrap(), Vec::<String>::new());
}

#[test]
fn addons_collected_in_listing_order() {
    let doc = "[{\"addon_service\":{\"cli_plugin_name\":\"redis\"}},{\"addon_service\":{\"cli_plugin_name\":\"postgres\"}}]";
    assert_eq!(
        addons_from_json(doc).unwrap(),
        vec!["redis".to_string(), "postgres".to_string()]
    );
}

#[test]
fn empty_addon_array_is_no_addons() {
    assert_eq!(addons_from_json("[]").unwrap(), Vec::<String>::new());
}

#[test]
fn invalid_json_is_rejected() {
    assert_eq!(addons_from_json("not json"), Err(AddonsError::NotJson));
}

#[test]
fn non_array_document_is_rejected() {
    assert_eq!(
        addons_from_json("{\"addon_service\": 1}"),
        Err(AddonsError::NotArray)
    );
}

#[test]
fn addon_without_plugin_name_is_rejected() {
    assert_eq!(
        addons_from_json("[{\"addon_service\":{}}]"),
        Err(AddonsError::NoPluginName)
    );
}
