use reforger_language_server::game_data_inspection::{
    bounded, check_source_read_request, GameDataInspectionError, GameDataSourceReadRequest,
};

fn request(revision: &str, path: &str) -> GameDataSourceReadRequest {
    GameDataSourceReadRequest {
        catalogue_revision: revision.to_string(),
        relative_path: path.to_string(),
        start_line: None,
        line_count: None,
    }
}

#[test]
fn bounded_keeps_short_texts() {
    assert_eq!(bounded("abc".to_string(), 3), ("abc".to_string(), false));
    assert_eq!(bounded(String::new(), 0), (String::new(), false));
}

#[test]
fn bounded_cuts_at_a_character_boundary() {
    assert_eq!(bounded("abcdef".to_string(), 4), ("abcd".to_string(), true));
    // 'é' takes two bytes: a cut inside it moves back before it.
    assert_eq!(bounded("aéb".to_string(), 2), ("a".to_string(), true));
    assert_eq!(bounded("aéb".to_string(), 3), ("aé".to_string(), true));
}

#[test]
fn read_requests_need_the_current_revision() {
    assert_eq!(
        check_source_read_request(&request("old", "scripts/Game/A.c"), "new"),
        Err(GameDataInspectionError::StaleSymbolRef)
    );
    assert_eq!(check_source_read_request(&request("rev", "scripts/Game/A.c"), "rev"), Ok(()));
}

#[test]
fn read_requests_need_exact_logical_paths() {
    let invalid = GameDataInspectionError::InvalidSource("relativePath must be an exact logical catalogue path".to_string());
    for path in ["", "scripts\\Game\\A.c", "/scripts/A.c", "scripts/../A.c"] {
        assert_eq!(check_source_read_request(&request("rev", path), "rev"), Err(invalid.clone()), "{path:?}");
    }
}
