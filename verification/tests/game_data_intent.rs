use reforger_language_server::game_data_intent::{
    compare_candidates, identifier_terms, intent_outcome, meaningful_terms, normalize_term, selected_addons, sort_candidates,
    GameDataIntentError, IntentCandidate, IntentFollowUp, IntentStatus,
};
use reforger_language_server::game_data_search::GameDataAddonIdentity;
use reforger_language_server::index::{GlobalSymbolId, SourceFileId};
use reforger_language_server::model::SymbolId;
use std::cmp::Ordering;

fn candidate(file: usize, symbol: usize, score: u32, exact: bool, origin: u8, terms: &[&str]) -> IntentCandidate {
    IntentCandidate {
        id: GlobalSymbolId { file_id: SourceFileId(file), symbol_id: SymbolId(symbol) },
        score,
        whole_query_exact: exact,
        origin_rank: origin,
        matched_terms: terms.iter().map(|t| t.to_string()).collect(),
    }
}

#[test]
fn identifier_terms_split_at_separators_and_case_steps() {
    assert_eq!(identifier_terms("SCR_BaseGameMode"), vec!["scr", "base", "game", "mode"]);
    assert_eq!(identifier_terms("OnPlayer2Killed"), vec!["on", "player2", "killed"]);
    assert_eq!(identifier_terms("HTTPRequest"), vec!["httprequest"]);
    assert_eq!(identifier_terms("  --  "), Vec::<String>::new());
    assert_eq!(identifier_terms("get vehicle_Entities"), vec!["get", "vehicle", "entity"]);
}

#[test]
fn normalize_term_reduces_plurals() {
    assert_eq!(normalize_term("entities"), "entity");
    assert_eq!(normalize_term("classes"), "class");
    assert_eq!(normalize_term("boxes"), "box");
    assert_eq!(normalize_term("matches"), "match");
    assert_eq!(normalize_term("wishes"), "wish");
    assert_eq!(normalize_term("items"), "item");
    assert_eq!(normalize_term("lies"), "lie");
    assert_eq!(normalize_term("bus"), "bus");
    assert_eq!(normalize_term("mode"), "mode");
}

#[test]
fn meaningful_terms_are_sorted_distinct_and_without_stop_words() {
    assert_eq!(
        meaningful_terms("how to get the Player Controllers for vehicles and player"),
        vec!["controller", "player", "vehicle"]
    );
    assert_eq!(meaningful_terms("the of to"), Vec::<String>::new());
}

#[test]
fn candidates_rank_by_score_then_origin_then_id() {
    let high = candidate(3, 1, 500, false, 2, &[]);
    let low = candidate(0, 0, 100, false, 0, &[]);
    assert_eq!(compare_candidates(&high, &low), Ordering::Less);
    assert_eq!(compare_candidates(&low, &high), Ordering::Greater);
    let original = candidate(4, 0, 100, false, 0, &[]);
    let modded = candidate(1, 0, 100, false, 1, &[]);
    assert_eq!(compare_candidates(&original, &modded), Ordering::Less);
    let first_file = candidate(1, 9, 100, false, 0, &[]);
    let second_file = candidate(2, 0, 100, false, 0, &[]);
    assert_eq!(compare_candidates(&first_file, &second_file), Ordering::Less);
    assert_eq!(compare_candidates(&first_file, &first_file.clone()), Ordering::Equal);
}

#[test]
fn intent_outcome_answers_each_shape() {
    assert_eq!(intent_outcome(&Vec::new()), (IntentStatus::NotFound, IntentFollowUp::RefineQuery, 0));
    let unique = vec![candidate(0, 0, 10_400, true, 0, &["x"]), candidate(0, 1, 300, false, 0, &["a", "b"])];
    assert_eq!(intent_outcome(&unique), (IntentStatus::Resolved, IntentFollowUp::Nothing, 0));
    let repeated = vec![
        candidate(0, 0, 10_400, true, 0, &["x"]),
        candidate(0, 1, 10_400, true, 0, &["x"]),
        candidate(0, 2, 100, false, 0, &["x"]),
        candidate(0, 3, 90, false, 0, &["x"]),
    ];
    assert_eq!(intent_outcome(&repeated), (IntentStatus::Ambiguous, IntentFollowUp::RefineQuery, 2));
    let leading = vec![candidate(0, 0, 800, false, 0, &["a", "b"]), candidate(0, 1, 700, false, 0, &["a"])];
    assert_eq!(intent_outcome(&leading), (IntentStatus::Resolved, IntentFollowUp::Nothing, 1));
    let close = vec![candidate(0, 0, 800, false, 0, &["a", "b"]), candidate(0, 1, 701, false, 0, &["a"])];
    assert_eq!(intent_outcome(&close), (IntentStatus::Ambiguous, IntentFollowUp::RefineQuery, 1));
    let saturated = vec![candidate(0, 0, u32::MAX, false, 0, &["a", "b"]), candidate(0, 1, u32::MAX - 5, false, 0, &["a"])];
    assert_eq!(intent_outcome(&saturated), (IntentStatus::Resolved, IntentFollowUp::Nothing, 1));
}

#[test]
fn selected_addons_default_to_all_loaded_and_check_named_guids() {
    let identity = |guid: &str| GameDataAddonIdentity {
        guid: guid.to_string(),
        label: guid.to_string(),
        thumbnail_color: None,
    };
    let map = vec![
        (SourceFileId(0), identity("BBBBBBBBBBBBBBBB")),
        (SourceFileId(1), identity("58D0FB3206B6F859")),
        (SourceFileId(2), identity("BBBBBBBBBBBBBBBB")),
    ];
    assert_eq!(
        selected_addons(None, &map).unwrap(),
        vec!["58D0FB3206B6F859".to_string(), "BBBBBBBBBBBBBBBB".to_string()]
    );
    let named = vec!["58d0fb3206b6f859".to_string()];
    assert_eq!(selected_addons(Some(named.as_slice()), &map).unwrap(), vec!["58D0FB3206B6F859".to_string()]);
    let empty: Vec<String> = Vec::new();
    assert!(matches!(
        selected_addons(Some(empty.as_slice()), &map),
        Err(GameDataIntentError::InvalidRequest(m)) if m == "addonGuids must be non-empty when provided"
    ));
    let twice = vec!["BBBBBBBBBBBBBBBB".to_string(), "bbbbbbbbbbbbbbbb".to_string()];
    let unloaded = vec!["CCCCCCCCCCCCCCCC".to_string()];
    for request in [twice, unloaded] {
        assert!(matches!(
            selected_addons(Some(request.as_slice()), &map),
            Err(GameDataIntentError::InvalidRequest(m))
                if m == "addonGuids must contain unique loaded 16-character hexadecimal GUIDs"
        ));
    }
}

#[test]
fn candidates_sort_into_ranking_order() {
    let sorted = sort_candidates(vec![
        candidate(2, 0, 100, false, 0, &["low"]),
        candidate(1, 4, 900, false, 1, &["modded"]),
        candidate(3, 1, 900, false, 0, &["original"]),
        candidate(0, 2, 100, false, 0, &["first"]),
    ]);
    let order: Vec<(usize, usize)> = sorted.iter().map(|c| (c.id.file_id.0, c.id.symbol_id.0)).collect();
    assert_eq!(order, vec![(3, 1), (1, 4), (0, 2), (2, 0)]);
    assert!(sort_candidates(Vec::new()).is_empty());
}
