use reforger_language_server::game_data_search::{
    accept_cursor, accept_symbol_reference, bounded_search_text, canonical_addon_guids, canonical_kinds,
    declaration_origin_rank, match_rank,
    compact_signature, cursor_payload, encode_cursor, encode_symbol_ref, hex, kind_name, normalize_query,
    owner_name, qualify, symbol_ref_payload, unhex, Cursor, GameDataAddonIdentity, GameDataSearchError,
    GameDataSearchRequest, SourceLineRange, SourceLineStarts, SymbolReference, MAX_SEARCH_TEXT_CHARS,
};
use reforger_language_server::index::{DeclarationRecord, IndexedSymbolDetail, SourceFileId, SymbolIndex};
use reforger_language_server::model::{
    SourceCategory, SourceFileMetadata, SourceKind, SymbolId, SymbolKind, TextSpan, SOURCE_PRIORITY_GAME_DATA,
};

fn empty_detail() -> IndexedSymbolDetail {
    IndexedSymbolDetail {
        type_text: None,
        type_text_span: None,
        return_type_text: None,
        return_type_text_span: None,
        base_type: None,
        base_type_span: None,
        default_text: None,
        default_text_span: None,
        enum_value_text: None,
        enum_value_text_span: None,
    }
}

fn record(id: usize, parent: Option<usize>, kind: SymbolKind, name: &str, detail: IndexedSymbolDetail) -> DeclarationRecord {
    DeclarationRecord {
        id: SymbolId(id),
        parent: parent.map(SymbolId),
        kind,
        name: Some(name.to_string()),
        span: TextSpan::new(id * 10, id * 10 + 5),
        selection_span: TextSpan::new(id * 10, id * 10 + 2),
        detail,
        attributes: Vec::new(),
        modifiers: Vec::new(),
        doc_comments: Vec::new(),
        conditional_context: Vec::new(),
        callable_form: None,
    }
}

fn sample_index() -> SymbolIndex {
    let mut class_detail = empty_detail();
    class_detail.base_type = Some("Managed".to_string());
    let mut field_detail = empty_detail();
    field_detail.type_text = Some("int".to_string());
    let mut method_detail = empty_detail();
    method_detail.return_type_text = Some("bool".to_string());
    let records = vec![
        record(0, None, SymbolKind::Class, "Vehicle", class_detail),
        record(1, Some(0), SymbolKind::Field, "m_Speed", field_detail),
        record(2, Some(0), SymbolKind::Method, "IsMoving", method_detail),
        record(3, None, SymbolKind::Enum, "EGear", empty_detail()),
    ];
    let metadata = SourceFileMetadata {
        kind: SourceKind::GameData,
        category: SourceCategory::Game,
        absolute_path: Some("C:/game/Vehicle.c".to_string()),
        root_path: Some("C:/game".to_string()),
        relative_path: Some("Vehicle.c".to_string()),
        priority: SOURCE_PRIORITY_GAME_DATA,
    };
    let mut index = SymbolIndex::new();
    index.add_declarations(metadata, records, 0);
    index
}

#[test]
fn line_starts_follow_line_feeds() {
    let starts = SourceLineStarts::from_source("ab\ncd\n\nx");
    assert_eq!(starts.line_count(), 4);
    assert_eq!(starts.range(0, 1), SourceLineRange { start_line: 1, end_line: 1 });
    assert_eq!(starts.range(2, 3), SourceLineRange { start_line: 1, end_line: 2 });
    assert_eq!(starts.range(6, 7), SourceLineRange { start_line: 3, end_line: 4 });
    assert_eq!(starts.range(100, 200), SourceLineRange { start_line: 4, end_line: 4 });
}

#[test]
fn cached_starts_default_to_one_line() {
    let starts = SourceLineStarts::from_cached_starts(Vec::new());
    assert_eq!(starts.line_count(), 1);
    assert_eq!(starts.range(5, 9), SourceLineRange { start_line: 1, end_line: 1 });
    let kept = SourceLineStarts::from_cached_starts(vec![0, 4, 8]);
    assert_eq!(kept.line_count(), 3);
    assert_eq!(kept.range(4, 9), SourceLineRange { start_line: 2, end_line: 3 });
}

#[test]
fn lines_of_offsets_before_the_first_start_are_one() {
    let starts = SourceLineStarts::from_cached_starts(vec![5, 9]);
    assert_eq!(starts.range(0, 5), SourceLineRange { start_line: 1, end_line: 1 });
    assert_eq!(starts.range(9, 9), SourceLineRange { start_line: 2, end_line: 2 });
}

#[test]
fn new_request_has_no_filters() {
    let request = GameDataSearchRequest::new("Vehicle");
    assert_eq!(request.query, "Vehicle");
    assert!(request.addon_guids.is_none());
    assert!(request.kinds.is_none());
    assert!(request.owner.is_none());
    assert!(request.source_categories.is_none());
    assert!(request.limit.is_none());
    assert!(request.cursor.is_none());
    assert!(request.offset.is_none());
}

#[test]
fn queries_collapse_whitespace() {
    assert_eq!(normalize_query("  Get \t Vehicle\n Speed  "), Ok("Get Vehicle Speed".to_string()));
    assert_eq!(normalize_query(""), Ok(String::new()));
    assert_eq!(normalize_query(" \u{3000} "), Ok(String::new()));
    let long = "a".repeat(256);
    assert_eq!(normalize_query(&long), Ok(long.clone()));
    let too_long = "a".repeat(257);
    assert_eq!(
        normalize_query(&too_long),
        Err(GameDataSearchError::InvalidRequest("query exceeds 256 characters"))
    );
    let spaced = format!("{}    {}", "a".repeat(128), "b".repeat(127));
    assert_eq!(normalize_query(&spaced).unwrap().chars().count(), 256);
}

#[test]
fn kind_names_are_camel_case() {
    assert_eq!(kind_name(SymbolKind::Class), "class");
    assert_eq!(kind_name(SymbolKind::EnumMember), "enumMember");
    assert_eq!(kind_name(SymbolKind::GlobalField), "globalField");
    assert_eq!(kind_name(SymbolKind::TypeParameter), "typeParameter");
    assert_eq!(kind_name(SymbolKind::PreprocessorMacro), "preprocessorMacro");
    assert_eq!(kind_name(SymbolKind::LocalVariable), "localVariable");
}

#[test]
fn qualify_joins_owner_and_name() {
    assert_eq!(qualify(Some("Vehicle"), "m_Speed"), "Vehicle.m_Speed");
    assert_eq!(qualify(None, "Vehicle"), "Vehicle");
}

#[test]
fn owner_name_is_the_parent_name() {
    let index = sample_index();
    let symbols = index.symbols();
    assert_eq!(owner_name(&index, &symbols[1]), Some("Vehicle".to_string()));
    assert_eq!(owner_name(&index, &symbols[0]), None);
}

#[test]
fn compact_signatures_by_kind() {
    let index = sample_index();
    let symbols = index.symbols();
    assert_eq!(compact_signature(&symbols[0], "Vehicle"), "class Vehicle : Managed");
    assert_eq!(compact_signature(&symbols[1], "Vehicle.m_Speed"), "Vehicle.m_Speed: int");
    assert_eq!(compact_signature(&symbols[2], "Vehicle.IsMoving"), "Vehicle.IsMoving -> bool");
    assert_eq!(compact_signature(&symbols[3], "EGear"), "enum EGear");
}

#[test]
fn long_texts_are_cut_with_an_ellipsis() {
    let short = "x".repeat(MAX_SEARCH_TEXT_CHARS);
    assert_eq!(bounded_search_text(short.clone()), short);
    let long = "é".repeat(MAX_SEARCH_TEXT_CHARS + 1);
    let cut = bounded_search_text(long);
    assert_eq!(cut.chars().count(), MAX_SEARCH_TEXT_CHARS + 1);
    assert!(cut.ends_with('…'));
}

#[test]
fn hex_round_trips() {
    assert_eq!(hex(&[0x00, 0x0f, 0xab, 0xff]), "000fabff");
    assert_eq!(unhex("000fabff"), Some(vec![0x00, 0x0f, 0xab, 0xff]));
    assert_eq!(unhex("ABcd"), Some(vec![0xab, 0xcd]));
    assert_eq!(unhex("+f"), Some(vec![0x0f]));
    assert_eq!(unhex("abc"), None);
    assert_eq!(unhex("zz"), None);
    assert_eq!(unhex(""), Some(Vec::new()));
}

#[test]
fn symbol_references_frame_their_fields() {
    let encoded = encode_symbol_ref(b"{}");
    assert_eq!(encoded, "sr2:7b7d");
    assert_eq!(symbol_ref_payload(&encoded), Some(b"{}".to_vec()));
    assert_eq!(symbol_ref_payload("sr1:7b7d"), None);
    assert_eq!(symbol_ref_payload("sr2:"), None);
    assert_eq!(symbol_ref_payload("sr2:7g"), None);
    let oversized = format!("sr2:{}", "00".repeat(1023));
    assert_eq!(symbol_ref_payload(&oversized), None);
}

#[test]
fn symbol_references_need_version_two_and_fields() {
    let reference = SymbolReference {
        version: 2,
        catalogue_revision: "rev".to_string(),
        addon_guid: None,
        path: "Vehicle.c".to_string(),
        kind: "class".to_string(),
        qualified_name: "Vehicle".to_string(),
        selection_start: 0,
    };
    assert_eq!(accept_symbol_reference(reference.clone()), Some(reference.clone()));
    assert_eq!(accept_symbol_reference(SymbolReference { version: 1, ..reference.clone() }), None);
    assert_eq!(accept_symbol_reference(SymbolReference { path: String::new(), ..reference }), None);
}

#[test]
fn cursors_frame_their_fields() {
    assert_eq!(encode_cursor(b"{}"), "7b7d");
    assert_eq!(cursor_payload("7b7d"), Ok(b"{}".to_vec()));
    assert_eq!(cursor_payload("7b7"), Err(GameDataSearchError::InvalidCursor));
    assert_eq!(cursor_payload(&"0".repeat(2050)), Err(GameDataSearchError::InvalidCursor));
    let cursor = Cursor {
        version: 2,
        catalogue_revision: "rev".to_string(),
        query: "Vehicle".to_string(),
        kinds: vec!["class".to_string()],
        owner: None,
        source_categories: Vec::new(),
        addon_guids: Vec::new(),
        offset: 20,
    };
    assert_eq!(accept_cursor(cursor.clone()), Ok(cursor.clone()));
    assert_eq!(accept_cursor(Cursor { version: 3, ..cursor }), Err(GameDataSearchError::InvalidCursor));
}

#[test]
fn kinds_default_and_sort() {
    let defaults = canonical_kinds(None).unwrap();
    assert_eq!(defaults.len(), 11);
    assert_eq!(defaults[0], "class");
    assert_eq!(defaults[4], "enumMember");
    assert_eq!(defaults[10], "typedef");
    let given = vec!["method".to_string(), "class".to_string()];
    assert_eq!(canonical_kinds(Some(&given)), Ok(vec!["class".to_string(), "method".to_string()]));
}

#[test]
fn kinds_are_checked() {
    assert_eq!(
        canonical_kinds(Some(&[])),
        Err(GameDataSearchError::InvalidRequest("kinds must be non-empty"))
    );
    let repeated = vec!["class".to_string(), "class".to_string()];
    assert_eq!(
        canonical_kinds(Some(&repeated)),
        Err(GameDataSearchError::InvalidRequest("kinds must be unique supported symbol kinds"))
    );
    let unknown = vec!["widget".to_string()];
    assert_eq!(
        canonical_kinds(Some(&unknown)),
        Err(GameDataSearchError::InvalidRequest("kinds must be unique supported symbol kinds"))
    );
}

fn addons() -> Vec<(SourceFileId, GameDataAddonIdentity)> {
    let identity = |guid: &str| GameDataAddonIdentity {
        guid: guid.to_string(),
        label: "Addon".to_string(),
        thumbnail_color: None,
    };
    vec![
        (SourceFileId(0), identity("58D0FB3206B6F859")),
        (SourceFileId(1), identity("0123456789ABCDEF")),
        (SourceFileId(2), identity("58D0FB3206B6F859")),
    ]
}

#[test]
fn addon_guids_default_to_all_loaded() {
    assert_eq!(
        canonical_addon_guids(None, &addons(), false),
        Ok(vec!["0123456789ABCDEF".to_string(), "58D0FB3206B6F859".to_string()])
    );
    let given = vec!["58d0fb3206b6f859".to_string(), "0123456789abcdef".to_string()];
    assert_eq!(
        canonical_addon_guids(Some(&given), &addons(), false),
        Ok(vec!["0123456789ABCDEF".to_string(), "58D0FB3206B6F859".to_string()])
    );
}

#[test]
fn addon_guids_are_checked() {
    let message = GameDataSearchError::InvalidRequest(
        "addonGuids must contain unique loaded 16-character hexadecimal GUIDs",
    );
    assert_eq!(
        canonical_addon_guids(Some(&[]), &addons(), false),
        Err(GameDataSearchError::InvalidRequest("addonGuids must be non-empty when provided"))
    );
    let short = vec!["58D0FB32".to_string()];
    assert_eq!(canonical_addon_guids(Some(&short), &addons(), false), Err(message.clone()));
    let unloaded = vec!["FFFFFFFFFFFFFFFF".to_string()];
    assert_eq!(canonical_addon_guids(Some(&unloaded), &addons(), false), Err(message.clone()));
    let repeated = vec!["58D0FB3206B6F859".to_string(), "58d0fb3206b6f859".to_string()];
    assert_eq!(canonical_addon_guids(Some(&repeated), &addons(), false), Err(message));
}

#[test]
fn workspace_searches_take_no_addon_guids() {
    assert_eq!(canonical_addon_guids(None, &addons(), true), Ok(Vec::new()));
    let given = vec!["58D0FB3206B6F859".to_string()];
    assert_eq!(
        canonical_addon_guids(Some(&given), &addons(), true),
        Err(GameDataSearchError::InvalidRequest("addonGuids is supported only for Game Data search"))
    );
}

#[test]
fn match_ranks_prefer_the_closest_match() {
    let index = sample_index();
    let symbols = index.symbols();
    let field = &symbols[1];
    let rank = |query: &str| {
        let folded = query.to_lowercase();
        match_rank(field, "Vehicle.m_Speed", None, query, &folded)
    };
    assert_eq!(rank(""), Some((8, "kind")));
    assert_eq!(rank("m_Speed"), Some((1, "exactName")));
    assert_eq!(rank("M_SPEED"), Some((2, "caseInsensitiveName")));
    assert_eq!(rank("m_sp"), Some((3, "namePrefix")));
    assert_eq!(rank("vehicle.m"), Some((4, "qualifiedName")));
    assert_eq!(rank("speed"), Some((4, "qualifiedName")));
    assert_eq!(match_rank(&symbols[0], "Vehicle", None, "hicl", "hicl"), Some((5, "nameSubstring")));
    assert_eq!(rank("int"), Some((7, "type")));
    assert_eq!(rank("wheel"), None);
    let method = &symbols[2];
    assert_eq!(
        match_rank(method, "Vehicle.IsMoving", Some("bool Vehicle.IsMoving(int gear)"), "gear", "gear"),
        Some((6, "signature"))
    );
}

#[test]
fn identifier_prefix_queries_skip_qualified_names_and_types() {
    let index = sample_index();
    let field = &index.symbols()[1];
    assert_eq!(match_rank(field, "Vehicle.m_Speed", None, "Vehicle_", "vehicle_"), None);
    assert_eq!(match_rank(field, "Vehicle.m_Speed", None, "m_", "m_"), Some((3, "namePrefix")));
}

#[test]
fn origin_rank_marks_modded_or_override_ancestry() {
    let mut class_record = record(0, None, SymbolKind::Class, "Vehicle", empty_detail());
    class_record.modifiers = vec!["modded".to_string()];
    let records = vec![
        class_record,
        record(1, Some(0), SymbolKind::Method, "Run", empty_detail()),
        record(2, None, SymbolKind::Class, "Other", empty_detail()),
    ];
    let metadata = SourceFileMetadata {
        kind: SourceKind::GameData,
        category: SourceCategory::Game,
        absolute_path: None,
        root_path: None,
        relative_path: Some("Vehicle.c".to_string()),
        priority: SOURCE_PRIORITY_GAME_DATA,
    };
    let mut index = SymbolIndex::new();
    index.add_declarations(metadata, records, 0);
    let symbols = index.symbols();
    assert_eq!(declaration_origin_rank(&index, &symbols[0]), 1);
    assert_eq!(declaration_origin_rank(&index, &symbols[1]), 1);
    assert_eq!(declaration_origin_rank(&index, &symbols[2]), 0);
}
