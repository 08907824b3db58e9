use reforger_language_server::expression_type::{
    collection_index_result_type, generic_owner_and_args, is_null_literal_text,
    owner_type_from_cast_expression_text, owner_type_from_new_expression_text, owner_type_from_type_text,
    primitive_type_from_expression_text, strip_all_type_prefixes, substitute_generic_return_type, ExpressionType,
};
use reforger_language_server::index::{DeclarationRecord, IndexedSymbolDetail, SymbolIndex};
use reforger_language_server::model::{
    SourceCategory, SourceFileMetadata, SourceKind, SymbolId, SymbolKind, TextSpan, SOURCE_PRIORITY_GAME_DATA,
    SOURCE_PRIORITY_WORKSPACE,
};

fn record(id: usize, parent: Option<usize>, kind: SymbolKind, name: &str) -> DeclarationRecord {
    DeclarationRecord {
        id: SymbolId(id),
        parent: parent.map(SymbolId),
        kind,
        name: Some(name.to_string()),
        span: TextSpan::new(id * 10, id * 10 + 5),
        selection_span: TextSpan::new(id * 10, id * 10 + 1),
        detail: IndexedSymbolDetail {
            type_text: None,
            type_text_span: None,
            return_type_text: None,
            return_type_text_span: None,
            base_type: None,
            base_type_span: None,
            default_text: None,
            default_text_span: None,
            enum_value_text: None,
            enum_value_text_span: None,
        },
        attributes: Vec::new(),
        modifiers: Vec::new(),
        doc_comments: Vec::new(),
        conditional_context: Vec::new(),
        callable_form: None,
    }
}

fn metadata(kind: SourceKind, priority: u16) -> SourceFileMetadata {
    SourceFileMetadata {
        kind,
        category: SourceCategory::Unknown,
        absolute_path: None,
        root_path: None,
        relative_path: None,
        priority,
    }
}

// class MapLike<TKey, TValue> { TValue Get(TKey key) {} }
fn map_like_records() -> Vec<DeclarationRecord> {
    vec![
        record(0, None, SymbolKind::Class, "MapLike"),
        record(1, Some(0), SymbolKind::TypeParameter, "TKey"),
        record(2, Some(0), SymbolKind::TypeParameter, "TValue"),
        record(3, Some(0), SymbolKind::Method, "Get"),
        record(4, Some(3), SymbolKind::Parameter, "key"),
    ]
}

#[test]
fn extracts_owner_names_from_raw_type_text() {
    assert_eq!(owner_type_from_type_text("ref Widget").as_deref(), Some("Widget"));
    assert_eq!(owner_type_from_type_text("notnull array<IEntity>").as_deref(), Some("array"));
    assert_eq!(owner_type_from_type_text("map<string, ref Widget>").as_deref(), Some("map"));
}

#[test]
fn collection_index_results_preserve_element_owner_and_raw_type() {
    let array = collection_index_result_type("array<IEntity>").unwrap();
    assert_eq!(array.owner_type, "IEntity");
    assert_eq!(array.raw_type_text.as_deref(), Some("IEntity"));

    let map = collection_index_result_type("map<string, ref Widget>").unwrap();
    assert_eq!(map.owner_type, "Widget");
    assert_eq!(map.raw_type_text.as_deref(), Some("ref Widget"));
}

#[test]
fn substitutes_generic_return_types_from_receiver_text() {
    let mut index = SymbolIndex::new();
    index.add_declarations(SourceFileMetadata::unknown(), map_like_records(), 0);
    assert_eq!(
        substitute_generic_return_type(&index, "MapLike", "MapLike<string, Widget>", "TValue").as_deref(),
        Some("Widget")
    );
}

#[test]
fn substitution_follows_the_parameter_position_and_needs_the_owner() {
    let mut index = SymbolIndex::new();
    index.add_declarations(SourceFileMetadata::unknown(), map_like_records(), 0);
    assert_eq!(
        substitute_generic_return_type(&index, "MapLike", "ref MapLike<string, Widget>", "TKey").as_deref(),
        Some("string")
    );
    assert_eq!(substitute_generic_return_type(&index, "MapLike", "Other<string, Widget>", "TValue"), None);
    assert_eq!(substitute_generic_return_type(&index, "MapLike", "MapLike<string>", "TValue"), None);
    assert_eq!(substitute_generic_return_type(&index, "MapLike", "MapLike<string, Widget>", "Widget"), None);
    assert_eq!(substitute_generic_return_type(&index, "Missing", "Missing<int>", "T"), None);
}

#[test]
fn substitution_uses_the_preferred_generic_class() {
    let mut index = SymbolIndex::new();
    index.add_declarations(metadata(SourceKind::GameData, SOURCE_PRIORITY_GAME_DATA), map_like_records(), 0);
    // A workspace class of the same name with its parameters in the other order.
    let workspace = vec![
        record(0, None, SymbolKind::Class, "MapLike"),
        record(1, Some(0), SymbolKind::TypeParameter, "TValue"),
        record(2, Some(0), SymbolKind::TypeParameter, "TKey"),
    ];
    index.add_declarations(metadata(SourceKind::Workspace, SOURCE_PRIORITY_WORKSPACE), workspace, 0);
    assert_eq!(
        substitute_generic_return_type(&index, "MapLike", "MapLike<string, Widget>", "TValue").as_deref(),
        Some("string")
    );
}

#[test]
fn strips_every_leading_qualifier() {
    assert_eq!(strip_all_type_prefixes("  ref notnull  autoptr Widget "), "Widget");
    assert_eq!(strip_all_type_prefixes("const ref<Foo>"), "<Foo>");
    assert_eq!(strip_all_type_prefixes("reference"), "reference");
    assert_eq!(strip_all_type_prefixes("inout"), "inout");
    assert_eq!(strip_all_type_prefixes("out int"), "int");
}

#[test]
fn owner_names_stop_at_type_punctuation() {
    assert_eq!(owner_type_from_type_text("Widget[4]").as_deref(), Some("Widget"));
    assert_eq!(owner_type_from_type_text("Widget&").as_deref(), Some("Widget"));
    assert_eq!(owner_type_from_type_text("set <int>").as_deref(), Some("set"));
    assert_eq!(owner_type_from_type_text("settings").as_deref(), Some("settings"));
    assert_eq!(owner_type_from_type_text("ref").as_deref(), Some("ref"));
    assert_eq!(owner_type_from_type_text("  "), None);
    assert_eq!(owner_type_from_type_text("<T>"), None);
}

#[test]
fn splits_generic_arguments_at_top_level_commas() {
    let (owner, args) = generic_owner_and_args(" map<string, array<int, float>, func(a, b)> ").unwrap();
    assert_eq!(owner, "map");
    assert_eq!(args, vec!["string", "array<int, float>", "func(a, b)"]);
    let (owner, args) = generic_owner_and_args("array<,>").unwrap();
    assert_eq!(owner, "array");
    assert!(args.is_empty());
    assert_eq!(generic_owner_and_args("array<int"), None);
    assert_eq!(generic_owner_and_args("<int>"), None);
    assert_eq!(generic_owner_and_args("int"), None);
}

#[test]
fn indexing_strings_vectors_and_static_arrays() {
    let string = collection_index_result_type("ref string").unwrap();
    assert_eq!(
        string,
        ExpressionType::instance_with_raw("string".to_string(), "string".to_string())
    );
    let vector = collection_index_result_type("vector").unwrap();
    assert_eq!(vector.owner_type, "float");
    assert_eq!(vector.raw_type_text.as_deref(), Some("float"));
    let fixed = collection_index_result_type("Widget [8]").unwrap();
    assert_eq!(fixed.owner_type, "Widget");
    assert_eq!(fixed.raw_type_text.as_deref(), Some("Widget"));
    assert_eq!(collection_index_result_type("map<string>"), None);
    assert_eq!(collection_index_result_type("Widget"), None);
    assert!(!collection_index_result_type("set<ref Item>").unwrap().is_static);
}

#[test]
fn classifies_literal_expression_text() {
    assert_eq!(primitive_type_from_expression_text(" \"text\" "), Some("string"));
    assert_eq!(primitive_type_from_expression_text("\""), None);
    assert_eq!(primitive_type_from_expression_text("true"), Some("bool"));
    assert_eq!(primitive_type_from_expression_text("0x1F"), Some("int"));
    assert_eq!(primitive_type_from_expression_text("0x"), None);
    assert_eq!(primitive_type_from_expression_text("0xE"), Some("float"));
    assert_eq!(primitive_type_from_expression_text("(1 + 2) * 3"), Some("int"));
    assert_eq!(primitive_type_from_expression_text("1.5e3"), Some("float"));
    assert_eq!(primitive_type_from_expression_text("e"), None);
    assert_eq!(primitive_type_from_expression_text("value + 1"), None);
    assert_eq!(primitive_type_from_expression_text("   "), None);
    assert!(is_null_literal_text(" null "));
    assert!(!is_null_literal_text("NULL"));
}

#[test]
fn reads_owners_of_new_and_cast_expressions() {
    assert_eq!(owner_type_from_new_expression_text(" new Widget() ").as_deref(), Some("Widget"));
    assert_eq!(owner_type_from_new_expression_text("new array<int>()").as_deref(), Some("array"));
    assert_eq!(owner_type_from_new_expression_text("make Widget()"), None);
    assert_eq!(owner_type_from_cast_expression_text("Widget.Cast(x)").as_deref(), Some("Widget"));
    assert_eq!(owner_type_from_cast_expression_text(" ref Widget .Cast(x)").as_deref(), Some("Widget"));
    assert_eq!(owner_type_from_cast_expression_text(".Cast(x)"), None);
    assert_eq!(owner_type_from_cast_expression_text("Widget.Get(x)"), None);
}

#[test]
fn expression_type_constructors_set_each_field() {
    let a = ExpressionType::instance("A".to_string());
    assert!(!a.is_static && a.raw_type_text.is_none() && a.owner_type == "A");
    let b = ExpressionType::static_type_with_raw("B".to_string(), "ref B".to_string());
    assert!(b.is_static && b.raw_type_text.as_deref() == Some("ref B"));
    let c = ExpressionType::static_type("C".to_string());
    assert!(c.is_static && c.raw_type_text.is_none());
}
