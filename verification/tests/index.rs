// Each file's declarations are written out as the records that indexing a
// parsed file yields: pre-order, parameters and locals after their callable.
use reforger_language_server::index::{DeclarationRecord, GlobalSymbolId, IndexedSymbolDetail, SourceFileId, SymbolIndex};
use reforger_language_server::model::{
    CallableForm, DocCommentKind, PreprocessorBranchKind, SourceCategory, SourceFileMetadata, SourceKind, SymbolId,
    SymbolKind, TextSpan, SOURCE_PRIORITY_GAME_DATA, SOURCE_PRIORITY_WORKSPACE,
};
use reforger_language_server::index::{IndexedAttribute, IndexedConditionalBranch, IndexedDocComment};

fn empty_detail() -> IndexedSymbolDetail {
    IndexedSymbolDetail {
        type_text: None,
        type_text_span: None,
        return_type_text: None,
        return_type_text_span: None,
        base_type: None,
        base_type_span: None,
        default_text: None,
        default_text_span: None,
        enum_value_text: None,
        enum_value_text_span: None,
    }
}

fn span_for(id: usize) -> TextSpan {
    TextSpan::new(id * 100, id * 100 + 50)
}

struct Decls {
    records: Vec<DeclarationRecord>,
}

impl Decls {
    fn new() -> Self {
        Decls { records: Vec::new() }
    }

    fn push(&mut self, parent: Option<usize>, kind: SymbolKind, name: &str) -> usize {
        let id = self.records.len();
        self.records.push(DeclarationRecord {
            id: SymbolId(id),
            parent: parent.map(SymbolId),
            kind,
            name: Some(name.to_string()),
            span: span_for(id),
            selection_span: TextSpan::new(id * 100, id * 100 + 10),
            detail: empty_detail(),
            attributes: Vec::new(),
            modifiers: Vec::new(),
            doc_comments: Vec::new(),
            conditional_context: Vec::new(),
            callable_form: None,
        });
        id
    }

    fn class(&mut self, name: &str, base: Option<&str>) -> usize {
        let id = self.push(None, SymbolKind::Class, name);
        if let Some(base) = base {
            self.records[id].detail.base_type = Some(base.to_string());
            self.records[id].detail.base_type_span = Some(span_for(id));
        }
        id
    }

    fn modded_class(&mut self, name: &str) -> usize {
        let id = self.class(name, None);
        self.records[id].modifiers = vec!["modded".to_string()];
        id
    }

    fn type_parameter(&mut self, class: usize, name: &str) -> usize {
        self.push(Some(class), SymbolKind::TypeParameter, name)
    }

    fn typed(&mut self, parent: Option<usize>, kind: SymbolKind, type_text: &str, name: &str) -> usize {
        let id = self.push(parent, kind, name);
        self.records[id].detail.type_text = Some(type_text.to_string());
        self.records[id].detail.type_text_span = Some(span_for(id));
        id
    }

    fn field(&mut self, class: usize, type_text: &str, name: &str) -> usize {
        self.typed(Some(class), SymbolKind::Field, type_text, name)
    }

    fn global_field(&mut self, type_text: &str, name: &str) -> usize {
        self.typed(None, SymbolKind::GlobalField, type_text, name)
    }

    fn typedef(&mut self, type_text: &str, name: &str) -> usize {
        self.typed(None, SymbolKind::Typedef, type_text, name)
    }

    fn callable(&mut self, parent: Option<usize>, kind: SymbolKind, return_type: Option<&str>, name: &str) -> usize {
        let id = self.push(parent, kind, name);
        if let Some(return_type) = return_type {
            self.records[id].detail.return_type_text = Some(return_type.to_string());
            self.records[id].detail.return_type_text_span = Some(span_for(id));
        }
        self.records[id].callable_form = Some(CallableForm::Declaration);
        id
    }

    fn method(&mut self, class: usize, return_type: &str, name: &str) -> usize {
        self.callable(Some(class), SymbolKind::Method, Some(return_type), name)
    }

    fn function(&mut self, return_type: &str, name: &str) -> usize {
        self.callable(None, SymbolKind::Function, Some(return_type), name)
    }

    fn constructor(&mut self, class: usize, name: &str) -> usize {
        self.callable(Some(class), SymbolKind::Constructor, Some("void"), name)
    }

    fn destructor(&mut self, class: usize, name: &str) -> usize {
        self.callable(Some(class), SymbolKind::Destructor, Some("void"), name)
    }

    fn param(&mut self, callable: usize, type_text: &str, name: &str) -> usize {
        self.typed(Some(callable), SymbolKind::Parameter, type_text, name)
    }

    fn param_with_default(&mut self, callable: usize, type_text: &str, name: &str, default: &str) -> usize {
        let id = self.param(callable, type_text, name);
        self.records[id].detail.default_text = Some(default.to_string());
        self.records[id].detail.default_text_span = Some(span_for(id));
        id
    }

    fn param_with_modifier(&mut self, callable: usize, modifier: &str, type_text: &str, name: &str) -> usize {
        let id = self.param(callable, type_text, name);
        self.records[id].modifiers = vec![modifier.to_string()];
        id
    }

    fn local(&mut self, callable: usize, type_text: &str, name: &str) -> usize {
        self.typed(Some(callable), SymbolKind::LocalVariable, type_text, name)
    }

    fn enumeration(&mut self, name: &str) -> usize {
        self.push(None, SymbolKind::Enum, name)
    }

    fn enum_member(&mut self, owner: usize, name: &str, value: &str) -> usize {
        let id = self.push(Some(owner), SymbolKind::EnumMember, name);
        self.records[id].detail.enum_value_text = Some(value.to_string());
        self.records[id].detail.enum_value_text_span = Some(span_for(id));
        id
    }

    fn implemented(&mut self, id: usize) {
        self.records[id].callable_form = Some(CallableForm::Implementation);
    }

    fn modifiers(&mut self, id: usize, modifiers: &[&str]) {
        self.records[id].modifiers = modifiers.iter().map(|m| m.to_string()).collect();
    }
}

fn index_of(files: Vec<(Decls, SourceFileMetadata)>) -> SymbolIndex {
    let mut index = SymbolIndex::new();
    for (decls, metadata) in files {
        index.add_declarations(metadata, decls.records, 0);
    }
    index
}

fn metadata(kind: SourceKind, category: SourceCategory, root: &str, path: &str, priority: u16) -> SourceFileMetadata {
    SourceFileMetadata {
        kind,
        category,
        absolute_path: Some(format!("{root}/{path}")),
        root_path: Some(root.to_string()),
        relative_path: Some(path.to_string()),
        priority,
    }
}

fn game_metadata(path: &str) -> SourceFileMetadata {
    metadata(SourceKind::GameData, SourceCategory::Game, "C:/game", path, SOURCE_PRIORITY_GAME_DATA)
}

fn workspace_metadata(path: &str) -> SourceFileMetadata {
    metadata(SourceKind::Workspace, SourceCategory::Workspace, "C:/workspace", path, SOURCE_PRIORITY_WORKSPACE)
}

fn game_unknown(path: &str) -> SourceFileMetadata {
    metadata(SourceKind::GameData, SourceCategory::Unknown, "C:/game", path, SOURCE_PRIORITY_GAME_DATA)
}

fn member_names(index: &SymbolIndex, members: &[GlobalSymbolId]) -> Vec<String> {
    members.iter().filter_map(|id| index.symbol(*id)).filter_map(|symbol| symbol.name.clone()).collect()
}

fn assert_no_dangling_symbol_references(index: &SymbolIndex) {
    for symbol in index.symbols() {
        assert_eq!(index.symbol(symbol.id).map(|found| found.id), Some(symbol.id));
        if let Some(parent) = symbol.parent {
            assert!(index.symbol(parent).is_some(), "dangling parent {:?} for {:?}", parent, symbol.id);
        }
        for child in index.children(symbol.id) {
            assert!(index.symbol(child).is_some(), "dangling child {:?} for {:?}", child, symbol.id);
            assert_eq!(index.symbol(child).unwrap().parent, Some(symbol.id));
        }
    }
}

/// `class Example {}`
fn single_class(name: &str) -> Decls {
    let mut d = Decls::new();
    d.class(name, None);
    d
}

#[test]
fn indexes_names_kinds_children_classes_typedefs_and_methods() {
    // typedef string FactionKey; class Example : Base { int m_Value; void Run(int value); }
    let mut d = Decls::new();
    d.typedef("string", "FactionKey");
    let class = d.class("Example", Some("Base"));
    d.field(class, "int", "m_Value");
    let run = d.method(class, "void", "Run");
    d.param(run, "int", "value");
    let index = index_of(vec![(d, game_unknown("Example.c"))]);

    assert_eq!(index.files().len(), 1);
    assert_eq!(index.symbols().len(), 5);
    assert_eq!(index.symbols_for_name("Example").len(), 1);
    assert_eq!(index.top_level_symbols_for_name("Example").len(), 1);
    assert_eq!(index.classes_by_name("Example").len(), 1);
    assert_eq!(index.typedefs_by_name("FactionKey").len(), 1);
    assert!(index.functions_by_name("FactionKey").is_empty());
    assert_eq!(index.methods_by_owner_name("Example", "Run").len(), 1);
    assert_eq!(index.fields_by_owner_name("Example", "m_Value").len(), 1);
    assert_eq!(index.members_by_owner("Example").len(), 2);
    assert_eq!(index.symbols_for_kind(SymbolKind::Parameter).len(), 1);

    let class_id = index.classes_by_name("Example")[0];
    let children = index.children(class_id);
    assert_eq!(children.len(), 2);
    assert!(children
        .iter()
        .any(|id| index.symbol(*id).is_some_and(|symbol| symbol.name.as_deref() == Some("Run"))));
}

#[test]
fn global_ids_keep_file_id_and_file_local_symbol_id() {
    let index = index_of(vec![
        (single_class("Example"), game_unknown("Example.c")),
        (single_class("Example"), workspace_metadata("Example.c")),
    ]);

    let symbols = index.symbols_for_name("Example");
    assert_eq!(symbols.len(), 2);
    assert_eq!(symbols[0].file_id, SourceFileId(0));
    assert_eq!(symbols[0].symbol_id, SymbolId(0));
    assert_eq!(symbols[1].file_id, SourceFileId(1));
    assert_eq!(symbols[1].symbol_id, SymbolId(0));

    let preferred = index.preferred_symbols_for_name("Example");
    assert_eq!(preferred[0].file_id, SourceFileId(1));
    assert_eq!(index.file(preferred[0].file_id).unwrap().metadata.kind, SourceKind::Workspace);
    assert_eq!(index.duplicate_top_level_names().len(), 1);
}

#[test]
fn preferred_top_level_lookup_excludes_non_top_level_symbols() {
    // class Example { void Run(int Example); }
    let mut workspace = Decls::new();
    let class = workspace.class("Example", None);
    let run = workspace.method(class, "void", "Run");
    workspace.param(run, "int", "Example");
    let index = index_of(vec![
        (single_class("Example"), game_unknown("Example.c")),
        (workspace, workspace_metadata("Example.c")),
    ]);

    let all = index.symbols_for_name("Example");
    assert_eq!(all.len(), 3);
    assert!(all.iter().any(|id| index.symbol(*id).is_some_and(|symbol| symbol.kind == SymbolKind::Parameter)));

    let top_level = index.top_level_symbols_for_name("Example");
    assert_eq!(top_level.len(), 2);
    assert!(top_level.iter().all(|id| index.symbol(*id).is_some_and(|symbol| symbol.parent.is_none())));

    let preferred_all = index.preferred_symbols_for_name("Example");
    assert_eq!(preferred_all.len(), 3);

    let preferred_top_level = index.preferred_top_level_symbols_for_name("Example");
    assert_eq!(preferred_top_level.len(), 2);
    assert_eq!(preferred_top_level[0].file_id, SourceFileId(1));
    assert_eq!(index.symbol(preferred_top_level[0]).unwrap().kind, SymbolKind::Class);
    assert_eq!(index.file(preferred_top_level[0].file_id).unwrap().metadata.kind, SourceKind::Workspace);
}

#[test]
fn stores_copied_lookup_details_without_requiring_source_text() {
    // enum E { One = 1, } class Example : Base { void Run(int value = 4); }
    let mut d = Decls::new();
    let e = d.enumeration("E");
    d.enum_member(e, "One", "1");
    let class = d.class("Example", Some("Base"));
    let run = d.method(class, "void", "Run");
    d.param_with_default(run, "int", "value", "4");
    let index = index_of(vec![(d, SourceFileMetadata::unknown())]);

    let class = index.symbol(index.classes_by_name("Example")[0]).unwrap();
    assert_eq!(class.detail.base_type.as_deref(), Some("Base"));

    let method = index.symbol(index.methods_by_owner_name("Example", "Run")[0]).unwrap();
    assert_eq!(method.detail.return_type_text.as_deref(), Some("void"));

    let parameter = index.symbols_for_kind(SymbolKind::Parameter)[0];
    let parameter = index.symbol(parameter).unwrap();
    assert_eq!(parameter.detail.type_text.as_deref(), Some("int"));
    assert_eq!(parameter.detail.default_text.as_deref(), Some("4"));

    let enum_member = index.symbols_for_name("One")[0];
    let enum_member = index.symbol(enum_member).unwrap();
    assert_eq!(enum_member.detail.enum_value_text.as_deref(), Some("1"));
}

#[test]
fn stores_copied_presentation_metadata_without_requiring_source_text() {
    // //! Class docs / [BaseContainerProps()] / modded class Example
    // { /*! Field docs */ protected int m_Value; #ifdef ENABLE_RUN override void Run() {} #endif }
    let mut d = Decls::new();
    let class = d.modded_class("Example");
    d.records[class].attributes = vec![IndexedAttribute {
        name: Some("BaseContainerProps".to_string()),
        text: "[BaseContainerProps()]".to_string(),
    }];
    d.records[class].doc_comments =
        vec![IndexedDocComment { kind: DocCommentKind::Line, text: "//! Class docs".to_string() }];
    let field = d.field(class, "int", "m_Value");
    d.modifiers(field, &["protected"]);
    d.records[field].doc_comments =
        vec![IndexedDocComment { kind: DocCommentKind::Block, text: "/*! Field docs */".to_string() }];
    let run = d.method(class, "void", "Run");
    d.modifiers(run, &["override"]);
    d.implemented(run);
    d.records[run].conditional_context = vec![IndexedConditionalBranch {
        kind: PreprocessorBranchKind::Ifdef,
        condition: Some("ENABLE_RUN".to_string()),
    }];
    let index = index_of(vec![(d, SourceFileMetadata::unknown())]);

    let class = index.symbol(index.classes_by_name("Example")[0]).unwrap();
    assert_eq!(class.modifiers, vec!["modded"]);
    assert_eq!(class.attributes.len(), 1);
    assert_eq!(class.attributes[0].name.as_deref(), Some("BaseContainerProps"));
    assert_eq!(class.attributes[0].text, "[BaseContainerProps()]");
    assert_eq!(class.doc_comments.len(), 1);
    assert_eq!(class.doc_comments[0].kind, DocCommentKind::Line);
    assert_eq!(class.doc_comments[0].text, "//! Class docs");

    let field = index.symbol(index.fields_by_owner_name("Example", "m_Value")[0]).unwrap();
    assert_eq!(field.modifiers, vec!["protected"]);
    assert_eq!(field.doc_comments.len(), 1);
    assert_eq!(field.doc_comments[0].kind, DocCommentKind::Block);
    assert_eq!(field.doc_comments[0].text, "/*! Field docs */");

    let method = index.symbol(index.methods_by_owner_name("Example", "Run")[0]).unwrap();
    assert_eq!(method.modifiers, vec!["override"]);
    assert_eq!(method.callable_form, Some(CallableForm::Implementation));
    assert_eq!(method.conditional_context.len(), 1);
    assert_eq!(method.conditional_context[0].condition.as_deref(), Some("ENABLE_RUN"));
}

#[test]
fn formats_regular_method_signatures_from_indexed_parameter_children() {
    let mut d = Decls::new();
    let class = d.class("SCR_BaseGameMode", None);
    d.method(class, "void", "OnGameStart");
    let begin = d.method(class, "void", "Begin");
    d.param(begin, "string", "suite");
    d.param(begin, "string", "test");
    let run = d.method(class, "void", "Run");
    d.param_with_default(run, "int", "value", "4");
    let get = d.method(class, "array<SCR_BaseGameModeComponent>", "GetComponentsByType");
    d.param(get, "typename", "componentType");
    d.param_with_modifier(get, "out", "int", "foundCount");
    let index = index_of(vec![(d, SourceFileMetadata::unknown())]);

    let on_game_start = index.methods_by_owner_name("SCR_BaseGameMode", "OnGameStart")[0];
    let begin = index.methods_by_owner_name("SCR_BaseGameMode", "Begin")[0];
    let run = index.methods_by_owner_name("SCR_BaseGameMode", "Run")[0];
    let get_components = index.methods_by_owner_name("SCR_BaseGameMode", "GetComponentsByType")[0];

    assert_eq!(
        index.callable_signature(on_game_start).as_deref(),
        Some("SCR_BaseGameMode.OnGameStart() -> void")
    );
    assert_eq!(
        index.callable_signature(begin).as_deref(),
        Some("SCR_BaseGameMode.Begin(string suite, string test) -> void")
    );
    assert_eq!(index.callable_signature(run).as_deref(), Some("SCR_BaseGameMode.Run(int value = 4) -> void"));
    assert_eq!(
        index.callable_signature(get_components).as_deref(),
        Some("SCR_BaseGameMode.GetComponentsByType(typename componentType, out int foundCount) -> array<SCR_BaseGameModeComponent>")
    );
}

#[test]
fn formats_general_callable_signatures() {
    let mut d = Decls::new();
    let global_fn = d.function("void", "GlobalFn");
    d.param_with_default(global_fn, "int", "value", "4");
    let class = d.class("Example", None);
    let ctor = d.constructor(class, "Example");
    d.param(ctor, "int", "value");
    d.destructor(class, "Example");
    let run = d.method(class, "void", "Run");
    d.param_with_modifier(run, "notnull", "string", "name");
    d.param_with_modifier(run, "inout", "int", "count");
    d.method(class, "int", "Count");
    d.field(class, "int", "m_Value");
    let index = index_of(vec![(d, SourceFileMetadata::unknown())]);

    let global_fn = index.symbols_for_name("GlobalFn")[0];
    let run = index.methods_by_owner_name("Example", "Run")[0];
    let constructor = index
        .members_by_owner("Example")
        .iter()
        .copied()
        .find(|id| index.symbol(*id).unwrap().kind == SymbolKind::Constructor)
        .unwrap();
    let destructor = index
        .members_by_owner("Example")
        .iter()
        .copied()
        .find(|id| index.symbol(*id).unwrap().kind == SymbolKind::Destructor)
        .unwrap();
    let field = index.fields_by_owner_name("Example", "m_Value")[0];

    assert_eq!(index.callable_signature(global_fn).as_deref(), Some("GlobalFn(int value = 4) -> void"));
    assert_eq!(
        index.callable_signature(run).as_deref(),
        Some("Example.Run(notnull string name, inout int count) -> void")
    );
    assert_eq!(index.callable_signature(constructor).as_deref(), Some("Example(int value)"));
    assert_eq!(index.callable_signature(destructor).as_deref(), Some("~Example()"));
    assert_eq!(index.callable_signature(field), None);
}

#[test]
fn indexes_direct_class_fields_and_members_by_owner() {
    let mut d = Decls::new();
    d.global_field("int", "m_Value");
    let class = d.class("Example", None);
    d.field(class, "int", "m_Value");
    d.constructor(class, "Example");
    d.destructor(class, "Example");
    let run = d.method(class, "void", "Run");
    d.param(run, "int", "value");
    let index = index_of(vec![(d, SourceFileMetadata::unknown())]);

    let fields = index.fields_by_owner_name("Example", "m_Value");
    assert_eq!(fields.len(), 1);
    assert_eq!(index.symbol(fields[0]).unwrap().kind, SymbolKind::Field);

    let members = index.members_by_owner("Example");
    assert_eq!(members.len(), 4);
    assert!(members.iter().any(|id| index.symbol(*id).unwrap().kind == SymbolKind::Field));
    assert!(members.iter().any(|id| index.symbol(*id).unwrap().kind == SymbolKind::Method));
    assert!(members.iter().any(|id| index.symbol(*id).unwrap().kind == SymbolKind::Constructor));
    assert!(members.iter().any(|id| index.symbol(*id).unwrap().kind == SymbolKind::Destructor));
    assert!(members.iter().all(|id| index.symbol(*id).unwrap().kind != SymbolKind::Parameter));
}

#[test]
fn walks_direct_members_then_exact_name_base_class_members() {
    let mut d = Decls::new();
    let base = d.class("Base", None);
    d.field(base, "int", "m_Base");
    d.method(base, "void", "Run");
    let child = d.class("Child", Some("Base"));
    d.field(child, "int", "m_Child");
    let run = d.method(child, "void", "Run");
    d.param(run, "int", "value");
    let grand = d.class("GrandChild", Some("Child"));
    d.field(grand, "int", "m_GrandChild");
    let index = index_of(vec![(d, SourceFileMetadata::unknown())]);

    let members = index.raw_members_for_class_including_bases("GrandChild");
    assert_eq!(member_names(&index, &members), vec!["m_GrandChild", "m_Child", "Run", "m_Base", "Run"]);
    assert_eq!(index.direct_members_by_owner("GrandChild").len(), 1);
    assert_eq!(index.members_by_owner("GrandChild").len(), 1);
}

fn child_with_missing_base() -> Decls {
    let mut d = Decls::new();
    let child = d.class("Child", Some("MissingBase"));
    d.field(child, "int", "m_Child");
    d.method(child, "void", "Run");
    d
}

#[test]
fn inherited_member_lookup_keeps_direct_members_when_base_is_missing() {
    let index = index_of(vec![(child_with_missing_base(), SourceFileMetadata::unknown())]);
    let members = index.raw_members_for_class_including_bases("Child");
    assert_eq!(member_names(&index, &members), vec!["m_Child", "Run"]);
}

#[test]
fn inherited_member_lookup_stops_on_cycles() {
    let mut d = Decls::new();
    let a = d.class("A", Some("B"));
    d.field(a, "int", "m_A");
    let b = d.class("B", Some("A"));
    d.field(b, "int", "m_B");
    let index = index_of(vec![(d, SourceFileMetadata::unknown())]);

    let members = index.raw_members_for_class_including_bases("A");
    assert_eq!(member_names(&index, &members), vec!["m_A", "m_B"]);
}

#[test]
fn completion_members_are_direct_first_and_hide_matching_base_members() {
    let mut d = Decls::new();
    let base = d.class("Base", None);
    d.field(base, "int", "m_Value");
    d.field(base, "int", "m_BaseOnly");
    let run_int = d.method(base, "void", "Run");
    d.param(run_int, "int", "value");
    let run_string = d.method(base, "void", "Run");
    d.param(run_string, "string", "value");
    d.method(base, "void", "BaseOnly");
    let child = d.class("Child", Some("Base"));
    d.field(child, "int", "m_Value");
    let run_other = d.method(child, "void", "Run");
    d.param(run_other, "int", "other");
    d.method(child, "void", "ChildOnly");
    let index = index_of(vec![(d, SourceFileMetadata::unknown())]);

    let raw = index.raw_members_for_class_including_bases("Child");
    assert_eq!(
        member_names(&index, &raw),
        vec!["m_Value", "Run", "ChildOnly", "m_Value", "m_BaseOnly", "Run", "Run", "BaseOnly"]
    );

    let completion = index.raw_completion_members_for_owner_name("Child");
    assert_eq!(completion.raw_candidates, raw);
    assert_eq!(
        member_names(&index, &completion.members),
        vec!["m_Value", "Run", "ChildOnly", "m_BaseOnly", "Run", "BaseOnly"]
    );
    assert_eq!(completion.shadowed_groups.len(), 2);
    assert!(completion.shadowed_groups.iter().any(|group| group.key == "Field m_Value" && group.shadowed.len() == 1));
    assert!(completion
        .shadowed_groups
        .iter()
        .any(|group| group.key == "Method Run(int) -> void" && group.shadowed.len() == 1));
}

#[test]
fn completion_members_do_not_shadow_static_array_fields_by_bound_name() {
    // static const int COUNT = 4; static const string TAGS[COUNT] = {}; LocalizedString NAMES[COUNT];
    let mut d = Decls::new();
    let class = d.class("Example", None);
    let count = d.field(class, "int", "COUNT");
    d.modifiers(count, &["static", "const"]);
    let tags = d.field(class, "string", "TAGS");
    d.modifiers(tags, &["static", "const"]);
    d.field(class, "LocalizedString", "NAMES");
    let index = index_of(vec![(d, SourceFileMetadata::unknown())]);

    assert_eq!(index.fields_by_owner_name("Example", "COUNT").len(), 1);
    assert_eq!(index.fields_by_owner_name("Example", "TAGS").len(), 1);
    assert_eq!(index.fields_by_owner_name("Example", "NAMES").len(), 1);
    assert!(index
        .fields_by_owner_name("Example", "COUNT")
        .iter()
        .all(|id| index.symbol(*id).unwrap().detail.type_text.as_deref() == Some("int")));

    let completion = index.raw_completion_members_for_owner_name("Example");
    assert_eq!(member_names(&index, &completion.members), vec!["COUNT", "TAGS", "NAMES"]);
    assert!(completion.shadowed_groups.is_empty());
}

#[test]
fn indexes_comma_separated_field_declarators_for_lookup_and_completion() {
    // protected Widget m_ContentWidget, m_ButtonPrevWidget, m_ButtonNextWidget;
    // protected int count, values[COUNT], other = 4;
    let mut d = Decls::new();
    let class = d.class("Example", None);
    for name in ["m_ContentWidget", "m_ButtonPrevWidget", "m_ButtonNextWidget"] {
        let id = d.field(class, "Widget", name);
        d.modifiers(id, &["protected"]);
    }
    for name in ["count", "values", "other"] {
        let id = d.field(class, "int", name);
        d.modifiers(id, &["protected"]);
    }
    let index = index_of(vec![(d, SourceFileMetadata::unknown())]);

    for name in ["m_ContentWidget", "m_ButtonPrevWidget", "m_ButtonNextWidget", "count", "values", "other"] {
        let fields = index.fields_by_owner_name("Example", name);
        assert_eq!(fields.len(), 1, "missing field {name}");
    }

    let content = index.symbol(index.fields_by_owner_name("Example", "m_ContentWidget")[0]);
    assert_eq!(content.unwrap().detail.type_text.as_deref(), Some("Widget"));
    let button_next = index.symbol(index.fields_by_owner_name("Example", "m_ButtonNextWidget")[0]);
    assert_eq!(button_next.unwrap().detail.type_text.as_deref(), Some("Widget"));
    let values = index.symbol(index.fields_by_owner_name("Example", "values")[0]);
    assert_eq!(values.unwrap().detail.type_text.as_deref(), Some("int"));

    let completion = index.raw_completion_members_for_owner_name("Example");
    assert_eq!(
        member_names(&index, &completion.members),
        vec!["m_ContentWidget", "m_ButtonPrevWidget", "m_ButtonNextWidget", "count", "values", "other"]
    );
    assert!(completion.shadowed_groups.is_empty());
}

/// `class SCR_BaseGameMode { void OnGameStart(); void GameOnly(); }` and its
/// workspace overlay `modded class SCR_BaseGameMode { override void
/// OnGameStart(); void WorkspaceOnly(); }`.
fn game_mode_and_overlay(base: Option<&str>) -> (Decls, Decls) {
    let mut game = Decls::new();
    let class = game.class("SCR_BaseGameMode", base);
    game.method(class, "void", "OnGameStart");
    game.method(class, "void", "GameOnly");
    let mut workspace = Decls::new();
    let class = workspace.modded_class("SCR_BaseGameMode");
    let on_game_start = workspace.method(class, "void", "OnGameStart");
    workspace.modifiers(on_game_start, &["override"]);
    workspace.method(class, "void", "WorkspaceOnly");
    (game, workspace)
}

#[test]
fn completion_members_prefer_workspace_within_same_owner_depth() {
    let (game, workspace) = game_mode_and_overlay(None);
    let index = index_of(vec![
        (game, game_metadata("SCR_BaseGameMode.c")),
        (workspace, workspace_metadata("SCR_BaseGameMode.c")),
    ]);

    let raw = index.raw_members_for_class_including_bases("SCR_BaseGameMode");
    assert_eq!(member_names(&index, &raw), vec!["OnGameStart", "GameOnly", "OnGameStart", "WorkspaceOnly"]);

    let completion = index.raw_completion_members_for_owner_name("SCR_BaseGameMode");
    assert_eq!(completion.raw_candidates, raw);
    assert_eq!(member_names(&index, &completion.members), vec!["OnGameStart", "GameOnly", "WorkspaceOnly"]);

    let kept_on_game_start = completion
        .members
        .iter()
        .copied()
        .find(|id| index.symbol(*id).unwrap().name.as_deref() == Some("OnGameStart"))
        .unwrap();
    assert_eq!(index.file(kept_on_game_start.file_id).unwrap().metadata.kind, SourceKind::Workspace);

    let shadow_group =
        completion.shadowed_groups.iter().find(|group| group.key == "Method OnGameStart() -> void").unwrap();
    assert_eq!(shadow_group.kept, kept_on_game_start);
    assert_eq!(shadow_group.shadowed.len(), 1);
    assert_eq!(index.file(shadow_group.shadowed[0].file_id).unwrap().metadata.kind, SourceKind::GameData);
}

#[test]
fn preferred_class_completion_uses_preferred_declaration_then_overlay_then_bases() {
    let mut base = Decls::new();
    let class = base.class("BaseGameMode", None);
    base.method(class, "void", "BaseOnly");
    let (game, workspace) = game_mode_and_overlay(Some("BaseGameMode"));
    let index = index_of(vec![
        (base, game_metadata("BaseGameMode.c")),
        (game, game_metadata("SCR_BaseGameMode.c")),
        (workspace, workspace_metadata("SCR_BaseGameMode.c")),
    ]);

    let raw = index.raw_completion_members_for_owner_name("SCR_BaseGameMode");
    assert_eq!(member_names(&index, &raw.members), vec!["OnGameStart", "GameOnly", "WorkspaceOnly"]);

    let completion = index.completion_members_for_preferred_class("SCR_BaseGameMode");
    assert_eq!(
        member_names(&index, &completion.raw_candidates),
        vec!["OnGameStart", "WorkspaceOnly", "OnGameStart", "GameOnly", "BaseOnly"]
    );
    assert_eq!(
        member_names(&index, &completion.members),
        vec!["OnGameStart", "WorkspaceOnly", "GameOnly", "BaseOnly"]
    );

    let kept_on_game_start = completion
        .members
        .iter()
        .copied()
        .find(|id| index.symbol(*id).unwrap().name.as_deref() == Some("OnGameStart"))
        .unwrap();
    assert_eq!(index.file(kept_on_game_start.file_id).unwrap().metadata.kind, SourceKind::Workspace);

    let shadow_group =
        completion.shadowed_groups.iter().find(|group| group.key == "Method OnGameStart() -> void").unwrap();
    assert_eq!(shadow_group.kept, kept_on_game_start);
    assert_eq!(shadow_group.shadowed.len(), 1);
    assert_eq!(index.file(shadow_group.shadowed[0].file_id).unwrap().metadata.kind, SourceKind::GameData);
}

/// `class Base { void Run(); }` and `class Child : Base { void Run(); }`.
fn base_and_child_run() -> (Decls, Decls) {
    let mut base = Decls::new();
    let class = base.class("Base", None);
    base.method(class, "void", "Run");
    let mut child = Decls::new();
    let class = child.class("Child", Some("Base"));
    child.method(class, "void", "Run");
    (base, child)
}

#[test]
fn preferred_class_completion_keeps_direct_overlay_before_higher_priority_base_members() {
    let (base, child) = base_and_child_run();
    let index = index_of(vec![(base, workspace_metadata("Base.c")), (child, game_metadata("Child.c"))]);

    let completion = index.completion_members_for_preferred_class("Child");
    let run = completion.members[0];

    assert_eq!(index.symbol(run).unwrap().name.as_deref(), Some("Run"));
    assert_eq!(index.file(run.file_id).unwrap().metadata.kind, SourceKind::GameData);
    assert_eq!(completion.shadowed_groups.len(), 1);
    assert_eq!(completion.shadowed_groups[0].kept, run);
    assert_eq!(
        index.file(completion.shadowed_groups[0].shadowed[0].file_id).unwrap().metadata.kind,
        SourceKind::Workspace
    );
}

#[test]
fn preferred_class_completion_keeps_direct_members_when_base_is_missing() {
    let index = index_of(vec![(child_with_missing_base(), SourceFileMetadata::unknown())]);
    let completion = index.completion_members_for_preferred_class("Child");
    assert_eq!(member_names(&index, &completion.members), vec!["m_Child", "Run"]);
    assert!(completion.shadowed_groups.is_empty());
}

/// `class A : B { int m_A; void Run(); }` and `class B : A { int m_B; void Run(); }`.
fn cyclic_classes() -> Decls {
    let mut d = Decls::new();
    let a = d.class("A", Some("B"));
    d.field(a, "int", "m_A");
    d.method(a, "void", "Run");
    let b = d.class("B", Some("A"));
    d.field(b, "int", "m_B");
    d.method(b, "void", "Run");
    d
}

#[test]
fn preferred_class_completion_stops_on_cycles() {
    let index = index_of(vec![(cyclic_classes(), SourceFileMetadata::unknown())]);
    let completion = index.completion_members_for_preferred_class("A");
    assert_eq!(member_names(&index, &completion.members), vec!["m_A", "Run", "m_B"]);
    assert_eq!(completion.shadowed_groups.len(), 1);
    assert_eq!(completion.shadowed_groups[0].key, "Method Run() -> void");
}

#[test]
fn completion_members_keep_direct_depth_before_higher_priority_base_members() {
    let (base, child) = base_and_child_run();
    let index = index_of(vec![(base, workspace_metadata("Base.c")), (child, game_metadata("Child.c"))]);

    let completion = index.raw_completion_members_for_owner_name("Child");
    let run = completion.members[0];

    assert_eq!(index.symbol(run).unwrap().name.as_deref(), Some("Run"));
    assert_eq!(index.file(run.file_id).unwrap().metadata.kind, SourceKind::GameData);
    assert_eq!(completion.shadowed_groups.len(), 1);
    assert_eq!(completion.shadowed_groups[0].kept, run);
    assert_eq!(
        index.file(completion.shadowed_groups[0].shadowed[0].file_id).unwrap().metadata.kind,
        SourceKind::Workspace
    );
}

#[test]
fn completion_members_keep_direct_members_when_base_is_missing() {
    let index = index_of(vec![(child_with_missing_base(), SourceFileMetadata::unknown())]);
    let completion = index.raw_completion_members_for_owner_name("Child");
    assert_eq!(member_names(&index, &completion.members), vec!["m_Child", "Run"]);
    assert!(completion.shadowed_groups.is_empty());
}

#[test]
fn completion_member_lookup_stops_on_cycles() {
    let index = index_of(vec![(cyclic_classes(), SourceFileMetadata::unknown())]);
    let completion = index.raw_completion_members_for_owner_name("A");
    assert_eq!(member_names(&index, &completion.members), vec!["m_A", "Run", "m_B"]);
    assert_eq!(completion.shadowed_groups.len(), 1);
    assert_eq!(completion.shadowed_groups[0].key, "Method Run() -> void");
}

#[test]
fn completion_member_lookup_deduplicates_constructor_and_destructor_shapes() {
    let mut d = Decls::new();
    let base = d.class("Base", None);
    let base_ctor = d.constructor(base, "Base");
    d.param(base_ctor, "int", "value");
    d.destructor(base, "Base");
    let child = d.class("Child", Some("Base"));
    let child_ctor = d.constructor(child, "Child");
    d.param(child_ctor, "int", "value");
    d.destructor(child, "Child");
    let index = index_of(vec![(d, SourceFileMetadata::unknown())]);

    let completion = index.raw_completion_members_for_owner_name("Child");
    assert_eq!(member_names(&index, &completion.members), vec!["Child", "Child", "Base", "Base"]);
    assert!(completion.shadowed_groups.is_empty());
}

#[test]
fn preferred_from_symbols_sorts_by_priority_then_stable_ids() {
    let index = index_of(vec![
        (single_class("Example"), game_unknown("First.c")),
        (single_class("Example"), workspace_metadata("Example.c")),
        (single_class("Example"), game_unknown("Second.c")),
    ]);
    let unsorted = [
        GlobalSymbolId { file_id: SourceFileId(2), symbol_id: SymbolId(0) },
        GlobalSymbolId { file_id: SourceFileId(0), symbol_id: SymbolId(0) },
        GlobalSymbolId { file_id: SourceFileId(1), symbol_id: SymbolId(0) },
    ];

    let preferred = index.preferred_from_symbols(&unsorted);

    assert_eq!(preferred[0].file_id, SourceFileId(1));
    assert_eq!(preferred[1].file_id, SourceFileId(0));
    assert_eq!(preferred[2].file_id, SourceFileId(2));
}

#[test]
fn workspace_modded_class_is_preferred_over_game_data_class() {
    let mut workspace = Decls::new();
    workspace.modded_class("SCR_BaseGameMode");
    let index = index_of(vec![
        (single_class("SCR_BaseGameMode"), game_metadata("SCR_BaseGameMode.c")),
        (workspace, workspace_metadata("SCR_BaseGameMode.c")),
    ]);

    let classes = index.classes_by_name("SCR_BaseGameMode");
    assert_eq!(classes.len(), 2);

    let preferred = index.preferred_from_symbols(&classes);
    let preferred_symbol = index.symbol(preferred[0]).unwrap();
    let preferred_file = index.file(preferred[0].file_id).unwrap();

    assert_eq!(preferred_symbol.kind, SymbolKind::Class);
    assert_eq!(preferred_symbol.name.as_deref(), Some("SCR_BaseGameMode"));
    assert_eq!(preferred_file.metadata.kind, SourceKind::Workspace);
    assert_eq!(preferred_file.metadata.priority, SOURCE_PRIORITY_WORKSPACE);
}

#[test]
fn top_level_lookup_ignores_fields_and_parameters_with_same_name() {
    let mut d = Decls::new();
    let class = d.class("SharedName", None);
    d.field(class, "int", "SharedName");
    let run = d.method(class, "void", "Run");
    d.param(run, "int", "SharedName");
    let index = index_of(vec![(d, workspace_metadata("SharedName.c"))]);

    let all = index.symbols_for_name("SharedName");
    assert_eq!(all.len(), 3);
    assert!(all.iter().any(|id| index.symbol(*id).unwrap().kind == SymbolKind::Class));
    assert!(all.iter().any(|id| index.symbol(*id).unwrap().kind == SymbolKind::Field));
    assert!(all.iter().any(|id| index.symbol(*id).unwrap().kind == SymbolKind::Parameter));

    let top_level = index.top_level_symbols_for_name("SharedName");
    assert_eq!(top_level.len(), 1);
    assert_eq!(index.symbol(top_level[0]).unwrap().kind, SymbolKind::Class);

    let preferred = index.preferred_top_level_symbols_for_name("SharedName");
    assert_eq!(preferred, top_level);
}

#[test]
fn local_variables_are_indexed_for_name_lookup_but_not_member_completion() {
    let mut d = Decls::new();
    let class = d.class("Example", None);
    d.field(class, "int", "value");
    let run = d.method(class, "void", "Run");
    d.param(run, "int", "value");
    d.implemented(run);
    d.local(run, "int", "value");
    let index = index_of(vec![(d, workspace_metadata("Example.c"))]);

    let all = index.symbols_for_name("value");
    assert_eq!(all.len(), 3);
    assert!(all.iter().any(|id| index.symbol(*id).unwrap().kind == SymbolKind::Field));
    assert!(all.iter().any(|id| index.symbol(*id).unwrap().kind == SymbolKind::Parameter));
    assert!(all.iter().any(|id| index.symbol(*id).unwrap().kind == SymbolKind::LocalVariable));

    assert!(index.top_level_symbols_for_name("value").is_empty());
    assert_eq!(index.fields_by_owner_name("Example", "value").len(), 1);
    assert!(index.members_by_owner("Example").iter().all(|id| index.symbol(*id).unwrap().kind != SymbolKind::LocalVariable));
    assert!(index
        .raw_completion_members_for_owner_name("Example")
        .members
        .iter()
        .all(|id| index.symbol(*id).unwrap().kind != SymbolKind::LocalVariable));
}

#[test]
fn method_owner_lookup_aggregates_game_data_and_workspace_methods() {
    let mut game = Decls::new();
    let class = game.class("SCR_BaseGameMode", None);
    game.method(class, "void", "OnGameStart");
    let mut workspace = Decls::new();
    let class = workspace.modded_class("SCR_BaseGameMode");
    let on_game_start = workspace.method(class, "void", "OnGameStart");
    workspace.modifiers(on_game_start, &["override"]);
    let index = index_of(vec![
        (game, game_metadata("SCR_BaseGameMode.c")),
        (workspace, workspace_metadata("SCR_BaseGameMode.c")),
    ]);

    let methods = index.methods_by_owner_name("SCR_BaseGameMode", "OnGameStart");
    assert_eq!(methods.len(), 2);

    let preferred = index.preferred_from_symbols(&methods);
    let preferred_symbol = index.symbol(preferred[0]).unwrap();
    let preferred_file = index.file(preferred[0].file_id).unwrap();

    assert_eq!(preferred_symbol.kind, SymbolKind::Method);
    assert_eq!(preferred_symbol.name.as_deref(), Some("OnGameStart"));
    assert_eq!(preferred_file.metadata.kind, SourceKind::Workspace);
    assert_eq!(preferred_file.metadata.priority, SOURCE_PRIORITY_WORKSPACE);
}

#[test]
fn preferred_kind_specific_top_level_lookup_separates_conflict_kinds() {
    // typedef string FactionKey; class FactionKey : string {} void FactionKey(int value);
    let mut d = Decls::new();
    d.typedef("string", "FactionKey");
    d.class("FactionKey", Some("string"));
    let f = d.function("void", "FactionKey");
    d.param(f, "int", "value");
    let index = index_of(vec![(d, workspace_metadata("GameCode/Faction/FactionKey.c"))]);

    let generic = index.preferred_top_level_symbols_for_name("FactionKey");
    assert_eq!(generic.len(), 3);
    assert!(generic.iter().any(|id| index.symbol(*id).is_some_and(|symbol| symbol.kind == SymbolKind::Class)));
    assert!(generic.iter().any(|id| index.symbol(*id).is_some_and(|symbol| symbol.kind == SymbolKind::Typedef)));
    assert!(generic.iter().any(|id| index.symbol(*id).is_some_and(|symbol| symbol.kind == SymbolKind::Function)));

    let preferred_class = index.preferred_classes_by_name("FactionKey");
    let preferred_typedef = index.preferred_typedefs_by_name("FactionKey");
    let preferred_function = index.preferred_functions_by_name("FactionKey");

    assert_eq!(preferred_class.len(), 1);
    assert_eq!(preferred_typedef.len(), 1);
    assert_eq!(preferred_function.len(), 1);
    assert_eq!(index.symbol(preferred_class[0]).unwrap().kind, SymbolKind::Class);
    assert_eq!(index.symbol(preferred_typedef[0]).unwrap().kind, SymbolKind::Typedef);
    assert_eq!(index.symbol(preferred_function[0]).unwrap().kind, SymbolKind::Function);
}

#[test]
fn preferred_kind_specific_lookup_uses_workspace_priority_within_kind() {
    let mut game = Decls::new();
    game.class("Example", None);
    game.typedef("int", "ExampleAlias");
    game.function("void", "ExampleFn");
    let mut workspace = Decls::new();
    workspace.modded_class("Example");
    workspace.typedef("float", "ExampleAlias");
    let f = workspace.function("void", "ExampleFn");
    workspace.param(f, "int", "value");
    let index = index_of(vec![(game, game_metadata("Game.c")), (workspace, workspace_metadata("Workspace.c"))]);

    let preferred_class = index.preferred_classes_by_name("Example");
    let preferred_typedef = index.preferred_typedefs_by_name("ExampleAlias");
    let preferred_function = index.preferred_functions_by_name("ExampleFn");

    for id in [preferred_class[0], preferred_typedef[0], preferred_function[0]] {
        assert_eq!(index.file(id.file_id).unwrap().metadata.kind, SourceKind::Workspace);
    }
    assert_eq!(index.symbol(preferred_class[0]).unwrap().kind, SymbolKind::Class);
    assert_eq!(index.symbol(preferred_typedef[0]).unwrap().kind, SymbolKind::Typedef);
    assert_eq!(index.symbol(preferred_function[0]).unwrap().kind, SymbolKind::Function);
}

#[test]
fn function_lookup_excludes_top_level_classes_and_typedefs_with_same_name() {
    let mut d = Decls::new();
    d.typedef("string", "Shared");
    d.class("Shared", None);
    d.function("void", "Shared");
    let index = index_of(vec![(d, SourceFileMetadata::unknown())]);

    assert_eq!(index.top_level_symbols_for_name("Shared").len(), 3);
    assert_eq!(index.functions_by_name("Shared").len(), 1);
    assert_eq!(index.symbol(index.functions_by_name("Shared")[0]).unwrap().kind, SymbolKind::Function);
}

/// `class Name { void Method(); }`
fn class_with_method(class: &str, method: &str) -> Decls {
    let mut d = Decls::new();
    let c = d.class(class, None);
    d.method(c, "void", method);
    d
}

#[test]
fn merged_indexes_preserve_file_symbol_ranges_and_parent_links() {
    let first = index_of(vec![(class_with_method("First", "FirstMethod"), game_metadata("Game/First.c"))]);
    let second = index_of(vec![(class_with_method("Second", "SecondMethod"), workspace_metadata("Scripts/Second.c"))]);

    let merged = SymbolIndex::merged(&[&first, &second]);

    assert_eq!(
        member_names(&merged, &merged.completion_members_for_preferred_class("First").members),
        vec!["FirstMethod"]
    );
    assert_eq!(
        member_names(&merged, &merged.completion_members_for_preferred_class("Second").members),
        vec!["SecondMethod"]
    );
    assert_no_dangling_symbol_references(&merged);
}

#[test]
fn pruned_index_removes_local_variables_and_preserves_parameters() {
    let mut d = Decls::new();
    let class = d.class("Example", None);
    d.field(class, "int", "m_Value");
    let run = d.method(class, "void", "Run");
    d.param(run, "int", "value");
    d.implemented(run);
    d.local(run, "int", "localValue");
    d.local(run, "string", "localName");
    let index = index_of(vec![(d, game_metadata("Game/Example.c"))]);
    let pruned = index.without_local_variables();

    assert_eq!(index.symbols_for_kind(SymbolKind::LocalVariable).len(), 2);
    assert!(pruned.symbols_for_kind(SymbolKind::LocalVariable).is_empty());
    assert_eq!(pruned.symbols_for_kind(SymbolKind::Parameter).len(), 1);
    assert_eq!(pruned.symbols_for_name("localValue").len(), 0);
    assert_eq!(pruned.symbols_for_name("localName").len(), 0);
    assert_eq!(pruned.symbols_for_name("value").len(), 1);
    assert_eq!(pruned.classes_by_name("Example").len(), 1);
    assert_eq!(pruned.fields_by_owner_name("Example", "m_Value").len(), 1);
    assert_eq!(pruned.methods_by_owner_name("Example", "Run").len(), 1);
    assert_eq!(
        pruned.callable_signature(pruned.methods_by_owner_name("Example", "Run")[0]).as_deref(),
        Some("Example.Run(int value) -> void")
    );
    assert_no_dangling_symbol_references(&pruned);
}

#[test]
fn runtime_cache_compaction_removes_locals_and_detail_spans_only() {
    let mut d = Decls::new();
    let class = d.class("Example", Some("BaseExample"));
    d.field(class, "ref array<int>", "m_Values");
    let run = d.method(class, "int", "Run");
    d.param_with_default(run, "string", "name", "\"ok\"");
    d.implemented(run);
    d.local(run, "int", "localValue");
    let index = index_of(vec![(d, game_metadata("Game/Example.c"))]);
    let compact = index.compact_for_runtime_cache();

    assert_eq!(index.symbols_for_kind(SymbolKind::LocalVariable).len(), 1);
    assert!(compact.symbols_for_kind(SymbolKind::LocalVariable).is_empty());
    assert_eq!(compact.symbols_for_kind(SymbolKind::Parameter).len(), 1);

    let class = compact.symbol(compact.classes_by_name("Example")[0]).unwrap();
    assert_eq!(class.detail.base_type.as_deref(), Some("BaseExample"));
    assert!(class.detail.base_type_span.is_none());

    let field = compact.symbol(compact.fields_by_owner_name("Example", "m_Values")[0]).unwrap();
    assert_eq!(field.detail.type_text.as_deref(), Some("ref array<int>"));
    assert!(field.detail.type_text_span.is_none());

    let method = compact.symbol(compact.methods_by_owner_name("Example", "Run")[0]).unwrap();
    assert_eq!(method.detail.return_type_text.as_deref(), Some("int"));
    assert!(method.detail.return_type_text_span.is_none());
    assert_eq!(compact.callable_signature(method.id).as_deref(), Some("Example.Run(string name = \"ok\") -> int"));

    let parameter = compact.symbols_for_name("name")[0];
    let parameter = compact.symbol(parameter).unwrap();
    assert_eq!(parameter.detail.type_text.as_deref(), Some("string"));
    assert_eq!(parameter.detail.default_text.as_deref(), Some("\"ok\""));
    assert!(parameter.detail.type_text_span.is_none());
    assert!(parameter.detail.default_text_span.is_none());

    assert_no_dangling_symbol_references(&compact);
}

#[test]
fn runtime_cache_compaction_preserves_multi_file_symbol_ranges() {
    let mut first = Decls::new();
    let class = first.class("First", None);
    let run = first.method(class, "void", "Run");
    first.implemented(run);
    first.local(run, "int", "localValue");
    let mut second = Decls::new();
    second.class("SecondBase", None);
    let class = second.class("Second", Some("SecondBase"));
    second.field(class, "int", "m_Value");
    let compact =
        index_of(vec![(first, game_metadata("Game/First.c")), (second, game_metadata("Game/Second.c"))])
            .compact_for_runtime_cache();

    assert!(compact.symbols_for_kind(SymbolKind::LocalVariable).is_empty());

    let second_id = compact.classes_by_name("Second")[0];
    let second_symbol = compact.symbol(second_id).unwrap();
    assert_eq!(second_symbol.name.as_deref(), Some("Second"));
    assert_eq!(second_symbol.kind, SymbolKind::Class);
    assert_eq!(second_symbol.detail.base_type.as_deref(), Some("SecondBase"));

    let field_id = compact.fields_by_owner_name("Second", "m_Value")[0];
    let field = compact.symbol(field_id).unwrap();
    assert_eq!(field.name.as_deref(), Some("m_Value"));
    assert_eq!(field.kind, SymbolKind::Field);

    let first_file = compact.file(SourceFileId(0)).unwrap();
    let second_file = compact.file(SourceFileId(1)).unwrap();
    assert_eq!(first_file.symbol_start + first_file.symbol_count, second_file.symbol_start);
    assert_no_dangling_symbol_references(&compact);
}

#[test]
fn pruned_index_remaps_file_local_symbol_ids() {
    let mut d = Decls::new();
    let class = d.class("Example", None);
    let first = d.method(class, "void", "First");
    d.implemented(first);
    d.local(first, "int", "localValue");
    let second = d.method(class, "void", "Second");
    d.param(second, "string", "name");
    let pruned = index_of(vec![(d, game_metadata("Game/Example.c"))]).without_local_variables();

    let first = pruned.methods_by_owner_name("Example", "First")[0];
    let second = pruned.methods_by_owner_name("Example", "Second")[0];
    assert_ne!(first.symbol_id, second.symbol_id);
    assert_eq!(pruned.callable_signature(second).as_deref(), Some("Example.Second(string name) -> void"));
    for file in pruned.files() {
        for local_id in 0..file.symbol_count {
            let id = GlobalSymbolId { file_id: file.id, symbol_id: SymbolId(local_id) };
            assert!(pruned.symbol(id).is_some());
        }
    }
    assert_no_dangling_symbol_references(&pruned);
}

#[test]
fn overlay_index_prefers_workspace_symbols_over_game_data() {
    let mut game = Decls::new();
    let class = game.class("SCR_BaseGameMode", None);
    game.method(class, "void", "OnGameStart");
    game.typedef("string", "FactionKey");
    let mut workspace = Decls::new();
    let class = workspace.modded_class("SCR_BaseGameMode");
    let on_game_start = workspace.method(class, "void", "OnGameStart");
    workspace.modifiers(on_game_start, &["override"]);
    workspace.class("FactionKey", Some("string"));
    let index = index_of(vec![(game, game_metadata("Game.c")), (workspace, workspace_metadata("Workspace.c"))]);

    let source_counts = index.source_kind_counts();
    let count_of = |kind: SourceKind| source_counts.iter().find(|(k, _)| *k == kind).map(|(_, n)| *n);
    assert_eq!(count_of(SourceKind::GameData), Some(1));
    assert_eq!(count_of(SourceKind::Workspace), Some(1));

    let preferred_class = index.preferred_from_symbols(&index.classes_by_name("SCR_BaseGameMode"));
    assert_eq!(index.file(preferred_class[0].file_id).unwrap().metadata.kind, SourceKind::Workspace);

    let preferred_top_level = index.preferred_top_level_symbols_for_name("FactionKey");
    assert_eq!(index.file(preferred_top_level[0].file_id).unwrap().metadata.kind, SourceKind::Workspace);
    assert_eq!(index.symbol(preferred_top_level[0]).unwrap().kind, SymbolKind::Class);

    let preferred_method =
        index.preferred_from_symbols(&index.methods_by_owner_name("SCR_BaseGameMode", "OnGameStart"));
    assert_eq!(index.file(preferred_method[0].file_id).unwrap().metadata.kind, SourceKind::Workspace);
    assert_eq!(index.symbol(preferred_method[0]).unwrap().kind, SymbolKind::Method);
}

#[test]
fn exposes_method_owner_name_groups_for_overload_review() {
    let mut d = Decls::new();
    let class = d.class("SCR_AutotestHarness", None);
    d.method(class, "void", "Begin");
    let begin = d.method(class, "void", "Begin");
    d.param(begin, "int", "value");
    d.method(class, "int", "Count");
    let index = index_of(vec![(d, SourceFileMetadata::unknown())]);

    assert_eq!(index.methods_by_owner_name("SCR_AutotestHarness", "Begin").len(), 2);
    assert_eq!(index.methods_by_owner_name("SCR_AutotestHarness", "Count").len(), 1);

    let groups = index.method_owner_name_groups();
    let group = |owner: &str, name: &str| {
        groups
            .iter()
            .find(|((o, n), _)| o == owner && n == name)
            .map(|(_, ids)| ids.len())
            .unwrap()
    };
    assert_eq!(group("SCR_AutotestHarness", "Begin"), 2);
    assert_eq!(group("SCR_AutotestHarness", "Count"), 1);
}

#[test]
fn duplicate_top_level_conflict_records_include_review_metadata() {
    // typedef string FactionKey; class FactionKey : string {}
    let mut d = Decls::new();
    d.typedef("string", "FactionKey");
    d.class("FactionKey", Some("string"));
    let index = index_of(vec![(d, game_metadata("GameCode/Faction/FactionKey.c"))]);

    let duplicates = index.duplicate_top_level_names();
    let faction_key = duplicates
        .iter()
        .find(|(name, _)| name == "FactionKey")
        .expect("FactionKey should be a duplicate top-level name");
    assert_eq!(faction_key.1.len(), 2);

    let kinds = faction_key.1.iter().map(|id| index.symbol(*id).unwrap().kind).collect::<Vec<_>>();
    assert!(kinds.contains(&SymbolKind::Typedef));
    assert!(kinds.contains(&SymbolKind::Class));

    for id in &faction_key.1 {
        let file = index.file(id.file_id).unwrap();
        assert_eq!(file.metadata.kind, SourceKind::GameData);
        assert_eq!(file.metadata.priority, SOURCE_PRIORITY_GAME_DATA);
        assert_eq!(file.metadata.relative_path.as_deref(), Some("GameCode/Faction/FactionKey.c"));
    }
}

#[test]
fn names_are_listed_once_each_in_string_order() {
    let mut d = Decls::new();
    let b = d.class("beta", None);
    d.field(b, "int", "Alpha");
    d.class("Alpha", None);
    d.function("void", "alpha");
    let index = index_of(vec![(d, SourceFileMetadata::unknown())]);

    let names = index.names();
    let keys: Vec<&str> = names.iter().map(|(n, _)| n.as_str()).collect();
    assert_eq!(keys, vec!["Alpha", "alpha", "beta"]);
    assert_eq!(names[0].1, index.symbols_for_name("Alpha"));
    assert_eq!(names[0].1.len(), 2);

    let top: Vec<(String, usize)> = index.top_level_names().into_iter().map(|(n, ids)| (n, ids.len())).collect();
    assert_eq!(top, vec![("Alpha".to_string(), 1), ("alpha".to_string(), 1), ("beta".to_string(), 1)]);
    let dups: Vec<String> = index.duplicate_names().into_iter().map(|(n, _)| n).collect();
    assert_eq!(dups, vec!["Alpha".to_string()]);
    assert!(index.duplicate_top_level_names().is_empty());
}

#[test]
fn map_counts_report_keys_and_entries_of_every_table() {
    let mut d = Decls::new();
    let class = d.class("A", None);
    d.method(class, "void", "Run");
    let run2 = d.method(class, "void", "Run");
    d.param(run2, "int", "x");
    d.field(class, "int", "x");
    d.typedef("A", "B");
    d.function("void", "Run");
    let index = index_of(vec![(d, SourceFileMetadata::unknown())]);

    let counts = index.map_counts();
    assert_eq!(counts.names, 4);
    assert_eq!(counts.name_entries, 7);
    assert_eq!(counts.top_level_names, 3);
    assert_eq!(counts.top_level_name_entries, 3);
    assert_eq!(counts.kinds, 6);
    assert_eq!(counts.kind_entries, 7);
    assert_eq!(counts.class_names, 1);
    assert_eq!(counts.typedef_names, 1);
    assert_eq!(counts.function_names, 1);
    assert_eq!(counts.method_owner_names, 1);
    assert_eq!(counts.method_owner_name_entries, 2);
    assert_eq!(counts.field_owner_names, 1);
    assert_eq!(counts.member_owners, 1);
    assert_eq!(counts.member_owner_entries, 3);
    assert_eq!(counts.parent_symbols, 2);
    assert_eq!(counts.child_entries, 4);
    assert_eq!(index.source_kind_counts(), vec![(SourceKind::Unknown, 1)]);
}

// Further cases.

#[test]
fn merged_index_keeps_metadata_ids_and_local_parent_links() {
    let mut first = Decls::new();
    let class = first.class("A", None);
    let run = first.method(class, "void", "Run");
    first.param(run, "int", "x");
    let first = index_of(vec![(first, game_metadata("A.c"))]);
    let second = index_of(vec![(single_class("B"), workspace_metadata("B.c")), (single_class("C"), SourceFileMetadata::unknown())]);
    let merged = SymbolIndex::merged(&[&first, &second]);

    assert_eq!(merged.files().len(), 3);
    assert_eq!(merged.symbols().len(), 5);
    assert_eq!(merged.files()[1].metadata, workspace_metadata("B.c"));
    assert_eq!(merged.files()[2].metadata, SourceFileMetadata::unknown());
    let x = merged.symbols_for_name("x")[0];
    let parent = merged.symbol(x).unwrap().parent.unwrap();
    assert_eq!(merged.symbol(parent).unwrap().name.as_deref(), Some("Run"));
    assert_eq!(merged.classes_by_name("C")[0].file_id, SourceFileId(2));
    assert_no_dangling_symbol_references(&merged);
}

#[test]
fn lookups_of_missing_ids_and_names_are_empty() {
    let index = index_of(vec![(single_class("Only"), SourceFileMetadata::unknown())]);
    assert!(index.file(SourceFileId(1)).is_none());
    assert!(index.symbol(GlobalSymbolId { file_id: SourceFileId(0), symbol_id: SymbolId(1) }).is_none());
    assert!(index.symbols_for_name("Missing").is_empty());
    assert!(index.children(GlobalSymbolId { file_id: SourceFileId(0), symbol_id: SymbolId(0) }).is_empty());
    assert_eq!(
        index.completion_member_key(GlobalSymbolId { file_id: SourceFileId(3), symbol_id: SymbolId(7) }),
        "Missing:3:7"
    );
    assert_eq!(index.callable_signature(GlobalSymbolId { file_id: SourceFileId(0), symbol_id: SymbolId(0) }), None);
}

#[test]
fn completion_keys_name_each_member_shape() {
    let mut d = Decls::new();
    let class = d.class("K", None);
    d.field(class, "int", "f");
    let m = d.method(class, "bool", "M");
    d.param(m, "int", "a");
    d.param(m, "string", "b");
    let ctor = d.constructor(class, "K");
    d.param(ctor, "float", "v");
    let index = index_of(vec![(d, SourceFileMetadata::unknown())]);
    let id = |n: usize| GlobalSymbolId { file_id: SourceFileId(0), symbol_id: SymbolId(n) };
    assert_eq!(index.completion_member_key(id(1)), "Field f");
    assert_eq!(index.completion_member_key(id(2)), "Method M(int, string) -> bool");
    assert_eq!(index.completion_member_key(id(5)), "Constructor K(float)");
    assert_eq!(index.completion_member_key(id(0)), "Class K #0:0");
}
