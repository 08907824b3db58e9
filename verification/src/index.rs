//! The global symbol index: every declaration of every indexed file, in file
//! order, with lookups by name, kind, parent, owner class and preference.
//!
//! The index stores files and symbols only.  Every lookup is a scan over the
//! symbol table in declaration order, so each result is exactly the ordered
//! selection of the symbols that satisfy the lookup's predicate.
use vstd::prelude::*;
use vstd::multiset::Multiset;
use crate::model::{
    CallableForm, DocCommentKind, PreprocessorBranchKind, SourceFileMetadata, SourceKind, SymbolId,
    SymbolKind, TextSpan,
};
use crate::text::{
    trim, trim_str, decimal, join_chars, lemma_join_step, push_decimal, push_joined, string_eq_str, string_push_str,
};

verus! {

/// Position of a file inside one index.
#[derive(Debug, Clone, Copy, PartialEq, Eq, Structural, Hash)]
pub struct SourceFileId(pub usize);

/// Index-wide identity of a declaration: its file and its file-local id.
#[derive(Debug, Clone, Copy, PartialEq, Eq, Structural, Hash)]
pub struct GlobalSymbolId {
    pub file_id: SourceFileId,
    pub symbol_id: SymbolId,
}

/// One indexed file and the contiguous range of its symbols.
#[derive(Debug, Clone, PartialEq, Eq)]
pub struct IndexedFile {
    pub id: SourceFileId,
    pub metadata: SourceFileMetadata,
    pub symbol_start: usize,
    pub symbol_count: usize,
    pub non_declaration_callable_fragments: usize,
}

/// Source text copied out of a declaration, with the spans it came from.
#[derive(Debug, Clone, PartialEq, Eq)]
pub struct IndexedSymbolDetail {
    pub type_text: Option<String>,
    pub type_text_span: Option<TextSpan>,
    pub return_type_text: Option<String>,
    pub return_type_text_span: Option<TextSpan>,
    pub base_type: Option<String>,
    pub base_type_span: Option<TextSpan>,
    pub default_text: Option<String>,
    pub default_text_span: Option<TextSpan>,
    pub enum_value_text: Option<String>,
    pub enum_value_text_span: Option<TextSpan>,
}

/// One declaration in the index.
#[derive(Debug, Clone, PartialEq, Eq)]
pub struct IndexedSymbol {
    pub id: GlobalSymbolId,
    pub parent: Option<GlobalSymbolId>,
    pub kind: SymbolKind,
    pub name: Option<String>,
    pub span: TextSpan,
    pub selection_span: TextSpan,
    pub detail: IndexedSymbolDetail,
    pub attributes: Vec<IndexedAttribute>,
    pub modifiers: Vec<String>,
    pub doc_comments: Vec<IndexedDocComment>,
    pub conditional_context: Vec<IndexedConditionalBranch>,
    pub callable_form: Option<CallableForm>,
}

/// An attribute attached to a declaration, e.g. `[Attribute()]`.
#[derive(Debug, Clone, PartialEq, Eq)]
pub struct IndexedAttribute {
    pub name: Option<String>,
    pub text: String,
}

/// A documentation comment attached to a declaration.
#[derive(Debug, Clone, PartialEq, Eq)]
pub struct IndexedDocComment {
    pub kind: DocCommentKind,
    pub text: String,
}

/// One enclosing conditional-compilation branch of a declaration.
#[derive(Debug, Clone, PartialEq, Eq)]
pub struct IndexedConditionalBranch {
    pub kind: PreprocessorBranchKind,
    pub condition: Option<String>,
}

/// Completion members of a class and its bases, after shadowing.
#[derive(Debug, Clone, PartialEq, Eq)]
pub struct CompletionMemberLookup {
    pub raw_candidates: Vec<GlobalSymbolId>,
    pub members: Vec<GlobalSymbolId>,
    pub shadowed_groups: Vec<MemberShadowGroup>,
}

/// The members that share one completion key, and the one that was kept.
#[derive(Debug, Clone, PartialEq, Eq)]
pub struct MemberShadowGroup {
    pub key: String,
    pub kept: GlobalSymbolId,
    pub shadowed: Vec<GlobalSymbolId>,
}

/// Sizes of the index's lookup tables (distinct keys and total entries).
#[derive(Debug, Clone, Copy, PartialEq, Eq)]
pub struct IndexMapCounts {
    pub names: usize,
    pub name_entries: usize,
    pub top_level_names: usize,
    pub top_level_name_entries: usize,
    pub kinds: usize,
    pub kind_entries: usize,
    pub class_names: usize,
    pub class_name_entries: usize,
    pub typedef_names: usize,
    pub typedef_name_entries: usize,
    pub function_names: usize,
    pub function_name_entries: usize,
    pub method_owner_names: usize,
    pub method_owner_name_entries: usize,
    pub field_owner_names: usize,
    pub field_owner_name_entries: usize,
    pub member_owners: usize,
    pub member_owner_entries: usize,
    pub parent_symbols: usize,
    pub child_entries: usize,
}

/// One declaration of a file before it is indexed: the file-local id of the
/// declaration and of its parent, with everything the index copies.
#[derive(Debug, Clone, PartialEq, Eq)]
pub struct DeclarationRecord {
    pub id: SymbolId,
    pub parent: Option<SymbolId>,
    pub kind: SymbolKind,
    pub name: Option<String>,
    pub span: TextSpan,
    pub selection_span: TextSpan,
    pub detail: IndexedSymbolDetail,
    pub attributes: Vec<IndexedAttribute>,
    pub modifiers: Vec<String>,
    pub doc_comments: Vec<IndexedDocComment>,
    pub conditional_context: Vec<IndexedConditionalBranch>,
    pub callable_form: Option<CallableForm>,
}

/// The indexed form of a record of file `file_id`.
pub open spec fn record_symbol(r: DeclarationRecord, file_id: SourceFileId) -> IndexedSymbol {
    IndexedSymbol {
        id: GlobalSymbolId { file_id, symbol_id: r.id },
        parent: match r.parent {
            Some(p) => Some(GlobalSymbolId { file_id, symbol_id: p }),
            None => None,
        },
        kind: r.kind,
        name: r.name,
        span: r.span,
        selection_span: r.selection_span,
        detail: r.detail,
        attributes: r.attributes,
        modifiers: r.modifiers,
        doc_comments: r.doc_comments,
        conditional_context: r.conditional_context,
        callable_form: r.callable_form,
    }
}

/// Records numbered `0..n` in order, each parent naming an earlier-or-later
/// record of the same file.
pub open spec fn records_well_numbered(records: Seq<DeclarationRecord>) -> bool {
    forall|k: int|
        0 <= k < records.len() ==> #[trigger] records[k].id == SymbolId(k as usize) && (
        records[k].parent matches Some(p) ==> p.0 < records.len())
}

/// The global symbol index.
#[derive(Debug, Clone)]
pub struct SymbolIndex {
    files: Vec<IndexedFile>,
    symbols: Vec<IndexedSymbol>,
}

// ---------------------------------------------------------------------------
// Selections over the symbol table

/// The ids, in table order, of the symbols that satisfy `pred`.
pub open spec fn select_ids(
    symbols: Seq<IndexedSymbol>,
    pred: spec_fn(IndexedSymbol) -> bool,
) -> Seq<GlobalSymbolId>
    decreases symbols.len(),
{
    if symbols.len() == 0 {
        Seq::empty()
    } else {
        let before = select_ids(symbols.drop_last(), pred);
        if pred(symbols.last()) {
            before.push(symbols.last().id)
        } else {
            before
        }
    }
}

pub proof fn lemma_select_ids_step(
    symbols: Seq<IndexedSymbol>,
    pred: spec_fn(IndexedSymbol) -> bool,
    i: int,
)
    requires
        0 <= i < symbols.len(),
    ensures
        select_ids(symbols.take(i + 1), pred) == if pred(symbols[i]) {
            select_ids(symbols.take(i), pred).push(symbols[i].id)
        } else {
            select_ids(symbols.take(i), pred)
        },
{
    assert(symbols.take(i + 1).drop_last() =~= symbols.take(i));
}


pub proof fn lemma_select_ids_contains(
    symbols: Seq<IndexedSymbol>,
    pred: spec_fn(IndexedSymbol) -> bool,
    id: GlobalSymbolId,
)
    requires
        select_ids(symbols, pred).contains(id),
    ensures
        exists|j: int| 0 <= j < symbols.len() && pred(#[trigger] symbols[j]) && symbols[j].id == id,
    decreases symbols.len(),
{
    if symbols.len() > 0 {
        let before = select_ids(symbols.drop_last(), pred);
        if before.contains(id) {
            lemma_select_ids_contains(symbols.drop_last(), pred, id);
            let j = choose|j: int| 0 <= j < symbols.drop_last().len() && pred(#[trigger] symbols.drop_last()[j]) && symbols.drop_last()[j].id == id;
            assert(symbols[j] == symbols.drop_last()[j]);
        } else {
            assert(pred(symbols.last()) && symbols.last().id == id);
            assert(symbols[symbols.len() - 1] == symbols.last());
        }
    }
}


pub proof fn lemma_same_multiset_contains(a: Seq<GlobalSymbolId>, b: Seq<GlobalSymbolId>)
    requires
        a.to_multiset() == b.to_multiset(),
    ensures
        forall|x: GlobalSymbolId| a.contains(x) <==> b.contains(x),
{
    a.to_multiset_ensures();
    b.to_multiset_ensures();
    assert forall|x: GlobalSymbolId| a.contains(x) <==> b.contains(x) by {
        assert(a.contains(x) <==> a.to_multiset().count(x) > 0);
        assert(b.contains(x) <==> b.to_multiset().count(x) > 0);
    }
}


/// The ids among `ids` that satisfy `pred`, in order.
pub open spec fn filter_ids(ids: Seq<GlobalSymbolId>, pred: spec_fn(GlobalSymbolId) -> bool) -> Seq<
    GlobalSymbolId,
>
    decreases ids.len(),
{
    if ids.len() == 0 {
        Seq::empty()
    } else {
        let before = filter_ids(ids.drop_last(), pred);
        if pred(ids.last()) {
            before.push(ids.last())
        } else {
            before
        }
    }
}

/// The texts held by a list of owned strings.
pub open spec fn string_views(v: Seq<String>) -> Seq<Seq<char>> {
    v.map_values(|s: String| s@)
}

/// The id lists held by a list of id vectors.
pub open spec fn id_lists(v: Seq<Vec<GlobalSymbolId>>) -> Seq<Seq<GlobalSymbolId>> {
    v.map_values(|s: Vec<GlobalSymbolId>| s@)
}


fn index_of_string(values: &Vec<String>, wanted: &String) -> (r: Option<usize>)
    ensures
        match r {
            Some(i) => i < values@.len() && values@[i as int]@ == wanted@,
            None => !string_views(values@).contains(wanted@),
        },
{
    let mut i: usize = 0;
    while i < values.len()
        invariant
            i <= values@.len(),
            forall|k: int| 0 <= k < i ==> values@[k]@ != wanted@,
        decreases values@.len() - i,
    {
        if crate::text::str_eq(values[i].as_str(), wanted.as_str()) {
            return Some(i);
        }
        i = i + 1;
    }
    proof {
        if string_views(values@).contains(wanted@) {
            let k = choose|k: int| 0 <= k < string_views(values@).len() && string_views(values@)[k] == wanted@;
            assert(values@[k]@ == wanted@);
        }
    }
    None
}

fn contains_string(values: &Vec<String>, wanted: &String) -> (r: bool)
    ensures
        r == string_views(values@).contains(wanted@),
{
    let mut i: usize = 0;
    while i < values.len()
        invariant
            i <= values@.len(),
            forall|k: int| 0 <= k < i ==> values@[k]@ != wanted@,
        decreases values@.len() - i,
    {
        if crate::text::str_eq(values[i].as_str(), wanted.as_str()) {
            assert(string_views(values@)[i as int] == wanted@);
            return true;
        }
        i = i + 1;
    }
    proof {
        if string_views(values@).contains(wanted@) {
            let k = choose|k: int| 0 <= k < string_views(values@).len() && string_views(values@)[k] == wanted@;
            assert(values@[k]@ == wanted@);
        }
    }
    false
}


pub proof fn lemma_filter_ids_step(ids: Seq<GlobalSymbolId>, pred: spec_fn(GlobalSymbolId) -> bool, i: int)
    requires
        0 <= i < ids.len(),
    ensures
        filter_ids(ids.take(i + 1), pred) == if pred(ids[i]) {
            filter_ids(ids.take(i), pred).push(ids[i])
        } else {
            filter_ids(ids.take(i), pred)
        },
{
    assert(ids.take(i + 1).drop_last() =~= ids.take(i));
}

pub proof fn lemma_filter_ids_contains(ids: Seq<GlobalSymbolId>, pred: spec_fn(GlobalSymbolId) -> bool)
    ensures
        forall|x: GlobalSymbolId| filter_ids(ids, pred).contains(x) <==> (ids.contains(x) && pred(x)),
    decreases ids.len(),
{
    if ids.len() > 0 {
        lemma_filter_ids_contains(ids.drop_last(), pred);
        assert forall|x: GlobalSymbolId| filter_ids(ids, pred).contains(x) <==> (ids.contains(x) && pred(x)) by {
            assert(ids =~= ids.drop_last().push(ids.last()));
            if ids.contains(x) && x != ids.last() {
                let k = choose|k: int| 0 <= k < ids.len() && ids[k] == x;
                assert(ids.drop_last()[k] == x);
            }
            if ids.drop_last().contains(x) {
                let k = choose|k: int| 0 <= k < ids.drop_last().len() && ids.drop_last()[k] == x;
                assert(ids[k] == x);
            }
            if filter_ids(ids.drop_last(), pred).contains(x) {
                let k = choose|k: int| 0 <= k < filter_ids(ids.drop_last(), pred).len() && filter_ids(ids.drop_last(), pred)[k] == x;
                if pred(ids.last()) {
                    assert(filter_ids(ids, pred)[k] == x);
                }
            }
            if pred(ids.last()) && x == ids.last() {
                assert(filter_ids(ids, pred).last() == x);
            }
        }
    }
}

/// Every element of a segment before `s` is in the flattening of the first
/// `s` segments.
pub proof fn lemma_flatten_take_contains(segs: Seq<Seq<GlobalSymbolId>>, s: int, s2: int, x: GlobalSymbolId)
    requires
        0 <= s2 < s <= segs.len(),
        segs[s2].contains(x),
    ensures
        segs.take(s).flatten().contains(x),
    decreases s,
{
    let t = segs.take(s);
    assert(t =~= segs.take(s - 1).push(segs[s - 1]));
    segs.take(s - 1).lemma_flatten_push(segs[s - 1]);
    if s2 < s - 1 {
        lemma_flatten_take_contains(segs, s - 1, s2, x);
        let f = segs.take(s - 1).flatten();
        let k = choose|k: int| 0 <= k < f.len() && f[k] == x;
        assert(t.flatten()[k] == x);
    } else {
        let k = choose|k: int| 0 <= k < segs[s2].len() && segs[s2][k] == x;
        assert(t.flatten()[segs.take(s - 1).flatten().len() + k] == x);
    }
}

/// Whether a symbol's name is exactly `name`.
pub open spec fn named(s: IndexedSymbol, name: Seq<char>) -> bool {
    s.name matches Some(n) && n@ == name
}

/// Fields, methods, constructors and destructors.
pub open spec fn is_class_member_kind(kind: SymbolKind) -> bool {
    kind == SymbolKind::Field || kind == SymbolKind::Method || kind == SymbolKind::Constructor
        || kind == SymbolKind::Destructor
}

fn exec_is_class_member_kind(kind: SymbolKind) -> (r: bool)
    ensures
        r == is_class_member_kind(kind),
{
    match kind {
        SymbolKind::Field | SymbolKind::Method | SymbolKind::Constructor
        | SymbolKind::Destructor => true,
        _ => false,
    }
}

fn option_name_is(name: &Option<String>, wanted: &str) -> (r: bool)
    ensures
        r == (name matches Some(n) && n@ == wanted@),
{
    match name {
        Some(n) => string_eq_str(n, wanted),
        None => false,
    }
}


// ---------------------------------------------------------------------------
// Copies

/// Two symbols agree on everything but their own id and parent link.
pub open spec fn same_body(a: IndexedSymbol, b: IndexedSymbol) -> bool {
    &&& a.kind == b.kind
    &&& a.name == b.name
    &&& a.span == b.span
    &&& a.selection_span == b.selection_span
    &&& a.detail == b.detail
    &&& a.attributes@ == b.attributes@
    &&& a.modifiers@ == b.modifiers@
    &&& a.doc_comments@ == b.doc_comments@
    &&& a.conditional_context@ == b.conditional_context@
    &&& a.callable_form == b.callable_form
}

/// The file-local id of a symbol's parent.
pub open spec fn local_parent(s: IndexedSymbol) -> Option<SymbolId> {
    match s.parent {
        Some(p) => Some(p.symbol_id),
        None => None,
    }
}

fn copy_opt_string(v: &Option<String>) -> (r: Option<String>)
    ensures
        r == *v,
{
    match v {
        Some(s) => Some(s.clone()),
        None => None,
    }
}

fn copy_strings(v: &Vec<String>) -> (r: Vec<String>)
    ensures
        r@ == v@,
{
    let mut out: Vec<String> = Vec::new();
    let mut i: usize = 0;
    while i < v.len()
        invariant
            i <= v.len(),
            out@ == v@.take(i as int),
        decreases v.len() - i,
    {
        out.push(v[i].clone());
        assert(v@.take(i + 1) =~= v@.take(i as int).push(v@[i as int]));
        i = i + 1;
    }
    assert(v@.take(v.len() as int) =~= v@);
    out
}

fn copy_attributes(v: &Vec<IndexedAttribute>) -> (r: Vec<IndexedAttribute>)
    ensures
        r@ == v@,
{
    let mut out: Vec<IndexedAttribute> = Vec::new();
    let mut i: usize = 0;
    while i < v.len()
        invariant
            i <= v.len(),
            out@ == v@.take(i as int),
        decreases v.len() - i,
    {
        let a = IndexedAttribute { name: copy_opt_string(&v[i].name), text: v[i].text.clone() };
        out.push(a);
        assert(v@.take(i + 1) =~= v@.take(i as int).push(v@[i as int]));
        i = i + 1;
    }
    assert(v@.take(v.len() as int) =~= v@);
    out
}

fn copy_doc_comments(v: &Vec<IndexedDocComment>) -> (r: Vec<IndexedDocComment>)
    ensures
        r@ == v@,
{
    let mut out: Vec<IndexedDocComment> = Vec::new();
    let mut i: usize = 0;
    while i < v.len()
        invariant
            i <= v.len(),
            out@ == v@.take(i as int),
        decreases v.len() - i,
    {
        let c = IndexedDocComment { kind: v[i].kind, text: v[i].text.clone() };
        out.push(c);
        assert(v@.take(i + 1) =~= v@.take(i as int).push(v@[i as int]));
        i = i + 1;
    }
    assert(v@.take(v.len() as int) =~= v@);
    out
}

fn copy_branches(v: &Vec<IndexedConditionalBranch>) -> (r: Vec<IndexedConditionalBranch>)
    ensures
        r@ == v@,
{
    let mut out: Vec<IndexedConditionalBranch> = Vec::new();
    let mut i: usize = 0;
    while i < v.len()
        invariant
            i <= v.len(),
            out@ == v@.take(i as int),
        decreases v.len() - i,
    {
        let c = IndexedConditionalBranch {
            kind: v[i].kind,
            condition: copy_opt_string(&v[i].condition),
        };
        out.push(c);
        assert(v@.take(i + 1) =~= v@.take(i as int).push(v@[i as int]));
        i = i + 1;
    }
    assert(v@.take(v.len() as int) =~= v@);
    out
}

fn copy_detail(d: &IndexedSymbolDetail) -> (r: IndexedSymbolDetail)
    ensures
        r == *d,
{
    IndexedSymbolDetail {
        type_text: copy_opt_string(&d.type_text),
        type_text_span: d.type_text_span,
        return_type_text: copy_opt_string(&d.return_type_text),
        return_type_text_span: d.return_type_text_span,
        base_type: copy_opt_string(&d.base_type),
        base_type_span: d.base_type_span,
        default_text: copy_opt_string(&d.default_text),
        default_text_span: d.default_text_span,
        enum_value_text: copy_opt_string(&d.enum_value_text),
        enum_value_text_span: d.enum_value_text_span,
    }
}

/// A copy of `s` under a new id and parent link.
fn relabel_symbol(s: &IndexedSymbol, id: GlobalSymbolId, parent: Option<GlobalSymbolId>) -> (r:
    IndexedSymbol)
    ensures
        same_body(r, *s),
        r.id == id,
        r.parent == parent,
{
    IndexedSymbol {
        id,
        parent,
        kind: s.kind,
        name: copy_opt_string(&s.name),
        span: s.span,
        selection_span: s.selection_span,
        detail: copy_detail(&s.detail),
        attributes: copy_attributes(&s.attributes),
        modifiers: copy_strings(&s.modifiers),
        doc_comments: copy_doc_comments(&s.doc_comments),
        conditional_context: copy_branches(&s.conditional_context),
        callable_form: s.callable_form,
    }
}

fn copy_metadata(m: &SourceFileMetadata) -> (r: SourceFileMetadata)
    ensures
        r == *m,
{
    SourceFileMetadata {
        kind: m.kind,
        category: m.category,
        absolute_path: copy_opt_string(&m.absolute_path),
        root_path: copy_opt_string(&m.root_path),
        relative_path: copy_opt_string(&m.relative_path),
        priority: m.priority,
    }
}


// ---------------------------------------------------------------------------
// Signature text

/// `text`, or `<unknown>` when it is absent.
pub open spec fn text_or_unknown(text: Option<String>) -> Seq<char> {
    match text {
        Some(t) => t@,
        None => "<unknown>"@,
    }
}

/// `word` after `text`, separated by one space unless `text` is empty.
pub open spec fn append_word(text: Seq<char>, word: Seq<char>) -> Seq<char> {
    if text.len() == 0 {
        word
    } else {
        text + " "@ + word
    }
}

/// How a parameter reads in a signature: modifiers, type and name separated
/// by spaces (`<unknown>` when all are absent), then ` = default`.
pub open spec fn parameter_signature(s: IndexedSymbol) -> Seq<char> {
    let modifiers = join_chars(s.modifiers@.map_values(|m: String| m@), " "@);
    let with_type = match s.detail.type_text {
        Some(t) => append_word(modifiers, t@),
        None => modifiers,
    };
    let with_name = match s.name {
        Some(n) => append_word(with_type, n@),
        None => with_type,
    };
    let base = if with_name.len() == 0 {
        "<unknown>"@
    } else {
        with_name
    };
    match s.detail.default_text {
        Some(d) => base + " = "@ + d@,
        None => base,
    }
}

/// The declared type of a parameter, `<unknown>` when absent.
pub open spec fn parameter_type(s: IndexedSymbol) -> Seq<char> {
    text_or_unknown(s.detail.type_text)
}

/// Stable text of a symbol kind.
pub open spec fn symbol_kind_key(kind: SymbolKind) -> Seq<char> {
    match kind {
        SymbolKind::Class => "Class"@,
        SymbolKind::TypeParameter => "TypeParameter"@,
        SymbolKind::Enum => "Enum"@,
        SymbolKind::EnumMember => "EnumMember"@,
        SymbolKind::Typedef => "Typedef"@,
        SymbolKind::Function => "Function"@,
        SymbolKind::GlobalField => "GlobalField"@,
        SymbolKind::Field => "Field"@,
        SymbolKind::Method => "Method"@,
        SymbolKind::Constructor => "Constructor"@,
        SymbolKind::Destructor => "Destructor"@,
        SymbolKind::Parameter => "Parameter"@,
        SymbolKind::LocalVariable => "LocalVariable"@,
        SymbolKind::PreprocessorMacro => "PreprocessorMacro"@,
    }
}

fn exec_symbol_kind_key(kind: SymbolKind) -> (r: &'static str)
    ensures
        r@ == symbol_kind_key(kind),
{
    match kind {
        SymbolKind::Class => "Class",
        SymbolKind::TypeParameter => "TypeParameter",
        SymbolKind::Enum => "Enum",
        SymbolKind::EnumMember => "EnumMember",
        SymbolKind::Typedef => "Typedef",
        SymbolKind::Function => "Function",
        SymbolKind::GlobalField => "GlobalField",
        SymbolKind::Field => "Field",
        SymbolKind::Method => "Method",
        SymbolKind::Constructor => "Constructor",
        SymbolKind::Destructor => "Destructor",
        SymbolKind::Parameter => "Parameter",
        SymbolKind::LocalVariable => "LocalVariable",
        SymbolKind::PreprocessorMacro => "PreprocessorMacro",
    }
}

fn push_text_or_unknown(out: &mut String, text: &Option<String>)
    ensures
        final(out)@ == old(out)@ + text_or_unknown(*text),
{
    match text {
        Some(t) => string_push_str(out, t.as_str()),
        None => string_push_str(out, "<unknown>"),
    }
}

fn push_word(out: &mut String, word: &str)
    ensures
        final(out)@ == append_word(old(out)@, word@),
{
    if out.as_str().is_empty() {
        proof {
            assert(old(out)@.len() == 0);
        }
        string_push_str(out, word);
        assert(final(out)@ =~= word@);
    } else {
        string_push_str(out, " ");
        string_push_str(out, word);
    }
}

fn parameter_signature_text(symbol: &IndexedSymbol) -> (r: String)
    ensures
        r@ == parameter_signature(*symbol),
{
    let mut value = String::new();
    let mut i: usize = 0;
    let ghost mods = symbol.modifiers@.map_values(|m: String| m@);
    while i < symbol.modifiers.len()
        invariant
            i <= symbol.modifiers@.len(),
            mods == symbol.modifiers@.map_values(|m: String| m@),
            value@ == join_chars(mods.take(i as int), " "@),
        decreases symbol.modifiers@.len() - i,
    {
        proof {
            lemma_join_step(mods, " "@, i as int);
        }
        push_joined(&mut value, i == 0, " ", symbol.modifiers[i].as_str());
        i = i + 1;
    }
    assert(mods.take(mods.len() as int) =~= mods);
    if let Some(type_text) = &symbol.detail.type_text {
        push_word(&mut value, type_text.as_str());
    }
    if let Some(name) = &symbol.name {
        push_word(&mut value, name.as_str());
    }
    if value.as_str().is_empty() {
        string_push_str(&mut value, "<unknown>");
        assert(value@ =~= "<unknown>"@);
    }
    if let Some(default_text) = &symbol.detail.default_text {
        string_push_str(&mut value, " = ");
        string_push_str(&mut value, default_text.as_str());
    }
    value
}

// ---------------------------------------------------------------------------
// Preference order

/// The ids of `seg` whose key in `keys` is `key`, in order, without
/// `except`.
pub open spec fn ids_keyed(
    seg: Seq<GlobalSymbolId>,
    keys: Seq<Seq<char>>,
    key: Seq<char>,
    except: Option<GlobalSymbolId>,
) -> Seq<GlobalSymbolId>
    decreases seg.len(),
{
    if seg.len() == 0 {
        Seq::empty()
    } else {
        let rest = ids_keyed(seg.drop_last(), keys.drop_last(), key, except);
        if keys.last() == key && except != Some(seg.last()) {
            rest.push(seg.last())
        } else {
            rest
        }
    }
}

/// The key by which preference sorts: higher priority first, then file,
/// then file-local symbol id.
pub open spec fn prefers_key(pa: u16, a: GlobalSymbolId, pb: u16, b: GlobalSymbolId) -> bool {
    pa > pb || (pa == pb && (a.file_id.0 < b.file_id.0 || (a.file_id.0 == b.file_id.0
        && a.symbol_id.0 < b.symbol_id.0)))
}

pub proof fn lemma_multiset_insert(s: Seq<GlobalSymbolId>, p: int, x: GlobalSymbolId)
    requires
        0 <= p <= s.len(),
    ensures
        s.insert(p, x).to_multiset() == s.to_multiset().insert(x),
{
    let t = s.insert(p, x);
    assert(t.remove(p) =~= s);
    t.to_multiset_ensures();
    s.to_multiset_ensures();
    assert(t[p] == x);
    assert(t.contains(x));
    assert(t.to_multiset().count(x) > 0);
    assert(s.to_multiset() == t.to_multiset().remove(x));
    assert(t.to_multiset() =~= s.to_multiset().insert(x));
}

/// One symbol-table lookup.
enum Lookup<'a> {
    Name(&'a str),
    TopLevel(&'a str),
    Class(&'a str),
    Typedef(&'a str),
    Function(&'a str),
    Kind(SymbolKind),
    Children(GlobalSymbolId),
    Method(&'a str, &'a str),
    Field(&'a str, &'a str),
    Members(&'a str),
}



proof fn lemma_find_file(index: SymbolIndex, q: int, i: int) -> (f: int)
    requires
        index.consistent(),
        0 <= i < index.spec_files().len(),
        index.spec_files()[i].symbol_start <= q < index.spec_symbols().len(),
    ensures
        i <= f < index.spec_files().len(),
        index.spec_files()[f].symbol_start <= q < index.spec_files()[f].symbol_start
            + index.spec_files()[f].symbol_count,
    decreases index.spec_files().len() - i,
{
    let files = index.spec_files();
    if q < files[i].symbol_start + files[i].symbol_count {
        i
    } else {
        if i + 1 < files.len() {
            assert(files[i + 1].symbol_start == files[i].symbol_start + files[i].symbol_count);
            lemma_find_file(index, q, i + 1)
        } else {
            assert(files.last() == files[i]);
            i
        }
    }
}

/// In a consistent index every symbol sits exactly where its id points.
#[verifier::rlimit(40)]
pub proof fn lemma_symbol_position(index: SymbolIndex, q: int)
    requires
        index.consistent(),
        0 <= q < index.spec_symbols().len(),
    ensures
        ({
            let id = index.spec_symbols()[q].id;
            &&& id.file_id.0 < index.spec_files().len()
            &&& id.symbol_id.0 < index.spec_files()[id.file_id.0 as int].symbol_count
            &&& index.spec_files()[id.file_id.0 as int].symbol_start + id.symbol_id.0 == q
        }),
{
    let files = index.spec_files();
    assert(files.len() > 0);
    let f = lemma_find_file(index, q, 0);
    let k = q - files[f].symbol_start;
    assert(index.spec_symbols()[files[f].symbol_start + k].id == GlobalSymbolId {
        file_id: SourceFileId(f as usize),
        symbol_id: SymbolId(k as usize),
    });
}

/// In a consistent index every file's range ends inside the symbol table.
pub proof fn lemma_starts_monotone(index: SymbolIndex, i: int)
    requires
        index.consistent(),
        0 <= i < index.spec_files().len(),
    ensures
        index.spec_files()[i].symbol_start + index.spec_files()[i].symbol_count
            <= index.spec_symbols().len(),
    decreases index.spec_files().len() - i,
{
    if i < index.spec_files().len() - 1 {
        lemma_starts_monotone(index, i + 1);
        assert(index.spec_files()[i + 1].symbol_start == index.spec_files()[i].symbol_start
            + index.spec_files()[i].symbol_count);
    }
}

impl SymbolIndex {
    // -----------------------------------------------------------------------
    // Abstract views

    pub closed spec fn spec_files(&self) -> Seq<IndexedFile> {
        self.files@
    }

    pub closed spec fn spec_symbols(&self) -> Seq<IndexedSymbol> {
        self.symbols@
    }

    /// The file with the given id, if it is in the index.
    pub open spec fn spec_file(&self, id: SourceFileId) -> Option<IndexedFile> {
        if id.0 < self.spec_files().len() {
            Some(self.spec_files()[id.0 as int])
        } else {
            None
        }
    }

    /// The symbol with the given id: the `symbol_id`-th symbol of its file's
    /// range, if that position exists.
    pub open spec fn spec_symbol(&self, id: GlobalSymbolId) -> Option<IndexedSymbol> {
        match self.spec_file(id.file_id) {
            Some(file) => if id.symbol_id.0 < file.symbol_count && file.symbol_start
                + id.symbol_id.0 < self.spec_symbols().len() {
                Some(self.spec_symbols()[file.symbol_start + id.symbol_id.0])
            } else {
                None
            },
            None => None,
        }
    }

    /// Every file's symbol range lies inside the symbol table.
    pub open spec fn ranges_valid(&self) -> bool {
        forall|i: int|
            0 <= i < self.spec_files().len() ==> #[trigger] self.spec_files()[i].symbol_start
                + self.spec_files()[i].symbol_count <= self.spec_symbols().len()
    }


    /// Files are numbered by position and cover the symbol table in order
    /// without gaps; every symbol's id names its own position; every parent
    /// link names a symbol of the index.
    pub open spec fn consistent(&self) -> bool {
        let files = self.spec_files();
        let symbols = self.spec_symbols();
        &&& files.len() <= usize::MAX
        &&& forall|i: int| 0 <= i < files.len() ==> (#[trigger] files[i]).id == SourceFileId(i as usize)
        &&& files.len() == 0 ==> symbols.len() == 0
        &&& files.len() > 0 ==> files[0].symbol_start == 0 && files.last().symbol_start
            + files.last().symbol_count == symbols.len()
        &&& forall|i: int|
            0 < i < files.len() ==> #[trigger] files[i].symbol_start == files[i - 1].symbol_start
                + files[i - 1].symbol_count
        &&& forall|i: int, k: int|
            0 <= i < files.len() && 0 <= k < files[i].symbol_count ==> #[trigger] symbols[
            files[i].symbol_start + k].id == GlobalSymbolId {
                file_id: SourceFileId(i as usize),
                symbol_id: SymbolId(k as usize),
            }
        &&& forall|j: int| 0 <= j < symbols.len() ==> self.spec_symbol(#[trigger] symbols[j].id) == Some(symbols[j])
        &&& forall|j: int|
            0 <= j < symbols.len() ==> ((#[trigger] symbols[j]).parent matches Some(p) ==> p.file_id
                == symbols[j].id.file_id && self.spec_symbol(p) is Some)
    }

    /// The name of the class that directly contains a symbol.
    pub open spec fn spec_parent_class_name(&self, s: IndexedSymbol) -> Option<Seq<char>> {
        match s.parent {
            Some(p) => match self.spec_symbol(p) {
                Some(ps) => if ps.kind == SymbolKind::Class {
                    match ps.name {
                        Some(n) => Some(n@),
                        None => None,
                    }
                } else {
                    None
                },
                None => None,
            },
            None => None,
        }
    }

    /// The priority of the file that holds `id`, 0 for an unknown file.
    pub open spec fn spec_priority(&self, id: GlobalSymbolId) -> u16 {
        match self.spec_file(id.file_id) {
            Some(file) => file.metadata.priority,
            None => 0,
        }
    }

    /// Whether `a` sorts strictly before `b` in preference order.
    pub open spec fn prefers(&self, a: GlobalSymbolId, b: GlobalSymbolId) -> bool {
        prefers_key(self.spec_priority(a), a, self.spec_priority(b), b)
    }

    /// No element is preferred over an element that precedes it.
    pub open spec fn preference_ordered(&self, s: Seq<GlobalSymbolId>) -> bool {
        forall|i: int, j: int| 0 <= i < j < s.len() ==> !self.prefers(#[trigger] s[j], #[trigger] s[i])
    }

    // -----------------------------------------------------------------------
    // Construction and raw access

    /// An empty index.
    pub fn new() -> (index: Self)
        ensures
            index.spec_files().len() == 0,
            index.spec_symbols().len() == 0,
            index.consistent(),
    {
        SymbolIndex { files: Vec::new(), symbols: Vec::new() }
    }


    /// Indexes one more file: its records become the file's symbols, in
    /// order, under the next file id.
    pub fn add_declarations(
        &mut self,
        metadata: SourceFileMetadata,
        records: Vec<DeclarationRecord>,
        non_declaration_callable_fragments: usize,
    ) -> (file_id: SourceFileId)
        requires
            old(self).consistent(),
            records_well_numbered(records@),
            old(self).spec_symbols().len() + records@.len() <= usize::MAX,
            old(self).spec_files().len() < usize::MAX,
        ensures
            file_id == SourceFileId(old(self).spec_files().len() as usize),
            final(self).consistent(),
            final(self).spec_files() == old(self).spec_files().push(
                IndexedFile {
                    id: file_id,
                    metadata,
                    symbol_start: old(self).spec_symbols().len() as usize,
                    symbol_count: records@.len() as usize,
                    non_declaration_callable_fragments,
                },
            ),
            final(self).spec_symbols() == old(self).spec_symbols() + records@.map_values(
                |r: DeclarationRecord| record_symbol(r, file_id),
            ),
    {
        let file_id = SourceFileId(self.files.len());
        let symbol_start = self.symbols.len();
        let count = records.len();
        let ghost old_index = *old(self);
        let ghost recs = records@;
        self.files.push(IndexedFile {
            id: file_id,
            metadata,
            symbol_start,
            symbol_count: count,
            non_declaration_callable_fragments,
        });
        let ghost files = self.files@;
        let mut k: usize = 0;
        let mut records = records;
        assert(records@ =~= recs.skip(0));
        while k < count
            invariant
                k <= count,
                count == recs.len(),
                records@ =~= recs.skip(k as int),
                self.files@ == files,
                self.symbols@ =~= old_index.spec_symbols() + recs.take(k as int).map_values(
                    |r: DeclarationRecord| record_symbol(r, file_id),
                ),
            decreases count - k,
        {
            let r = records.remove(0);
            proof {
                assert(recs.skip(k + 1) =~= recs.skip(k as int).remove(0));
                assert(recs.take(k + 1).map_values(|r: DeclarationRecord| record_symbol(r, file_id))
                    =~= recs.take(k as int).map_values(|r: DeclarationRecord| record_symbol(r, file_id)).push(
                    record_symbol(recs[k as int], file_id)));
            }
            let parent = match r.parent {
                Some(p) => Some(GlobalSymbolId { file_id, symbol_id: p }),
                None => None,
            };
            self.symbols.push(IndexedSymbol {
                id: GlobalSymbolId { file_id, symbol_id: r.id },
                parent,
                kind: r.kind,
                name: r.name,
                span: r.span,
                selection_span: r.selection_span,
                detail: r.detail,
                attributes: r.attributes,
                modifiers: r.modifiers,
                doc_comments: r.doc_comments,
                conditional_context: r.conditional_context,
                callable_form: r.callable_form,
            });
            k = k + 1;
        }
        assert(recs.take(count as int) =~= recs);
        proof {
            let new = *self;
            let n = old_index.spec_files().len();
            let syms = new.spec_symbols();
            assert forall|id: GlobalSymbolId| old_index.spec_symbol(id) is Some implies new.spec_symbol(id)
                == old_index.spec_symbol(id) by {
                assert(new.spec_files()[id.file_id.0 as int] == old_index.spec_files()[id.file_id.0 as int]);
            }
            assert forall|j: int| 0 <= j < syms.len() implies new.spec_symbol(#[trigger] syms[j].id) == Some(syms[j]) by {
                if j < old_index.spec_symbols().len() {
                    assert(syms[j] == old_index.spec_symbols()[j]);
                } else {
                    let kk = j - old_index.spec_symbols().len();
                    assert(syms[j] == record_symbol(recs[kk], file_id));
                    assert(recs[kk].id == SymbolId(kk as usize));
                }
            }
            assert forall|j: int| 0 <= j < syms.len() implies ((#[trigger] syms[j]).parent matches Some(p)
                ==> p.file_id == syms[j].id.file_id && new.spec_symbol(p) is Some) by {
                if j < old_index.spec_symbols().len() {
                    assert(syms[j] == old_index.spec_symbols()[j]);
                } else {
                    let kk = j - old_index.spec_symbols().len();
                    assert(syms[j] == record_symbol(recs[kk], file_id));
                    assert(recs[kk].id == SymbolId(kk as usize));
                }
            }
            assert forall|i: int, kk: int|
                0 <= i < new.spec_files().len() && 0 <= kk < new.spec_files()[i].symbol_count implies #[trigger] syms[
                new.spec_files()[i].symbol_start + kk].id == GlobalSymbolId {
                    file_id: SourceFileId(i as usize),
                    symbol_id: SymbolId(kk as usize),
                } by {
                if i < n {
                    assert(new.spec_files()[i] == old_index.spec_files()[i]);
                    assert(old_index.spec_files()[i].symbol_start + old_index.spec_files()[i].symbol_count
                        <= old_index.spec_symbols().len()) by {
                        if i < n - 1 {
                            assert(old_index.spec_files()[i + 1].symbol_start == old_index.spec_files()[i].symbol_start + old_index.spec_files()[i].symbol_count);
                        }
                        lemma_starts_monotone(old_index, i);
                    }
                } else {
                    assert(recs[kk].id == SymbolId(kk as usize));
                }
            }
        }
        file_id
    }

    /// An index over already-indexed files and symbols, kept as given.
    pub fn from_indexed_parts(files: Vec<IndexedFile>, symbols: Vec<IndexedSymbol>) -> (index: Self)
        ensures
            index.spec_files() == files@,
            index.spec_symbols() == symbols@,
    {
        SymbolIndex { files, symbols }
    }

    pub fn files(&self) -> (r: &[IndexedFile])
        ensures
            r@ == self.spec_files(),
    {
        self.files.as_slice()
    }

    pub fn symbols(&self) -> (r: &[IndexedSymbol])
        ensures
            r@ == self.spec_symbols(),
    {
        self.symbols.as_slice()
    }

    pub fn file(&self, id: SourceFileId) -> (r: Option<&IndexedFile>)
        ensures
            match r {
                Some(f) => self.spec_file(id) == Some(*f),
                None => self.spec_file(id) is None,
            },
    {
        if id.0 < self.files.len() {
            Some(&self.files[id.0])
        } else {
            None
        }
    }

    pub fn symbol(&self, id: GlobalSymbolId) -> (r: Option<&IndexedSymbol>)
        ensures
            match r {
                Some(s) => self.spec_symbol(id) == Some(*s),
                None => self.spec_symbol(id) is None,
            },
    {
        let file = match self.file(id.file_id) {
            Some(f) => f,
            None => return None,
        };
        let local_index = id.symbol_id.0;
        if local_index >= file.symbol_count {
            return None;
        }
        if file.symbol_start >= self.symbols.len() || local_index >= self.symbols.len()
            - file.symbol_start {
            return None;
        }
        Some(&self.symbols[file.symbol_start + local_index])
    }

    fn priority_of(&self, id: GlobalSymbolId) -> (r: u16)
        ensures
            r == self.spec_priority(id),
    {
        match self.file(id.file_id) {
            Some(f) => f.metadata.priority,
            None => 0,
        }
    }

    fn exec_prefers(&self, a: GlobalSymbolId, b: GlobalSymbolId) -> (r: bool)
        ensures
            r == self.prefers(a, b),
    {
        let pa = self.priority_of(a);
        let pb = self.priority_of(b);
        pa > pb || (pa == pb && (a.file_id.0 < b.file_id.0 || (a.file_id.0 == b.file_id.0
            && a.symbol_id.0 < b.symbol_id.0)))
    }

    /// The name of the class that directly contains `symbol`, if any.
    pub(crate) fn parent_class_name(&self, symbol: &IndexedSymbol) -> (r: Option<&String>)
        ensures
            match r {
                Some(n) => self.spec_parent_class_name(*symbol) == Some(n@),
                None => self.spec_parent_class_name(*symbol) is None,
            },
    {
        let parent = match symbol.parent {
            Some(p) => p,
            None => return None,
        };
        let parent_symbol = match self.symbol(parent) {
            Some(s) => s,
            None => return None,
        };
        if parent_symbol.kind != SymbolKind::Class {
            return None;
        }
        match &parent_symbol.name {
            Some(n) => Some(n),
            None => None,
        }
    }

    fn parent_class_is(&self, symbol: &IndexedSymbol, owner: &str) -> (r: bool)
        ensures
            r == (self.spec_parent_class_name(*symbol) == Some(owner@)),
    {
        match self.parent_class_name(symbol) {
            Some(n) => string_eq_str(n, owner),
            None => false,
        }
    }

    // -----------------------------------------------------------------------
    // Preference

    /// Sorts ids into preference order: higher file priority first, then
    /// lower file id, then lower file-local symbol id.  The sort is stable.
    pub fn preferred_from_symbols(&self, symbols: &[GlobalSymbolId]) -> (r: Vec<GlobalSymbolId>)
        ensures
            self.preference_ordered(r@),
            r@.to_multiset() == symbols@.to_multiset(),
    {
        let mut out: Vec<GlobalSymbolId> = Vec::new();
        let mut i: usize = 0;
        assert(out@ =~= symbols@.take(0));
        while i < symbols.len()
            invariant
                i <= symbols.len(),
                self.preference_ordered(out@),
                out@.to_multiset() == symbols@.take(i as int).to_multiset(),
            decreases symbols.len() - i,
        {
            let x = symbols[i];
            let mut p: usize = 0;
            while p < out.len() && !self.exec_prefers(x, out[p])
                invariant
                    p <= out.len(),
                    forall|k: int| 0 <= k < p ==> !self.prefers(x, #[trigger] out@[k]),
                decreases out.len() - p,
            {
                p = p + 1;
            }
            let ghost before = out@;
            proof {
                lemma_multiset_insert(before, p as int, x);
                before.insert_ensures(p as int, x);
                assert(symbols@.take(i + 1) =~= symbols@.take(i as int).push(x));
                symbols@.take(i as int).to_multiset_ensures();
            }
            out.insert(p, x);
            assert(self.preference_ordered(out@)) by {
                assert forall|a: int, b: int| 0 <= a < b < out@.len() implies !self.prefers(
                    #[trigger] out@[b],
                    #[trigger] out@[a],
                ) by {
                    if b < p {
                        assert(out@[a] == before[a] && out@[b] == before[b]);
                    } else if b == p {
                        assert(out@[a] == before[a]);
                    } else if a == p {
                        assert(out@[b] == before[b - 1]);
                        assert(self.prefers(x, before[p as int]));
                        if b - 1 > p {
                            assert(!self.prefers(before[b - 1], before[p as int]));
                        }
                    } else if a < p {
                        assert(out@[a] == before[a] && out@[b] == before[b - 1]);
                    } else {
                        assert(out@[a] == before[a - 1] && out@[b] == before[b - 1]);
                    }
                }
            }
            i = i + 1;
        }
        assert(symbols@.take(symbols.len() as int) =~= symbols@);
        out
    }

    // -----------------------------------------------------------------------
    // Lookups

    /// Symbols named `name`, in table order.
    pub open spec fn spec_symbols_for_name(&self, name: Seq<char>) -> Seq<GlobalSymbolId> {
        select_ids(self.spec_symbols(), |s: IndexedSymbol| named(s, name))
    }

    /// Top-level (parentless) symbols named `name`, in table order.
    pub open spec fn spec_top_level_symbols_for_name(&self, name: Seq<char>) -> Seq<GlobalSymbolId> {
        select_ids(self.spec_symbols(), |s: IndexedSymbol| named(s, name) && s.parent is None)
    }

    /// Symbols of one kind named `name`, in table order.
    pub open spec fn spec_kind_named(&self, kind: SymbolKind, name: Seq<char>) -> Seq<GlobalSymbolId> {
        select_ids(self.spec_symbols(), |s: IndexedSymbol| named(s, name) && s.kind == kind)
    }

    /// Symbols of one kind, named or not, in table order.
    pub open spec fn spec_symbols_for_kind(&self, kind: SymbolKind) -> Seq<GlobalSymbolId> {
        select_ids(self.spec_symbols(), |s: IndexedSymbol| s.kind == kind)
    }

    /// Symbols whose parent is `parent`, in table order.
    pub open spec fn spec_children(&self, parent: GlobalSymbolId) -> Seq<GlobalSymbolId> {
        select_ids(self.spec_symbols(), |s: IndexedSymbol| s.parent == Some(parent))
    }

    /// Methods named `name` directly inside a class named `owner`.
    pub open spec fn spec_methods_by_owner_name(&self, owner: Seq<char>, name: Seq<char>) -> Seq<
        GlobalSymbolId,
    > {
        select_ids(
            self.spec_symbols(),
            |s: IndexedSymbol|
                named(s, name) && s.kind == SymbolKind::Method && self.spec_parent_class_name(s)
                    == Some(owner),
        )
    }

    /// Fields named `name` directly inside a class named `owner`.
    pub open spec fn spec_fields_by_owner_name(&self, owner: Seq<char>, name: Seq<char>) -> Seq<
        GlobalSymbolId,
    > {
        select_ids(
            self.spec_symbols(),
            |s: IndexedSymbol|
                named(s, name) && s.kind == SymbolKind::Field && self.spec_parent_class_name(s)
                    == Some(owner),
        )
    }

    /// Named fields, methods, constructors and destructors directly inside a
    /// class named `owner`.
    pub open spec fn spec_members_by_owner(&self, owner: Seq<char>) -> Seq<GlobalSymbolId> {
        select_ids(
            self.spec_symbols(),
            |s: IndexedSymbol|
                s.name is Some && is_class_member_kind(s.kind) && self.spec_parent_class_name(s)
                    == Some(owner),
        )
    }

    spec fn lookup_holds(&self, q: Lookup, s: IndexedSymbol) -> bool {
        match q {
            Lookup::Name(n) => named(s, n@),
            Lookup::TopLevel(n) => named(s, n@) && s.parent is None,
            Lookup::Class(n) => named(s, n@) && s.kind == SymbolKind::Class,
            Lookup::Typedef(n) => named(s, n@) && s.kind == SymbolKind::Typedef,
            Lookup::Function(n) => named(s, n@) && s.kind == SymbolKind::Function,
            Lookup::Kind(k) => s.kind == k,
            Lookup::Children(p) => s.parent == Some(p),
            Lookup::Method(o, n) => named(s, n@) && s.kind == SymbolKind::Method
                && self.spec_parent_class_name(s) == Some(o@),
            Lookup::Field(o, n) => named(s, n@) && s.kind == SymbolKind::Field
                && self.spec_parent_class_name(s) == Some(o@),
            Lookup::Members(o) => s.name is Some && is_class_member_kind(s.kind)
                && self.spec_parent_class_name(s) == Some(o@),
        }
    }

    fn exec_lookup_holds(&self, q: &Lookup, s: &IndexedSymbol) -> (r: bool)
        ensures
            r == self.lookup_holds(*q, *s),
    {
        match q {
            Lookup::Name(n) => option_name_is(&s.name, n),
            Lookup::TopLevel(n) => option_name_is(&s.name, n) && s.parent.is_none(),
            Lookup::Class(n) => option_name_is(&s.name, n) && s.kind == SymbolKind::Class,
            Lookup::Typedef(n) => option_name_is(&s.name, n) && s.kind == SymbolKind::Typedef,
            Lookup::Function(n) => option_name_is(&s.name, n) && s.kind == SymbolKind::Function,
            Lookup::Kind(k) => s.kind == *k,
            Lookup::Children(p) => match s.parent {
                Some(q) => q == *p,
                None => false,
            },
            Lookup::Method(o, n) => option_name_is(&s.name, n) && s.kind == SymbolKind::Method
                && self.parent_class_is(s, o),
            Lookup::Field(o, n) => option_name_is(&s.name, n) && s.kind == SymbolKind::Field
                && self.parent_class_is(s, o),
            Lookup::Members(o) => s.name.is_some() && exec_is_class_member_kind(s.kind)
                && self.parent_class_is(s, o),
        }
    }

    fn select(&self, q: Lookup) -> (r: Vec<GlobalSymbolId>)
        ensures
            r@ == select_ids(self.spec_symbols(), |s: IndexedSymbol| self.lookup_holds(q, s)),
    {
        let ghost pred = |s: IndexedSymbol| self.lookup_holds(q, s);
        let mut out: Vec<GlobalSymbolId> = Vec::new();
        let mut i: usize = 0;
        while i < self.symbols.len()
            invariant
                i <= self.symbols@.len(),
                pred == (|s: IndexedSymbol| self.lookup_holds(q, s)),
                out@ == select_ids(self.symbols@.take(i as int), pred),
            decreases self.symbols@.len() - i,
        {
            proof {
                lemma_select_ids_step(self.symbols@, pred, i as int);
            }
            if self.exec_lookup_holds(&q, &self.symbols[i]) {
                out.push(self.symbols[i].id);
            }
            i = i + 1;
        }
        assert(self.symbols@.take(self.symbols@.len() as int) =~= self.symbols@);
        out
    }

    pub fn symbols_for_name(&self, name: &str) -> (r: Vec<GlobalSymbolId>)
        ensures
            r@ == self.spec_symbols_for_name(name@),
    {
        let r = self.select(Lookup::Name(name));
        assert((|s: IndexedSymbol| self.lookup_holds(Lookup::Name(name), s)) =~= (|s: IndexedSymbol| named(s, name@)));
        r
    }

    pub fn top_level_symbols_for_name(&self, name: &str) -> (r: Vec<GlobalSymbolId>)
        ensures
            r@ == self.spec_top_level_symbols_for_name(name@),
    {
        let r = self.select(Lookup::TopLevel(name));
        assert((|s: IndexedSymbol| self.lookup_holds(Lookup::TopLevel(name), s)) =~= (|s: IndexedSymbol| named(s, name@) && s.parent is None));
        r
    }

    pub fn classes_by_name(&self, name: &str) -> (r: Vec<GlobalSymbolId>)
        ensures
            r@ == self.spec_kind_named(SymbolKind::Class, name@),
    {
        let r = self.select(Lookup::Class(name));
        assert((|s: IndexedSymbol| self.lookup_holds(Lookup::Class(name), s)) =~= (|s: IndexedSymbol| named(s, name@) && s.kind == SymbolKind::Class));
        r
    }

    pub fn typedefs_by_name(&self, name: &str) -> (r: Vec<GlobalSymbolId>)
        ensures
            r@ == self.spec_kind_named(SymbolKind::Typedef, name@),
    {
        let r = self.select(Lookup::Typedef(name));
        assert((|s: IndexedSymbol| self.lookup_holds(Lookup::Typedef(name), s)) =~= (|s: IndexedSymbol| named(s, name@) && s.kind == SymbolKind::Typedef));
        r
    }

    pub fn functions_by_name(&self, name: &str) -> (r: Vec<GlobalSymbolId>)
        ensures
            r@ == self.spec_kind_named(SymbolKind::Function, name@),
    {
        let r = self.select(Lookup::Function(name));
        assert((|s: IndexedSymbol| self.lookup_holds(Lookup::Function(name), s)) =~= (|s: IndexedSymbol| named(s, name@) && s.kind == SymbolKind::Function));
        r
    }

    pub fn symbols_for_kind(&self, kind: SymbolKind) -> (r: Vec<GlobalSymbolId>)
        ensures
            r@ == self.spec_symbols_for_kind(kind),
    {
        let r = self.select(Lookup::Kind(kind));
        assert((|s: IndexedSymbol| self.lookup_holds(Lookup::Kind(kind), s)) =~= (|s: IndexedSymbol| s.kind == kind));
        r
    }

    pub fn children(&self, parent: GlobalSymbolId) -> (r: Vec<GlobalSymbolId>)
        ensures
            r@ == self.spec_children(parent),
    {
        let r = self.select(Lookup::Children(parent));
        assert((|s: IndexedSymbol| self.lookup_holds(Lookup::Children(parent), s)) =~= (|s: IndexedSymbol| s.parent == Some(parent)));
        r
    }

    pub fn methods_by_owner_name(&self, owner: &str, name: &str) -> (r: Vec<GlobalSymbolId>)
        ensures
            r@ == self.spec_methods_by_owner_name(owner@, name@),
    {
        let r = self.select(Lookup::Method(owner, name));
        assert((|s: IndexedSymbol| self.lookup_holds(Lookup::Method(owner, name), s)) =~= (|s: IndexedSymbol|
                named(s, name@) && s.kind == SymbolKind::Method && self.spec_parent_class_name(s)
                    == Some(owner@)));
        r
    }

    pub fn fields_by_owner_name(&self, owner: &str, name: &str) -> (r: Vec<GlobalSymbolId>)
        ensures
            r@ == self.spec_fields_by_owner_name(owner@, name@),
    {
        let r = self.select(Lookup::Field(owner, name));
        assert((|s: IndexedSymbol| self.lookup_holds(Lookup::Field(owner, name), s)) =~= (|s: IndexedSymbol|
                named(s, name@) && s.kind == SymbolKind::Field && self.spec_parent_class_name(s)
                    == Some(owner@)));
        r
    }

    pub fn members_by_owner(&self, owner: &str) -> (r: Vec<GlobalSymbolId>)
        ensures
            r@ == self.spec_members_by_owner(owner@),
    {
        let r = self.select(Lookup::Members(owner));
        assert((|s: IndexedSymbol| self.lookup_holds(Lookup::Members(owner), s)) =~= (|s: IndexedSymbol|
                s.name is Some && is_class_member_kind(s.kind) && self.spec_parent_class_name(s)
                    == Some(owner@)));
        r
    }

    /// The same selection as `members_by_owner`.
    pub fn direct_members_by_owner(&self, owner: &str) -> (r: Vec<GlobalSymbolId>)
        ensures
            r@ == self.spec_members_by_owner(owner@),
    {
        self.members_by_owner(owner)
    }

    pub fn preferred_symbols_for_name(&self, name: &str) -> (r: Vec<GlobalSymbolId>)
        ensures
            self.preference_ordered(r@),
            r@.to_multiset() == self.spec_symbols_for_name(name@).to_multiset(),
    {
        let ids = self.symbols_for_name(name);
        self.preferred_from_symbols(ids.as_slice())
    }

    pub fn preferred_top_level_symbols_for_name(&self, name: &str) -> (r: Vec<GlobalSymbolId>)
        ensures
            self.preference_ordered(r@),
            r@.to_multiset() == self.spec_top_level_symbols_for_name(name@).to_multiset(),
    {
        let ids = self.top_level_symbols_for_name(name);
        self.preferred_from_symbols(ids.as_slice())
    }

    pub fn preferred_classes_by_name(&self, name: &str) -> (r: Vec<GlobalSymbolId>)
        ensures
            self.preference_ordered(r@),
            r@.to_multiset() == self.spec_kind_named(SymbolKind::Class, name@).to_multiset(),
    {
        let ids = self.classes_by_name(name);
        self.preferred_from_symbols(ids.as_slice())
    }

    pub fn preferred_typedefs_by_name(&self, name: &str) -> (r: Vec<GlobalSymbolId>)
        ensures
            self.preference_ordered(r@),
            r@.to_multiset() == self.spec_kind_named(SymbolKind::Typedef, name@).to_multiset(),
    {
        let ids = self.typedefs_by_name(name);
        self.preferred_from_symbols(ids.as_slice())
    }

    pub fn preferred_functions_by_name(&self, name: &str) -> (r: Vec<GlobalSymbolId>)
        ensures
            self.preference_ordered(r@),
            r@.to_multiset() == self.spec_kind_named(SymbolKind::Function, name@).to_multiset(),
    {
        let ids = self.functions_by_name(name);
        self.preferred_from_symbols(ids.as_slice())
    }

    // -----------------------------------------------------------------------
    // Signatures and completion keys

    /// `f` of each parameter among `ids` (ids that resolve to a symbol of
    /// kind `Parameter`), in order.
    pub open spec fn parameter_parts(
        &self,
        ids: Seq<GlobalSymbolId>,
        f: spec_fn(IndexedSymbol) -> Seq<char>,
    ) -> Seq<Seq<char>>
        decreases ids.len(),
    {
        if ids.len() == 0 {
            Seq::empty()
        } else {
            let before = self.parameter_parts(ids.drop_last(), f);
            match self.spec_symbol(ids.last()) {
                Some(s) => if s.kind == SymbolKind::Parameter {
                    before.push(f(s))
                } else {
                    before
                },
                None => before,
            }
        }
    }

    /// The parameter list of a callable: its parameter children's signatures
    /// joined by `, `.
    pub open spec fn spec_parameter_text(&self, id: GlobalSymbolId) -> Seq<char> {
        join_chars(
            self.parameter_parts(self.spec_children(id), |s: IndexedSymbol| parameter_signature(s)),
            ", "@,
        )
    }

    /// The parameter types of a callable joined by `, `.
    pub open spec fn spec_parameter_type_shape(&self, id: GlobalSymbolId) -> Seq<char> {
        join_chars(
            self.parameter_parts(self.spec_children(id), |s: IndexedSymbol| parameter_type(s)),
            ", "@,
        )
    }

    /// The name of the symbol a symbol's parent link names.
    pub open spec fn spec_owner_name(&self, s: IndexedSymbol) -> Option<Seq<char>> {
        match s.parent {
            Some(p) => match self.spec_symbol(p) {
                Some(ps) => match ps.name {
                    Some(n) => Some(n@),
                    None => None,
                },
                None => None,
            },
            None => None,
        }
    }

    /// `Name(params) -> Return` for functions, `Owner.Name(params) -> Return`
    /// for methods, `Owner(params)` for constructors and `~Owner(params)` for
    /// destructors; nothing for other symbols, unnamed symbols and members
    /// whose owner has no name.
    pub open spec fn spec_callable_signature(&self, id: GlobalSymbolId) -> Option<Seq<char>> {
        match self.spec_symbol(id) {
            None => None,
            Some(s) => match s.name {
                None => None,
                Some(name) => {
                    let params = self.spec_parameter_text(id);
                    let ret = text_or_unknown(s.detail.return_type_text);
                    match s.kind {
                        SymbolKind::Function => Some(name@ + "("@ + params + ") -> "@ + ret),
                        SymbolKind::Method => match self.spec_owner_name(s) {
                            Some(owner) => Some(owner + "."@ + name@ + "("@ + params + ") -> "@ + ret),
                            None => None,
                        },
                        SymbolKind::Constructor => match self.spec_owner_name(s) {
                            Some(owner) => Some(owner + "("@ + params + ")"@),
                            None => None,
                        },
                        SymbolKind::Destructor => match self.spec_owner_name(s) {
                            Some(owner) => Some("~"@ + owner + "("@ + params + ")"@),
                            None => None,
                        },
                        _ => None,
                    }
                },
            },
        }
    }

    /// The key under which completion groups same-shaped members.
    pub open spec fn spec_completion_member_key(&self, id: GlobalSymbolId) -> Seq<char> {
        match self.spec_symbol(id) {
            None => "Missing:"@ + decimal(id.file_id.0 as nat) + ":"@ + decimal(id.symbol_id.0 as nat),
            Some(s) => {
                let name = text_or_unknown(s.name);
                match s.kind {
                    SymbolKind::Field => "Field "@ + name,
                    SymbolKind::Method => "Method "@ + name + "("@ + self.spec_parameter_type_shape(id)
                        + ") -> "@ + text_or_unknown(s.detail.return_type_text),
                    SymbolKind::Constructor => "Constructor "@ + name + "("@
                        + self.spec_parameter_type_shape(id) + ")"@,
                    SymbolKind::Destructor => "Destructor "@ + name + "("@
                        + self.spec_parameter_type_shape(id) + ")"@,
                    _ => symbol_kind_key(s.kind) + " "@ + name + " #"@ + decimal(id.file_id.0 as nat)
                        + ":"@ + decimal(id.symbol_id.0 as nat),
                }
            },
        }
    }

    /// Appends the joined parameter parts of `id`'s children: signatures when
    /// `types_only` is false, declared types when it is true.
    fn push_parameter_parts(&self, out: &mut String, id: GlobalSymbolId, types_only: bool)
        ensures
            final(out)@ == old(out)@ + (if types_only {
                self.spec_parameter_type_shape(id)
            } else {
                self.spec_parameter_text(id)
            }),
    {
        let children = self.children(id);
        let ghost f = if types_only {
            |s: IndexedSymbol| parameter_type(s)
        } else {
            |s: IndexedSymbol| parameter_signature(s)
        };
        let ghost ids = children@;
        let ghost start = out@;
        let mut text = String::new();
        let mut any = false;
        let mut i: usize = 0;
        while i < children.len()
            invariant
                i <= children@.len(),
                ids == children@,
                f == (if types_only {
                    |s: IndexedSymbol| parameter_type(s)
                } else {
                    |s: IndexedSymbol| parameter_signature(s)
                }),
                any == (self.parameter_parts(ids.take(i as int), f).len() > 0),
                text@ == join_chars(self.parameter_parts(ids.take(i as int), f), ", "@),
            decreases children@.len() - i,
        {
            let ghost parts = self.parameter_parts(ids.take(i as int), f);
            assert(ids.take(i + 1).drop_last() =~= ids.take(i as int));
            if let Some(child) = self.symbol(children[i]) {
                if child.kind == SymbolKind::Parameter {
                    let part = if types_only {
                        match &child.detail.type_text {
                            Some(t) => t.clone(),
                            None => crate::text::to_owned_string("<unknown>"),
                        }
                    } else {
                        parameter_signature_text(child)
                    };
                    assert(part@ == f(*child));
                    proof {
                        lemma_join_step(parts.push(part@), ", "@, parts.len() as int);
                        assert(parts.push(part@).take(parts.len() as int) =~= parts);
                        assert(parts.push(part@).take(parts.len() as int + 1) =~= parts.push(part@));
                    }
                    push_joined(&mut text, !any, ", ", part.as_str());
                    any = true;
                }
            }
            i = i + 1;
        }
        assert(ids.take(ids.len() as int) =~= ids);
        string_push_str(out, text.as_str());
    }

    /// The display signature of a callable symbol.
    pub fn callable_signature(&self, id: GlobalSymbolId) -> (r: Option<String>)
        ensures
            match r {
                Some(t) => self.spec_callable_signature(id) == Some(t@),
                None => self.spec_callable_signature(id) is None,
            },
    {
        let symbol = match self.symbol(id) {
            Some(s) => s,
            None => return None,
        };
        let name = match &symbol.name {
            Some(n) => n,
            None => return None,
        };
        let owner: Option<&String> = match symbol.parent {
            Some(p) => match self.symbol(p) {
                Some(ps) => match &ps.name {
                    Some(n) => Some(n),
                    None => None,
                },
                None => None,
            },
            None => None,
        };
        let mut out = String::new();
        match symbol.kind {
            SymbolKind::Function => {
                string_push_str(&mut out, name.as_str());
                string_push_str(&mut out, "(");
                self.push_parameter_parts(&mut out, id, false);
                string_push_str(&mut out, ") -> ");
                push_text_or_unknown(&mut out, &symbol.detail.return_type_text);
            },
            SymbolKind::Method => {
                let owner = match owner {
                    Some(o) => o,
                    None => return None,
                };
                string_push_str(&mut out, owner.as_str());
                string_push_str(&mut out, ".");
                string_push_str(&mut out, name.as_str());
                string_push_str(&mut out, "(");
                self.push_parameter_parts(&mut out, id, false);
                string_push_str(&mut out, ") -> ");
                push_text_or_unknown(&mut out, &symbol.detail.return_type_text);
            },
            SymbolKind::Constructor => {
                let owner = match owner {
                    Some(o) => o,
                    None => return None,
                };
                string_push_str(&mut out, owner.as_str());
                string_push_str(&mut out, "(");
                self.push_parameter_parts(&mut out, id, false);
                string_push_str(&mut out, ")");
            },
            SymbolKind::Destructor => {
                let owner = match owner {
                    Some(o) => o,
                    None => return None,
                };
                string_push_str(&mut out, "~");
                string_push_str(&mut out, owner.as_str());
                string_push_str(&mut out, "(");
                self.push_parameter_parts(&mut out, id, false);
                string_push_str(&mut out, ")");
            },
            _ => return None,
        }
        assert(self.spec_callable_signature(id) == Some(out@)) by {
            assert(out@ =~= self.spec_callable_signature(id).unwrap());
        }
        Some(out)
    }

    /// The key under which completion groups members of the same shape:
    /// fields by name, callables by name and parameter types (methods also
    /// by return type); other symbols are keyed by their own id.
    pub fn completion_member_key(&self, id: GlobalSymbolId) -> (r: String)
        ensures
            r@ == self.spec_completion_member_key(id),
    {
        let mut out = String::new();
        let symbol = match self.symbol(id) {
            Some(s) => s,
            None => {
                string_push_str(&mut out, "Missing:");
                push_decimal(&mut out, id.file_id.0);
                string_push_str(&mut out, ":");
                push_decimal(&mut out, id.symbol_id.0);
                assert(out@ =~= self.spec_completion_member_key(id));
                return out;
            },
        };
        match symbol.kind {
            SymbolKind::Field => {
                string_push_str(&mut out, "Field ");
                push_text_or_unknown(&mut out, &symbol.name);
            },
            SymbolKind::Method => {
                string_push_str(&mut out, "Method ");
                push_text_or_unknown(&mut out, &symbol.name);
                string_push_str(&mut out, "(");
                self.push_parameter_parts(&mut out, id, true);
                string_push_str(&mut out, ") -> ");
                push_text_or_unknown(&mut out, &symbol.detail.return_type_text);
            },
            SymbolKind::Constructor => {
                string_push_str(&mut out, "Constructor ");
                push_text_or_unknown(&mut out, &symbol.name);
                string_push_str(&mut out, "(");
                self.push_parameter_parts(&mut out, id, true);
                string_push_str(&mut out, ")");
            },
            SymbolKind::Destructor => {
                string_push_str(&mut out, "Destructor ");
                push_text_or_unknown(&mut out, &symbol.name);
                string_push_str(&mut out, "(");
                self.push_parameter_parts(&mut out, id, true);
                string_push_str(&mut out, ")");
            },
            _ => {
                string_push_str(&mut out, exec_symbol_kind_key(symbol.kind));
                string_push_str(&mut out, " ");
                push_text_or_unknown(&mut out, &symbol.name);
                string_push_str(&mut out, " #");
                push_decimal(&mut out, id.file_id.0);
                string_push_str(&mut out, ":");
                push_decimal(&mut out, id.symbol_id.0);
            },
        }
        assert(out@ =~= self.spec_completion_member_key(id));
        out
    }

    // -----------------------------------------------------------------------
    // Class hierarchy walks

    /// `c` is among `ids` and no element of `ids` is preferred over it.
    pub open spec fn is_most_preferred(&self, c: GlobalSymbolId, ids: Seq<GlobalSymbolId>) -> bool {
        ids.contains(c) && forall|x: GlobalSymbolId| ids.contains(x) ==> !self.prefers(x, c)
    }

    /// The whitespace-trimmed base type text of a symbol, when not empty.
    pub open spec fn spec_class_base_name(&self, id: GlobalSymbolId) -> Option<Seq<char>> {
        match self.spec_symbol(id) {
            Some(s) => match s.detail.base_type {
                Some(b) => if trim(b@).len() > 0 {
                    Some(trim(b@))
                } else {
                    None
                },
                None => None,
            },
            None => None,
        }
    }

    /// The base name of the most preferred class named `owner`.
    pub open spec fn spec_next_owner(&self, owner: Seq<char>) -> Option<Seq<char>> {
        let classes = self.spec_kind_named(SymbolKind::Class, owner);
        if classes.len() == 0 {
            None
        } else {
            self.spec_class_base_name(choose|c: GlobalSymbolId| self.is_most_preferred(c, classes))
        }
    }

    /// `c` has a base name and no element of `ids` with a base name is
    /// preferred over it.
    pub open spec fn is_most_preferred_based(&self, c: GlobalSymbolId, ids: Seq<GlobalSymbolId>) -> bool {
        ids.contains(c) && self.spec_class_base_name(c) is Some && forall|x: GlobalSymbolId|
            ids.contains(x) && self.spec_class_base_name(x) is Some ==> !self.prefers(x, c)
    }

    /// The base name of the most preferred class named `owner` that has one.
    pub open spec fn spec_next_preferred_owner(&self, owner: Seq<char>) -> Option<Seq<char>> {
        let classes = self.spec_kind_named(SymbolKind::Class, owner);
        if exists|c: GlobalSymbolId| classes.contains(c) && self.spec_class_base_name(c) is Some {
            self.spec_class_base_name(choose|c: GlobalSymbolId| self.is_most_preferred_based(c, classes))
        } else {
            None
        }
    }

    /// The owner after `owner` in a base walk: by the most preferred class
    /// (`preferred` false) or by the most preferred class with a base
    /// (`preferred` true).
    pub open spec fn spec_step(&self, preferred: bool, owner: Seq<char>) -> Option<Seq<char>> {
        if preferred {
            self.spec_next_preferred_owner(owner)
        } else {
            self.spec_next_owner(owner)
        }
    }

    /// `chain` starts at `owner`, steps by `spec_step`, never repeats, and
    /// stops where the step yields nothing or an owner already in the chain.
    pub open spec fn is_owner_chain(&self, chain: Seq<Seq<char>>, owner: Seq<char>, preferred: bool) -> bool {
        &&& chain.len() > 0
        &&& chain[0] == owner
        &&& chain.no_duplicates()
        &&& forall|k: int|
            0 <= k < chain.len() - 1 ==> self.spec_step(preferred, #[trigger] chain[k]) == Some(
                chain[k + 1],
            )
        &&& self.spec_step(preferred, chain.last()) matches Some(n) ==> chain.contains(n)
    }

    /// The names of all symbols, as a finite set that holds every class name.
    pub open spec fn name_set(&self) -> Set<Seq<char>> {
        self.spec_symbols().map_values(|s: IndexedSymbol| text_or_unknown(s.name)).to_set()
    }

    pub proof fn lemma_class_name_in_name_set(&self, owner: Seq<char>)
        requires
            self.spec_kind_named(SymbolKind::Class, owner).len() > 0,
        ensures
            self.name_set().contains(owner),
    {
        let classes = self.spec_kind_named(SymbolKind::Class, owner);
        let pred = |s: IndexedSymbol| named(s, owner) && s.kind == SymbolKind::Class;
        assert(classes.contains(classes[0]));
        lemma_select_ids_contains(self.spec_symbols(), pred, classes[0]);
        let j = choose|j: int| 0 <= j < self.spec_symbols().len() && pred(#[trigger] self.spec_symbols()[j]) && self.spec_symbols()[j].id == classes[0];
        let names = self.spec_symbols().map_values(|s: IndexedSymbol| text_or_unknown(s.name));
        assert(names[j] == owner);
    }

    /// The first element of a preference-ordered permutation is the most
    /// preferred element.
    pub proof fn lemma_first_is_most_preferred(&self, r: Seq<GlobalSymbolId>, ids: Seq<GlobalSymbolId>)
        requires
            self.preference_ordered(r),
            r.to_multiset() == ids.to_multiset(),
            r.len() > 0,
        ensures
            self.is_most_preferred(r[0], ids),
    {
        lemma_same_multiset_contains(r, ids);
        assert(r.contains(r[0]));
        assert forall|x: GlobalSymbolId| ids.contains(x) implies !self.prefers(x, r[0]) by {
            assert(r.contains(x));
            let k = choose|k: int| 0 <= k < r.len() && r[k] == x;
            if k > 0 {
                assert(!self.prefers(r[k], r[0]));
            }
        }
    }

    /// Preference is a strict total order on ids.
    pub proof fn lemma_prefers_total(&self, a: GlobalSymbolId, b: GlobalSymbolId)
        ensures
            a == b || self.prefers(a, b) || self.prefers(b, a),
            !(self.prefers(a, b) && self.prefers(b, a)),
    {
    }

    pub proof fn lemma_most_preferred_unique(&self, a: GlobalSymbolId, b: GlobalSymbolId, ids: Seq<GlobalSymbolId>)
        requires
            self.is_most_preferred(a, ids),
            self.is_most_preferred(b, ids),
        ensures
            a == b,
    {
        self.lemma_prefers_total(a, b);
    }

    fn class_base_name(&self, class_id: GlobalSymbolId) -> (r: Option<String>)
        ensures
            match r {
                Some(t) => self.spec_class_base_name(class_id) == Some(t@),
                None => self.spec_class_base_name(class_id) is None,
            },
    {
        let class = match self.symbol(class_id) {
            Some(c) => c,
            None => return None,
        };
        let base = match &class.detail.base_type {
            Some(b) => trim_str(b.as_str()),
            None => return None,
        };
        if base.as_str().is_empty() {
            None
        } else {
            Some(base)
        }
    }

    fn preferred_class_base_name(&self, owner: &str) -> (r: Option<String>)
        ensures
            match r {
                Some(t) => self.spec_next_owner(owner@) == Some(t@),
                None => self.spec_next_owner(owner@) is None,
            },
    {
        let classes = self.classes_by_name(owner);
        let sorted = self.preferred_from_symbols(classes.as_slice());
        if sorted.len() == 0 {
            proof {
                classes@.to_multiset_ensures();
                sorted@.to_multiset_ensures();
            }
            return None;
        }
        proof {
            self.lemma_first_is_most_preferred(sorted@, classes@);
            let c = choose|c: GlobalSymbolId| self.is_most_preferred(c, classes@);
            self.lemma_most_preferred_unique(c, sorted@[0], classes@);
            classes@.to_multiset_ensures();
            sorted@.to_multiset_ensures();
        }
        self.class_base_name(sorted[0])
    }

    fn first_class_base_name(&self, owner: &str, sorted: &Vec<GlobalSymbolId>) -> (r: Option<String>)
        requires
            self.preference_ordered(sorted@),
            sorted@.to_multiset() == self.spec_kind_named(SymbolKind::Class, owner@).to_multiset(),
        ensures
            match r {
                Some(t) => self.spec_next_preferred_owner(owner@) == Some(t@),
                None => self.spec_next_preferred_owner(owner@) is None,
            },
    {
        let ghost classes = self.spec_kind_named(SymbolKind::Class, owner@);
        proof {
            lemma_same_multiset_contains(classes, sorted@);
        }
        let mut i: usize = 0;
        while i < sorted.len()
            invariant
                i <= sorted@.len(),
                classes == self.spec_kind_named(SymbolKind::Class, owner@),
                self.preference_ordered(sorted@),
                forall|x: GlobalSymbolId| classes.contains(x) <==> sorted@.contains(x),
                forall|k: int| 0 <= k < i ==> self.spec_class_base_name(#[trigger] sorted@[k]) is None,
            decreases sorted@.len() - i,
        {
            let found = self.class_base_name(sorted[i]);
            if found.is_some() {
                proof {
                    let c = sorted@[i as int];
                    assert(classes.contains(c));
                    assert forall|x: GlobalSymbolId|
                        classes.contains(x) && self.spec_class_base_name(x) is Some implies !self.prefers(x, c) by {
                        let k = choose|k: int| 0 <= k < sorted@.len() && sorted@[k] == x;
                        if k < i {
                        } else if k > i {
                            assert(!self.prefers(sorted@[k], sorted@[i as int]));
                        }
                    }
                    assert(self.spec_class_base_name(c) is Some);
                    assert(exists|c2: GlobalSymbolId| classes.contains(c2) && self.spec_class_base_name(c2) is Some);
                    assert(self.is_most_preferred_based(c, classes));
                    let chosen = choose|c2: GlobalSymbolId| self.is_most_preferred_based(c2, classes);
                    assert(classes.contains(chosen) && self.spec_class_base_name(chosen) is Some);
                    self.lemma_prefers_total(chosen, c);
                    assert(!self.prefers(c, chosen));
                    assert(!self.prefers(chosen, c));
                    assert(chosen == c);
                }
                return found;
            }
            i = i + 1;
        }
        proof {
            assert forall|c: GlobalSymbolId| classes.contains(c) implies self.spec_class_base_name(c) is None by {
                let k = choose|k: int| 0 <= k < sorted@.len() && sorted@[k] == c;
                assert(self.spec_class_base_name(sorted@[k]) is None);
            }
        }
        None
    }

    /// The class-member children of a class declaration.
    pub open spec fn spec_direct_members(&self, class_id: GlobalSymbolId) -> Seq<GlobalSymbolId> {
        filter_ids(
            self.spec_children(class_id),
            |id: GlobalSymbolId|
                self.spec_symbol(id) matches Some(s) && is_class_member_kind(s.kind),
        )
    }

    fn direct_members_for_class_declaration(&self, class_id: GlobalSymbolId) -> (r: Vec<GlobalSymbolId>)
        ensures
            r@ == self.spec_direct_members(class_id),
    {
        let children = self.children(class_id);
        let ghost pred = |id: GlobalSymbolId|
            self.spec_symbol(id) matches Some(s) && is_class_member_kind(s.kind);
        let mut out: Vec<GlobalSymbolId> = Vec::new();
        let mut i: usize = 0;
        while i < children.len()
            invariant
                i <= children@.len(),
                pred == (|id: GlobalSymbolId|
                    self.spec_symbol(id) matches Some(s) && is_class_member_kind(s.kind)),
                out@ == filter_ids(children@.take(i as int), pred),
            decreases children@.len() - i,
        {
            assert(children@.take(i + 1).drop_last() =~= children@.take(i as int));
            let keep = match self.symbol(children[i]) {
                Some(s) => exec_is_class_member_kind(s.kind),
                None => false,
            };
            if keep {
                out.push(children[i]);
            }
            i = i + 1;
        }
        assert(children@.take(children@.len() as int) =~= children@);
        out
    }

    /// Member segments of `owner` and of each base reached through
    /// `spec_next_owner`: one `members_by_owner` segment per owner.
    pub open spec fn is_member_walk(&self, owner: Seq<char>, segments: Seq<Seq<GlobalSymbolId>>) -> bool {
        exists|chain: Seq<Seq<char>>|
            #![trigger self.is_owner_chain(chain, owner, false)]
            self.is_owner_chain(chain, owner, false)
                && segments.len() == chain.len() && forall|k: int|
                0 <= k < chain.len() ==> #[trigger] segments[k] == self.spec_members_by_owner(chain[k])
    }

    fn member_segments_for_class_including_bases(&self, owner: &str) -> (r: Vec<Vec<GlobalSymbolId>>)
        ensures
            self.is_member_walk(owner@, id_lists(r@)),
    {
        let mut segments: Vec<Vec<GlobalSymbolId>> = Vec::new();
        let mut visited: Vec<String> = Vec::new();
        let mut current: String = crate::text::to_owned_string(owner);
        loop
            invariant_except_break
                id_lists(segments@).len() == string_views(visited@).len(),
                forall|k: int|
                    0 <= k < string_views(visited@).len() ==> #[trigger] id_lists(segments@)[k]
                        == self.spec_members_by_owner(string_views(visited@)[k]),
                string_views(visited@).no_duplicates(),
                string_views(visited@).len() == 0 ==> current@ == owner@,
                string_views(visited@).len() > 0 ==> string_views(visited@)[0] == owner@
                    && self.spec_step(false, string_views(visited@).last()) == Some(current@),
                forall|k: int|
                    0 <= k < string_views(visited@).len() - 1 ==> self.spec_step(
                        false,
                        #[trigger] string_views(visited@)[k],
                    ) == Some(string_views(visited@)[k + 1]),
                forall|k: int|
                    0 <= k < string_views(visited@).len() ==> self.name_set().contains(
                        #[trigger] string_views(visited@)[k],
                    ),
            ensures
                self.is_member_walk(owner@, id_lists(segments@)),
            decreases self.name_set().difference(string_views(visited@).to_set()).len(),
        {
            let ghost vis = string_views(visited@);
            if contains_string(&visited, &current) {
                assert(self.is_owner_chain(vis, owner@, false));
                assert(self.is_member_walk(owner@, id_lists(segments@)));
                break;
            }
            let members = self.members_by_owner(current.as_str());
            let base = self.preferred_class_base_name(current.as_str());
            let ghost segs = id_lists(segments@);
            let ghost member_view = members@;
            segments.push(members);
            visited.push(current.clone());
            let ghost vis2 = string_views(visited@);
            assert(vis2 =~= vis.push(current@));
            assert(id_lists(segments@) =~= segs.push(member_view));
            match base {
                None => {
                    assert(self.is_owner_chain(vis2, owner@, false)) by {
                        assert forall|a: int, b: int| 0 <= a < b < vis2.len() implies vis2[a] != vis2[b] by {
                            if b == vis2.len() - 1 {
                                assert(vis.contains(vis[a]));
                            }
                        }
                    }
                    assert(self.is_member_walk(owner@, id_lists(segments@)));
                    break;
                },
                Some(b) => {
                    proof {
                        self.lemma_class_name_in_name_set(current@);
                        vis.lemma_push_to_set_commute(current@);
                        self.name_set().lemma_set_insert_diff_decreases(vis.to_set(), current@);
                        assert forall|a: int, c: int| 0 <= a < c < vis2.len() implies vis2[a] != vis2[c] by {
                            if c == vis2.len() - 1 {
                                assert(vis.contains(vis[a]));
                            }
                        }
                    }
                    current = b;
                },
            }
        }
        segments
    }

    /// The direct-member segments of each class in a list.
    pub open spec fn class_segments(&self, classes: Seq<GlobalSymbolId>) -> Seq<Seq<GlobalSymbolId>> {
        classes.map_values(|c: GlobalSymbolId| self.spec_direct_members(c))
    }

    /// Member segments along the preferred base walk of `owner`: for each
    /// owner, the direct members of each class of that name in preference
    /// order.
    pub open spec fn is_preferred_member_walk(&self, owner: Seq<char>, segments: Seq<Seq<GlobalSymbolId>>) -> bool {
        exists|chain: Seq<Seq<char>>, css: Seq<Seq<GlobalSymbolId>>|
            #![trigger self.is_owner_chain(chain, owner, true), css.len()]
            self.is_owner_chain(chain, owner, true) && css.len() == chain.len() && (forall|k: int|
                0 <= k < css.len() ==> self.preference_ordered(#[trigger] css[k]) && css[k].to_multiset()
                    == self.spec_kind_named(SymbolKind::Class, chain[k]).to_multiset()) && segments
                == css.map_values(|cs: Seq<GlobalSymbolId>| self.class_segments(cs)).flatten()
    }

    fn preferred_class_member_segments_including_bases(&self, owner: &str) -> (r: Vec<Vec<GlobalSymbolId>>)
        ensures
            self.is_preferred_member_walk(owner@, id_lists(r@)),
    {
        let mut segments: Vec<Vec<GlobalSymbolId>> = Vec::new();
        let mut visited: Vec<String> = Vec::new();
        let mut current: String = crate::text::to_owned_string(owner);
        let ghost mut css: Seq<Seq<GlobalSymbolId>> = Seq::empty();
        assert(css.map_values(|cs: Seq<GlobalSymbolId>| self.class_segments(cs)) =~= Seq::empty());
        assert(id_lists(segments@) =~= Seq::<Seq<Seq<GlobalSymbolId>>>::empty().flatten());
        loop
            invariant_except_break
                css.len() == string_views(visited@).len(),
                forall|k: int|
                    0 <= k < css.len() ==> self.preference_ordered(#[trigger] css[k]) && css[k].to_multiset()
                        == self.spec_kind_named(SymbolKind::Class, string_views(visited@)[k]).to_multiset(),
                id_lists(segments@) == css.map_values(|cs: Seq<GlobalSymbolId>| self.class_segments(cs)).flatten(),
                string_views(visited@).no_duplicates(),
                string_views(visited@).len() == 0 ==> current@ == owner@,
                string_views(visited@).len() > 0 ==> string_views(visited@)[0] == owner@
                    && self.spec_step(true, string_views(visited@).last()) == Some(current@),
                forall|k: int|
                    0 <= k < string_views(visited@).len() - 1 ==> self.spec_step(
                        true,
                        #[trigger] string_views(visited@)[k],
                    ) == Some(string_views(visited@)[k + 1]),
                forall|k: int|
                    0 <= k < string_views(visited@).len() ==> self.name_set().contains(
                        #[trigger] string_views(visited@)[k],
                    ),
            ensures
                self.is_preferred_member_walk(owner@, id_lists(segments@)),
            decreases self.name_set().difference(string_views(visited@).to_set()).len(),
        {
            let ghost vis = string_views(visited@);
            if contains_string(&visited, &current) {
                assert(self.is_owner_chain(vis, owner@, true));
                assert(self.is_preferred_member_walk(owner@, id_lists(segments@)));
                break;
            }
            let classes = self.classes_by_name(current.as_str());
            let sorted = self.preferred_from_symbols(classes.as_slice());
            let ghost start = id_lists(segments@);
            let mut j: usize = 0;
            while j < sorted.len()
                invariant
                    j <= sorted@.len(),
                    id_lists(segments@) == start + self.class_segments(sorted@.take(j as int)),
                decreases sorted@.len() - j,
            {
                let members = self.direct_members_for_class_declaration(sorted[j]);
                let ghost before = id_lists(segments@);
                segments.push(members);
                assert(id_lists(segments@) =~= before.push(self.spec_direct_members(sorted@[j as int])));
                assert(self.class_segments(sorted@.take(j + 1)) =~= self.class_segments(sorted@.take(j as int)).push(
                    self.spec_direct_members(sorted@[j as int])));
                j = j + 1;
            }
            assert(sorted@.take(sorted@.len() as int) =~= sorted@);
            let base = self.first_class_base_name(current.as_str(), &sorted);
            proof {
                let mapped = css.map_values(|cs: Seq<GlobalSymbolId>| self.class_segments(cs));
                assert(css.push(sorted@).map_values(|cs: Seq<GlobalSymbolId>| self.class_segments(cs)) =~= mapped.push(
                    self.class_segments(sorted@)));
                mapped.lemma_flatten_push(self.class_segments(sorted@));
                css = css.push(sorted@);
            }
            visited.push(current.clone());
            let ghost vis2 = string_views(visited@);
            assert(vis2 =~= vis.push(current@));
            match base {
                None => {
                    assert(self.is_owner_chain(vis2, owner@, true)) by {
                        assert forall|a: int, b: int| 0 <= a < b < vis2.len() implies vis2[a] != vis2[b] by {
                            if b == vis2.len() - 1 {
                                assert(vis.contains(vis[a]));
                            }
                        }
                    }
                    assert(self.is_preferred_member_walk(owner@, id_lists(segments@)));
                    break;
                },
                Some(b) => {
                    proof {
                        assert(self.spec_kind_named(SymbolKind::Class, current@).len() > 0) by {
                            if self.spec_kind_named(SymbolKind::Class, current@).len() == 0 {
                                assert(!exists|c: GlobalSymbolId| self.spec_kind_named(SymbolKind::Class, current@).contains(c));
                            }
                        }
                        self.lemma_class_name_in_name_set(current@);
                        vis.lemma_push_to_set_commute(current@);
                        self.name_set().lemma_set_insert_diff_decreases(vis.to_set(), current@);
                        assert forall|a: int, c: int| 0 <= a < c < vis2.len() implies vis2[a] != vis2[c] by {
                            if c == vis2.len() - 1 {
                                assert(vis.contains(vis[a]));
                            }
                        }
                    }
                    current = b;
                },
            }
        }
        segments
    }

    /// Members of `owner` and of its base walk, in walk order.
    pub fn raw_members_for_class_including_bases(&self, owner: &str) -> (r: Vec<GlobalSymbolId>)
        ensures
            exists|segments: Seq<Seq<GlobalSymbolId>>|
                self.is_member_walk(owner@, segments) && r@ == segments.flatten(),
    {
        let segments = self.member_segments_for_class_including_bases(owner);
        let flat = flatten_segments(&segments);
        flat
    }
}

/// All ids of all segments, in order.
fn flatten_segments(segments: &Vec<Vec<GlobalSymbolId>>) -> (r: Vec<GlobalSymbolId>)
    ensures
        r@ == id_lists(segments@).flatten(),
{
    let mut out: Vec<GlobalSymbolId> = Vec::new();
    let mut i: usize = 0;
    assert(id_lists(segments@).take(0) =~= Seq::<Seq<GlobalSymbolId>>::empty());
    while i < segments.len()
        invariant
            i <= segments@.len(),
            out@ == id_lists(segments@).take(i as int).flatten(),
        decreases segments@.len() - i,
    {
        let seg = &segments[i];
        let mut j: usize = 0;
        let ghost start = out@;
        while j < seg.len()
            invariant
                j <= seg@.len(),
                out@ == start + seg@.take(j as int),
            decreases seg@.len() - j,
        {
            out.push(seg[j]);
            assert(seg@.take(j + 1) =~= seg@.take(j as int).push(seg@[j as int]));
            j = j + 1;
        }
        assert(seg@.take(seg@.len() as int) =~= seg@);
        proof {
            let ls = id_lists(segments@);
            assert(ls.take(i + 1) =~= ls.take(i as int).push(ls[i as int]));
            ls.take(i as int).lemma_flatten_push(ls[i as int]);
        }
        i = i + 1;
    }
    assert(id_lists(segments@).take(segments@.len() as int) =~= id_lists(segments@));
    out
}

impl SymbolIndex {
    // -----------------------------------------------------------------------
    // Completion

    /// Completion keys of ids, in order.
    pub open spec fn keys_of(&self, ids: Seq<GlobalSymbolId>) -> Seq<Seq<char>> {
        ids.map_values(|id: GlobalSymbolId| self.spec_completion_member_key(id))
    }

    /// The distinct completion keys of `ids` in order of first appearance.
    pub open spec fn first_keys(&self, ids: Seq<GlobalSymbolId>) -> Seq<Seq<char>>
        decreases ids.len(),
    {
        if ids.len() == 0 {
            Seq::empty()
        } else {
            let before = self.first_keys(ids.drop_last());
            let key = self.spec_completion_member_key(ids.last());
            if before.contains(key) {
                before
            } else {
                before.push(key)
            }
        }
    }

    /// The ids among `ids` whose completion key is `key`.
    pub open spec fn key_group(&self, ids: Seq<GlobalSymbolId>, key: Seq<char>) -> Seq<GlobalSymbolId> {
        filter_ids(ids, self.has_key(key))
    }

    /// Holds of the ids whose completion key is `key`.
    pub open spec fn has_key(&self, key: Seq<char>) -> spec_fn(GlobalSymbolId) -> bool {
        |id: GlobalSymbolId| self.spec_completion_member_key(id) == key
    }

    /// `s0` is the first segment holding an id with completion key `key`.
    pub open spec fn is_first_segment_with(&self, segments: Seq<Seq<GlobalSymbolId>>, key: Seq<char>, s0: int) -> bool {
        0 <= s0 < segments.len() && self.key_group(segments[s0], key).len() > 0 && forall|s1: int|
            0 <= s1 < s0 ==> self.key_group(#[trigger] segments[s1], key).len() == 0
    }

    /// One member per distinct completion key, in order of the key's first
    /// appearance; the member for a key is the most preferred id with that
    /// key in the first segment that has one.
    pub open spec fn completion_members_spec(&self, segments: Seq<Seq<GlobalSymbolId>>, members: Seq<GlobalSymbolId>) -> bool {
        let keys = self.first_keys(segments.flatten());
        &&& members.len() == keys.len()
        &&& forall|t: int|
            0 <= t < members.len() ==> self.spec_completion_member_key(#[trigger] members[t]) == keys[t]
                && exists|s0: int|
                self.is_first_segment_with(segments, keys[t], s0) && self.is_most_preferred(
                    members[t],
                    self.key_group(segments[s0], keys[t]),
                )
    }

    pub proof fn lemma_key_group_contains(&self, ids: Seq<GlobalSymbolId>, key: Seq<char>)
        ensures
            forall|x: GlobalSymbolId|
                self.key_group(ids, key).contains(x) <==> (ids.contains(x) && self.spec_completion_member_key(x)
                    == key),
    {
        lemma_filter_ids_contains(ids, self.has_key(key));
        assert forall|x: GlobalSymbolId|
            self.key_group(ids, key).contains(x) <==> (ids.contains(x) && self.spec_completion_member_key(x)
                == key) by {
            let g = filter_ids(ids, self.has_key(key));
            assert(self.key_group(ids, key) == g);
            assert(g.contains(x) <==> (ids.contains(x) && self.has_key(key)(x)));
            assert(self.has_key(key)(x) == (self.spec_completion_member_key(x) == key));
        }
    }

    /// `m` has completion key `key`, `s0` is the first segment holding that
    /// key, and `m` is the most preferred id with that key there.
    pub open spec fn member_entry_ok(&self, segments: Seq<Seq<GlobalSymbolId>>, m: GlobalSymbolId, key: Seq<char>, s0: int) -> bool {
        self.spec_completion_member_key(m) == key && self.is_first_segment_with(segments, key, s0)
            && self.is_most_preferred(m, self.key_group(segments[s0], key))
    }

    /// What segment `seg`, after the segments `earlier`, adds to the ids
    /// shadowed by the member `kept` of completion key `key`: its ids with
    /// that key, leaving out `kept` itself when no earlier segment has the
    /// key (the member was chosen from this segment).
    pub open spec fn shadow_contribution(
        &self,
        earlier: Seq<Seq<GlobalSymbolId>>,
        seg: Seq<GlobalSymbolId>,
        key: Seq<char>,
        kept: GlobalSymbolId,
    ) -> Seq<GlobalSymbolId> {
        ids_keyed(
            seg,
            self.keys_of(seg),
            key,
            if self.first_keys(earlier.flatten()).contains(key) {
                None
            } else {
                Some(kept)
            },
        )
    }

    /// The ids that the member `kept` of completion key `key` shadows in
    /// `segments`: the other ids with that key in the first segment that
    /// has one, then every id with that key in the later segments, in
    /// order.
    pub open spec fn shadowed_ids(&self, segments: Seq<Seq<GlobalSymbolId>>, key: Seq<char>, kept: GlobalSymbolId) -> Seq<
        GlobalSymbolId,
    >
        decreases segments.len(),
    {
        if segments.len() == 0 {
            Seq::empty()
        } else {
            self.shadowed_ids(segments.drop_last(), key, kept) + self.shadow_contribution(
                segments.drop_last(),
                segments.last(),
                key,
                kept,
            )
        }
    }

    /// The shadowed ids of a key while segment `seg` is read up to `j`.
    pub open spec fn shadow_state(
        &self,
        earlier: Seq<Seq<GlobalSymbolId>>,
        seg: Seq<GlobalSymbolId>,
        j: int,
        key: Seq<char>,
        kept: GlobalSymbolId,
    ) -> Seq<GlobalSymbolId> {
        self.shadowed_ids(earlier, key, kept) + if self.keys_of(seg.take(j)).contains(key) {
            self.shadow_contribution(earlier, seg, key, kept)
        } else {
            Seq::empty()
        }
    }

    proof fn lemma_ids_keyed_absent(seg: Seq<GlobalSymbolId>, keys: Seq<Seq<char>>, key: Seq<char>, except: Option<GlobalSymbolId>)
        requires
            keys.len() == seg.len(),
            !keys.contains(key),
        ensures
            ids_keyed(seg, keys, key, except) == Seq::<GlobalSymbolId>::empty(),
        decreases seg.len(),
    {
        if seg.len() > 0 {
            assert(keys.last() == keys[keys.len() - 1]);
            assert(!keys.drop_last().contains(key)) by {
                if keys.drop_last().contains(key) {
                    let i = choose|i: int| 0 <= i < keys.drop_last().len() && keys.drop_last()[i] == key;
                    assert(keys[i] == key);
                }
            }
            Self::lemma_ids_keyed_absent(seg.drop_last(), keys.drop_last(), key, except);
        }
    }

    /// A key that no segment has shadows nothing.
    proof fn lemma_shadowed_ids_absent(&self, segments: Seq<Seq<GlobalSymbolId>>, key: Seq<char>, kept: GlobalSymbolId)
        requires
            !self.first_keys(segments.flatten()).contains(key),
        ensures
            self.shadowed_ids(segments, key, kept) == Seq::<GlobalSymbolId>::empty(),
        decreases segments.len(),
    {
        if segments.len() > 0 {
            let earlier = segments.drop_last();
            let seg = segments.last();
            assert(segments =~= earlier.push(seg));
            earlier.lemma_flatten_push(seg);
            self.lemma_first_keys_contains(segments.flatten(), key);
            self.lemma_first_keys_contains(earlier.flatten(), key);
            assert(!self.first_keys(earlier.flatten()).contains(key)) by {
                if self.first_keys(earlier.flatten()).contains(key) {
                    let x = choose|x: GlobalSymbolId| earlier.flatten().contains(x) && self.spec_completion_member_key(x) == key;
                    let i = choose|i: int| 0 <= i < earlier.flatten().len() && earlier.flatten()[i] == x;
                    assert(segments.flatten()[i] == x);
                }
            }
            assert(!self.keys_of(seg).contains(key)) by {
                if self.keys_of(seg).contains(key) {
                    let i = choose|i: int| 0 <= i < self.keys_of(seg).len() && self.keys_of(seg)[i] == key;
                    assert(segments.flatten()[earlier.flatten().len() + i] == seg[i]);
                }
            }
            Self::lemma_ids_keyed_absent(seg, self.keys_of(seg), key, if self.first_keys(earlier.flatten()).contains(key) {
                None
            } else {
                Some(kept)
            });
            self.lemma_shadowed_ids_absent(earlier, key, kept);
        }
    }

    /// A key that some earlier id has, and that the ids after them lack,
    /// is among the keys of the earlier ids.
    proof fn lemma_first_keys_prefix(&self, a: Seq<GlobalSymbolId>, b: Seq<GlobalSymbolId>, key: Seq<char>)
        requires
            self.first_keys(a + b).contains(key),
            !self.keys_of(b).contains(key),
        ensures
            self.first_keys(a).contains(key),
    {
        self.lemma_first_keys_contains(a + b, key);
        self.lemma_first_keys_contains(a, key);
        let x = choose|x: GlobalSymbolId| (a + b).contains(x) && self.spec_completion_member_key(x) == key;
        let i = choose|i: int| 0 <= i < (a + b).len() && (a + b)[i] == x;
        if i >= a.len() {
            assert(self.keys_of(b)[i - a.len()] == key);
        } else {
            assert(a[i] == x);
        }
    }

    proof fn lemma_first_keys_distinct(&self, ids: Seq<GlobalSymbolId>)
        ensures
            self.first_keys(ids).no_duplicates(),
        decreases ids.len(),
    {
        if ids.len() > 0 {
            self.lemma_first_keys_distinct(ids.drop_last());
        }
    }

    /// One step of reading a segment keeps every shadow group equal to the
    /// shadowed ids of its key so far, and every member without a group
    /// shadowing nothing so far.
    proof fn lemma_shadow_step(
        &self,
        earlier: Seq<Seq<GlobalSymbolId>>,
        seg: Seq<GlobalSymbolId>,
        j: int,
        k: Seq<char>,
        kept: GlobalSymbolId,
        pushed: bool,
        sh: Seq<GlobalSymbolId>,
        gs: Seq<MemberShadowGroup>,
        gs2: Seq<MemberShadowGroup>,
        kks: Seq<Seq<char>>,
        ms: Seq<GlobalSymbolId>,
        kks2: Seq<Seq<char>>,
        ms2: Seq<GlobalSymbolId>,
    )
        requires
            0 <= j < seg.len(),
            k == self.spec_completion_member_key(seg[j]),
            kks.len() == ms.len(),
            forall|g: int|
                0 <= g < gs.len() ==> (#[trigger] gs[g]).shadowed@ == self.shadow_state(
                    earlier,
                    seg,
                    j,
                    gs[g].key@,
                    gs[g].kept,
                ),
            forall|t: int|
                0 <= t < ms.len() ==> (exists|g: int| 0 <= g < gs.len() && #[trigger] gs[g].key@ == kks[t])
                    || self.shadow_state(earlier, seg, j, kks[t], #[trigger] ms[t]).len() == 0,
            forall|g: int| 0 <= g < gs.len() && (#[trigger] gs[g]).key@ == k ==> gs[g].kept == kept,
            !pushed ==> self.keys_of(seg.take(j)).contains(k) && gs2 == gs && kks2 == kks && ms2 == ms,
            pushed ==> !self.keys_of(seg.take(j)).contains(k),
            pushed ==> sh == self.shadow_contribution(earlier, seg, k, kept),
            pushed ==> (forall|g: int| 0 <= g < gs.len() ==> #[trigger] gs[g].key@ != k) ==> self.shadowed_ids(
                earlier,
                k,
                kept,
            ).len() == 0,
            pushed ==> gs2.len() == gs.len() || gs2.len() == gs.len() + 1,
            pushed ==> forall|g: int|
                #![trigger gs2[g]]
                0 <= g < gs.len() ==> gs2[g].key@ == gs[g].key@ && gs2[g].kept == gs[g].kept,
            forall|t: int| 0 <= t < ms.len() && #[trigger] kks[t] == k ==> ms[t] == kept,
            pushed ==> gs2.len() == gs.len() + 1 ==> gs2.last().key@ == k && gs2.last().kept == kept,
            pushed ==> forall|g: int|
                0 <= g < gs.len() ==> (#[trigger] gs2[g]).shadowed@ == if gs[g].key@ == k {
                    gs[g].shadowed@ + sh
                } else {
                    gs[g].shadowed@
                },
            pushed ==> (gs2.len() == gs.len() + 1 <==> sh.len() > 0 && forall|g: int|
                0 <= g < gs.len() ==> #[trigger] gs[g].key@ != k),
            pushed ==> gs2.len() == gs.len() + 1 ==> gs2.last().shadowed@ == sh,
            pushed ==> (kks2 == kks && ms2 == ms) || (kks2 == kks.push(k) && ms2 == ms.push(kept) && forall|g: int|
                0 <= g < gs.len() ==> #[trigger] gs[g].key@ != k),
        ensures
            forall|g: int|
                0 <= g < gs2.len() ==> (#[trigger] gs2[g]).shadowed@ == self.shadow_state(
                    earlier,
                    seg,
                    j + 1,
                    gs2[g].key@,
                    gs2[g].kept,
                ),
            forall|t: int|
                0 <= t < ms2.len() ==> (exists|g: int| 0 <= g < gs2.len() && #[trigger] gs2[g].key@ == kks2[t])
                    || self.shadow_state(earlier, seg, j + 1, kks2[t], #[trigger] ms2[t]).len() == 0,
    {
        assert(seg.take(j + 1) =~= seg.take(j).push(seg[j]));
        assert(self.keys_of(seg.take(j + 1)) =~= self.keys_of(seg.take(j)).push(k));
        assert forall|key: Seq<char>| #[trigger] self.keys_of(seg.take(j + 1)).contains(key) <==> (self.keys_of(
            seg.take(j),
        ).contains(key) || key == k) by {
            let a = self.keys_of(seg.take(j));
            if a.push(k).contains(key) && key != k {
                let i = choose|i: int| 0 <= i < a.push(k).len() && a.push(k)[i] == key;
                assert(a[i] == key);
            }
            if a.contains(key) {
                let i = choose|i: int| 0 <= i < a.len() && a[i] == key;
                assert(a.push(k)[i] == key);
            }
            if key == k {
                assert(a.push(k)[a.len() as int] == key);
            }
        }
        if !pushed {
            assert forall|key: Seq<char>, m: GlobalSymbolId| #[trigger] self.shadow_state(earlier, seg, j + 1, key, m)
                == self.shadow_state(earlier, seg, j, key, m) by {}
        } else {
            assert forall|key: Seq<char>, m: GlobalSymbolId| key != k implies #[trigger] self.shadow_state(
                earlier,
                seg,
                j + 1,
                key,
                m,
            ) == self.shadow_state(earlier, seg, j, key, m) by {}
            assert forall|g: int| 0 <= g < gs2.len() implies (#[trigger] gs2[g]).shadowed@ == self.shadow_state(
                earlier,
                seg,
                j + 1,
                gs2[g].key@,
                gs2[g].kept,
            ) by {
                if g < gs.len() {
                    assert(gs2[g].key@ == gs[g].key@ && gs2[g].kept == gs[g].kept);
                    assert(gs[g].shadowed@ == self.shadow_state(earlier, seg, j, gs[g].key@, gs[g].kept));
                    if gs[g].key@ == k {
                        assert(gs[g].kept == kept);
                        assert(gs[g].shadowed@ =~= self.shadowed_ids(earlier, k, kept));
                    }
                } else {
                    assert(gs2[g] == gs2.last());
                    assert(forall|h: int| 0 <= h < gs.len() ==> #[trigger] gs[h].key@ != k);
                    assert(self.shadowed_ids(earlier, k, kept).len() == 0);
                    assert(self.shadowed_ids(earlier, k, kept) + sh =~= sh);
                }
            }
            assert forall|t: int| 0 <= t < ms2.len() implies (exists|g: int|
                0 <= g < gs2.len() && #[trigger] gs2[g].key@ == kks2[t]) || self.shadow_state(
                earlier,
                seg,
                j + 1,
                kks2[t],
                #[trigger] ms2[t],
            ).len() == 0 by {
                if t < ms.len() {
                    assert(kks2[t] == kks[t] && ms2[t] == ms[t]);
                    if exists|g: int| 0 <= g < gs.len() && #[trigger] gs[g].key@ == kks[t] {
                        let g = choose|g: int| 0 <= g < gs.len() && #[trigger] gs[g].key@ == kks[t];
                        assert(gs2[g].key@ == gs[g].key@);
                        assert(gs2[g].key@ == kks2[t]);
                    } else if kks[t] == k {
                        assert(ms[t] == kept);
                        if gs2.len() == gs.len() + 1 {
                            assert(gs2[gs.len() as int].key@ == kks2[t]);
                        } else {
                            assert(sh.len() == 0);
                            assert(self.shadow_state(earlier, seg, j, k, ms[t]) =~= self.shadowed_ids(earlier, k, ms[t]));
                            assert(self.shadow_state(earlier, seg, j + 1, k, ms[t]) =~= self.shadowed_ids(earlier, k, ms[t]));
                        }
                    }
                } else {
                    assert(kks2[t] == k && ms2[t] == kept);
                    if gs2.len() == gs.len() + 1 {
                        assert(gs2[gs.len() as int].key@ == kks2[t]);
                    } else {
                        assert(sh.len() == 0);
                        assert(self.shadow_state(earlier, seg, j + 1, k, kept) =~= self.shadowed_ids(earlier, k, kept));
                    }
                }
            }
        }
    }

    proof fn lemma_shadow_segment_end(&self, earlier: Seq<Seq<GlobalSymbolId>>, seg: Seq<GlobalSymbolId>, key: Seq<char>, kept: GlobalSymbolId)
        ensures
            self.shadow_state(earlier, seg, seg.len() as int, key, kept) == self.shadowed_ids(earlier.push(seg), key, kept),
            self.shadow_state(earlier, seg, 0, key, kept) == self.shadowed_ids(earlier, key, kept),
    {
        assert(earlier.push(seg).drop_last() =~= earlier);
        assert(seg.take(seg.len() as int) =~= seg);
        assert(seg.take(0) =~= Seq::<GlobalSymbolId>::empty());
        assert(self.keys_of(seg.take(0)) =~= Seq::<Seq<char>>::empty());
        assert(self.shadowed_ids(earlier, key, kept) + Seq::<GlobalSymbolId>::empty() =~= self.shadowed_ids(earlier, key, kept));
        if !self.keys_of(seg).contains(key) {
            Self::lemma_ids_keyed_absent(seg, self.keys_of(seg), key, if self.first_keys(earlier.flatten()).contains(key) {
                None
            } else {
                Some(kept)
            });
        }
    }

    pub proof fn lemma_first_keys_contains(&self, ids: Seq<GlobalSymbolId>, key: Seq<char>)
        ensures
            self.first_keys(ids).contains(key) <==> exists|x: GlobalSymbolId|
                ids.contains(x) && self.spec_completion_member_key(x) == key,
        decreases ids.len(),
    {
        if ids.len() > 0 {
            let rest = ids.drop_last();
            let last = ids.last();
            self.lemma_first_keys_contains(rest, key);
            let before = self.first_keys(rest);
            let kl = self.spec_completion_member_key(last);
            assert(self.first_keys(ids).contains(key) <==> (before.contains(key) || kl == key)) by {
                if !before.contains(kl) {
                    let p = before.push(kl);
                    assert(p[p.len() - 1] == kl);
                    if before.contains(key) {
                        let k = choose|k: int| 0 <= k < before.len() && before[k] == key;
                        assert(p[k] == key);
                    }
                    if p.contains(key) {
                        let k = choose|k: int| 0 <= k < p.len() && p[k] == key;
                        if k < before.len() {
                            assert(before[k] == key);
                        }
                    }
                }
            }
            assert((exists|x: GlobalSymbolId| ids.contains(x) && self.spec_completion_member_key(x) == key) <==> (
            (exists|x: GlobalSymbolId| rest.contains(x) && self.spec_completion_member_key(x) == key) || kl
                == key)) by {
                assert(ids.contains(last));
                if exists|x: GlobalSymbolId| ids.contains(x) && self.spec_completion_member_key(x) == key {
                    let x = choose|x: GlobalSymbolId| ids.contains(x) && self.spec_completion_member_key(x) == key;
                    let k = choose|k: int| 0 <= k < ids.len() && ids[k] == x;
                    if k < ids.len() - 1 {
                        assert(rest[k] == x);
                        assert(rest.contains(x));
                    }
                }
                if exists|x: GlobalSymbolId| rest.contains(x) && self.spec_completion_member_key(x) == key {
                    let x = choose|x: GlobalSymbolId| rest.contains(x) && self.spec_completion_member_key(x) == key;
                    let k = choose|k: int| 0 <= k < rest.len() && rest[k] == x;
                    assert(ids[k] == x);
                    assert(ids.contains(x));
                }
            }
        }
    }

    /// The most preferred id among those of `seg` whose key (from `keys`) is
    /// `key`.
    fn most_preferred_with_key(&self, seg: &Vec<GlobalSymbolId>, keys: &Vec<String>, key: &String) -> (r: GlobalSymbolId)
        requires
            string_views(keys@) == self.keys_of(seg@),
            self.key_group(seg@, key@).len() > 0,
        ensures
            self.is_most_preferred(r, self.key_group(seg@, key@)),
    {
        let ghost pred = self.has_key(key@);
        assert(string_views(keys@).len() == keys@.len());
        let mut best: Option<GlobalSymbolId> = None;
        let mut i: usize = 0;
        while i < seg.len()
            invariant
                i <= seg@.len(),
                keys@.len() == seg@.len(),
                string_views(keys@) == self.keys_of(seg@),
                pred == self.has_key(key@),
                match best {
                    Some(b) => self.is_most_preferred(b, filter_ids(seg@.take(i as int), pred)),
                    None => filter_ids(seg@.take(i as int), pred).len() == 0,
                },
            decreases seg@.len() - i,
        {
            proof {
                lemma_filter_ids_step(seg@, pred, i as int);
                lemma_filter_ids_contains(seg@.take(i as int), pred);
                lemma_filter_ids_contains(seg@.take(i + 1), pred);
                assert(string_views(keys@)[i as int] == keys@[i as int]@);
            }
            if crate::text::str_eq(keys[i].as_str(), key.as_str()) {
                let x = seg[i];
                assert(pred(x));
                assert(filter_ids(seg@.take(i + 1), pred) == filter_ids(seg@.take(i as int), pred).push(x));
                match best {
                    None => {
                        best = Some(x);
                        proof {
                            assert(filter_ids(seg@.take(i + 1), pred) =~= seq![x]);
                            assert(seq![x][0] == x);
                        }
                    },
                    Some(b) => {
                        if self.exec_prefers(x, b) {
                            best = Some(x);
                            proof {
                                let g = filter_ids(seg@.take(i + 1), pred);
                                assert forall|y: GlobalSymbolId| g.contains(y) implies !self.prefers(y, x) by {
                                    self.lemma_prefers_total(y, b);
                                    self.lemma_prefers_total(x, b);
                                    if y != x {
                                        let k = choose|k: int| 0 <= k < g.len() && g[k] == y;
                                        assert(filter_ids(seg@.take(i as int), pred)[k] == y);
                                        assert(filter_ids(seg@.take(i as int), pred).contains(y));
                                    }
                                }
                                assert(g[g.len() - 1] == x);
                                assert(g.contains(x));
                            }
                        } else {
                            proof {
                                let g = filter_ids(seg@.take(i + 1), pred);
                                assert(g == filter_ids(seg@.take(i as int), pred).push(x));
                                assert forall|y: GlobalSymbolId| g.contains(y) implies !self.prefers(y, b) by {
                                    if y == x {
                                    } else {
                                        let k = choose|k: int| 0 <= k < g.len() && g[k] == y;
                                        assert(filter_ids(seg@.take(i as int), pred)[k] == y);
                                        assert(filter_ids(seg@.take(i as int), pred).contains(y));
                                    }
                                }
                                let f = filter_ids(seg@.take(i as int), pred);
                                assert(f.contains(b));
                                let k = choose|k: int| 0 <= k < f.len() && f[k] == b;
                                assert(g[k] == b);
                                assert(g.contains(b));
                            }
                        }
                    },
                }
            }
            i = i + 1;
        }
        assert(seg@.take(seg@.len() as int) =~= seg@);
        proof {
            assert(filter_ids(seg@, pred) == self.key_group(seg@, key@));
        }
        best.unwrap()
    }

    fn keys_for(&self, seg: &Vec<GlobalSymbolId>) -> (r: Vec<String>)
        ensures
            string_views(r@) == self.keys_of(seg@),
    {
        let mut out: Vec<String> = Vec::new();
        let mut i: usize = 0;
        while i < seg.len()
            invariant
                i <= seg@.len(),
                string_views(out@) == self.keys_of(seg@.take(i as int)),
            decreases seg@.len() - i,
        {
            let k = self.completion_member_key(seg[i]);
            let ghost before = out@;
            out.push(k);
            assert(string_views(out@) =~= string_views(before).push(k@));
            assert(self.keys_of(seg@.take(i + 1)) =~= self.keys_of(seg@.take(i as int)).push(
                self.spec_completion_member_key(seg@[i as int])));
            i = i + 1;
        }
        assert(seg@.take(seg@.len() as int) =~= seg@);
        out
    }

    /// Adds `shadowed` to the group of `key`, creating the group (kept by
    /// `kept`) when it is the first shadow of that key.
    #[verifier::loop_isolation(false)]
    fn push_shadowed_members(
        &self,
        groups: &mut Vec<MemberShadowGroup>,
        key: &String,
        kept: GlobalSymbolId,
        shadowed: Vec<GlobalSymbolId>,
    )
        requires
            forall|g: int, h: int|
                0 <= g < h < old(groups)@.len() ==> old(groups)@[g].key@ != old(groups)@[h].key@,
        ensures
            forall|g: int, h: int|
                0 <= g < h < final(groups)@.len() ==> final(groups)@[g].key@ != final(groups)@[h].key@,
            final(groups)@.len() == old(groups)@.len() || final(groups)@.len() == old(groups)@.len() + 1,
            forall|g: int|
                0 <= g < old(groups)@.len() ==> #[trigger] final(groups)@[g].key@ == old(groups)@[g].key@
                    && final(groups)@[g].kept == old(groups)@[g].kept,
            final(groups)@.len() == old(groups)@.len() + 1 ==> final(groups)@.last().key@ == key@
                && final(groups)@.last().kept == kept,
            forall|g: int|
                0 <= g < old(groups)@.len() ==> (#[trigger] final(groups)@[g]).shadowed@ == if old(groups)@[g].key@
                    == key@ {
                    old(groups)@[g].shadowed@ + shadowed@
                } else {
                    old(groups)@[g].shadowed@
                },
            final(groups)@.len() == old(groups)@.len() + 1 <==> shadowed@.len() > 0 && forall|g: int|
                0 <= g < old(groups)@.len() ==> #[trigger] old(groups)@[g].key@ != key@,
            final(groups)@.len() == old(groups)@.len() + 1 ==> final(groups)@.last().shadowed@ == shadowed@,
    {
        if shadowed.len() == 0 {
            assert forall|g: int| 0 <= g < old(groups)@.len() implies (#[trigger] groups@[g]).shadowed@ == if old(
                groups,
            )@[g].key@ == key@ {
                old(groups)@[g].shadowed@ + shadowed@
            } else {
                old(groups)@[g].shadowed@
            } by {
                assert(old(groups)@[g].shadowed@ + shadowed@ =~= old(groups)@[g].shadowed@);
            }
            return;
        }
        let mut g: usize = 0;
        while g < groups.len()
            invariant
                g <= groups@.len(),
                groups@ == old(groups)@,
                forall|h: int| 0 <= h < g ==> groups@[h].key@ != key@,
            decreases groups@.len() - g,
        {
            if crate::text::str_eq(groups[g].key.as_str(), key.as_str()) {
                let mut extended: Vec<GlobalSymbolId> = Vec::new();
                let mut i: usize = 0;
                while i < groups[g].shadowed.len()
                    invariant
                        g < groups@.len(),
                        groups@ == old(groups)@,
                        i <= groups@[g as int].shadowed@.len(),
                        extended@ == groups@[g as int].shadowed@.take(i as int),
                    decreases groups@[g as int].shadowed@.len() - i,
                {
                    extended.push(groups[g].shadowed[i]);
                    i = i + 1;
                    assert(extended@ =~= groups@[g as int].shadowed@.take(i as int));
                }
                assert(groups@[g as int].shadowed@.take(i as int) =~= groups@[g as int].shadowed@);
                let mut i: usize = 0;
                while i < shadowed.len()
                    invariant
                        i <= shadowed@.len(),
                        g < groups@.len(),
                        groups@ == old(groups)@,
                        extended@ == groups@[g as int].shadowed@ + shadowed@.take(i as int),
                    decreases shadowed@.len() - i,
                {
                    extended.push(shadowed[i]);
                    i = i + 1;
                    assert(extended@ =~= groups@[g as int].shadowed@ + shadowed@.take(i as int));
                }
                assert(shadowed@.take(i as int) =~= shadowed@);
                let group = MemberShadowGroup {
                    key: groups[g].key.clone(),
                    kept: groups[g].kept,
                    shadowed: extended,
                };
                let ghost before = groups@;
                assert(group.key@ == before[g as int].key@);
                groups.set(g, group);
                assert(groups@ == before.update(g as int, group));
                assert forall|a: int, b: int| 0 <= a < b < groups@.len() implies groups@[a].key@ != groups@[b].key@ by {
                    assert(before == old(groups)@);
                    assert(old(groups)@[a].key@ != old(groups)@[b].key@);
                    if a == g {
                        assert(groups@[a].key@ == before[a].key@);
                    } else {
                        assert(groups@[a] == before[a]);
                    }
                    if b == g {
                        assert(groups@[b].key@ == before[b].key@);
                    } else {
                        assert(groups@[b] == before[b]);
                    }
                }
                assert forall|h: int| 0 <= h < old(groups)@.len() implies (#[trigger] groups@[h]).shadowed@ == if old(
                    groups,
                )@[h].key@ == key@ {
                    old(groups)@[h].shadowed@ + shadowed@
                } else {
                    old(groups)@[h].shadowed@
                } by {
                    if h != g {
                        assert(groups@[h] == before[h]);
                        assert(old(groups)@[h].key@ != old(groups)@[g as int].key@);
                    }
                }
                return;
            }
            g = g + 1;
        }
        groups.push(MemberShadowGroup { key: key.clone(), kept, shadowed });
    }

    /// Ids of `seg` whose key (from `keys`) is `key`, in order, leaving out
    /// `except` when given.
    fn ids_with_key(seg: &Vec<GlobalSymbolId>, keys: &Vec<String>, key: &String, except: Option<GlobalSymbolId>) -> (r: Vec<GlobalSymbolId>)
        requires
            keys@.len() == seg@.len(),
        ensures
            forall|x: GlobalSymbolId| r@.contains(x) ==> seg@.contains(x) && except != Some(x),
            r@ == ids_keyed(seg@, string_views(keys@), key@, except),
    {
        let mut out: Vec<GlobalSymbolId> = Vec::new();
        let mut i: usize = 0;
        while i < seg.len()
            invariant
                i <= seg@.len(),
                keys@.len() == seg@.len(),
                forall|x: GlobalSymbolId| out@.contains(x) ==> seg@.contains(x) && except != Some(x),
                out@ == ids_keyed(seg@.take(i as int), string_views(keys@).take(i as int), key@, except),
            decreases seg@.len() - i,
        {
            assert(seg@.take(i + 1).drop_last() =~= seg@.take(i as int));
            assert(string_views(keys@).take(i + 1).drop_last() =~= string_views(keys@).take(i as int));
            assert(string_views(keys@)[i as int] == keys@[i as int]@);
            if crate::text::str_eq(keys[i].as_str(), key.as_str()) && except != Some(seg[i]) {
                let ghost before = out@;
                out.push(seg[i]);
                proof {
                    assert forall|x: GlobalSymbolId| out@.contains(x) implies seg@.contains(x) && except != Some(x) by {
                        let k = choose|k: int| 0 <= k < out@.len() && out@[k] == x;
                        if k < before.len() {
                            assert(before[k] == x);
                        } else {
                            assert(seg@[i as int] == x);
                        }
                    }
                }
            }
            i = i + 1;
        }
        assert(seg@.take(i as int) =~= seg@);
        assert(string_views(keys@).take(i as int) =~= string_views(keys@));
        out
    }

    /// Groups member segments by completion key: one member per key, in
    /// order of first appearance, chosen by preference within the first
    /// segment that has the key; every other id with that key is recorded
    /// in the key's shadow group.
    #[verifier::rlimit(100)]
    #[verifier::spinoff_prover]
    fn completion_from_member_segments(&self, segments: Vec<Vec<GlobalSymbolId>>) -> (r: CompletionMemberLookup)
        ensures
            r.raw_candidates@ == id_lists(segments@).flatten(),
            self.completion_members_spec(id_lists(segments@), r.members@),
            forall|g: int, h: int|
                0 <= g < h < r.shadowed_groups@.len() ==> r.shadowed_groups@[g].key@
                    != r.shadowed_groups@[h].key@,
            forall|g: int|
                0 <= g < r.shadowed_groups@.len() ==> r.members@.contains((#[trigger] r.shadowed_groups@[g]).kept)
                    && self.spec_completion_member_key(r.shadowed_groups@[g].kept) == r.shadowed_groups@[g].key@,
            forall|g: int|
                0 <= g < r.shadowed_groups@.len() ==> (#[trigger] r.shadowed_groups@[g]).shadowed@ == self.shadowed_ids(
                    id_lists(segments@),
                    r.shadowed_groups@[g].key@,
                    r.shadowed_groups@[g].kept,
                ),
            forall|t: int|
                0 <= t < r.members@.len() && self.shadowed_ids(
                    id_lists(segments@),
                    self.spec_completion_member_key(r.members@[t]),
                    #[trigger] r.members@[t],
                ).len() > 0 ==> exists|g: int|
                    0 <= g < r.shadowed_groups@.len() && #[trigger] r.shadowed_groups@[g].key@
                        == self.spec_completion_member_key(r.members@[t]),
    {
        let raw_candidates = flatten_segments(&segments);
        let ghost segs = id_lists(segments@);
        let mut members: Vec<GlobalSymbolId> = Vec::new();
        let mut kept_keys: Vec<String> = Vec::new();
        let mut groups: Vec<MemberShadowGroup> = Vec::new();
        let ghost mut seg_of: Seq<int> = Seq::empty();
        let ghost mut group_member: Seq<int> = Seq::empty();
        let mut s: usize = 0;
        assert(segs.take(0) =~= Seq::<Seq<GlobalSymbolId>>::empty());
        assert(segs.take(0).flatten() =~= Seq::<GlobalSymbolId>::empty());
        while s < segments.len()
            invariant
                s <= segments@.len(),
                segs == id_lists(segments@),
                string_views(kept_keys@) == self.first_keys(segs.take(s as int).flatten()),
                members@.len() == kept_keys@.len(),
                seg_of.len() == members@.len(),
                forall|t: int| 0 <= t < members@.len() ==> #[trigger] seg_of[t] < s,
                forall|t: int|
                    0 <= t < members@.len() ==> #[trigger] self.member_entry_ok(
                        segs,
                        members@[t],
                        string_views(kept_keys@)[t],
                        seg_of[t],
                    ),
                forall|g: int, h: int|
                    0 <= g < h < groups@.len() ==> groups@[g].key@ != groups@[h].key@,
                group_member.len() == groups@.len(),
                forall|g: int|
                    0 <= g < groups@.len() ==> 0 <= #[trigger] group_member[g] < members@.len()
                        && members@[group_member[g]] == groups@[g].kept
                        && self.spec_completion_member_key(members@[group_member[g]]) == groups@[g].key@,
                forall|g: int|
                    0 <= g < groups@.len() ==> (#[trigger] groups@[g]).shadowed@ == self.shadowed_ids(
                        segs.take(s as int),
                        groups@[g].key@,
                        groups@[g].kept,
                    ),
                forall|t: int|
                    0 <= t < members@.len() ==> (exists|g: int|
                        0 <= g < groups@.len() && #[trigger] groups@[g].key@ == string_views(kept_keys@)[t])
                        || self.shadowed_ids(segs.take(s as int), string_views(kept_keys@)[t], #[trigger] members@[t]).len()
                        == 0,
            decreases segments@.len() - s,
        {
            let seg = &segments[s];
            let keys = self.keys_for(seg);
            let ghost flat_before = segs.take(s as int).flatten();
            assert(seg@ == segs[s as int]);
            assert(string_views(keys@).len() == keys@.len());
            let mut j: usize = 0;
            assert(flat_before + seg@.take(0) =~= flat_before);
            proof {
                assert forall|key: Seq<char>, kept: GlobalSymbolId| #[trigger] self.shadow_state(
                    segs.take(s as int),
                    seg@,
                    0,
                    key,
                    kept,
                ) == self.shadowed_ids(segs.take(s as int), key, kept) by {
                    self.lemma_shadow_segment_end(segs.take(s as int), seg@, key, kept);
                }
            }

            while j < seg.len()
                invariant
                    j <= seg@.len(),
                    s < segments@.len(),
                    segs == id_lists(segments@),
                    seg@ == segs[s as int],
                    flat_before == segs.take(s as int).flatten(),
                    string_views(keys@) == self.keys_of(seg@),
                    keys@.len() == seg@.len(),
                    string_views(kept_keys@) == self.first_keys(flat_before + seg@.take(j as int)),
                    members@.len() == kept_keys@.len(),
                    seg_of.len() == members@.len(),
                    forall|t: int| 0 <= t < members@.len() ==> #[trigger] seg_of[t] <= s,
                    forall|t: int|
                        0 <= t < members@.len() ==> #[trigger] self.member_entry_ok(
                            segs,
                            members@[t],
                            string_views(kept_keys@)[t],
                            seg_of[t],
                        ),
                    forall|g: int, h: int|
                        0 <= g < h < groups@.len() ==> groups@[g].key@ != groups@[h].key@,
                    group_member.len() == groups@.len(),
                    forall|g: int|
                        0 <= g < groups@.len() ==> 0 <= #[trigger] group_member[g] < members@.len()
                            && members@[group_member[g]] == groups@[g].kept
                            && self.spec_completion_member_key(members@[group_member[g]]) == groups@[g].key@,
                    forall|g: int|
                        0 <= g < groups@.len() ==> (#[trigger] groups@[g]).shadowed@ == self.shadow_state(
                            segs.take(s as int),
                            seg@,
                            j as int,
                            groups@[g].key@,
                            groups@[g].kept,
                        ),
                    forall|t: int|
                        0 <= t < members@.len() ==> (exists|g: int|
                            0 <= g < groups@.len() && #[trigger] groups@[g].key@ == string_views(kept_keys@)[t])
                            || self.shadow_state(
                            segs.take(s as int),
                            seg@,
                            j as int,
                            string_views(kept_keys@)[t],
                            #[trigger] members@[t],
                        ).len() == 0,
                decreases seg@.len() - j,
            {
                let key = &keys[j];
                let x = seg[j];
                let ghost prefix = flat_before + seg@.take(j as int);
                assert(flat_before + seg@.take(j + 1) =~= prefix.push(x));
                assert(prefix.push(x).drop_last() =~= prefix);
                assert(string_views(keys@)[j as int] == key@);
                assert(key@ == self.spec_completion_member_key(x));
                let mut first_in_segment = true;
                let mut i: usize = 0;
                while i < j
                    invariant
                        i <= j,
                        j < keys@.len(),
                        first_in_segment <==> forall|q: int| 0 <= q < i ==> keys@[q]@ != keys@[j as int]@,
                    decreases j - i,
                {
                    if crate::text::str_eq(keys[i].as_str(), keys[j].as_str()) {
                        first_in_segment = false;
                    }
                    i = i + 1;
                }
                let ghost gs0 = groups@;
                let ghost kks0 = string_views(kept_keys@);
                let ghost ms0 = members@;
                let ghost k = key@;
                proof {
                    assert(self.keys_of(seg@.take(j as int)) =~= string_views(keys@).take(j as int));
                    assert(first_in_segment <==> !self.keys_of(seg@.take(j as int)).contains(k)) by {
                        let kt = self.keys_of(seg@.take(j as int));
                        if kt.contains(k) {
                            let q = choose|q: int| 0 <= q < kt.len() && kt[q] == k;
                            assert(keys@[q]@ == kt[q]);
                        }
                        if !first_in_segment {
                            let q = choose|q: int| 0 <= q < j && keys@[q]@ == keys@[j as int]@;
                            assert(kt[q] == keys@[q]@);
                        }
                    }
                    self.lemma_first_keys_distinct(prefix);
                    assert forall|g: int| 0 <= g < gs0.len() implies kks0[group_member[g]] == (#[trigger] gs0[g]).key@ by {
                        let t0 = group_member[g];
                        assert(self.member_entry_ok(segs, ms0[t0], kks0[t0], seg_of[t0]));
                    }
                }
                match index_of_string(&kept_keys, key) {
                    Some(t) => {
                        assert(string_views(kept_keys@)[t as int] == key@);
                        assert(string_views(kept_keys@).contains(key@));
                        if first_in_segment {
                            let shadowed = Self::ids_with_key(seg, &keys, key, None);
                            let ghost shv = shadowed@;
                            let kept = members[t];
                            proof {
                                assert(self.member_entry_ok(segs, members@[t as int], string_views(kept_keys@)[t as int], seg_of[t as int]));
                                assert(self.spec_completion_member_key(kept) == key@);
                            }
                            let ghost gs = groups@;
                            self.push_shadowed_members(&mut groups, key, kept, shadowed);
                            let ghost gm = group_member;
                            proof {
                                if groups@.len() > gs.len() {
                                    group_member = group_member.push(t as int);
                                }
                                assert forall|g: int| 0 <= g < groups@.len() implies 0 <= #[trigger] group_member[g] < members@.len()
                                    && members@[group_member[g]] == groups@[g].kept
                                    && self.spec_completion_member_key(members@[group_member[g]]) == groups@[g].key@ by {
                                    if g < gs.len() {
                                        assert(groups@[g].key@ == gs[g].key@ && groups@[g].kept == gs[g].kept);
                                        assert(group_member[g] == gm[g]);
                                        assert(0 <= gm[g] < members@.len());
                                    }
                                }
                                assert(kks0[t as int] == k);
                                assert forall|t2: int| 0 <= t2 < ms0.len() && #[trigger] kks0[t2] == k implies ms0[t2] == kept by {
                                    assert(kks0[t2] == kks0[t as int]);
                                }
                                assert forall|g: int| 0 <= g < gs0.len() && (#[trigger] gs0[g]).key@ == k implies gs0[g].kept == kept by {
                                    assert(kks0[gm[g]] == gs0[g].key@);
                                    assert(gm[g] == t);
                                }
                                self.lemma_first_keys_prefix(flat_before, seg@.take(j as int), k);
                                assert(ms0[t as int] == kept);
                                self.lemma_shadow_step(
                                    segs.take(s as int), seg@, j as int, k, kept, true, shv, gs0, groups@,
                                    kks0, ms0, string_views(kept_keys@), members@,
                                );
                            }
                        } else {
                            proof {
                                let kept = members@[t as int];
                                assert(kks0[t as int] == k);
                                assert forall|t2: int| 0 <= t2 < ms0.len() && #[trigger] kks0[t2] == k implies ms0[t2] == kept by {
                                    assert(kks0[t2] == kks0[t as int]);
                                }
                                assert forall|g: int| 0 <= g < gs0.len() && (#[trigger] gs0[g]).key@ == k implies gs0[g].kept == kept by {
                                    assert(kks0[group_member[g]] == gs0[g].key@);
                                    assert(group_member[g] == t);
                                }
                                self.lemma_shadow_step(
                                    segs.take(s as int), seg@, j as int, k, kept, false, Seq::empty(), gs0, groups@,
                                    kks0, ms0, string_views(kept_keys@), members@,
                                );
                            }
                        }
                    },
                    None => {
                        let ghost k = key@;
                        proof {
                            self.lemma_first_keys_contains(prefix, k);
                            assert forall|s1: int| 0 <= s1 < s implies self.key_group(#[trigger] segs[s1], k).len() == 0 by {
                                if self.key_group(segs[s1], k).len() > 0 {
                                    let y = self.key_group(segs[s1], k)[0];
                                    assert(self.key_group(segs[s1], k).contains(y));
                                    self.lemma_key_group_contains(segs[s1], k);
                                    lemma_flatten_take_contains(segs, s as int, s1, y);
                                    let q = choose|q: int| 0 <= q < flat_before.len() && flat_before[q] == y;
                                    assert(prefix[q] == y);
                                    assert(prefix.contains(y));
                                }
                            }
                            self.lemma_key_group_contains(seg@, k);
                            assert(seg@[j as int] == x);
                            assert(seg@.contains(x));
                            assert(self.key_group(seg@, k).contains(x));
                        }
                        let m = self.most_preferred_with_key(seg, &keys, key);
                        let ghost ms = members@;
                        let ghost ks = kept_keys@;
                        members.push(m);
                        kept_keys.push(key.clone());
                        let ghost so = seg_of;
                        proof {
                            seg_of = seg_of.push(s as int);
                            assert(string_views(kept_keys@) =~= string_views(ks).push(k));
                            assert(self.is_first_segment_with(segs, k, s as int));
                            assert forall|t: int| 0 <= t < members@.len() implies seg_of[t] <= s && #[trigger] self.member_entry_ok(
                                segs,
                                members@[t],
                                string_views(kept_keys@)[t],
                                seg_of[t],
                            ) by {
                                if t < ms.len() {
                                    assert(members@[t] == ms[t] && string_views(kept_keys@)[t] == string_views(ks)[t]);
                                    assert(seg_of[t] == so[t]);
                                    assert(so[t] <= s);
                                    assert(self.member_entry_ok(segs, ms[t], string_views(ks)[t], so[t]));
                                } else {
                                    assert(members@[t] == m && string_views(kept_keys@)[t] == k);
                                    assert(self.key_group(seg@, k).contains(m));
                                    assert(self.spec_completion_member_key(m) == k);
                                    assert(seg_of[t] == s);
                                    assert(self.member_entry_ok(segs, m, k, s as int));
                                }
                            }
                            assert forall|g: int| 0 <= g < groups@.len() implies 0 <= #[trigger] group_member[g] < members@.len()
                                && members@[group_member[g]] == groups@[g].kept
                                && self.spec_completion_member_key(members@[group_member[g]]) == groups@[g].key@ by {
                                assert(members@[group_member[g]] == ms[group_member[g]]);
                            }
                        }
                        let shadowed = Self::ids_with_key(seg, &keys, key, Some(m));
                        let ghost shv = shadowed@;
                        let ghost gs = groups@;
                        let t = members.len() - 1;
                        self.push_shadowed_members(&mut groups, key, m, shadowed);
                        let ghost gm = group_member;
                        proof {
                            if groups@.len() > gs.len() {
                                group_member = group_member.push(t as int);
                            }
                            assert forall|g: int| 0 <= g < groups@.len() implies 0 <= #[trigger] group_member[g] < members@.len()
                                && members@[group_member[g]] == groups@[g].kept
                                && self.spec_completion_member_key(members@[group_member[g]]) == groups@[g].key@ by {
                                if g < gs.len() {
                                    assert(groups@[g].key@ == gs[g].key@ && groups@[g].kept == gs[g].kept);
                                    assert(group_member[g] == gm[g]);
                                    assert(0 <= gm[g] < members@.len());
                                }
                            }
                            assert(!kks0.contains(k));
                            assert forall|g: int| 0 <= g < gs0.len() implies #[trigger] gs0[g].key@ != k by {
                                assert(kks0[gm[g]] == gs0[g].key@);
                            }
                            self.lemma_first_keys_contains(flat_before, k);
                            assert(!self.first_keys(flat_before).contains(k)) by {
                                if self.first_keys(flat_before).contains(k) {
                                    let y = choose|y: GlobalSymbolId| flat_before.contains(y) && self.spec_completion_member_key(y) == k;
                                    let q = choose|q: int| 0 <= q < flat_before.len() && flat_before[q] == y;
                                    assert(prefix[q] == y);
                                }
                            }
                            assert(!self.keys_of(seg@.take(j as int)).contains(k)) by {
                                if self.keys_of(seg@.take(j as int)).contains(k) {
                                    let q = choose|q: int| 0 <= q < j && self.keys_of(seg@.take(j as int))[q] == k;
                                    assert(prefix[flat_before.len() + q] == seg@[q]);
                                }
                            }
                            self.lemma_shadowed_ids_absent(segs.take(s as int), k, m);
                            assert(string_views(kept_keys@) == kks0.push(k));
                            assert(members@ == ms0.push(m));
                            self.lemma_shadow_step(
                                segs.take(s as int), seg@, j as int, k, m, true, shv, gs0, groups@,
                                kks0, ms0, string_views(kept_keys@), members@,
                            );
                        }
                    },
                }
                j = j + 1;
            }
            proof {
                assert(seg@.take(seg@.len() as int) =~= seg@);
                assert(segs.take(s + 1) =~= segs.take(s as int).push(segs[s as int]));
                segs.take(s as int).lemma_flatten_push(segs[s as int]);
                assert forall|key: Seq<char>, kept: GlobalSymbolId| #[trigger] self.shadowed_ids(segs.take(s + 1), key, kept)
                    == self.shadow_state(segs.take(s as int), seg@, seg@.len() as int, key, kept) by {
                    self.lemma_shadow_segment_end(segs.take(s as int), seg@, key, kept);
                }
            }
            s = s + 1;
        }
        assert(segs.take(segs.len() as int) =~= segs);
        proof {
            assert forall|t: int| 0 <= t < members@.len() implies self.spec_completion_member_key(#[trigger] members@[t])
                == self.first_keys(segs.flatten())[t] && exists|s0: int|
                self.is_first_segment_with(segs, self.first_keys(segs.flatten())[t], s0) && self.is_most_preferred(
                    members@[t],
                    self.key_group(segs[s0], self.first_keys(segs.flatten())[t]),
                ) by {
                let s0 = seg_of[t];
                assert(self.member_entry_ok(segs, members@[t], string_views(kept_keys@)[t], s0));
            }
            assert forall|g: int|
                #![trigger groups@[g]]
                0 <= g < groups@.len() implies exists|t: int|
                    0 <= t < members@.len() && #[trigger] members@[t] == groups@[g].kept
                        && self.spec_completion_member_key(members@[t]) == groups@[g].key@ by {
                let t = group_member[g];
                assert(0 <= t < members@.len());
                assert(members@[t] == groups@[g].kept && self.spec_completion_member_key(members@[t]) == groups@[g].key@);
            }
        }
        assert(self.completion_members_spec(segs, members@));
        proof {
            assert(members@.len() == string_views(kept_keys@).len());
            assert forall|t: int|
                0 <= t < members@.len() && self.shadowed_ids(
                    segs,
                    self.spec_completion_member_key(members@[t]),
                    #[trigger] members@[t],
                ).len() > 0 implies exists|g: int|
                    0 <= g < groups@.len() && #[trigger] groups@[g].key@ == self.spec_completion_member_key(members@[t]) by {
                assert(self.member_entry_ok(segs, members@[t], string_views(kept_keys@)[t], seg_of[t]));
                assert(string_views(kept_keys@)[t] == self.spec_completion_member_key(members@[t]));
            }
        }
        let ghost gm = group_member;
        let r = CompletionMemberLookup { raw_candidates, members, shadowed_groups: groups };
        proof {
            assert forall|g: int|
                0 <= g < r.shadowed_groups@.len() implies r.members@.contains((#[trigger] r.shadowed_groups@[g]).kept)
                    && self.spec_completion_member_key(r.shadowed_groups@[g].kept) == r.shadowed_groups@[g].key@ by {
                let t = gm[g];
                assert(0 <= t < r.members@.len());
                assert(r.members@[t] == r.shadowed_groups@[g].kept);
            }
        }
        r
    }

    /// The shadow groups of a completion lookup over `segments`: one group
    /// per completion key, with distinct keys; each group's kept id is the
    /// member chosen for its key and its shadowed ids are those that member
    /// shadows (see `shadowed_ids`); and every member that shadows some id
    /// has a group.
    pub open spec fn shadow_groups_spec(
        &self,
        segments: Seq<Seq<GlobalSymbolId>>,
        members: Seq<GlobalSymbolId>,
        groups: Seq<MemberShadowGroup>,
    ) -> bool {
        &&& forall|g: int, h: int| 0 <= g < h < groups.len() ==> groups[g].key@ != groups[h].key@
        &&& forall|g: int|
            0 <= g < groups.len() ==> members.contains((#[trigger] groups[g]).kept)
                && self.spec_completion_member_key(groups[g].kept) == groups[g].key@
                && groups[g].shadowed@ == self.shadowed_ids(segments, groups[g].key@, groups[g].kept)
        &&& forall|t: int|
            0 <= t < members.len() && self.shadowed_ids(
                segments,
                self.spec_completion_member_key(members[t]),
                #[trigger] members[t],
            ).len() > 0 ==> exists|g: int|
                0 <= g < groups.len() && #[trigger] groups[g].key@ == self.spec_completion_member_key(members[t])
    }

    /// Completion members of `owner` and its base walk (see
    /// `is_member_walk`), grouped by completion key.
    pub fn raw_completion_members_for_owner_name(&self, owner: &str) -> (r: CompletionMemberLookup)
        ensures
            exists|segments: Seq<Seq<GlobalSymbolId>>|
                self.is_member_walk(owner@, segments) && r.raw_candidates@ == segments.flatten()
                    && self.completion_members_spec(segments, r.members@) && self.shadow_groups_spec(
                    segments,
                    r.members@,
                    r.shadowed_groups@,
                ),
    {
        let segments = self.member_segments_for_class_including_bases(owner);
        let ghost segs = id_lists(segments@);
        let r = self.completion_from_member_segments(segments);
        assert(self.is_member_walk(owner@, segs));
        assert(self.shadow_groups_spec(segs, r.members@, r.shadowed_groups@));
        r
    }

    /// Completion members of the preferred classes named `owner` and of
    /// their preferred base walk (see `is_preferred_member_walk`), grouped by
    /// completion key.
    pub fn completion_members_for_preferred_class(&self, owner: &str) -> (r: CompletionMemberLookup)
        ensures
            exists|segments: Seq<Seq<GlobalSymbolId>>|
                self.is_preferred_member_walk(owner@, segments) && r.raw_candidates@ == segments.flatten()
                    && self.completion_members_spec(segments, r.members@) && self.shadow_groups_spec(
                    segments,
                    r.members@,
                    r.shadowed_groups@,
                ),
    {
        let segments = self.preferred_class_member_segments_including_bases(owner);
        let ghost segs = id_lists(segments@);
        let r = self.completion_from_member_segments(segments);
        assert(self.is_preferred_member_walk(owner@, segs));
        assert(self.shadow_groups_spec(segs, r.members@, r.shadowed_groups@));
        r
    }
}

impl SymbolIndex {
    // -----------------------------------------------------------------------
    // Pruning

    /// Positions, in table order, of the symbols that are not of kind
    /// `excluded`.
    pub open spec fn kept_positions(symbols: Seq<IndexedSymbol>, excluded: SymbolKind) -> Seq<int>
        decreases symbols.len(),
    {
        if symbols.len() == 0 {
            Seq::empty()
        } else {
            let before = Self::kept_positions(symbols.drop_last(), excluded);
            if symbols.last().kind != excluded {
                before.push(symbols.len() - 1)
            } else {
                before
            }
        }
    }

    /// `result` holds exactly the symbols of `self` not of kind `excluded`,
    /// in order and unchanged but for their ids and parent links; its files
    /// are `self`'s files, in order, with the same metadata.
    pub open spec fn is_pruned_copy(&self, result: SymbolIndex, excluded: SymbolKind) -> bool {
        let kept = Self::kept_positions(self.spec_symbols(), excluded);
        &&& result.consistent()
        &&& result.spec_files().len() == self.spec_files().len()
        &&& forall|i: int|
            0 <= i < self.spec_files().len() ==> (#[trigger] result.spec_files()[i]).metadata
                == self.spec_files()[i].metadata && result.spec_files()[i].non_declaration_callable_fragments
                == self.spec_files()[i].non_declaration_callable_fragments
        &&& result.spec_symbols().len() == kept.len()
        &&& forall|j: int|
            0 <= j < kept.len() ==> same_body(#[trigger] result.spec_symbols()[j], self.spec_symbols()[kept[j]])
        &&& forall|j: int|
            0 <= j < kept.len() ==> (#[trigger] result.spec_symbols()[j]).id.file_id == self.spec_symbols()[kept[j]].id.file_id
                && result.spec_symbols()[j].parent == self.pruned_parent(excluded, self.spec_symbols()[kept[j]])
    }

    /// How many of the first `q` symbols are kept when `excluded` is left out.
    pub open spec fn kept_count(symbols: Seq<IndexedSymbol>, excluded: SymbolKind, q: int) -> int {
        Self::kept_positions(symbols.take(q), excluded).len() as int
    }

    /// The parent link of `s` in the copy without `excluded`: its parent
    /// renumbered among the kept symbols of its file, or none when the
    /// parent is left out.
    pub open spec fn pruned_parent(&self, excluded: SymbolKind, s: IndexedSymbol) -> Option<GlobalSymbolId> {
        match s.parent {
            None => None,
            Some(p) => {
                let start = self.spec_files()[p.file_id.0 as int].symbol_start as int;
                let q = start + p.symbol_id.0;
                if self.spec_symbols()[q].kind == excluded {
                    None
                } else {
                    Some(
                        GlobalSymbolId {
                            file_id: p.file_id,
                            symbol_id: SymbolId(
                                (Self::kept_count(self.spec_symbols(), excluded, q) - Self::kept_count(
                                    self.spec_symbols(),
                                    excluded,
                                    start,
                                )) as usize,
                            ),
                        },
                    )
                }
            },
        }
    }

    pub proof fn lemma_kept_positions_step(symbols: Seq<IndexedSymbol>, excluded: SymbolKind, p: int)
        requires
            0 <= p < symbols.len(),
        ensures
            Self::kept_positions(symbols.take(p + 1), excluded) == if symbols[p].kind != excluded {
                Self::kept_positions(symbols.take(p), excluded).push(p)
            } else {
                Self::kept_positions(symbols.take(p), excluded)
            },
    {
        assert(symbols.take(p + 1).drop_last() =~= symbols.take(p));
    }

    pub proof fn lemma_kept_positions_bounds(symbols: Seq<IndexedSymbol>, excluded: SymbolKind)
        ensures
            forall|a: int, b: int|
                0 <= a < b < Self::kept_positions(symbols, excluded).len() ==> Self::kept_positions(symbols, excluded)[a]
                    < Self::kept_positions(symbols, excluded)[b],
            forall|a: int|
                0 <= a < Self::kept_positions(symbols, excluded).len() ==> 0 <= #[trigger] Self::kept_positions(symbols, excluded)[a]
                    < symbols.len() && symbols[Self::kept_positions(symbols, excluded)[a]].kind != excluded,
            Self::kept_positions(symbols, excluded).len() <= symbols.len(),
        decreases symbols.len(),
    {
        if symbols.len() > 0 {
            Self::lemma_kept_positions_bounds(symbols.drop_last(), excluded);
        }
    }

    pub proof fn lemma_kept_prefix(symbols: Seq<IndexedSymbol>, excluded: SymbolKind, e: int)
        requires
            0 <= e <= symbols.len(),
        ensures
            Self::kept_positions(symbols.take(e), excluded).len() <= Self::kept_positions(symbols, excluded).len(),
            forall|j: int|
                0 <= j < Self::kept_positions(symbols.take(e), excluded).len() ==> #[trigger] Self::kept_positions(
                    symbols.take(e),
                    excluded,
                )[j] == Self::kept_positions(symbols, excluded)[j],
        decreases symbols.len() - e,
    {
        if e < symbols.len() {
            Self::lemma_kept_positions_step(symbols, excluded, e);
            Self::lemma_kept_prefix(symbols, excluded, e + 1);
            let a = Self::kept_positions(symbols.take(e), excluded);
            let b = Self::kept_positions(symbols.take(e + 1), excluded);
            assert forall|j: int| 0 <= j < a.len() implies #[trigger] a[j] == Self::kept_positions(symbols, excluded)[j] by {
                assert(a[j] == b[j]);
            }
        } else {
            assert(symbols.take(e) =~= symbols);
        }
    }

    /// A copy of the index without the symbols of one kind; the survivors of
    /// each file are renumbered in order and parent links follow them (a link
    /// to a removed symbol is dropped).
    #[verifier::rlimit(60)]
    #[verifier::spinoff_prover]
    fn without_symbol_kind(&self, excluded: SymbolKind) -> (r: Self)
        requires
            self.consistent(),
        ensures
            self.is_pruned_copy(r, excluded),
    {
        let ghost syms = self.symbols@;
        let ghost files = self.files@;
        let ghost kp = Self::kept_positions(syms, excluded);
        let n_symbols = self.symbols.len();
        let mut result = SymbolIndex::new();
        let mut i: usize = 0;
        proof {
            Self::lemma_kept_positions_bounds(syms, excluded);
            assert(syms.take(0) =~= Seq::<IndexedSymbol>::empty());
        }
        while i < self.files.len()
            invariant
                self.consistent(),
                syms == self.spec_symbols(),
                files == self.spec_files(),
                kp == Self::kept_positions(syms, excluded),
                n_symbols == syms.len(),
                i <= files.len(),
                result.consistent(),
                result.spec_files().len() == i,
                forall|f: int|
                    0 <= f < i ==> (#[trigger] result.spec_files()[f]).metadata == files[f].metadata
                        && result.spec_files()[f].non_declaration_callable_fragments
                        == files[f].non_declaration_callable_fragments,
                result.spec_symbols().len() == Self::kept_positions(
                    syms.take(if i == 0 { 0 } else { files[i - 1].symbol_start + files[i - 1].symbol_count }),
                    excluded,
                ).len(),
                result.spec_symbols().len() <= kp.len(),
                forall|j: int|
                    0 <= j < result.spec_symbols().len() ==> same_body(
                        #[trigger] result.spec_symbols()[j],
                        syms[kp[j]],
                    ),
                forall|j: int|
                    0 <= j < result.spec_symbols().len() ==> (#[trigger] result.spec_symbols()[j]).id.file_id
                        == syms[kp[j]].id.file_id && result.spec_symbols()[j].parent == self.pruned_parent(
                        excluded,
                        syms[kp[j]],
                    ),
            decreases files.len() - i,
        {
            let start = self.files[i].symbol_start;
            let count = self.files[i].symbol_count;
            proof {
                lemma_starts_monotone(*self, i as int);
                if i > 0 {
                    assert(files[i as int].symbol_start == files[i - 1].symbol_start + files[i - 1].symbol_count);
                } else {
                    assert(files[0].symbol_start == 0);
                }
            }
            let ghost base = Self::kept_positions(syms.take(start as int), excluded).len();
            let mut new_local: Vec<Option<usize>> = Vec::new();
            let mut c: usize = 0;
            let mut k: usize = 0;
            while k < count
                invariant
                    start + count <= syms.len(),
                    syms == self.spec_symbols(),
                    syms.len() == n_symbols,
                    k <= count,
                    c <= k,
                    new_local@.len() == k,
                    base == Self::kept_positions(syms.take(start as int), excluded).len(),
                    c + base == Self::kept_positions(syms.take(start + k), excluded).len(),
                    forall|q: int|
                        0 <= q < k ==> match #[trigger] new_local@[q] {
                            Some(nq) => syms[start + q].kind != excluded && nq + base
                                == Self::kept_positions(syms.take(start + q), excluded).len() && nq < c,
                            None => syms[start + q].kind == excluded,
                        },
                decreases count - k,
            {
                proof {
                    Self::lemma_kept_positions_step(syms, excluded, start + k);
                    Self::lemma_kept_prefix(syms, excluded, start + k + 1);
                    Self::lemma_kept_positions_bounds(syms.take(start + k + 1), excluded);
                }
                if self.symbols[start + k].kind != excluded {
                    new_local.push(Some(c));
                    c = c + 1;
                } else {
                    new_local.push(None);
                }
                k = k + 1;
            }
            let ghost total = c;
            let mut records: Vec<DeclarationRecord> = Vec::new();
            let mut k: usize = 0;
            let ghost fid = SourceFileId(i);
            while k < count
                invariant
                    self.consistent(),
                    syms == self.spec_symbols(),
                    files == self.spec_files(),
                    i < files.len(),
                    start == files[i as int].symbol_start,
                    count == files[i as int].symbol_count,
                    start + count <= syms.len(),
                    syms.len() == n_symbols,
                    fid == SourceFileId(i),
                    k <= count,
                    new_local@.len() == count,
                    base == Self::kept_positions(syms.take(start as int), excluded).len(),
                    total + base == Self::kept_positions(syms.take(start + count), excluded).len(),
                    records@.len() + base == Self::kept_positions(syms.take(start + k), excluded).len(),
                    forall|q: int|
                        0 <= q < count ==> match #[trigger] new_local@[q] {
                            Some(nq) => syms[start + q].kind != excluded && nq + base
                                == Self::kept_positions(syms.take(start + q), excluded).len() && nq < total,
                            None => syms[start + q].kind == excluded,
                        },
                    forall|d: int|
                        0 <= d < records@.len() ==> (#[trigger] records@[d]).id == SymbolId(d as usize)
                            && (records@[d].parent matches Some(pp) ==> pp.0 < total) && same_body(
                            record_symbol(records@[d], fid),
                            syms[Self::kept_positions(syms.take(start + k), excluded)[base + d]],
                        ) && syms[Self::kept_positions(syms.take(start + k), excluded)[base + d]].id.file_id == fid
                            && record_symbol(records@[d], fid).parent == self.pruned_parent(
                            excluded,
                            syms[Self::kept_positions(syms.take(start + k), excluded)[base + d]],
                        ),
                decreases count - k,
            {
                proof {
                    Self::lemma_kept_positions_step(syms, excluded, start + k);
                }
                match new_local[k] {
                    Some(nk) => {
                        let sym = &self.symbols[start + k];
                        let parent: Option<SymbolId> = match sym.parent {
                            Some(p) => if p.symbol_id.0 < count {
                                match new_local[p.symbol_id.0] {
                                    Some(np) => Some(SymbolId(np)),
                                    None => None,
                                }
                            } else {
                                None
                            },
                            None => None,
                        };
                        let record = DeclarationRecord {
                            id: SymbolId(nk),
                            parent,
                            kind: sym.kind,
                            name: copy_opt_string(&sym.name),
                            span: sym.span,
                            selection_span: sym.selection_span,
                            detail: copy_detail(&sym.detail),
                            attributes: copy_attributes(&sym.attributes),
                            modifiers: copy_strings(&sym.modifiers),
                            doc_comments: copy_doc_comments(&sym.doc_comments),
                            conditional_context: copy_branches(&sym.conditional_context),
                            callable_form: sym.callable_form,
                        };
                        let ghost before = records@;
                        records.push(record);
                        proof {
                            let kpk = Self::kept_positions(syms.take(start + k), excluded);
                            let kpk1 = Self::kept_positions(syms.take(start + k + 1), excluded);
                            assert(kpk1 == kpk.push(start + k));
                            assert(syms[start + k].id == GlobalSymbolId { file_id: fid, symbol_id: SymbolId(k as usize) });
                            if let Some(p) = syms[start + k].parent {
                                assert(self.spec_symbol(p) is Some);
                                assert(p.file_id == fid);
                                assert(p.symbol_id.0 < count);
                                assert(self.spec_files()[p.file_id.0 as int].symbol_start == start);
                            }
                            assert(record_symbol(record, fid).parent == self.pruned_parent(excluded, syms[start + k]));
                            assert forall|d: int| 0 <= d < records@.len() implies (#[trigger] records@[d]).id
                                == SymbolId(d as usize) && (records@[d].parent matches Some(pp) ==> pp.0 < total)
                                && same_body(record_symbol(records@[d], fid), syms[kpk1[base + d]])
                                && syms[kpk1[base + d]].id.file_id == fid
                                && record_symbol(records@[d], fid).parent == self.pruned_parent(excluded, syms[kpk1[base + d]]) by {
                                if d < before.len() {
                                    assert(records@[d] == before[d]);
                                    assert(kpk1[base + d] == kpk[base + d]);
                                } else {
                                    assert(nk + base == kpk.len());
                                    assert(kpk1[base + d] == start + k);
                                }
                            }
                        }
                    },
                    None => {},
                }
                k = k + 1;
            }
            let ghost old_result = result;
            proof {
                assert(records_well_numbered(records@));
                assert(result.spec_symbols().len() == base) by {
                    if i > 0 {
                        assert(start == files[i - 1].symbol_start + files[i - 1].symbol_count);
                    }
                }
                Self::lemma_kept_prefix(syms, excluded, start + count);
                Self::lemma_kept_positions_bounds(syms, excluded);
            }
            let ghost recs = records@;
            result.add_declarations(
                copy_metadata(&self.files[i].metadata),
                records,
                self.files[i].non_declaration_callable_fragments,
            );
            proof {
                let kpe = Self::kept_positions(syms.take(start + count), excluded);
                assert forall|j: int| 0 <= j < result.spec_symbols().len() implies same_body(
                    #[trigger] result.spec_symbols()[j],
                    syms[kp[j]],
                ) && result.spec_symbols()[j].id.file_id == syms[kp[j]].id.file_id && result.spec_symbols()[j].parent
                    == self.pruned_parent(excluded, syms[kp[j]]) by {
                    if j < base {
                        assert(result.spec_symbols()[j] == old_result.spec_symbols()[j]);
                    } else {
                        let d = j - base;
                        assert(result.spec_symbols()[j] == record_symbol(recs[d], fid));
                        assert(kpe[base + d] == kp[j]);
                    }
                }
                assert forall|f: int| 0 <= f < i + 1 implies (#[trigger] result.spec_files()[f]).metadata == files[f].metadata
                    && result.spec_files()[f].non_declaration_callable_fragments
                    == files[f].non_declaration_callable_fragments by {
                    if f < i {
                        assert(result.spec_files()[f] == old_result.spec_files()[f]);
                    }
                }
            }
            i = i + 1;
        }
        proof {
            if files.len() > 0 {
                assert(files.last().symbol_start + files.last().symbol_count == syms.len());
            }
            assert(syms.take(syms.len() as int) =~= syms);
            assert(syms.take(0) =~= Seq::<IndexedSymbol>::empty());
        }
        result
    }


    /// The detail of a symbol with every source span dropped.
    pub open spec fn stripped_detail(d: IndexedSymbolDetail) -> IndexedSymbolDetail {
        IndexedSymbolDetail {
            type_text_span: None,
            return_type_text_span: None,
            base_type_span: None,
            default_text_span: None,
            enum_value_text_span: None,
            ..d
        }
    }

    /// `result` is `self` without local variables (as `is_pruned_copy`
    /// says), and with every detail span dropped.
    pub open spec fn is_compact_copy(&self, result: SymbolIndex) -> bool {
        let kept = Self::kept_positions(self.spec_symbols(), SymbolKind::LocalVariable);
        &&& result.consistent()
        &&& result.spec_files().len() == self.spec_files().len()
        &&& forall|i: int|
            0 <= i < self.spec_files().len() ==> (#[trigger] result.spec_files()[i]).metadata
                == self.spec_files()[i].metadata && result.spec_files()[i].non_declaration_callable_fragments
                == self.spec_files()[i].non_declaration_callable_fragments
        &&& result.spec_symbols().len() == kept.len()
        &&& forall|j: int|
            0 <= j < kept.len() ==> {
                let a = #[trigger] result.spec_symbols()[j];
                let b = self.spec_symbols()[kept[j]];
                same_body(a, IndexedSymbol { detail: Self::stripped_detail(b.detail), ..b })
            }
        &&& forall|j: int|
            0 <= j < kept.len() ==> (#[trigger] result.spec_symbols()[j]).id.file_id == self.spec_symbols()[kept[j]].id.file_id
                && result.spec_symbols()[j].parent == self.pruned_parent(SymbolKind::LocalVariable, self.spec_symbols()[kept[j]])
    }

    /// The index as the runtime cache keeps it: no local variables and no
    /// detail spans.
    pub fn compact_for_runtime_cache(&self) -> (r: Self)
        requires
            self.consistent(),
        ensures
            self.is_compact_copy(r),
    {
        let pruned = self.without_local_variables();
        let mut symbols: Vec<IndexedSymbol> = Vec::new();
        let mut j: usize = 0;
        while j < pruned.symbols.len()
            invariant
                j <= pruned.symbols@.len(),
                symbols@.len() == j,
                forall|q: int|
                    0 <= q < j ==> (#[trigger] symbols@[q]).id == pruned.symbols@[q].id && symbols@[q].parent
                        == pruned.symbols@[q].parent && same_body(
                        symbols@[q],
                        IndexedSymbol { detail: Self::stripped_detail(pruned.symbols@[q].detail), ..pruned.symbols@[q] },
                    ),
            decreases pruned.symbols@.len() - j,
        {
            let s = &pruned.symbols[j];
            let mut copy = relabel_symbol(s, s.id, s.parent);
            let d = &s.detail;
            copy.detail = IndexedSymbolDetail {
                type_text: copy_opt_string(&d.type_text),
                type_text_span: None,
                return_type_text: copy_opt_string(&d.return_type_text),
                return_type_text_span: None,
                base_type: copy_opt_string(&d.base_type),
                base_type_span: None,
                default_text: copy_opt_string(&d.default_text),
                default_text_span: None,
                enum_value_text: copy_opt_string(&d.enum_value_text),
                enum_value_text_span: None,
            };
            symbols.push(copy);
            j = j + 1;
        }
        let r = SymbolIndex { files: pruned.files, symbols };
        proof {
            let kept = Self::kept_positions(self.spec_symbols(), SymbolKind::LocalVariable);
            assert forall|j: int| 0 <= j < kept.len() implies {
                let a = #[trigger] r.spec_symbols()[j];
                let b = self.spec_symbols()[kept[j]];
                same_body(a, IndexedSymbol { detail: Self::stripped_detail(b.detail), ..b })
            } by {
                assert(same_body(pruned.spec_symbols()[j], self.spec_symbols()[kept[j]]));
            }
            assert forall|q: int| 0 <= q < r.spec_symbols().len() implies r.spec_symbol(#[trigger] r.spec_symbols()[q].id)
                == Some(r.spec_symbols()[q]) by {
                lemma_symbol_position(pruned, q);
            }
            assert forall|q: int| 0 <= q < r.spec_symbols().len() implies ((#[trigger] r.spec_symbols()[q]).parent matches Some(p)
                ==> p.file_id == r.spec_symbols()[q].id.file_id && r.spec_symbol(p) is Some) by {
                assert(pruned.spec_symbols()[q].parent == r.spec_symbols()[q].parent);
                if let Some(p) = r.spec_symbols()[q].parent {
                    assert(pruned.spec_symbol(p) is Some);
                }
            }
            assert forall|i: int, k: int|
                0 <= i < r.spec_files().len() && 0 <= k < r.spec_files()[i].symbol_count implies #[trigger] r.spec_symbols()[
                r.spec_files()[i].symbol_start + k].id == GlobalSymbolId {
                    file_id: SourceFileId(i as usize),
                    symbol_id: SymbolId(k as usize),
                } by {
                lemma_starts_monotone(pruned, i);
                assert(pruned.spec_symbols()[pruned.spec_files()[i].symbol_start + k].id == GlobalSymbolId {
                    file_id: SourceFileId(i as usize),
                    symbol_id: SymbolId(k as usize),
                });
            }
        }
        r
    }


    /// Number of files of the first `n` indexes.
    pub open spec fn files_before(indexes: Seq<SymbolIndex>, n: int) -> int
        decreases n,
    {
        if n <= 0 {
            0
        } else {
            Self::files_before(indexes, n - 1) + indexes[n - 1].spec_files().len()
        }
    }

    /// Number of symbols of the first `n` indexes.
    pub open spec fn symbols_before(indexes: Seq<SymbolIndex>, n: int) -> int
        decreases n,
    {
        if n <= 0 {
            0
        } else {
            Self::symbols_before(indexes, n - 1) + indexes[n - 1].spec_symbols().len()
        }
    }

    /// `result` holds the files and symbols of all `indexes`, in order, each
    /// unchanged but for ids and links.
    pub open spec fn is_merge_of(result: SymbolIndex, indexes: Seq<SymbolIndex>) -> bool {
        &&& result.consistent()
        &&& result.spec_files().len() == Self::files_before(indexes, indexes.len() as int)
        &&& result.spec_symbols().len() == Self::symbols_before(indexes, indexes.len() as int)
        &&& Self::merged_files_agree(result, indexes, indexes.len() as int)
        &&& Self::merged_symbols_agree(result, indexes, indexes.len() as int)
    }

    /// The declarations of file `f`, numbered from zero as in the file,
    /// with parent links kept as file-local ids.
    #[verifier::rlimit(30)]
    fn records_of_file(&self, f: usize) -> (records: Vec<DeclarationRecord>)
        requires
            self.consistent(),
            f < self.spec_files().len(),
        ensures
            records_well_numbered(records@),
            records@.len() == self.spec_files()[f as int].symbol_count,
            forall|d: int|
                0 <= d < records@.len() ==> same_body(
                    record_symbol(#[trigger] records@[d], SourceFileId(0)),
                    self.spec_symbols()[self.spec_files()[f as int].symbol_start + d],
                ) && records@[d].parent == local_parent(
                    self.spec_symbols()[self.spec_files()[f as int].symbol_start + d],
                ),
    {
        let start = self.files[f].symbol_start;
        let count = self.files[f].symbol_count;
        proof {
            lemma_starts_monotone(*self, f as int);
        }
        let n = self.symbols.len();
        let mut records: Vec<DeclarationRecord> = Vec::new();
        let mut k: usize = 0;
        while k < count
            invariant
                self.consistent(),
                n == self.spec_symbols().len(),
                f < self.spec_files().len(),
                start == self.spec_files()[f as int].symbol_start,
                count == self.spec_files()[f as int].symbol_count,
                start + count <= self.spec_symbols().len(),
                k <= count,
                records@.len() == k,
                forall|d: int|
                    0 <= d < k ==> (#[trigger] records@[d]).id == SymbolId(d as usize) && (
                    records@[d].parent matches Some(pp) ==> pp.0 < count) && same_body(
                        record_symbol(records@[d], SourceFileId(0)),
                        self.spec_symbols()[start + d],
                    ) && records@[d].parent == local_parent(self.spec_symbols()[start + d]),
            decreases count - k,
        {
            let sym = &self.symbols[start + k];
            proof {
                let j = start + k;
                assert(self.spec_symbols()[j].id == GlobalSymbolId {
                    file_id: SourceFileId(f as usize),
                    symbol_id: SymbolId(k as usize),
                });
                if let Some(p) = sym.parent {
                    assert(self.spec_symbol(p) is Some);
                    assert(p.file_id == SourceFileId(f as usize));
                }
            }
            let parent: Option<SymbolId> = match sym.parent {
                Some(p) => Some(p.symbol_id),
                None => None,
            };
            records.push(DeclarationRecord {
                id: SymbolId(k),
                parent,
                kind: sym.kind,
                name: copy_opt_string(&sym.name),
                span: sym.span,
                selection_span: sym.selection_span,
                detail: copy_detail(&sym.detail),
                attributes: copy_attributes(&sym.attributes),
                modifiers: copy_strings(&sym.modifiers),
                doc_comments: copy_doc_comments(&sym.doc_comments),
                conditional_context: copy_branches(&sym.conditional_context),
                callable_form: sym.callable_form,
            });
            k = k + 1;
        }
        records
    }

    /// Appends all files of `index`, in order, after the files already here.
    #[verifier::rlimit(40)]
    fn append_index(&mut self, index: &SymbolIndex)
        requires
            old(self).consistent(),
            index.consistent(),
            old(self).spec_files().len() + index.spec_files().len() < usize::MAX,
            old(self).spec_symbols().len() + index.spec_symbols().len() <= usize::MAX,
        ensures
            final(self).consistent(),
            final(self).spec_files().len() == old(self).spec_files().len() + index.spec_files().len(),
            final(self).spec_symbols().len() == old(self).spec_symbols().len() + index.spec_symbols().len(),
            forall|i: int|
                0 <= i < old(self).spec_files().len() ==> #[trigger] final(self).spec_files()[i] == old(
                    self,
                ).spec_files()[i],
            forall|j: int|
                0 <= j < old(self).spec_symbols().len() ==> #[trigger] final(self).spec_symbols()[j] == old(
                    self,
                ).spec_symbols()[j],
            forall|g: int|
                0 <= g < index.spec_files().len() ==> #[trigger] final(self).spec_files()[old(
                    self,
                ).spec_files().len() + g].metadata == index.spec_files()[g].metadata,
            forall|j: int|
                0 <= j < index.spec_symbols().len() ==> same_body(
                    #[trigger] final(self).spec_symbols()[old(self).spec_symbols().len() + j],
                    index.spec_symbols()[j],
                ) && local_parent(final(self).spec_symbols()[old(self).spec_symbols().len() + j])
                    == local_parent(index.spec_symbols()[j]),
    {
        let ghost before = *old(self);
        let ghost fb = before.spec_files().len();
        let ghost sb = before.spec_symbols().len();
        let mut f: usize = 0;
        while f < index.files.len()
            invariant
                index.consistent(),
                fb == before.spec_files().len(),
                sb == before.spec_symbols().len(),
                fb + index.spec_files().len() < usize::MAX,
                sb + index.spec_symbols().len() <= usize::MAX,
                f <= index.spec_files().len(),
                self.consistent(),
                self.spec_files().len() == fb + f,
                self.spec_symbols().len() == sb + (if f == 0 {
                    0
                } else {
                    index.spec_files()[f - 1].symbol_start + index.spec_files()[f - 1].symbol_count
                }),
                forall|i: int| 0 <= i < fb ==> #[trigger] self.spec_files()[i] == before.spec_files()[i],
                forall|j: int| 0 <= j < sb ==> #[trigger] self.spec_symbols()[j] == before.spec_symbols()[j],
                forall|g: int|
                    0 <= g < f ==> #[trigger] self.spec_files()[fb + g].metadata == index.spec_files()[g].metadata,
                forall|j: int|
                    0 <= j < self.spec_symbols().len() - sb ==> same_body(
                        #[trigger] self.spec_symbols()[sb + j],
                        index.spec_symbols()[j],
                    ) && local_parent(self.spec_symbols()[sb + j]) == local_parent(index.spec_symbols()[j]),
            decreases index.spec_files().len() - f,
        {
            proof {
                lemma_starts_monotone(*index, f as int);
                if f > 0 {
                    assert(index.spec_files()[f as int].symbol_start == index.spec_files()[f - 1].symbol_start
                        + index.spec_files()[f - 1].symbol_count);
                } else {
                    assert(index.spec_files()[0].symbol_start == 0);
                }
            }
            let records = index.records_of_file(f);
            let ghost recs = records@;
            let ghost prev = *self;
            let ghost start = index.spec_files()[f as int].symbol_start;
            let fid = self.add_declarations(
                copy_metadata(&index.files[f].metadata),
                records,
                index.files[f].non_declaration_callable_fragments,
            );
            proof {
                assert forall|j: int| 0 <= j < self.spec_symbols().len() - sb implies same_body(
                    #[trigger] self.spec_symbols()[sb + j],
                    index.spec_symbols()[j],
                ) && local_parent(self.spec_symbols()[sb + j]) == local_parent(index.spec_symbols()[j]) by {
                    if sb + j < prev.spec_symbols().len() {
                        assert(self.spec_symbols()[sb + j] == prev.spec_symbols()[sb + j]);
                    } else {
                        let d = sb + j - prev.spec_symbols().len();
                        assert(self.spec_symbols()[sb + j] == record_symbol(recs[d], fid));
                        assert(same_body(record_symbol(recs[d], SourceFileId(0)), index.spec_symbols()[start + d]));
                        assert(recs[d].parent == local_parent(index.spec_symbols()[start + d]));
                    }
                }
                assert forall|g: int| 0 <= g < f + 1 implies #[trigger] self.spec_files()[fb + g].metadata
                    == index.spec_files()[g].metadata by {
                    if g < f {
                        assert(self.spec_files()[fb + g] == prev.spec_files()[fb + g]);
                    }
                }
                assert forall|i: int| 0 <= i < fb implies #[trigger] self.spec_files()[i] == before.spec_files()[i] by {
                    assert(self.spec_files()[i] == prev.spec_files()[i]);
                }
                assert forall|j: int| 0 <= j < sb implies #[trigger] self.spec_symbols()[j] == before.spec_symbols()[j] by {
                    assert(self.spec_symbols()[j] == prev.spec_symbols()[j]);
                }
            }
            f = f + 1;
        }
        proof {
            if index.spec_files().len() > 0 {
                assert(index.spec_files().last().symbol_start + index.spec_files().last().symbol_count
                    == index.spec_symbols().len());
            } else {
                assert(index.spec_symbols().len() == 0);
            }
        }
    }

    /// One index holding all files of `indexes`, in order; each file's
    /// symbols keep their file-local ids and parent links.
    #[verifier::rlimit(40)]
    pub fn merged(indexes: &[&SymbolIndex]) -> (r: Self)
        requires
            forall|a: int| 0 <= a < indexes@.len() ==> (#[trigger] indexes@[a]).consistent(),
            Self::files_before(indexes@.map_values(|x: &SymbolIndex| *x), indexes@.len() as int) < usize::MAX,
            Self::symbols_before(indexes@.map_values(|x: &SymbolIndex| *x), indexes@.len() as int) <= usize::MAX,
        ensures
            Self::is_merge_of(r, indexes@.map_values(|x: &SymbolIndex| *x)),
    {
        let ghost ixs = indexes@.map_values(|x: &SymbolIndex| *x);
        let mut result = SymbolIndex::new();
        let mut a: usize = 0;
        proof {
            Self::lemma_before_monotone(ixs, 0, ixs.len() as int);
        }
        while a < indexes.len()
            invariant
                ixs == indexes@.map_values(|x: &SymbolIndex| *x),
                a <= ixs.len(),
                forall|b: int| 0 <= b < ixs.len() ==> (#[trigger] ixs[b]).consistent(),
                Self::files_before(ixs, ixs.len() as int) < usize::MAX,
                Self::symbols_before(ixs, ixs.len() as int) <= usize::MAX,
                result.consistent(),
                result.spec_files().len() == Self::files_before(ixs, a as int),
                result.spec_symbols().len() == Self::symbols_before(ixs, a as int),
                Self::merged_files_agree(result, ixs, a as int),
                Self::merged_symbols_agree(result, ixs, a as int),
            decreases ixs.len() - a,
        {
            let index: &SymbolIndex = indexes[a];
            assert(*index == ixs[a as int]);
            let ghost before_a = result;
            proof {
                Self::lemma_before_monotone(ixs, a as int + 1, ixs.len() as int);
            }
            result.append_index(index);
            proof {
                assert forall|b: int, g: int|
                    0 <= b < a + 1 && 0 <= g < ixs[b].spec_files().len() implies #[trigger] result.spec_files()[
                    Self::files_before(ixs, b) + g].metadata == ixs[b].spec_files()[g].metadata by {
                    if b < a {
                        Self::lemma_before_monotone(ixs, b + 1, a as int);
                        Self::lemma_before_nonneg(ixs, b);
                        assert(result.spec_files()[Self::files_before(ixs, b) + g] == before_a.spec_files()[
                            Self::files_before(ixs, b) + g]);
                    }
                }
                assert forall|b: int, j: int|
                    0 <= b < a + 1 && 0 <= j < ixs[b].spec_symbols().len() implies same_body(
                        #[trigger] result.spec_symbols()[Self::symbols_before(ixs, b) + j],
                        ixs[b].spec_symbols()[j],
                    ) && local_parent(result.spec_symbols()[Self::symbols_before(ixs, b) + j]) == local_parent(
                        ixs[b].spec_symbols()[j],
                    ) by {
                    if b < a {
                        Self::lemma_before_monotone(ixs, b + 1, a as int);
                        Self::lemma_before_nonneg(ixs, b);
                        assert(result.spec_symbols()[Self::symbols_before(ixs, b) + j] == before_a.spec_symbols()[
                            Self::symbols_before(ixs, b) + j]);
                    }
                }
            }
            a = a + 1;
        }
        result
    }

    /// The files of `result` at the places of the first `n` indexes carry
    /// those indexes' metadata.
    pub open spec fn merged_files_agree(result: SymbolIndex, indexes: Seq<SymbolIndex>, n: int) -> bool {
        forall|b: int, g: int|
            0 <= b < n && 0 <= g < indexes[b].spec_files().len() ==> #[trigger] result.spec_files()[
            Self::files_before(indexes, b) + g].metadata == indexes[b].spec_files()[g].metadata
    }

    /// The symbols of `result` at the places of the first `n` indexes are
    /// those indexes' symbols, with the same file-local parent links.
    pub open spec fn merged_symbols_agree(result: SymbolIndex, indexes: Seq<SymbolIndex>, n: int) -> bool {
        forall|b: int, j: int|
            0 <= b < n && 0 <= j < indexes[b].spec_symbols().len() ==> same_body(
                #[trigger] result.spec_symbols()[Self::symbols_before(indexes, b) + j],
                indexes[b].spec_symbols()[j],
            ) && local_parent(result.spec_symbols()[Self::symbols_before(indexes, b) + j]) == local_parent(
                indexes[b].spec_symbols()[j],
            )
    }

    pub proof fn lemma_before_monotone(indexes: Seq<SymbolIndex>, m: int, n: int)
        requires
            0 <= m <= n <= indexes.len(),
        ensures
            Self::files_before(indexes, m) <= Self::files_before(indexes, n),
            Self::symbols_before(indexes, m) <= Self::symbols_before(indexes, n),
            Self::files_before(indexes, m) >= 0,
            Self::symbols_before(indexes, m) >= 0,
            Self::files_before(indexes, m) + (if m < n { indexes[m].spec_files().len() as int } else { 0 })
                <= Self::files_before(indexes, n),
            Self::symbols_before(indexes, m) + (if m < n { indexes[m].spec_symbols().len() as int } else { 0 })
                <= Self::symbols_before(indexes, n),
        decreases n - m,
    {
        if m < n {
            Self::lemma_before_monotone(indexes, m, n - 1);
            Self::lemma_before_nonneg(indexes, m);
            if m < n - 1 {
                Self::lemma_before_monotone(indexes, m + 1, n - 1);
            }
        } else {
            Self::lemma_before_nonneg(indexes, m);
        }
    }

    pub proof fn lemma_before_nonneg(indexes: Seq<SymbolIndex>, m: int)
        requires
            0 <= m <= indexes.len(),
        ensures
            Self::files_before(indexes, m) >= 0,
            Self::symbols_before(indexes, m) >= 0,
        decreases m,
    {
        if m > 0 {
            Self::lemma_before_nonneg(indexes, m - 1);
        }
    }

    /// A copy of the index without local variables (see `is_pruned_copy`).
    pub fn without_local_variables(&self) -> (r: Self)
        requires
            self.consistent(),
        ensures
            self.is_pruned_copy(r, SymbolKind::LocalVariable),
    {
        self.without_symbol_kind(SymbolKind::LocalVariable)
    }
}

} // verus!
