//! Plain data that describes declarations and the files that hold them.
//!
//! These types are shared by the symbol index, the expression typing helpers
//! and the formatting operations.  They carry no behaviour beyond small,
//! fully specified constructors and classifiers.
use vstd::prelude::*;

verus! {

/// A half-open byte range `start..end` into one source text.
#[derive(Debug, Clone, Copy, PartialEq, Eq, Structural, Hash)]
pub struct TextSpan {
    pub start: usize,
    pub end: usize,
}

impl TextSpan {
    pub fn new(start: usize, end: usize) -> (span: Self)
        ensures
            span.start == start,
            span.end == end,
    {
        TextSpan { start, end }
    }

    /// The number of bytes covered (zero for an inverted span).
    pub fn len(&self) -> (n: usize)
        ensures
            n == (if self.start <= self.end { self.end - self.start } else { 0 }),
    {
        if self.start <= self.end {
            self.end - self.start
        } else {
            0
        }
    }

    /// Whether the span covers no byte.
    pub fn is_empty(&self) -> (r: bool)
        ensures
            r == (self.end <= self.start),
    {
        self.end <= self.start
    }
}

/// File-local identity of a declaration, in declaration order.
#[derive(Debug, Clone, Copy, PartialEq, Eq, Structural, Hash)]
pub struct SymbolId(pub usize);

/// The syntactic role of an indexed declaration.
#[derive(Debug, Clone, Copy, PartialEq, Eq, Structural, Hash)]
pub enum SymbolKind {
    Class,
    TypeParameter,
    Enum,
    EnumMember,
    Typedef,
    Function,
    GlobalField,
    Field,
    Method,
    Constructor,
    Destructor,
    Parameter,
    LocalVariable,
    PreprocessorMacro,
}

/// Where a source file comes from.
#[derive(Debug, Clone, Copy, PartialEq, Eq, Structural, Hash)]
pub enum SourceKind {
    GameData,
    Workspace,
    Unknown,
}

/// Coarse grouping of a file by its location inside its root.
#[derive(Debug, Clone, Copy, PartialEq, Eq, Structural, Hash)]
pub enum SourceCategory {
    Core,
    Game,
    GameCode,
    GameLib,
    Workbench,
    DocsDoxygen,
    Generated,
    TestAutotest,
    Workspace,
    Unknown,
}

/// Whether a callable declaration carries a body, is a bare declaration, or a
/// prototype.
#[derive(Debug, Clone, Copy, PartialEq, Eq, Structural, Hash)]
pub enum CallableForm {
    Implementation,
    Declaration,
    Prototype,
}

/// The directive that opened a conditional-compilation branch.
#[derive(Debug, Clone, Copy, PartialEq, Eq, Structural, Hash)]
pub enum PreprocessorBranchKind {
    If,
    Ifdef,
    Ifndef,
    Elif,
    Else,
}

/// Whether a documentation comment is a line (`//!`, `///`) or block comment.
#[derive(Debug, Clone, Copy, PartialEq, Eq, Structural, Hash)]
pub enum DocCommentKind {
    Line,
    Block,
}

/// Ranking of game data sources: lower than any workspace source.
pub const SOURCE_PRIORITY_GAME_DATA: u16 = 100;

/// Ranking of workspace sources: preferred over game data.
pub const SOURCE_PRIORITY_WORKSPACE: u16 = 200;

/// Identity and ranking of one indexed source file.
#[derive(Debug, Clone, PartialEq, Eq)]
pub struct SourceFileMetadata {
    pub kind: SourceKind,
    pub category: SourceCategory,
    pub absolute_path: Option<String>,
    pub root_path: Option<String>,
    pub relative_path: Option<String>,
    pub priority: u16,
}

impl SourceFileMetadata {
    /// Metadata for a file of unknown origin: no paths and the lowest rank.
    pub fn unknown() -> (metadata: Self)
        ensures
            metadata.kind == SourceKind::Unknown,
            metadata.category == SourceCategory::Unknown,
            metadata.absolute_path is None,
            metadata.root_path is None,
            metadata.relative_path is None,
            metadata.priority == 0,
    {
        SourceFileMetadata {
            kind: SourceKind::Unknown,
            category: SourceCategory::Unknown,
            absolute_path: None,
            root_path: None,
            relative_path: None,
            priority: 0,
        }
    }
}

} // verus!
