//! Command-line options of the server: the mode (language server, MCP
//! server, MCP API reference or help) and each mode's options.
use vstd::prelude::*;
use crate::text::{str_eq, string_push_str, to_owned_string};

verus! {

/// How brackets are colored by the language server.
#[derive(Debug, Clone, Copy, PartialEq, Eq, Structural)]
pub enum BracketColoringMode {
    Semantic,
    Punctuation,
    VsCode,
}

/// Where the game data catalogue reads from and caches to.
#[derive(Debug, Clone, PartialEq, Eq)]
pub struct GameDataCatalogueConfig {
    pub scripts_root: Option<String>,
    pub metadata_path: Option<String>,
    pub cache_path: Option<String>,
}

/// Options of the language server mode.
#[derive(Debug, Clone, PartialEq, Eq)]
pub struct LspServerOptions {
    pub log_path: Option<String>,
    pub diagnostic_log_path: Option<String>,
    pub game_data_scripts: Option<String>,
    pub game_data_metadata: Option<String>,
    pub index_cache: Option<String>,
    pub workspace_scripts: Vec<String>,
    pub bracket_coloring: BracketColoringMode,
}

/// Options of the MCP server mode.
#[derive(Debug, Clone, PartialEq, Eq)]
pub struct McpServerOptions {
    pub game_data: GameDataCatalogueConfig,
}

/// What the server was asked to do.
#[derive(Debug, Clone, PartialEq, Eq)]
pub enum ServerMode {
    Lsp(LspServerOptions),
    Mcp(McpServerOptions),
    McpApi,
    Help,
}

/// The characters of optional text.
pub open spec fn opt_view(s: Option<String>) -> Option<Seq<char>> {
    match s {
        Some(t) => Some(t@),
        None => None,
    }
}

/// The language server options as character sequences.
pub struct LspView {
    pub log_path: Option<Seq<char>>,
    pub diagnostic_log_path: Option<Seq<char>>,
    pub game_data_scripts: Option<Seq<char>>,
    pub game_data_metadata: Option<Seq<char>>,
    pub index_cache: Option<Seq<char>>,
    pub workspace_scripts: Seq<Seq<char>>,
    pub bracket_coloring: BracketColoringMode,
}

/// The MCP options as character sequences.
pub struct McpView {
    pub scripts_root: Option<Seq<char>>,
    pub metadata_path: Option<Seq<char>>,
    pub cache_path: Option<Seq<char>>,
}

/// A server mode as character sequences.
pub enum ModeView {
    Lsp(LspView),
    Mcp(McpView),
    McpApi,
    Help,
}

impl LspServerOptions {
    pub open spec fn view(&self) -> LspView {
        LspView {
            log_path: opt_view(self.log_path),
            diagnostic_log_path: opt_view(self.diagnostic_log_path),
            game_data_scripts: opt_view(self.game_data_scripts),
            game_data_metadata: opt_view(self.game_data_metadata),
            index_cache: opt_view(self.index_cache),
            workspace_scripts: self.workspace_scripts@.map_values(|s: String| s@),
            bracket_coloring: self.bracket_coloring,
        }
    }

    /// No paths, no workspace roots and semantic bracket coloring.
    pub fn default() -> (r: Self)
        ensures
            r.view() == default_lsp_view(),
    {
        let r = LspServerOptions {
            log_path: None,
            diagnostic_log_path: None,
            game_data_scripts: None,
            game_data_metadata: None,
            index_cache: None,
            workspace_scripts: Vec::new(),
            bracket_coloring: BracketColoringMode::Semantic,
        };
        assert(r.view().workspace_scripts =~= Seq::<Seq<char>>::empty());
        r
    }
}

impl McpServerOptions {
    pub open spec fn view(&self) -> McpView {
        McpView {
            scripts_root: opt_view(self.game_data.scripts_root),
            metadata_path: opt_view(self.game_data.metadata_path),
            cache_path: opt_view(self.game_data.cache_path),
        }
    }
}

impl ServerMode {
    pub open spec fn view(&self) -> ModeView {
        match self {
            ServerMode::Lsp(o) => ModeView::Lsp(o.view()),
            ServerMode::Mcp(o) => ModeView::Mcp(o.view()),
            ServerMode::McpApi => ModeView::McpApi,
            ServerMode::Help => ModeView::Help,
        }
    }
}

/// The options before any argument is read.
pub open spec fn default_lsp_view() -> LspView {
    LspView {
        log_path: None,
        diagnostic_log_path: None,
        game_data_scripts: None,
        game_data_metadata: None,
        index_cache: None,
        workspace_scripts: Seq::empty(),
        bracket_coloring: BracketColoringMode::Semantic,
    }
}

/// `s` starts with `-`.
pub open spec fn starts_with_dash(s: Seq<char>) -> bool {
    s.len() > 0 && s[0] == '-'
}

/// `s` starts with `--`.
pub open spec fn starts_with_two_dashes(s: Seq<char>) -> bool {
    s.len() >= 2 && s[0] == '-' && s[1] == '-'
}

/// The value after the flag at position `i`: the next argument, unless it
/// is missing, empty or another `--` option.
pub open spec fn flag_value(args: Seq<Seq<char>>, i: int, flag: Seq<char>) -> Result<Seq<char>, Seq<char>> {
    if i + 1 >= args.len() || args[i + 1].len() == 0 || starts_with_two_dashes(args[i + 1]) {
        Err("missing value for "@ + flag)
    } else {
        Ok(args[i + 1])
    }
}

/// The bracket coloring named by `value`.
pub open spec fn bracket_mode(value: Seq<char>) -> Option<BracketColoringMode> {
    if value == "semantic"@ {
        Some(BracketColoringMode::Semantic)
    } else if value == "punctuation"@ {
        Some(BracketColoringMode::Punctuation)
    } else if value == "vscode"@ {
        Some(BracketColoringMode::VsCode)
    } else {
        None
    }
}

/// Language server options read from `args[i..]`, starting from `o`.
pub open spec fn lsp_args(args: Seq<Seq<char>>, i: int, o: LspView) -> Result<LspView, Seq<char>>
    decreases args.len() - i,
{
    if i < 0 || i >= args.len() {
        Ok(o)
    } else {
        let a = args[i];
        if a == "--stdio"@ {
            lsp_args(args, i + 1, o)
        } else if a == "--log"@ || a == "--diagnostic-log"@ || a == "--game-data-scripts"@ || a
            == "--game-data-metadata"@ || a == "--index-cache"@ || a == "--workspace-scripts"@ {
            match flag_value(args, i, a) {
                Err(e) => Err(e),
                Ok(v) => {
                    let o2 = if a == "--log"@ {
                        LspView { log_path: Some(v), ..o }
                    } else if a == "--diagnostic-log"@ {
                        LspView { diagnostic_log_path: Some(v), ..o }
                    } else if a == "--game-data-scripts"@ {
                        LspView { game_data_scripts: Some(v), ..o }
                    } else if a == "--game-data-metadata"@ {
                        LspView { game_data_metadata: Some(v), ..o }
                    } else if a == "--index-cache"@ {
                        LspView { index_cache: Some(v), ..o }
                    } else {
                        LspView { workspace_scripts: o.workspace_scripts.push(v), ..o }
                    };
                    lsp_args(args, i + 2, o2)
                },
            }
        } else if a == "--bracket-coloring"@ {
            match flag_value(args, i, a) {
                Err(e) => Err(e),
                Ok(v) => match bracket_mode(v) {
                    Some(m) => lsp_args(args, i + 2, LspView { bracket_coloring: m, ..o }),
                    None => Err("invalid value for --bracket-coloring: "@ + v),
                },
            }
        } else {
            Err("unknown LSP argument '"@ + a + "'"@)
        }
    }
}

/// MCP options read from `args[i..]`, starting from `o`.
pub open spec fn mcp_args(args: Seq<Seq<char>>, i: int, o: McpView) -> Result<McpView, Seq<char>>
    decreases args.len() - i,
{
    if i < 0 || i >= args.len() {
        Ok(o)
    } else {
        let a = args[i];
        if a == "--game-data-scripts"@ || a == "--game-data-metadata"@ || a == "--index-cache"@ {
            match flag_value(args, i, a) {
                Err(e) => Err(e),
                Ok(v) => {
                    let o2 = if a == "--game-data-scripts"@ {
                        McpView { scripts_root: Some(v), ..o }
                    } else if a == "--game-data-metadata"@ {
                        McpView { metadata_path: Some(v), ..o }
                    } else {
                        McpView { cache_path: Some(v), ..o }
                    };
                    mcp_args(args, i + 2, o2)
                },
            }
        } else {
            Err("unknown MCP argument '"@ + a + "'"@)
        }
    }
}

/// The mode and options that the arguments (without the program name)
/// select, or the message of the first problem.
pub open spec fn spec_parse_args(args: Seq<Seq<char>>) -> Result<ModeView, Seq<char>> {
    if args.len() > 0 && args[0] == "mcp"@ {
        match mcp_args(args, 1, McpView { scripts_root: None, metadata_path: None, cache_path: None }) {
            Ok(o) => Ok(ModeView::Mcp(o)),
            Err(e) => Err(e),
        }
    } else if args.len() > 0 && args[0] == "mcp-api"@ {
        if args.len() > 1 {
            Err("unexpected argument for mcp-api mode: "@ + args[1])
        } else {
            Ok(ModeView::McpApi)
        }
    } else if args.len() > 0 && (args[0] == "--help"@ || args[0] == "-h"@) {
        if args.len() > 1 {
            Err("unexpected argument after help flag: "@ + args[1])
        } else {
            Ok(ModeView::Help)
        }
    } else if args.len() > 0 && !starts_with_dash(args[0]) {
        Err("unknown mode '"@ + args[0] + "'"@)
    } else {
        match lsp_args(args, 0, default_lsp_view()) {
            Ok(o) => Ok(ModeView::Lsp(o)),
            Err(e) => Err(e),
        }
    }
}

/// Each path flag of the language server stores the value after it in the
/// option of the same name (`--workspace-scripts` adds it to the workspace
/// roots) and leaves every other option as it was; reading then goes on
/// after the value.
pub proof fn lemma_path_flag_sets_its_option(args: Seq<Seq<char>>, i: int, o: LspView)
    requires
        0 <= i,
        i + 1 < args.len(),
        args[i + 1].len() > 0,
        !starts_with_two_dashes(args[i + 1]),
    ensures
        args[i] == "--log"@ ==> lsp_args(args, i, o) == lsp_args(
            args,
            i + 2,
            LspView { log_path: Some(args[i + 1]), ..o },
        ),
        args[i] == "--diagnostic-log"@ ==> lsp_args(args, i, o) == lsp_args(
            args,
            i + 2,
            LspView { diagnostic_log_path: Some(args[i + 1]), ..o },
        ),
        args[i] == "--game-data-scripts"@ ==> lsp_args(args, i, o) == lsp_args(
            args,
            i + 2,
            LspView { game_data_scripts: Some(args[i + 1]), ..o },
        ),
        args[i] == "--game-data-metadata"@ ==> lsp_args(args, i, o) == lsp_args(
            args,
            i + 2,
            LspView { game_data_metadata: Some(args[i + 1]), ..o },
        ),
        args[i] == "--index-cache"@ ==> lsp_args(args, i, o) == lsp_args(
            args,
            i + 2,
            LspView { index_cache: Some(args[i + 1]), ..o },
        ),
        args[i] == "--workspace-scripts"@ ==> lsp_args(args, i, o) == lsp_args(
            args,
            i + 2,
            LspView { workspace_scripts: o.workspace_scripts.push(args[i + 1]), ..o },
        ),
{
    reveal_strlit("--stdio");
    reveal_strlit("--log");
    reveal_strlit("--diagnostic-log");
    reveal_strlit("--game-data-scripts");
    reveal_strlit("--game-data-metadata");
    reveal_strlit("--index-cache");
    reveal_strlit("--workspace-scripts");
    assert("--game-data-scripts"@[2] != "--workspace-scripts"@[2]);
    assert("--game-data-scripts"@ != "--workspace-scripts"@);
    assert("--log"@ != "--stdio"@);
}

/// Each MCP path flag stores the value after it in its own option
/// (`--game-data-scripts` the scripts root, `--game-data-metadata` the
/// metadata path, `--index-cache` the cache path) and leaves the others as
/// they were; reading then goes on after the value.
pub proof fn lemma_mcp_flag_sets_its_option(args: Seq<Seq<char>>, i: int, o: McpView)
    requires
        0 <= i,
        i + 1 < args.len(),
        args[i + 1].len() > 0,
        !starts_with_two_dashes(args[i + 1]),
    ensures
        args[i] == "--game-data-scripts"@ ==> mcp_args(args, i, o) == mcp_args(
            args,
            i + 2,
            McpView { scripts_root: Some(args[i + 1]), ..o },
        ),
        args[i] == "--game-data-metadata"@ ==> mcp_args(args, i, o) == mcp_args(
            args,
            i + 2,
            McpView { metadata_path: Some(args[i + 1]), ..o },
        ),
        args[i] == "--index-cache"@ ==> mcp_args(args, i, o) == mcp_args(
            args,
            i + 2,
            McpView { cache_path: Some(args[i + 1]), ..o },
        ),
{
    reveal_strlit("--game-data-scripts");
    reveal_strlit("--game-data-metadata");
    reveal_strlit("--index-cache");
    assert("--game-data-scripts"@.len() == 19 && "--game-data-metadata"@.len() == 20 && "--index-cache"@.len() == 13);
    assert("--game-data-scripts"@ != "--game-data-metadata"@);
    assert("--game-data-scripts"@ != "--index-cache"@);
    assert("--game-data-metadata"@ != "--index-cache"@);
}

/// `--bracket-coloring` takes `semantic`, `punctuation` or `vscode` and
/// selects that coloring; any other value is refused with a message that
/// names it.
pub proof fn lemma_bracket_coloring_flag(args: Seq<Seq<char>>, i: int, o: LspView)
    requires
        0 <= i,
        i + 1 < args.len(),
        args[i] == "--bracket-coloring"@,
        args[i + 1].len() > 0,
        !starts_with_two_dashes(args[i + 1]),
    ensures
        args[i + 1] == "semantic"@ ==> lsp_args(args, i, o) == lsp_args(
            args,
            i + 2,
            LspView { bracket_coloring: BracketColoringMode::Semantic, ..o },
        ),
        args[i + 1] == "punctuation"@ ==> lsp_args(args, i, o) == lsp_args(
            args,
            i + 2,
            LspView { bracket_coloring: BracketColoringMode::Punctuation, ..o },
        ),
        args[i + 1] == "vscode"@ ==> lsp_args(args, i, o) == lsp_args(
            args,
            i + 2,
            LspView { bracket_coloring: BracketColoringMode::VsCode, ..o },
        ),
        args[i + 1] != "semantic"@ && args[i + 1] != "punctuation"@ && args[i + 1] != "vscode"@ ==> lsp_args(
            args,
            i,
            o,
        ) == Err::<LspView, Seq<char>>("invalid value for --bracket-coloring: "@ + args[i + 1]),
{
    reveal_strlit("--stdio");
    reveal_strlit("--log");
    reveal_strlit("--diagnostic-log");
    reveal_strlit("--game-data-scripts");
    reveal_strlit("--game-data-metadata");
    reveal_strlit("--index-cache");
    reveal_strlit("--workspace-scripts");
    reveal_strlit("--bracket-coloring");
    reveal_strlit("semantic");
    reveal_strlit("punctuation");
    reveal_strlit("vscode");
    assert("--bracket-coloring"@.len() == 18);
    assert("--stdio"@.len() == 7 && "--log"@.len() == 5 && "--diagnostic-log"@.len() == 16
        && "--game-data-scripts"@.len() == 19 && "--game-data-metadata"@.len() == 20 && "--index-cache"@.len() == 13
        && "--workspace-scripts"@.len() == 19);
    assert("semantic"@.len() == 8 && "punctuation"@.len() == 11 && "vscode"@.len() == 6);
}

/// A lone metadata path selects the language server with that metadata
/// path and every other option at its default.
pub proof fn lemma_metadata_flag_alone(value: Seq<char>)
    requires
        value.len() > 0,
        !starts_with_two_dashes(value),
    ensures
        spec_parse_args(seq!["--game-data-metadata"@, value]) == Ok::<ModeView, Seq<char>>(
            ModeView::Lsp(LspView { game_data_metadata: Some(value), ..default_lsp_view() }),
        ),
{
    let args = seq!["--game-data-metadata"@, value];
    reveal_strlit("--game-data-metadata");
    reveal_strlit("mcp");
    reveal_strlit("mcp-api");
    reveal_strlit("--help");
    reveal_strlit("-h");
    assert(args[0] == "--game-data-metadata"@);
    assert(args[0].len() == 20);
    assert("mcp"@.len() == 3 && "mcp-api"@.len() == 7 && "--help"@.len() == 6 && "-h"@.len() == 2);
    assert(args[0] != "mcp"@ && args[0] != "mcp-api"@ && args[0] != "--help"@ && args[0] != "-h"@);
    assert(starts_with_dash(args[0]));
    lemma_path_flag_sets_its_option(args, 0, default_lsp_view());
    let o = LspView { game_data_metadata: Some(value), ..default_lsp_view() };
    assert(lsp_args(args, 2, o) == Ok::<LspView, Seq<char>>(o));
}

/// The views of the arguments.
pub open spec fn arg_views(args: Seq<String>) -> Seq<Seq<char>> {
    args.map_values(|s: String| s@)
}

/// `prefix` followed by `value`.
fn message(prefix: &str, value: &str) -> (r: String)
    ensures
        r@ == prefix@ + value@,
{
    let mut r = to_owned_string(prefix);
    string_push_str(&mut r, value);
    r
}

/// `prefix`, `value` and a closing quote.
fn quoted_message(prefix: &str, value: &str) -> (r: String)
    ensures
        r@ == prefix@ + value@ + "'"@,
{
    let mut r = message(prefix, value);
    string_push_str(&mut r, "'");
    r
}

fn starts_with_char(s: &str, c: char) -> (r: bool)
    ensures
        r == (s@.len() > 0 && s@[0] == c),
{
    let chars = crate::text::chars_of(s);
    chars.len() > 0 && chars[0] == c
}

/// The value after the flag at `i`.
fn string_value(args: &[String], i: usize, flag: &str) -> (r: Result<String, String>)
    requires
        i < args@.len(),
        flag@ == args@[i as int]@,
    ensures
        match r {
            Ok(v) => flag_value(arg_views(args@), i as int, flag@) == Ok::<Seq<char>, Seq<char>>(v@),
            Err(e) => flag_value(arg_views(args@), i as int, flag@) == Err::<Seq<char>, Seq<char>>(e@),
        },
{
    if i >= args.len() - 1 {
        return Err(message("missing value for ", flag));
    }
    let value = args[i + 1].as_str();
    let chars = crate::text::chars_of(value);
    assert(arg_views(args@)[i + 1] == value@);
    if chars.len() == 0 || (chars.len() >= 2 && chars[0] == '-' && chars[1] == '-') {
        return Err(message("missing value for ", flag));
    }
    Ok(to_owned_string(value))
}

fn parse_lsp_args(args: &[String], start: usize) -> (r: Result<LspServerOptions, String>)
    requires
        start <= args@.len(),
    ensures
        match r {
            Ok(o) => lsp_args(arg_views(args@), start as int, default_lsp_view()) == Ok::<LspView, Seq<char>>(
                o.view(),
            ),
            Err(e) => lsp_args(arg_views(args@), start as int, default_lsp_view()) == Err::<LspView, Seq<char>>(
                e@,
            ),
        },
{
    let ghost views = arg_views(args@);
    let mut options = LspServerOptions::default();
    let mut i: usize = start;
    while i < args.len()
        invariant
            start <= i <= args@.len() + 1,
            views == arg_views(args@),
            lsp_args(views, start as int, default_lsp_view()) == lsp_args(views, i as int, options.view()),
        decreases args@.len() + 1 - i,
    {
        let a = args[i].as_str();
        assert(views[i as int] == a@);
        if str_eq(a, "--stdio") {
            i = i + 1;
        } else if str_eq(a, "--log") || str_eq(a, "--diagnostic-log") || str_eq(a, "--game-data-scripts")
            || str_eq(a, "--game-data-metadata") || str_eq(a, "--index-cache") || str_eq(a, "--workspace-scripts") {
            let v = match string_value(args, i, a) {
                Ok(v) => v,
                Err(e) => return Err(e),
            };
            let ghost before = options.view();
            if str_eq(a, "--log") {
                options.log_path = Some(v);
            } else if str_eq(a, "--diagnostic-log") {
                options.diagnostic_log_path = Some(v);
            } else if str_eq(a, "--game-data-scripts") {
                options.game_data_scripts = Some(v);
            } else if str_eq(a, "--game-data-metadata") {
                options.game_data_metadata = Some(v);
            } else if str_eq(a, "--index-cache") {
                options.index_cache = Some(v);
            } else {
                let ghost vv = v@;
                options.workspace_scripts.push(v);
                assert(options.view().workspace_scripts =~= before.workspace_scripts.push(vv));
            }
            i = i + 2;
        } else if str_eq(a, "--bracket-coloring") {
            let v = match string_value(args, i, a) {
                Ok(v) => v,
                Err(e) => return Err(e),
            };
            let vs = v.as_str();
            if str_eq(vs, "semantic") {
                options.bracket_coloring = BracketColoringMode::Semantic;
            } else if str_eq(vs, "punctuation") {
                options.bracket_coloring = BracketColoringMode::Punctuation;
            } else if str_eq(vs, "vscode") {
                options.bracket_coloring = BracketColoringMode::VsCode;
            } else {
                return Err(message("invalid value for --bracket-coloring: ", vs));
            }
            i = i + 2;
        } else {
            return Err(quoted_message("unknown LSP argument '", a));
        }
    }
    Ok(options)
}

fn parse_mcp_args(args: &[String], start: usize) -> (r: Result<McpServerOptions, String>)
    requires
        start <= args@.len(),
    ensures
        match r {
            Ok(o) => mcp_args(
                arg_views(args@),
                start as int,
                McpView { scripts_root: None, metadata_path: None, cache_path: None },
            ) == Ok::<McpView, Seq<char>>(o.view()),
            Err(e) => mcp_args(
                arg_views(args@),
                start as int,
                McpView { scripts_root: None, metadata_path: None, cache_path: None },
            ) == Err::<McpView, Seq<char>>(e@),
        },
{
    let ghost views = arg_views(args@);
    let mut game_data = GameDataCatalogueConfig { scripts_root: None, metadata_path: None, cache_path: None };
    let mut i: usize = start;
    while i < args.len()
        invariant
            start <= i <= args@.len() + 1,
            views == arg_views(args@),
            mcp_args(views, start as int, McpView { scripts_root: None, metadata_path: None, cache_path: None })
                == mcp_args(views, i as int, (McpServerOptions { game_data }).view()),
        decreases args@.len() + 1 - i,
    {
        let a = args[i].as_str();
        assert(views[i as int] == a@);
        if str_eq(a, "--game-data-scripts") || str_eq(a, "--game-data-metadata") || str_eq(a, "--index-cache") {
            let v = match string_value(args, i, a) {
                Ok(v) => v,
                Err(e) => return Err(e),
            };
            if str_eq(a, "--game-data-scripts") {
                game_data.scripts_root = Some(v);
            } else if str_eq(a, "--game-data-metadata") {
                game_data.metadata_path = Some(v);
            } else {
                game_data.cache_path = Some(v);
            }
            i = i + 2;
        } else {
            return Err(quoted_message("unknown MCP argument '", a));
        }
    }
    Ok(McpServerOptions { game_data })
}

/// Reads the mode and its options from the arguments (without the program
/// name); an error carries the message to print.
pub fn parse_args_from(args: &[String]) -> (r: Result<ServerMode, String>)
    ensures
        match r {
            Ok(m) => spec_parse_args(arg_views(args@)) == Ok::<ModeView, Seq<char>>(m.view()),
            Err(e) => spec_parse_args(arg_views(args@)) == Err::<ModeView, Seq<char>>(e@),
        },
{
    let ghost views = arg_views(args@);
    if args.len() > 0 {
        let first = args[0].as_str();
        assert(views[0] == first@);
        if str_eq(first, "mcp") {
            return match parse_mcp_args(args, 1) {
                Ok(o) => Ok(ServerMode::Mcp(o)),
                Err(e) => Err(e),
            };
        }
        if str_eq(first, "mcp-api") {
            if args.len() > 1 {
                assert(views[1] == args@[1]@);
                return Err(message("unexpected argument for mcp-api mode: ", args[1].as_str()));
            }
            return Ok(ServerMode::McpApi);
        }
        if str_eq(first, "--help") || str_eq(first, "-h") {
            if args.len() > 1 {
                assert(views[1] == args@[1]@);
                return Err(message("unexpected argument after help flag: ", args[1].as_str()));
            }
            return Ok(ServerMode::Help);
        }
        if !starts_with_char(first, '-') {
            return Err(quoted_message("unknown mode '", first));
        }
    }
    match parse_lsp_args(args, 0) {
        Ok(o) => Ok(ServerMode::Lsp(o)),
        Err(e) => Err(e),
    }
}

} // verus!
