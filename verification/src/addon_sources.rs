//! Identities of add-on sources: the virtual document URIs under which
//! packed scripts are served, the keys of loaded source revisions, and the
//! properties read from an add-on's project file.
use vstd::prelude::*;
use crate::expression_type::{chars_start_with, find_char, first_index_of, starts_with, sub_chars, trim_start_chars};
use crate::game_data_search::{guid_shaped, upper_guid};
use crate::text::{chars_of, leading_count, lemma_leading_count, lemma_leading_count_unique, trim_chars, is_whitespace, string_from_chars, string_push, string_push_str, to_owned_string, trim, trim_start};
use url::Url;

verus! {

/// The GUID of the base game's add-on.
pub const BASE_GAME_GUID: &'static str = "58D0FB3206B6F859";

/// The URI scheme of packed source documents.
pub const VIRTUAL_SOURCE_SCHEME: &'static str = "reforger-pak";

/// What `url::Url::join` gives for `reference` against the URL that
/// `url::Url::parse` reads from `base`: the joined URL's serialization, or
/// the message of the parse error.
pub uninterp spec fn url_join_result(base: Seq<char>, reference: Seq<char>) -> Result<Seq<char>, Seq<char>>;

/// The scheme, host and path that `url::Url::parse` reads from `input`, or
/// the message of the parse error.
pub uninterp spec fn url_parts_result(input: Seq<char>) -> Result<(Seq<char>, Option<Seq<char>>, Seq<char>), Seq<char>>;

/// `url::Url::join`, with the base read by `url::Url::parse` and the result
/// written out with `to_string`.  Claimed: the result is
/// `url_join_result` of the two texts.
#[verifier::external_body]
fn url_join(base: &str, reference: &str) -> (r: Result<String, String>)
    ensures
        match r {
            Ok(s) => url_join_result(base@, reference@) == Ok::<Seq<char>, Seq<char>>(s@),
            Err(e) => url_join_result(base@, reference@) == Err::<Seq<char>, Seq<char>>(e@),
        },
{
    let base = match Url::parse(base) {
        Ok(url) => url,
        Err(error) => return Err(error.to_string()),
    };
    match base.join(reference) {
        Ok(url) => Ok(url.to_string()),
        Err(error) => Err(error.to_string()),
    }
}

/// The parts of a URL, as `url::Url::parse` reads them.
pub struct UrlParts {
    pub scheme: String,
    pub host: Option<String>,
    pub path: String,
}

/// `url::Url::parse`, read back through `scheme`, `host_str` and `path`.
/// Claimed: the result is `url_parts_result` of the input.
#[verifier::external_body]
fn url_parts(input: &str) -> (r: Result<UrlParts, String>)
    ensures
        match r {
            Ok(p) => url_parts_result(input@) == Ok::<(Seq<char>, Option<Seq<char>>, Seq<char>), Seq<char>>((
                p.scheme@,
                match p.host {
                    Some(h) => Some(h@),
                    None => None,
                },
                p.path@,
            )),
            Err(e) => url_parts_result(input@) == Err::<(Seq<char>, Option<Seq<char>>, Seq<char>), Seq<char>>(e@),
        },
{
    let url = match Url::parse(input) {
        Ok(url) => url,
        Err(error) => return Err(error.to_string()),
    };
    let host = match url.host_str() {
        Some(host) => Some(host.to_string()),
        None => None,
    };
    Ok(UrlParts { scheme: url.scheme().to_string(), host, path: url.path().to_string() })
}

/// The result with both sides taken as characters.
pub open spec fn result_chars(r: Result<String, String>) -> Result<Seq<char>, Seq<char>> {
    match r {
        Ok(s) => Ok(s@),
        Err(e) => Err(e@),
    }
}

pub open spec fn scheme_chars() -> Seq<char> {
    seq!['r', 'e', 'f', 'o', 'r', 'g', 'e', 'r', '-', 'p', 'a', 'k']
}

/// `reforger-pak://{guid}/{revision}/`.
pub open spec fn virtual_source_base(guid: Seq<char>, revision: Seq<char>) -> Seq<char> {
    scheme_chars() + seq![':', '/', '/'] + guid + seq!['/'] + revision + seq!['/']
}

/// The URI of a packed source: its logical path resolved against
/// `reforger-pak://{guid}/{revision}/`.
pub fn virtual_source_uri(guid: &str, revision: &str, logical_path: &str) -> (r: Result<String, String>)
    ensures
        result_chars(r) == url_join_result(virtual_source_base(guid@, revision@), logical_path@),
{
    proof {
        reveal_strlit("reforger-pak");
        reveal_strlit("://");
        reveal_strlit("/");
    }
    let mut base = to_owned_string(VIRTUAL_SOURCE_SCHEME);
    string_push_str(&mut base, "://");
    string_push_str(&mut base, guid);
    string_push(&mut base, '/');
    string_push_str(&mut base, revision);
    string_push(&mut base, '/');
    assert(base@ =~= virtual_source_base(guid@, revision@));
    url_join(base.as_str(), logical_path)
}

// ---------------------------------------------------------------------------
// Revision keys

pub open spec fn ascii_upper(c: char) -> char {
    if 'a' <= c && c <= 'z' {
        ((c as u32) - 32) as char
    } else {
        c
    }
}

pub open spec fn ascii_lower(c: char) -> char {
    if 'A' <= c && c <= 'Z' {
        ((c as u32) + 32) as char
    } else {
        c
    }
}

fn to_ascii_upper(c: char) -> (r: char)
    ensures
        r == ascii_upper(c),
{
    if 'a' <= c && c <= 'z' {
        ((c as u8) - 32) as char
    } else {
        c
    }
}

pub(crate) fn to_ascii_lower(c: char) -> (r: char)
    ensures
        r == ascii_lower(c),
{
    if 'A' <= c && c <= 'Z' {
        ((c as u8) + 32) as char
    } else {
        c
    }
}

/// `{GUID}/{revision}`: the GUID upper-cased and the revision lower-cased
/// (ASCII letters only).
pub open spec fn spec_revision_key(guid: Seq<char>, revision: Seq<char>) -> Seq<char> {
    guid.map_values(|c: char| ascii_upper(c)) + seq!['/'] + revision.map_values(|c: char| ascii_lower(c))
}

fn push_mapped(out: &mut String, s: &str, upper: bool)
    ensures
        final(out)@ == old(out)@ + if upper {
            s@.map_values(|c: char| ascii_upper(c))
        } else {
            s@.map_values(|c: char| ascii_lower(c))
        },
{
    let chars = chars_of(s);
    let ghost start = out@;
    let ghost f = if upper {
        |c: char| ascii_upper(c)
    } else {
        |c: char| ascii_lower(c)
    };
    let mut i: usize = 0;
    while i < chars.len()
        invariant
            i <= chars@.len(),
            chars@ == s@,
            f == (if upper {
                |c: char| ascii_upper(c)
            } else {
                |c: char| ascii_lower(c)
            }),
            out@ =~= start + chars@.take(i as int).map_values(f),
        decreases chars@.len() - i,
    {
        let c = if upper {
            to_ascii_upper(chars[i])
        } else {
            to_ascii_lower(chars[i])
        };
        string_push(out, c);
        assert(chars@.take(i + 1).map_values(f) =~= chars@.take(i as int).map_values(f).push(c));
        i = i + 1;
    }
    assert(chars@.take(chars@.len() as int) =~= chars@);
}

/// The key under which a loaded source revision is registered.
pub fn revision_key(guid: &str, revision: &str) -> (r: String)
    ensures
        r@ == spec_revision_key(guid@, revision@),
{
    let mut out = String::new();
    push_mapped(&mut out, guid, true);
    string_push(&mut out, '/');
    push_mapped(&mut out, revision, false);
    assert(out@ =~= spec_revision_key(guid@, revision@));
    out
}


// ---------------------------------------------------------------------------
// Project properties

/// A line without the `\r` of a `\r\n` ending.
pub open spec fn strip_cr(l: Seq<char>) -> Seq<char> {
    if l.len() > 0 && l.last() == '\r' {
        l.drop_last()
    } else {
        l
    }
}

pub proof fn lemma_first_index_bound(s: Seq<char>, c: char)
    ensures
        first_index_of(s, c) matches Some(k) ==> 0 <= k < s.len() && s[k] == c,
{
    lemma_leading_count(s, crate::expression_type::other_than(c));
}

/// The lines of `s` as `str::lines` yields them: split after each `\n`,
/// without the `\n` and a `\r` before it, and no empty line after a final
/// `\n`.
pub open spec fn lines_of(s: Seq<char>) -> Seq<Seq<char>>
    decreases s.len(),
{
    if s.len() == 0 {
        Seq::empty()
    } else {
        match first_index_of(s, '\n') {
            None => seq![s],
            Some(k) => {
                proof {
                    lemma_first_index_bound(s, '\n');
                }
                seq![strip_cr(s.take(k))] + lines_of(s.skip(k + 1))
            },
        }
    }
}

/// The value a line gives to `property`: the trimmed line starts with the
/// property name, then whitespace or `:`, an optional `:`, and a quoted,
/// non-empty value.
pub open spec fn property_in_line(line: Seq<char>, property: Seq<char>) -> Option<Seq<char>> {
    let t = trim(line);
    if !starts_with(t, property) {
        None
    } else {
        let rem = t.skip(property.len() as int);
        if !(rem.len() > 0 && (is_whitespace(rem[0]) || rem[0] == ':')) {
            None
        } else {
            let r1 = trim_start(rem);
            let r2 = trim_start(if r1.len() > 0 && r1[0] == ':' { r1.skip(1) } else { rem });
            if !(r2.len() > 0 && r2[0] == '"') {
                None
            } else {
                let quoted = r2.skip(1);
                match first_index_of(quoted, '"') {
                    None => None,
                    Some(e) => if e > 0 {
                        Some(quoted.take(e))
                    } else {
                        None
                    },
                }
            }
        }
    }
}

/// The value of `property` on the first line that gives one.
pub open spec fn first_property(lines: Seq<Seq<char>>, property: Seq<char>) -> Option<Seq<char>>
    decreases lines.len(),
{
    if lines.len() == 0 {
        None
    } else {
        match property_in_line(lines[0], property) {
            Some(v) => Some(v),
            None => first_property(lines.drop_first(), property),
        }
    }
}

fn property_value_in_line(line: &[char], property: &[char]) -> (r: Option<Vec<char>>)
    ensures
        match r {
            Some(v) => property_in_line(line@, property@) == Some(v@),
            None => property_in_line(line@, property@) is None,
        },
{
    let t = trim_chars(line);
    if !chars_start_with(t.as_slice(), property) {
        return None;
    }
    let rem = sub_chars(t.as_slice(), property.len(), t.len());
    assert(rem@ =~= t@.skip(property@.len() as int));
    if !(rem.len() > 0 && (crate::text::exec_is_whitespace(rem[0]) || rem[0] == ':')) {
        return None;
    }
    let r1 = trim_start_chars(rem.as_slice());
    let r2 = if r1.len() > 0 && r1[0] == ':' {
        let after = sub_chars(r1.as_slice(), 1, r1.len());
        assert(after@ =~= r1@.skip(1));
        trim_start_chars(after.as_slice())
    } else {
        trim_start_chars(rem.as_slice())
    };
    if !(r2.len() > 0 && r2[0] == '"') {
        return None;
    }
    let quoted = sub_chars(r2.as_slice(), 1, r2.len());
    assert(quoted@ =~= r2@.skip(1));
    let end = match find_char(quoted.as_slice(), '"') {
        Some(e) => e,
        None => return None,
    };
    proof {
        lemma_first_index_bound(quoted@, '"');
    }
    if end == 0 {
        return None;
    }
    let value = sub_chars(quoted.as_slice(), 0, end);
    assert(value@ =~= quoted@.take(end as int));
    Some(value)
}

/// The quoted value of `property` in a project file (see
/// `first_property` and `lines_of`).
pub fn extract_project_property(source: &str, property: &str) -> (r: Option<String>)
    ensures
        match r {
            Some(v) => first_property(lines_of(source@), property@) == Some(v@),
            None => first_property(lines_of(source@), property@) is None,
        },
{
    let s = chars_of(source);
    let p = chars_of(property);
    let mut pos: usize = 0;
    assert(s@.skip(0) =~= s@);
    while pos < s.len()
        invariant
            pos <= s@.len(),
            s@ == source@,
            p@ == property@,
            first_property(lines_of(s@.skip(pos as int)), p@) == first_property(lines_of(s@), p@),
        decreases s@.len() - pos,
    {
        let rest = sub_chars(s.as_slice(), pos, s.len());
        assert(rest@ =~= s@.skip(pos as int));
        let (line, next) = match find_char(rest.as_slice(), '\n') {
            Some(k) => {
                proof {
                    lemma_first_index_bound(rest@, '\n');
                }
                let mut line = sub_chars(rest.as_slice(), 0, k);
                assert(line@ =~= rest@.take(k as int));
                if line.len() > 0 && line[line.len() - 1] == '\r' {
                    line.pop();
                }
                assert(s@.skip(pos + k + 1) =~= rest@.skip(k + 1));
                (line, pos + k + 1)
            },
            None => (rest, s.len()),
        };
        let ghost lines = lines_of(rest@);
        assert(lines[0] == line@);
        assert(lines.drop_first() == lines_of(s@.skip(next as int))) by {
            if first_index_of(rest@, '\n') is None {
                assert(s@.skip(next as int) =~= Seq::<char>::empty());
                assert(lines.drop_first() =~= Seq::<Seq<char>>::empty());
            }
        }
        if let Some(v) = property_value_in_line(line.as_slice(), p.as_slice()) {
            return Some(string_from_chars(v.as_slice()));
        }
        pos = next;
    }
    assert(s@.skip(pos as int) =~= Seq::<char>::empty());
    None
}


// ---------------------------------------------------------------------------
// Virtual source URIs

/// Where a virtual source URI points: the add-on GUID (upper-cased), the
/// revision, the logical path, the URI rebuilt from them, and the key of
/// the revision.
#[derive(Debug, Clone, PartialEq, Eq)]
pub struct VirtualSourceLocation {
    pub guid: String,
    pub revision: String,
    pub logical_path: String,
    pub canonical_uri: String,
    pub revision_key: String,
}

pub open spec fn slash() -> spec_fn(char) -> bool {
    |c: char| c == '/'
}

/// What a virtual source URI names, as (GUID, revision, logical path,
/// canonical URI, revision key), or the message that rejects it.
pub open spec fn spec_locate_virtual_source(uri: Seq<char>) -> Result<
    (Seq<char>, Seq<char>, Seq<char>, Seq<char>, Seq<char>),
    Seq<char>,
> {
    match url_parts_result(uri) {
        Err(e) => Err("Invalid pack source URI: "@ + e),
        Ok((scheme, host, path)) => if scheme != scheme_chars() {
            Err("Unsupported source URI scheme '"@ + scheme + "'"@)
        } else {
            match host {
                None => Err("Pack source URI has no add-on GUID"@),
                Some(h) => {
                    let guid = h.map_values(|c: char| ascii_upper(c));
                    let p = path.skip(leading_count(path, slash()) as int);
                    let k = leading_count(p, crate::expression_type::other_than('/'));
                    let revision = p.take(k as int);
                    if revision.len() == 0 {
                        Err("Pack source URI has no revision"@)
                    } else if k >= p.len() || p.skip((k + 1) as int).len() == 0 {
                        Err("Pack source URI has no logical path"@)
                    } else {
                        let logical = p.skip((k + 1) as int);
                        match url_join_result(virtual_source_base(guid, revision), logical) {
                            Err(e) => Err(e),
                            Ok(c) => Ok((guid, revision, logical, c, spec_revision_key(guid, revision))),
                        }
                    }
                },
            }
        },
    }
}

fn message(prefix: &str, detail: &str, suffix: &str) -> (r: String)
    ensures
        r@ == prefix@ + detail@ + suffix@,
{
    let mut out = to_owned_string(prefix);
    string_push_str(&mut out, detail);
    string_push_str(&mut out, suffix);
    assert(out@ =~= prefix@ + detail@ + suffix@);
    out
}

fn upper_string(s: &str) -> (r: String)
    ensures
        r@ == s@.map_values(|c: char| ascii_upper(c)),
{
    let mut out = String::new();
    push_mapped(&mut out, s, true);
    assert(out@ =~= s@.map_values(|c: char| ascii_upper(c)));
    out
}

/// Decodes a virtual source URI (see `spec_locate_virtual_source`): the
/// scheme must be `reforger-pak`, the host is the add-on GUID, and the path
/// holds the revision and the logical path.
pub fn locate_virtual_source(uri: &str) -> (r: Result<VirtualSourceLocation, String>)
    ensures
        match r {
            Ok(l) => spec_locate_virtual_source(uri@) == Ok::<(Seq<char>, Seq<char>, Seq<char>, Seq<char>, Seq<char>), Seq<char>>((
                l.guid@,
                l.revision@,
                l.logical_path@,
                l.canonical_uri@,
                l.revision_key@,
            )),
            Err(e) => spec_locate_virtual_source(uri@) == Err::<(Seq<char>, Seq<char>, Seq<char>, Seq<char>, Seq<char>), Seq<char>>(e@),
        },
{
    proof {
        reveal_strlit("reforger-pak");
        reveal_strlit("");
    }
    let parts = match url_parts(uri) {
        Ok(p) => p,
        Err(e) => return Err(message("Invalid pack source URI: ", e.as_str(), "")),
    };
    assert("reforger-pak"@ =~= scheme_chars());
    if !crate::text::str_eq(parts.scheme.as_str(), "reforger-pak") {
        return Err(message("Unsupported source URI scheme '", parts.scheme.as_str(), "'"));
    }
    let host = match &parts.host {
        Some(h) => h,
        None => return Err(to_owned_string("Pack source URI has no add-on GUID")),
    };
    let guid = upper_string(host.as_str());
    let path = chars_of(parts.path.as_str());
    let mut start: usize = 0;
    while start < path.len() && path[start] == '/'
        invariant
            start <= path@.len(),
            forall|i: int| 0 <= i < start ==> #[trigger] path@[i] == '/',
        decreases path@.len() - start,
    {
        start = start + 1;
    }
    proof {
        lemma_leading_count_unique(path@, slash(), start as int);
    }
    let p = sub_chars(path.as_slice(), start, path.len());
    assert(p@ =~= path@.skip(start as int));
    let mut k: usize = 0;
    while k < p.len() && p[k] != '/'
        invariant
            k <= p@.len(),
            forall|i: int| 0 <= i < k ==> #[trigger] p@[i] != '/',
        decreases p@.len() - k,
    {
        k = k + 1;
    }
    proof {
        lemma_leading_count_unique(p@, crate::expression_type::other_than('/'), k as int);
    }
    let revision_chars = sub_chars(p.as_slice(), 0, k);
    assert(revision_chars@ =~= p@.take(k as int));
    if k == 0 {
        return Err(to_owned_string("Pack source URI has no revision"));
    }
    if k >= p.len() || k + 1 == p.len() {
        proof {
            if k < p.len() {
                assert(p@.skip(k + 1).len() == 0);
            }
        }
        return Err(to_owned_string("Pack source URI has no logical path"));
    }
    let logical_chars = sub_chars(p.as_slice(), k + 1, p.len());
    assert(logical_chars@ =~= p@.skip(k + 1));
    let revision = string_from_chars(revision_chars.as_slice());
    let logical_path = string_from_chars(logical_chars.as_slice());
    let canonical_uri = match virtual_source_uri(guid.as_str(), revision.as_str(), logical_path.as_str()) {
        Ok(c) => c,
        Err(e) => return Err(e),
    };
    let key = revision_key(guid.as_str(), revision.as_str());
    Ok(VirtualSourceLocation { guid, revision, logical_path, canonical_uri, revision_key: key })
}

// ---------------------------------------------------------------------------
// Add-on identities

/// What an add-on's project file says of it: its GUID in upper case, which
/// must be sixteen hexadecimal digits, and the name it is shown by (its
/// `ID`, else its `TITLE`, else its folder's name).
pub open spec fn spec_addon_identity(project: Seq<char>, project_file: Seq<char>, directory_name: Seq<char>) -> Result<
    (Seq<char>, Seq<char>),
    Seq<char>,
> {
    let lines = lines_of(project);
    match first_property(lines, "GUID"@) {
        None => Err("Add-on project has no GUID: "@ + project_file),
        Some(raw) => {
            let guid = upper_guid(raw);
            if !guid_shaped(guid) {
                Err("Invalid add-on GUID '"@ + guid + "': "@ + project_file)
            } else {
                let display = match first_property(lines, "ID"@) {
                    Some(v) => v,
                    None => match first_property(lines, "TITLE"@) {
                        Some(v) => v,
                        None => directory_name,
                    },
                };
                Ok((guid, display))
            }
        },
    }
}

pub fn addon_project_identity(project: &str, project_file: &str, directory_name: &str) -> (r: Result<
    (String, String),
    String,
>)
    ensures
        match r {
            Ok((guid, display)) => spec_addon_identity(project@, project_file@, directory_name@) == Ok::<
                (Seq<char>, Seq<char>),
                Seq<char>,
            >((guid@, display@)),
            Err(e) => spec_addon_identity(project@, project_file@, directory_name@) == Err::<
                (Seq<char>, Seq<char>),
                Seq<char>,
            >(e@),
        },
{
    let raw = match extract_project_property(project, "GUID") {
        Some(raw) => raw,
        None => {
            let mut e = to_owned_string("Add-on project has no GUID: ");
            string_push_str(&mut e, project_file);
            return Err(e);
        },
    };
    let mut guid = String::new();
    push_mapped(&mut guid, raw.as_str(), true);
    let guid_chars = chars_of(guid.as_str());
    if !crate::game_data_search::is_guid_shaped(guid_chars.as_slice()) {
        let mut e = to_owned_string("Invalid add-on GUID '");
        string_push_str(&mut e, guid.as_str());
        string_push_str(&mut e, "': ");
        string_push_str(&mut e, project_file);
        return Err(e);
    }
    let display = match extract_project_property(project, "ID") {
        Some(v) => v,
        None => match extract_project_property(project, "TITLE") {
            Some(v) => v,
            None => to_owned_string(directory_name),
        },
    };
    Ok((guid, display))
}

/// The GUIDs met so far each map to the add-on folder that has it; a GUID
/// met twice is refused, naming both folders.
pub open spec fn spec_record_addon_guid(identities: Seq<(Seq<char>, Seq<char>)>, guid: Seq<char>, path: Seq<char>) -> Result<
    Seq<(Seq<char>, Seq<char>)>,
    Seq<char>,
> {
    match first_with_key(identities, guid, 0) {
        Some(i) => Err("Duplicate add-on GUID "@ + guid + ": "@ + identities[i].1 + " and "@ + path),
        None => Ok(identities.push((guid, path))),
    }
}

/// The first entry from `i` on with key `key`.
pub open spec fn first_with_key(entries: Seq<(Seq<char>, Seq<char>)>, key: Seq<char>, i: int) -> Option<int>
    decreases entries.len() - i,
{
    if i < 0 || i >= entries.len() {
        None
    } else if entries[i].0 == key {
        Some(i)
    } else {
        first_with_key(entries, key, i + 1)
    }
}

pub open spec fn identity_views(identities: Seq<(String, String)>) -> Seq<(Seq<char>, Seq<char>)> {
    identities.map_values(|e: (String, String)| (e.0@, e.1@))
}

pub fn record_addon_guid(identities: &mut Vec<(String, String)>, guid: &str, path: &str) -> (r: Result<(), String>)
    ensures
        match spec_record_addon_guid(identity_views(old(identities)@), guid@, path@) {
            Ok(after) => r is Ok && identity_views(final(identities)@) == after,
            Err(e) => r matches Err(m) && m@ == e && final(identities)@ == old(identities)@,
        },
{
    let ghost views = identity_views(identities@);
    let mut i: usize = 0;
    while i < identities.len()
        invariant
            i <= identities@.len(),
            views == identity_views(identities@),
            first_with_key(views, guid@, i as int) == first_with_key(views, guid@, 0),
        decreases identities@.len() - i,
    {
        if crate::text::str_eq(identities[i].0.as_str(), guid) {
            let mut e = to_owned_string("Duplicate add-on GUID ");
            string_push_str(&mut e, guid);
            string_push_str(&mut e, ": ");
            string_push_str(&mut e, identities[i].1.as_str());
            string_push_str(&mut e, " and ");
            string_push_str(&mut e, path);
            return Err(e);
        }
        i = i + 1;
    }
    let ghost before = identities@;
    identities.push((to_owned_string(guid), to_owned_string(path)));
    assert(identity_views(identities@) =~= identity_views(before).push((guid@, path@)));
    Ok(())
}

/// An add-on of the inventory as manifest publication reads it.
#[derive(Debug, Clone, PartialEq, Eq)]
pub struct InventoryAddonEntry {
    pub path: String,
    pub directory_name: String,
    pub root_kind: String,
    pub project_file: Option<String>,
}

/// The add-on gets a published manifest: it is not the base game and it
/// has a project file.
pub open spec fn publishes_manifest(a: InventoryAddonEntry) -> bool {
    a.root_kind@ != "base-game"@ && a.project_file is Some
}

/// The first add-on from `from` on that gets a published manifest.
pub open spec fn next_manifest_addon(addons: Seq<InventoryAddonEntry>, from: int) -> Option<int>
    decreases addons.len() - from,
{
    if from < 0 || from >= addons.len() {
        None
    } else if publishes_manifest(addons[from]) {
        Some(from)
    } else {
        next_manifest_addon(addons, from + 1)
    }
}

/// The next add-on, from `from` on, whose project file is read for the
/// publication: the base game and add-ons without a project file are
/// passed over.
pub fn next_project_to_read(addons: &Vec<InventoryAddonEntry>, from: usize) -> (r: Option<usize>)
    ensures
        match r {
            Some(i) => next_manifest_addon(addons@, from as int) == Some(i as int),
            None => next_manifest_addon(addons@, from as int) is None,
        },
{
    let mut i: usize = from;
    while i < addons.len()
        invariant
            from <= i,
            next_manifest_addon(addons@, from as int) == next_manifest_addon(addons@, i as int),
        decreases addons@.len() - i,
    {
        let addon = &addons[i];
        if !crate::text::str_eq(addon.root_kind.as_str(), "base-game") && addon.project_file.is_some() {
            return Some(i);
        }
        i = i + 1;
    }
    None
}

/// What reading the project file of an add-on gives the publication: its
/// GUID and display name, recorded against the add-on's folder; refused
/// when the project has no valid GUID or another add-on has that GUID.
pub open spec fn spec_collect_manifest(
    identities: Seq<(Seq<char>, Seq<char>)>,
    addon: InventoryAddonEntry,
    project: Seq<char>,
) -> Result<(Seq<(Seq<char>, Seq<char>)>, Seq<char>, Seq<char>), Seq<char>> {
    match spec_addon_identity(project, addon.project_file.unwrap()@, addon.directory_name@) {
        Err(e) => Err(e),
        Ok((guid, display)) => match spec_record_addon_guid(identities, guid, addon.path@) {
            Err(e) => Err(e),
            Ok(after) => Ok((after, guid, display)),
        },
    }
}

/// Reads the project text of an add-on that gets a manifest: its GUID and
/// display name (see `spec_collect_manifest`); the GUID is recorded in
/// `identities` on success, which are left unchanged on failure.
pub fn collect_addon_manifest(
    identities: &mut Vec<(String, String)>,
    addon: &InventoryAddonEntry,
    project: &str,
) -> (r: Result<(String, String), String>)
    requires
        addon.project_file is Some,
    ensures
        match spec_collect_manifest(identity_views(old(identities)@), *addon, project@) {
            Ok((after, guid, display)) => r matches Ok((g, d)) && g@ == guid && d@ == display && identity_views(
                final(identities)@,
            ) == after,
            Err(e) => r matches Err(m) && m@ == e && final(identities)@ == old(identities)@,
        },
{
    let project_file = match &addon.project_file {
        Some(p) => p,
        None => {
            return Err(String::new());
        },
    };
    match addon_project_identity(project, project_file.as_str(), addon.directory_name.as_str()) {
        Err(e) => Err(e),
        Ok((guid, display)) => match record_addon_guid(identities, guid.as_str(), addon.path.as_str()) {
            Err(e) => Err(e),
            Ok(()) => Ok((guid, display)),
        },
    }
}

/// The schema of the inventory publication record.
pub open spec fn publication_schema() -> Seq<char> {
    "reforger-addon-inventory-publication-v1"@
}

/// The stored publication can stand and nothing is written: it has the
/// current schema and this inventory's revision, and every manifest on
/// disk equals the one expected.
pub fn publication_reusable(stored: &Option<(String, String)>, revision: &str, manifests_equal: &Vec<bool>) -> (r: bool)
    ensures
        r == (stored matches Some((schema, rev)) && schema@ == publication_schema() && rev@ == revision@
            && forall|i: int| 0 <= i < manifests_equal@.len() ==> manifests_equal@[i]),
{
    let current = match stored {
        Some((schema, rev)) => crate::text::str_eq(schema.as_str(), "reforger-addon-inventory-publication-v1")
            && crate::text::str_eq(rev.as_str(), revision),
        None => false,
    };
    if !current {
        return false;
    }
    let mut i: usize = 0;
    while i < manifests_equal.len()
        invariant
            i <= manifests_equal@.len(),
            forall|k: int| 0 <= k < i ==> manifests_equal@[k],
        decreases manifests_equal@.len() - i,
    {
        if !manifests_equal[i] {
            return false;
        }
        i = i + 1;
    }
    true
}

} // verus!
