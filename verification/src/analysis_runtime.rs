//! Revision-safe document state: snapshots, UTF-16 coordinates and the
//! latest-wins admission table for analysis work.
use vstd::prelude::*;
use std::sync::Arc;
use std::sync::OnceLock;
use std::sync::atomic::AtomicBool;
use crate::text::{chars_of, str_eq, to_owned_string};

verus! {

// ---------------------------------------------------------------------------
// Positions

/// A zero-based position; `character` counts UTF-16 code units.
#[derive(Debug, Clone, Copy, PartialEq, Eq, Structural, Hash)]
pub struct Position {
    pub line: u32,
    pub character: u32,
}

/// Number of UTF-8 bytes of `c`.
pub open spec fn utf8_len(c: char) -> nat {
    if (c as u32) < 0x80 {
        1
    } else if (c as u32) < 0x800 {
        2
    } else if (c as u32) < 0x10000 {
        3
    } else {
        4
    }
}

/// Number of UTF-16 code units of `c`.
pub open spec fn utf16_len(c: char) -> nat {
    if (c as u32) < 0x10000 {
        1
    } else {
        2
    }
}

/// `x + d`, saturating at `u32::MAX`.
pub open spec fn sat_add_u32(x: u32, d: nat) -> u32 {
    if x + d > u32::MAX {
        u32::MAX
    } else {
        (x + d) as u32
    }
}

/// `chars[i]` ends a line: a carriage return, or a line feed that does not
/// follow a carriage return (so CRLF counts once).
pub open spec fn ends_line(chars: Seq<char>, i: int) -> bool {
    chars[i] == '\r' || (chars[i] == '\n' && (i == 0 || chars[i - 1] != '\r'))
}

/// The position reached after the first `n` characters.
pub open spec fn position_after(chars: Seq<char>, n: int) -> Position
    decreases n,
{
    if n <= 0 {
        Position { line: 0, character: 0 }
    } else {
        let p = position_after(chars, n - 1);
        if ends_line(chars, n - 1) {
            Position { line: sat_add_u32(p.line, 1), character: 0 }
        } else if chars[n - 1] == '\n' {
            p
        } else {
            Position { line: p.line, character: sat_add_u32(p.character, utf16_len(chars[n - 1])) }
        }
    }
}

/// One entry per UTF-8 byte of the first `n` characters: each byte maps to
/// the position where its character starts.
pub open spec fn byte_positions(chars: Seq<char>, n: int) -> Seq<Position>
    decreases n,
{
    if n <= 0 {
        Seq::empty()
    } else {
        byte_positions(chars, n - 1) + Seq::new(
            utf8_len(chars[n - 1]),
            |_b: int| position_after(chars, n - 1),
        )
    }
}

/// The conversion table of a text: one position per byte, then the end
/// position.
pub open spec fn position_table(chars: Seq<char>) -> Seq<Position> {
    byte_positions(chars, chars.len() as int).push(position_after(chars, chars.len() as int))
}

fn char_utf8_len(c: char) -> (n: usize)
    ensures
        n == utf8_len(c),
{
    let v = c as u32;
    if v < 0x80 {
        1
    } else if v < 0x800 {
        2
    } else if v < 0x10000 {
        3
    } else {
        4
    }
}

fn char_utf16_len(c: char) -> (n: u32)
    ensures
        n == utf16_len(c),
{
    let v = c as u32;
    if v < 0x10000 {
        1
    } else {
        2
    }
}

/// Immutable byte-offset to position table of one text.
#[derive(Debug, Clone)]
pub struct PositionIndex {
    positions: Vec<Position>,
}

impl PositionIndex {
    /// The table: entry `b` is the position of byte offset `b`.
    pub closed spec fn table(&self) -> Seq<Position> {
        self.positions@
    }

    /// The table of `source`.
    pub fn new(source: &str) -> (r: Self)
        ensures
            r.table() == position_table(source@),
    {
        let never = || -> (stop: bool)
            ensures
                !stop,
            { false };
        let built = Self::new_cancellable(source, Some(&never));
        match built {
            Some(index) => index,
            None => Self { positions: Vec::new() },
        }
    }

    /// Builds the table, asking `should_cancel` before every group of 64
    /// characters; `None` when it answered yes.
    pub fn new_cancellable<F: Fn() -> bool>(source: &str, should_cancel: Option<&F>) -> (r: Option<Self>)
        requires
            should_cancel matches Some(f) ==> f.requires(()),
        ensures
            (should_cancel matches Some(f) ==> forall|stop: bool| f.ensures((), stop) ==> !stop) ==> r is Some,
            (should_cancel matches Some(f) && forall|stop: bool| f.ensures((), stop) ==> stop) && source@.len() > 0
                ==> r is None,
            r matches Some(index) ==> index.table() == position_table(source@),
    {
        let chars = chars_of(source);
        let mut positions: Vec<Position> = Vec::new();
        let mut position = Position { line: 0, character: 0 };
        let mut i: usize = 0;
        while i < chars.len()
            invariant
                i <= chars@.len(),
                chars@ == source@,
                should_cancel matches Some(f) ==> f.requires(()),
                (should_cancel matches Some(f) && forall|stop: bool| f.ensures((), stop) ==> stop) ==> i == 0,
                positions@ == byte_positions(chars@, i as int),
                position == position_after(chars@, i as int),
            decreases chars@.len() - i,
        {
            if i % 64 == 0 {
                if let Some(f) = should_cancel {
                    if f() {
                        return None;
                    }
                }
            }
            let c = chars[i];
            let width = char_utf8_len(c);
            let ghost before = positions@;
            let mut b: usize = 0;
            while b < width
                invariant
                    b <= width,
                    positions@ == before + Seq::new(b as nat, |_b: int| position),
                decreases width - b,
            {
                positions.push(position);
                proof {
                    assert(before + Seq::new((b + 1) as nat, |_b: int| position) =~= (before + Seq::new(
                        b as nat,
                        |_b: int| position,
                    )).push(position));
                }
                b = b + 1;
            }
            if c == '\r' || (c == '\n' && (i == 0 || chars[i - 1] != '\r')) {
                position = Position { line: position.line.saturating_add(1), character: 0 };
            } else if c == '\n' {
            } else {
                position = Position {
                    line: position.line,
                    character: position.character.saturating_add(char_utf16_len(c)),
                };
            }
            proof {
                assert(byte_positions(chars@, i + 1) =~= before + Seq::new(
                    utf8_len(chars@[i as int]),
                    |_b: int| position_after(chars@, i as int),
                ));
            }
            i = i + 1;
        }
        positions.push(position);
        Some(PositionIndex { positions })
    }

    /// The position of byte `offset`, clamped to the end of the text.
    pub fn position_for_offset(&self, offset: usize) -> (p: Position)
        ensures
            self.table().len() == 0 ==> p == (Position { line: 0, character: 0 }),
            self.table().len() > 0 ==> p == self.table()[if offset < self.table().len() {
                offset as int
            } else {
                self.table().len() - 1
            }],
    {
        let n = self.positions.len();
        if n == 0 {
            return Position { line: 0, character: 0 };
        }
        let i = if offset < n - 1 {
            offset
        } else {
            n - 1
        };
        self.positions[i]
    }

    /// The earliest byte offset whose position is exactly `wanted`; `None`
    /// for a position inside a character (such as between the halves of a
    /// surrogate pair) or past the end.
    pub fn offset_for_position(&self, wanted: Position) -> (r: Option<usize>)
        ensures
            match r {
                Some(o) => o < self.table().len() && self.table()[o as int] == wanted && forall|k: int|
                    0 <= k < o ==> self.table()[k] != wanted,
                None => forall|k: int| 0 <= k < self.table().len() ==> self.table()[k] != wanted,
            },
    {
        let mut k: usize = 0;
        while k < self.positions.len()
            invariant
                k <= self.table().len(),
                forall|j: int| 0 <= j < k ==> self.table()[j] != wanted,
            decreases self.table().len() - k,
        {
            if self.positions[k] == wanted {
                return Some(k);
            }
            k = k + 1;
        }
        None
    }

    /// Reading back the position of a byte offset finds an offset: the
    /// earliest one with that position, which is never after the offset
    /// itself.
    pub proof fn lemma_offset_round_trip(&self, offset: int) -> (m: int)
        requires
            0 <= offset < self.table().len(),
        ensures
            0 <= m <= offset,
            self.table()[m] == self.table()[offset],
            forall|k: int| 0 <= k < m ==> self.table()[k] != self.table()[offset],
        decreases offset,
    {
        let t = self.table();
        if exists|k: int| 0 <= k < offset && t[k] == t[offset] {
            let k = choose|k: int| 0 <= k < offset && t[k] == t[offset];
            self.lemma_offset_round_trip(k)
        } else {
            offset
        }
    }

    /// Like `offset_for_position`, but a position strictly inside a
    /// character of the same line resolves to that character's first byte.
    pub fn offset_for_position_recovering(&self, wanted: Position) -> (r: Option<usize>)
        ensures
            r == recovering_scan(self.table(), wanted, 0),
    {
        let n = self.positions.len();
        let mut k: usize = 0;
        let mut run_start: usize = 0;
        while k < n
            invariant
                n == self.table().len(),
                k <= n,
                k > 0 ==> run_start == run_start_of(self.table(), k - 1),
                recovering_scan(self.table(), wanted, 0) == recovering_scan(self.table(), wanted, k as int),
            decreases n - k,
        {
            let position = self.positions[k];
            if k > 0 && position != self.positions[k - 1] {
                let previous = self.positions[k - 1];
                if previous.line == wanted.line && position.line == wanted.line && previous.character
                    < wanted.character && wanted.character < position.character {
                    return Some(run_start);
                }
                run_start = k;
            } else if k == 0 {
                run_start = 0;
            }
            if position == wanted {
                return Some(run_start);
            }
            k = k + 1;
        }
        None
    }
}

/// The first offset of the run of equal positions that holds offset `k`.
pub open spec fn run_start_of(table: Seq<Position>, k: int) -> int
    decreases k,
{
    if k <= 0 || table[k - 1] != table[k] {
        k
    } else {
        run_start_of(table, k - 1)
    }
}

/// Offset `k` is a transition into a position past `wanted` on the line
/// where the previous position lies before it.
pub open spec fn straddles(table: Seq<Position>, wanted: Position, k: int) -> bool {
    &&& k > 0
    &&& table[k] != table[k - 1]
    &&& table[k - 1].line == wanted.line
    &&& table[k].line == wanted.line
    &&& table[k - 1].character < wanted.character
    &&& wanted.character < table[k].character
}

/// The answer of a forward scan from offset `k`: the run start at the first
/// offset that straddles `wanted` (the previous run) or equals it (its own
/// run).
pub open spec fn recovering_scan(table: Seq<Position>, wanted: Position, k: int) -> Option<usize>
    decreases table.len() - k,
{
    if k < 0 || k >= table.len() {
        None
    } else if straddles(table, wanted, k) {
        Some(run_start_of(table, k - 1) as usize)
    } else if table[k] == wanted {
        Some(run_start_of(table, k) as usize)
    } else {
        recovering_scan(table, wanted, k + 1)
    }
}

} // verus!

verus! {

// ---------------------------------------------------------------------------
// Shared cells

#[verifier::external_type_specification]
#[verifier::external_body]
#[verifier::reject_recursive_types(T)]
pub struct ExOnceLock<T>(OnceLock<T>);

/// `Arc::clone`: another handle to the same allocation, hence the same value.
#[verifier::external_body]
fn share<T>(a: &Arc<T>) -> (r: Arc<T>)
    ensures
        r == *a,
{
    Arc::clone(a)
}

/// `OnceLock::new`: a cell that holds nothing yet.
#[verifier::external_body]
fn empty_cell<T>() -> OnceLock<T> {
    OnceLock::new()
}

/// `OnceLock::get`: the value, once any handle sharing the cell has set one.
/// That depends on the other handles, so nothing is stated of the result.
#[verifier::external_body]
fn cell_get<T>(cell: &OnceLock<T>) -> Option<&T> {
    cell.get()
}

/// `OnceLock::set`: fills an empty cell and answers `Ok`; a cell that was
/// already filled hands the value back in `Err`. Which case occurs depends on
/// the other handles, so only the returned value is stated.
#[verifier::external_body]
fn cell_set<T>(cell: &OnceLock<T>, value: T) -> (r: Result<(), T>)
    ensures
        r matches Err(v) ==> v == value,
{
    cell.set(value)
}

// ---------------------------------------------------------------------------
// Snapshots and the document store

/// Immutable text of one accepted document edit, with a coordinate table
/// that a foreground worker installs once and every clone shares.
#[derive(Debug, Clone)]
pub struct DocumentSnapshot {
    uri: Arc<String>,
    version: i32,
    revision: u64,
    text: Arc<String>,
    positions: Arc<OnceLock<Arc<PositionIndex>>>,
}

impl DocumentSnapshot {
    pub closed spec fn spec_uri(&self) -> Seq<char> {
        (*self.uri)@
    }

    pub closed spec fn spec_version(&self) -> i32 {
        self.version
    }

    pub closed spec fn spec_revision(&self) -> u64 {
        self.revision
    }

    pub closed spec fn spec_text(&self) -> Seq<char> {
        (*self.text)@
    }

    fn new(uri: &str, version: i32, revision: u64, text: &str) -> (r: Self)
        ensures
            r.spec_uri() == uri@,
            r.spec_version() == version,
            r.spec_revision() == revision,
            r.spec_text() == text@,
    {
        DocumentSnapshot {
            uri: Arc::new(to_owned_string(uri)),
            version,
            revision,
            text: Arc::new(to_owned_string(text)),
            positions: Arc::new(empty_cell()),
        }
    }

    pub fn uri(&self) -> (r: &str)
        ensures
            r@ == self.spec_uri(),
    {
        self.uri.as_str()
    }

    pub fn version(&self) -> (r: i32)
        ensures
            r == self.spec_version(),
    {
        self.version
    }

    pub fn revision(&self) -> (r: u64)
        ensures
            r == self.spec_revision(),
    {
        self.revision
    }

    pub fn text(&self) -> (r: &str)
        ensures
            r@ == self.spec_text(),
    {
        self.text.as_str()
    }

    /// The installed coordinate table, if any handle of this revision has
    /// installed one.
    pub fn positions(&self) -> Option<Arc<PositionIndex>> {
        match cell_get(&*self.positions) {
            Some(p) => Some(share(p)),
            None => None,
        }
    }

    /// Installs the coordinate table; `false` when one was installed before.
    pub fn install_positions(&self, positions: PositionIndex) -> bool {
        cell_set(&*self.positions, Arc::new(positions)).is_ok()
    }

    /// Another handle to the same snapshot (sharing its coordinate cell).
    fn share_snapshot(&self) -> (r: Self)
        ensures
            r == *self,
    {
        DocumentSnapshot {
            uri: share(&self.uri),
            version: self.version,
            revision: self.revision,
            text: share(&self.text),
            positions: share(&self.positions),
        }
    }
}

/// Answer of `DocumentStore::upsert`.
#[derive(Debug, Clone, Copy, PartialEq, Eq, Structural)]
pub enum UpsertOutcome {
    Accepted,
    Stale,
}

/// How completely a feature result represents its snapshot.
#[derive(Debug, Clone, Copy, PartialEq, Eq, Structural)]
pub enum QueryQuality {
    Exact,
    Unavailable,
}

impl QueryQuality {
    /// Only an exact result may stand for current local facts.
    pub fn permits_local_facts(self) -> (r: bool)
        ensures
            r == (self == QueryQuality::Exact),
    {
        match self {
            QueryQuality::Exact => true,
            QueryQuality::Unavailable => false,
        }
    }
}

/// `x + 1`, saturating at `u64::MAX`.
pub open spec fn sat_inc_u64(x: u64) -> u64 {
    if x == u64::MAX {
        u64::MAX
    } else {
        (x + 1) as u64
    }
}

/// `docs[i]` is the snapshot of `uri`.
pub open spec fn uri_at(docs: Seq<DocumentSnapshot>, uri: Seq<char>, i: int) -> bool {
    0 <= i < docs.len() && docs[i].spec_uri() == uri
}

/// Latest-wins owner of the open documents' snapshots.
#[derive(Debug)]
pub struct DocumentStore {
    documents: Vec<DocumentSnapshot>,
    next_revision: u64,
}

impl DocumentStore {
    /// One snapshot per URI, none newer than the revision counter.
    pub closed spec fn wf(&self) -> bool {
        let docs = self.documents@;
        &&& forall|i: int, j: int| 0 <= i < j < docs.len() ==> docs[i].spec_uri() != docs[j].spec_uri()
        &&& forall|i: int| 0 <= i < docs.len() ==> docs[i].spec_revision() <= self.next_revision
    }

    /// The last revision number handed out.
    pub closed spec fn spec_next_revision(&self) -> u64 {
        self.next_revision
    }

    /// The current snapshot of `uri`.
    pub closed spec fn spec_latest(&self, uri: Seq<char>) -> Option<DocumentSnapshot> {
        let docs = self.documents@;
        if exists|i: int| uri_at(docs, uri, i) {
            Some(docs[choose|i: int| uri_at(docs, uri, i)])
        } else {
            None
        }
    }

    proof fn lemma_latest_at(&self, uri: Seq<char>, i: int)
        requires
            self.wf(),
            uri_at(self.documents@, uri, i),
        ensures
            self.spec_latest(uri) == Some(self.documents@[i]),
    {
        let j = choose|j: int| uri_at(self.documents@, uri, j);
        assert(uri_at(self.documents@, uri, j));
        if i < j {
            assert(self.documents@[i].spec_uri() != self.documents@[j].spec_uri());
        } else if j < i {
            assert(self.documents@[j].spec_uri() != self.documents@[i].spec_uri());
        }
    }

    /// Every stored revision is at most the counter.
    pub proof fn lemma_revisions_bounded(&self, uri: Seq<char>)
        requires
            self.wf(),
        ensures
            self.spec_latest(uri) matches Some(s) ==> s.spec_revision() <= self.spec_next_revision(),
    {
        if exists|i: int| uri_at(self.documents@, uri, i) {
            let i = choose|i: int| uri_at(self.documents@, uri, i);
            self.lemma_latest_at(uri, i);
        }
    }

    pub fn new() -> (r: Self)
        ensures
            r.wf(),
            r.spec_next_revision() == 0,
            forall|u: Seq<char>| r.spec_latest(u) is None,
    {
        DocumentStore { documents: Vec::new(), next_revision: 0 }
    }

    fn find(&self, uri: &str) -> (r: Option<usize>)
        ensures
            match r {
                Some(i) => uri_at(self.documents@, uri@, i as int),
                None => forall|i: int| !uri_at(self.documents@, uri@, i),
            },
    {
        let mut i: usize = 0;
        while i < self.documents.len()
            invariant
                i <= self.documents@.len(),
                forall|j: int| 0 <= j < i ==> !uri_at(self.documents@, uri@, j),
            decreases self.documents@.len() - i,
        {
            if str_eq(self.documents[i].uri.as_str(), uri) {
                return Some(i);
            }
            i = i + 1;
        }
        None
    }

    /// Accepts only a strictly newer client version for an open URI; an
    /// accepted edit gets the next revision number.
    pub fn upsert(&mut self, uri: &str, version: i32, text: &str) -> (outcome: UpsertOutcome)
        requires
            old(self).wf(),
        ensures
            final(self).wf(),
            (outcome == UpsertOutcome::Stale) == (old(self).spec_latest(uri@) matches Some(cur)
                && version <= cur.spec_version()),
            outcome == UpsertOutcome::Stale ==> *final(self) == *old(self),
            outcome == UpsertOutcome::Accepted ==> {
                &&& final(self).spec_next_revision() == sat_inc_u64(old(self).spec_next_revision())
                &&& final(self).spec_latest(uri@) matches Some(s) && s.spec_uri() == uri@ && s.spec_version()
                    == version && s.spec_revision() == final(self).spec_next_revision() && s.spec_text()
                    == text@
                &&& forall|u: Seq<char>| u != uri@ ==> #[trigger] final(self).spec_latest(u) == old(self).spec_latest(u)
            },
            outcome == UpsertOutcome::Accepted && old(self).spec_next_revision() < u64::MAX ==> forall|
                u: Seq<char>,
            |
                #[trigger] old(self).spec_latest(u) matches Some(s) ==> s.spec_revision()
                    < final(self).spec_next_revision(),
    {
        let found = self.find(uri);
        if let Some(i) = found {
            proof {
                self.lemma_latest_at(uri@, i as int);
            }
            if version <= self.documents[i].version {
                return UpsertOutcome::Stale;
            }
        }
        proof {
            assert forall|u: Seq<char>| #[trigger] old(self).spec_latest(u) is Some implies old(self).spec_latest(
                u,
            ).unwrap().spec_revision() <= old(self).spec_next_revision() by {
                old(self).lemma_revisions_bounded(u);
            }
        }
        self.next_revision = self.next_revision.saturating_add(1);
        let snapshot = DocumentSnapshot::new(uri, version, self.next_revision, text);
        let ghost old_docs = old(self).documents@;
        match found {
            Some(i) => {
                self.documents.set(i, snapshot);
            },
            None => {
                self.documents.push(snapshot);
            },
        }
        proof {
            let docs = self.documents@;
            let at: int = match found {
                Some(i) => i as int,
                None => old_docs.len() as int,
            };
            assert(uri_at(docs, uri@, at));
            assert forall|i: int, j: int| 0 <= i < j < docs.len() implies docs[i].spec_uri() != docs[j].spec_uri() by {
                if i != at && j != at {
                    assert(docs[i] == old_docs[i] && docs[j] == old_docs[j]);
                } else if i == at {
                    assert(docs[j] == old_docs[j]);
                    assert(!uri_at(old_docs, uri@, j) || found is Some);
                } else {
                    assert(docs[i] == old_docs[i]);
                    assert(!uri_at(old_docs, uri@, i) || found is Some);
                }
            }
            self.lemma_latest_at(uri@, at);
            assert forall|u: Seq<char>| u != uri@ implies #[trigger] self.spec_latest(u) == old(self).spec_latest(u) by {
                if exists|i: int| uri_at(old_docs, u, i) {
                    let i = choose|i: int| uri_at(old_docs, u, i);
                    old(self).lemma_latest_at(u, i);
                    assert(docs[i] == old_docs[i]);
                    self.lemma_latest_at(u, i);
                } else {
                    assert forall|i: int| !uri_at(docs, u, i) by {
                        if 0 <= i < docs.len() && i != at {
                            assert(docs[i] == old_docs[i]);
                            assert(!uri_at(old_docs, u, i));
                        }
                    }
                }
            }
        }
        UpsertOutcome::Accepted
    }

    /// The current snapshot of `uri`, if it is open.
    pub fn latest(&self, uri: &str) -> (r: Option<DocumentSnapshot>)
        requires
            self.wf(),
        ensures
            r == self.spec_latest(uri@),
    {
        match self.find(uri) {
            Some(i) => {
                proof {
                    self.lemma_latest_at(uri@, i as int);
                }
                Some(self.documents[i].share_snapshot())
            },
            None => None,
        }
    }

    /// Closes `uri` only when its current snapshot has `revision`, so a
    /// delayed close cannot erase a newer version.
    pub fn close(&mut self, uri: &str, revision: u64) -> (r: Option<DocumentSnapshot>)
        requires
            old(self).wf(),
        ensures
            final(self).wf(),
            final(self).spec_next_revision() == old(self).spec_next_revision(),
            old(self).spec_latest(uri@) is Some && old(self).spec_latest(uri@).unwrap().spec_revision() == revision
                ==> {
                &&& r == old(self).spec_latest(uri@)
                &&& final(self).spec_latest(uri@) is None
                &&& forall|u: Seq<char>| u != uri@ ==> #[trigger] final(self).spec_latest(u) == old(self).spec_latest(u)
            },
            !(old(self).spec_latest(uri@) matches Some(s) && s.spec_revision() == revision) ==> r is None
                && *final(self) == *old(self),
    {
        let found = self.find(uri);
        match found {
            Some(i) => {
                proof {
                    self.lemma_latest_at(uri@, i as int);
                }
                if self.documents[i].revision == revision {
                    let ghost old_docs = self.documents@;
                    let removed = self.documents.remove(i);
                    proof {
                        let docs = self.documents@;
                        assert forall|a: int, b: int| 0 <= a < b < docs.len() implies docs[a].spec_uri()
                            != docs[b].spec_uri() by {
                            let a0 = if a < i { a } else { a + 1 };
                            let b0 = if b < i { b } else { b + 1 };
                            assert(docs[a] == old_docs[a0] && docs[b] == old_docs[b0]);
                        }
                        assert forall|j: int| !uri_at(docs, uri@, j) by {
                            if 0 <= j < docs.len() {
                                let j0 = if j < i { j } else { j + 1 };
                                assert(docs[j] == old_docs[j0]);
                                assert(old_docs[j0].spec_uri() != old_docs[i as int].spec_uri());
                            }
                        }
                        assert forall|u: Seq<char>| u != uri@ implies #[trigger] self.spec_latest(u) == old(
                            self,
                        ).spec_latest(u) by {
                            if exists|k: int| uri_at(old_docs, u, k) {
                                let k = choose|k: int| uri_at(old_docs, u, k);
                                old(self).lemma_latest_at(u, k);
                                let k1 = if k < i { k } else { k - 1 };
                                assert(docs[k1] == old_docs[k]);
                                self.lemma_latest_at(u, k1);
                            } else {
                                assert forall|k: int| !uri_at(docs, u, k) by {
                                    if 0 <= k < docs.len() {
                                        let k0 = if k < i { k } else { k + 1 };
                                        assert(docs[k] == old_docs[k0]);
                                        assert(!uri_at(old_docs, u, k0));
                                    }
                                }
                            }
                        }
                    }
                    Some(removed)
                } else {
                    None
                }
            },
            None => None,
        }
    }
}

} // verus!

verus! {

// ---------------------------------------------------------------------------
// Admission of analysis work

/// Lane of CPU-bearing work; the order of the variants is the dispatch
/// priority.
#[derive(Debug, Clone, Copy, PartialEq, Eq, Structural, PartialOrd, Ord, Hash)]
pub enum TaskClass {
    Foreground,
    Semantic,
    Rich,
}

/// Position of a lane in dispatch order.
pub open spec fn class_rank(c: TaskClass) -> int {
    match c {
        TaskClass::Foreground => 0,
        TaskClass::Semantic => 1,
        TaskClass::Rich => 2,
    }
}

/// The lane at dispatch position `rank`.
pub open spec fn class_at(rank: int) -> TaskClass {
    if rank == 0 {
        TaskClass::Foreground
    } else if rank == 1 {
        TaskClass::Semantic
    } else {
        TaskClass::Rich
    }
}

fn exec_class_at(rank: usize) -> (c: TaskClass)
    requires
        rank < 3,
    ensures
        c == class_at(rank as int),
{
    if rank == 0 {
        TaskClass::Foreground
    } else if rank == 1 {
        TaskClass::Semantic
    } else {
        TaskClass::Rich
    }
}

/// Bounds on retained work; queued and running tasks both count.
#[derive(Debug, Clone, Copy, PartialEq, Eq, Structural)]
pub struct AdmissionLimits {
    pub max_retained_jobs: usize,
    pub max_retained_bytes: usize,
}

impl AdmissionLimits {
    pub fn new(max_retained_jobs: usize, max_retained_bytes: usize) -> (r: Self)
        ensures
            r.max_retained_jobs == max_retained_jobs,
            r.max_retained_bytes == max_retained_bytes,
    {
        AdmissionLimits { max_retained_jobs, max_retained_bytes }
    }
}

/// The fields of a task identity.
pub struct IdentityView {
    pub uri: Seq<char>,
    pub class: TaskClass,
    pub revision: u64,
    pub request_id: u64,
    pub sequence: u64,
}

/// Identity of one admitted task, used for cancellation and publication.
#[derive(Debug, Clone, PartialEq, Eq, Hash)]
pub struct TaskIdentity {
    uri: Arc<String>,
    class: TaskClass,
    revision: u64,
    request_id: u64,
    sequence: u64,
}

impl View for TaskIdentity {
    type V = IdentityView;

    closed spec fn view(&self) -> IdentityView {
        IdentityView {
            uri: (*self.uri)@,
            class: self.class,
            revision: self.revision,
            request_id: self.request_id,
            sequence: self.sequence,
        }
    }
}

/// The lane key of an identity: its URI and class.
pub open spec fn key_of(id: IdentityView) -> (Seq<char>, TaskClass) {
    (id.uri, id.class)
}

impl TaskIdentity {
    pub fn uri(&self) -> (r: &str)
        ensures
            r@ == self@.uri,
    {
        self.uri.as_str()
    }

    pub fn class(&self) -> (r: TaskClass)
        ensures
            r == self@.class,
    {
        self.class
    }

    pub fn revision(&self) -> (r: u64)
        ensures
            r == self@.revision,
    {
        self.revision
    }

    pub fn request_id(&self) -> (r: u64)
        ensures
            r == self@.request_id,
    {
        self.request_id
    }

    fn share_identity(&self) -> (r: Self)
        ensures
            r@ == self@,
    {
        TaskIdentity {
            uri: share(&self.uri),
            class: self.class,
            revision: self.revision,
            request_id: self.request_id,
            sequence: self.sequence,
        }
    }

    fn same_as(&self, other: &Self) -> (r: bool)
        ensures
            r == (self@ == other@),
    {
        str_eq(self.uri.as_str(), other.uri.as_str()) && self.class == other.class && self.revision
            == other.revision && self.request_id == other.request_id && self.sequence == other.sequence
    }
}

/// A pending or running unit of work with its shared cancellation flag.
#[derive(Debug, Clone)]
pub struct AnalysisTask {
    identity: TaskIdentity,
    snapshot: DocumentSnapshot,
    cancelled: Arc<AtomicBool>,
}

impl AnalysisTask {
    pub closed spec fn spec_identity(&self) -> IdentityView {
        self.identity@
    }

    pub closed spec fn spec_snapshot(&self) -> DocumentSnapshot {
        self.snapshot
    }

    /// The shared cancellation flag.
    pub closed spec fn spec_cancelled(&self) -> Arc<AtomicBool> {
        self.cancelled
    }

    pub fn identity(&self) -> (r: &TaskIdentity)
        ensures
            r@ == self.spec_identity(),
    {
        &self.identity
    }

    pub fn snapshot(&self) -> (r: &DocumentSnapshot)
        ensures
            *r == self.spec_snapshot(),
    {
        &self.snapshot
    }

    /// Reads the cancellation flag, which the admission table raises when
    /// the task stops being current.
    pub fn is_cancelled(&self) -> bool {
        self.cancelled.load(std::sync::atomic::Ordering::Acquire)
    }

    /// Another handle to the shared cancellation flag.
    pub fn cancellation_token(&self) -> (r: Arc<AtomicBool>)
        ensures
            r == self.spec_cancelled(),
    {
        share(&self.cancelled)
    }

    fn share_task(&self) -> (r: Self)
        ensures
            r.spec_identity() == self.spec_identity(),
            r.spec_snapshot() == self.spec_snapshot(),
    {
        AnalysisTask {
            identity: self.identity.share_identity(),
            snapshot: self.snapshot.share_snapshot(),
            cancelled: share(&self.cancelled),
        }
    }
}

/// Result of trying to retain a task.
#[derive(Debug, Clone, PartialEq, Eq)]
pub enum AdmissionDisposition {
    Enqueued { task: TaskIdentity, replaced: Option<TaskIdentity> },
    DroppedOverload { class: TaskClass, retained_jobs: usize, retained_bytes: usize },
}

#[derive(Debug, Clone, Copy, PartialEq, Eq, Structural)]
enum RetainedTaskState {
    Queued,
    InFlight,
}

#[derive(Debug)]
struct RetainedTask {
    task: AnalysisTask,
    state: RetainedTaskState,
    bytes: usize,
}

/// What the table keeps of one retained task.
pub struct RetainedView {
    pub identity: IdentityView,
    pub snapshot: DocumentSnapshot,
    pub queued: bool,
    pub bytes: nat,
}

spec fn retained_view(r: RetainedTask) -> RetainedView {
    RetainedView {
        identity: r.task.identity@,
        snapshot: r.task.snapshot,
        queued: r.state == RetainedTaskState::Queued,
        bytes: r.bytes as nat,
    }
}

/// No two retained tasks share a lane key.
pub open spec fn keys_distinct(rs: Seq<RetainedView>) -> bool {
    forall|i: int, j: int| 0 <= i < j < rs.len() ==> key_of(#[trigger] rs[i].identity) != key_of(#[trigger] rs[j].identity)
}

proof fn lemma_key_unique(rs: Seq<RetainedView>, i: int, j: int)
    requires
        keys_distinct(rs),
        0 <= i < rs.len(),
        0 <= j < rs.len(),
        key_of(rs[i].identity) == key_of(rs[j].identity),
    ensures
        i == j,
{
    if i < j {
        assert(key_of(rs[i].identity) != key_of(rs[j].identity));
    } else if j < i {
        assert(key_of(rs[j].identity) != key_of(rs[i].identity));
    }
}

/// Total bytes of retained tasks.
pub open spec fn total_bytes(rs: Seq<RetainedView>) -> nat
    decreases rs.len(),
{
    if rs.len() == 0 {
        0
    } else {
        total_bytes(rs.drop_last()) + rs.last().bytes
    }
}

proof fn lemma_total_bytes_remove(rs: Seq<RetainedView>, i: int)
    requires
        0 <= i < rs.len(),
    ensures
        total_bytes(rs.remove(i)) + rs[i].bytes == total_bytes(rs),
    decreases rs.len(),
{
    if i == rs.len() - 1 {
        assert(rs.remove(i) =~= rs.drop_last());
    } else {
        lemma_total_bytes_remove(rs.drop_last(), i);
        assert(rs.remove(i).drop_last() =~= rs.drop_last().remove(i));
        assert(rs.remove(i).last() == rs.last());
    }
}

proof fn lemma_total_bytes_push(rs: Seq<RetainedView>, x: RetainedView)
    ensures
        total_bytes(rs.push(x)) == total_bytes(rs) + x.bytes,
{
    assert(rs.push(x).drop_last() =~= rs);
}

/// Fixed-capacity, latest-wins table of retained analysis work: at most one
/// task per URI and lane, dispatched foreground first, then semantic, then
/// rich, each lane in admission order.
#[derive(Debug)]
pub struct TaskAdmission {
    limits: AdmissionLimits,
    retained: Vec<RetainedTask>,
    foreground: std::collections::VecDeque<TaskIdentity>,
    semantic: std::collections::VecDeque<TaskIdentity>,
    rich: std::collections::VecDeque<TaskIdentity>,
    retained_bytes: usize,
    next_sequence: u64,
}

impl TaskAdmission {
    pub closed spec fn spec_limits(&self) -> AdmissionLimits {
        self.limits
    }

    /// The retained tasks.
    pub closed spec fn spec_retained(&self) -> Seq<RetainedView> {
        self.retained@.map_values(|r: RetainedTask| retained_view(r))
    }

    /// The queue of not yet dispatched identities of a lane.
    pub closed spec fn spec_queue(&self, class: TaskClass) -> Seq<IdentityView> {
        match class {
            TaskClass::Foreground => self.foreground@.map_values(|i: TaskIdentity| i@),
            TaskClass::Semantic => self.semantic@.map_values(|i: TaskIdentity| i@),
            TaskClass::Rich => self.rich@.map_values(|i: TaskIdentity| i@),
        }
    }

    pub closed spec fn spec_retained_bytes(&self) -> usize {
        self.retained_bytes
    }

    pub closed spec fn spec_next_sequence(&self) -> u64 {
        self.next_sequence
    }

    /// Some queued retained task has identity `id`.
    pub open spec fn queued_in_table(&self, id: IdentityView) -> bool {
        exists|i: int| 0 <= i < self.spec_retained().len() && (#[trigger] self.spec_retained()[i]).queued
            && self.spec_retained()[i].identity == id
    }

    /// The table's invariant: one task per lane key, the byte count is the
    /// sum of the tasks' bytes, the limits hold, and each lane's queue holds
    /// exactly the identities of its queued tasks, once each.
    pub open spec fn wf(&self) -> bool {
        let rs = self.spec_retained();
        &&& keys_distinct(rs)
        &&& self.spec_retained_bytes() == total_bytes(rs)
        &&& forall|i: int| 0 <= i < rs.len() ==> (#[trigger] rs[i]).bytes == text_bytes(rs[i].snapshot)
        &&& total_bytes(rs) <= self.spec_limits().max_retained_bytes
        &&& rs.len() <= self.spec_limits().max_retained_jobs
        &&& forall|c: TaskClass| (#[trigger] self.spec_queue(c)).no_duplicates()
        &&& forall|c: TaskClass, k: int|
            0 <= k < self.spec_queue(c).len() ==> self.queued_in_table(#[trigger] self.spec_queue(c)[k])
                && self.spec_queue(c)[k].class == c
        &&& forall|i: int|
            0 <= i < rs.len() && (#[trigger] rs[i]).queued ==> self.spec_queue(rs[i].identity.class).contains(
                rs[i].identity,
            )
    }

    /// Retained work stays within the limits.
    pub proof fn lemma_bounded(&self)
        requires
            self.wf(),
        ensures
            self.spec_retained().len() <= self.spec_limits().max_retained_jobs,
            self.spec_retained_bytes() <= self.spec_limits().max_retained_bytes,
    {
    }

    /// At most one task is retained per URI and lane.
    pub proof fn lemma_latest_wins(&self, i: int, j: int)
        requires
            self.wf(),
            0 <= i < self.spec_retained().len(),
            0 <= j < self.spec_retained().len(),
            key_of(self.spec_retained()[i].identity) == key_of(self.spec_retained()[j].identity),
        ensures
            i == j,
    {
        if i < j {
            assert(key_of(self.spec_retained()[i].identity) != key_of(self.spec_retained()[j].identity));
        } else if j < i {
            assert(key_of(self.spec_retained()[j].identity) != key_of(self.spec_retained()[i].identity));
        }
    }

    pub fn new(limits: AdmissionLimits) -> (r: Self)
        ensures
            r.wf(),
            r.spec_limits() == limits,
            r.spec_retained().len() == 0,
            forall|c: TaskClass| r.spec_queue(c).len() == 0,
            r.spec_next_sequence() == 0,
    {
        let r = TaskAdmission {
            limits,
            retained: Vec::new(),
            foreground: std::collections::VecDeque::new(),
            semantic: std::collections::VecDeque::new(),
            rich: std::collections::VecDeque::new(),
            retained_bytes: 0,
            next_sequence: 0,
        };
        proof {
            assert(r.spec_retained() =~= Seq::<RetainedView>::empty());
            assert forall|c: TaskClass| r.spec_queue(c).len() == 0 by {
            }
        }
        r
    }

    pub fn retained_jobs(&self) -> (r: usize)
        ensures
            r == self.spec_retained().len(),
    {
        self.retained.len()
    }

    pub fn retained_bytes(&self) -> (r: usize)
        ensures
            r == self.spec_retained_bytes(),
    {
        self.retained_bytes
    }
}

} // verus!

verus! {

/// Sets a cancellation flag.
fn raise_flag(flag: &AtomicBool) {
    flag.store(true, std::sync::atomic::Ordering::Release);
}

/// Views of a deque of identities.
pub open spec fn identity_views(q: Seq<TaskIdentity>) -> Seq<IdentityView> {
    q.map_values(|i: TaskIdentity| i@)
}

proof fn lemma_remove_value_no_dup(q: Seq<IdentityView>, v: IdentityView)
    requires
        q.no_duplicates(),
    ensures
        q.remove_value(v).no_duplicates(),
        forall|x: IdentityView| q.remove_value(v).contains(x) <==> (q.contains(x) && x != v),
        q.remove_value(v).len() <= q.len(),
{
    q.index_of_first_ensures(v);
    match q.index_of_first(v) {
        Some(k) => {
            let r = q.remove(k);
            assert forall|a: int, b: int| 0 <= a < b < r.len() implies r[a] != r[b] by {
                let a0 = if a < k { a } else { a + 1 };
                let b0 = if b < k { b } else { b + 1 };
                assert(r[a] == q[a0] && r[b] == q[b0]);
            }
            assert forall|x: IdentityView| r.contains(x) <==> (q.contains(x) && x != v) by {
                if r.contains(x) {
                    let a = choose|a: int| 0 <= a < r.len() && r[a] == x;
                    let a0 = if a < k { a } else { a + 1 };
                    assert(r[a] == q[a0]);
                    assert(a0 != k);
                }
                if q.contains(x) && x != v {
                    let a0 = choose|a0: int| 0 <= a0 < q.len() && q[a0] == x;
                    let a = if a0 < k { a0 } else { a0 - 1 };
                    assert(r[a] == q[a0]);
                }
            }
        },
        None => {},
    }
}

fn deque_push(q: &mut std::collections::VecDeque<TaskIdentity>, id: TaskIdentity)
    ensures
        identity_views(final(q)@) == identity_views(old(q)@).push(id@),
{
    q.push_back(id);
    assert(identity_views(q@) =~= identity_views(old(q)@).push(id@));
}

fn deque_pop(q: &mut std::collections::VecDeque<TaskIdentity>) -> (r: Option<TaskIdentity>)
    ensures
        old(q)@.len() == 0 ==> r is None && identity_views(final(q)@) == identity_views(old(q)@),
        old(q)@.len() > 0 ==> r is Some && r.unwrap()@ == identity_views(old(q)@)[0] && identity_views(final(q)@)
            == identity_views(old(q)@).drop_first(),
{
    let r = q.pop_front();
    proof {
        if old(q)@.len() > 0 {
            assert(identity_views(q@) =~= identity_views(old(q)@).drop_first());
        }
    }
    r
}

fn deque_remove(q: &mut std::collections::VecDeque<TaskIdentity>, id: &TaskIdentity)
    ensures
        identity_views(final(q)@) == identity_views(old(q)@).remove_value(id@),
{
    let ghost vs = identity_views(q@);
    let mut k: usize = 0;
    while k < q.len()
        invariant
            q@ == old(q)@,
            vs == identity_views(q@),
            k <= q@.len(),
            forall|j: int| 0 <= j < k ==> vs[j] != id@,
        decreases q@.len() - k,
    {
        if q[k].same_as(id) {
            proof {
                assert(vs[k as int] == q@[k as int]@);
                assert(vs.contains(id@));
                vs.index_of_first_ensures(id@);
                let f = vs.index_of_first(id@).unwrap();
                assert(f == k);
            }
            q.remove(k);
            assert(identity_views(q@) =~= vs.remove(k as int));
            return;
        }
        k = k + 1;
    }
    proof {
        vs.index_of_first_ensures(id@);
        assert(!vs.contains(id@));
    }
}

/// The position of the retained task with lane key `key`.
pub open spec fn key_position(rs: Seq<RetainedView>, key: (Seq<char>, TaskClass)) -> Option<int> {
    if exists|i: int| 0 <= i < rs.len() && key_of(rs[i].identity) == key {
        Some(choose|i: int| 0 <= i < rs.len() && key_of(rs[i].identity) == key)
    } else {
        None
    }
}

/// The retained tasks without the one of lane key `key`.
pub open spec fn without_key(rs: Seq<RetainedView>, key: (Seq<char>, TaskClass)) -> Seq<RetainedView> {
    match key_position(rs, key) {
        Some(i) => rs.remove(i),
        None => rs,
    }
}

/// The UTF-8 length of a snapshot's text.
pub open spec fn text_bytes(s: DocumentSnapshot) -> usize {
    vstd::utf8::encode_utf8(s.spec_text()).len() as usize
}

impl TaskAdmission {
    spec fn same_table(&self, other: &Self) -> bool {
        &&& self.limits == other.limits
        &&& self.retained@ == other.retained@
        &&& self.retained_bytes == other.retained_bytes
        &&& self.next_sequence == other.next_sequence
    }

    /// The queue of `class` after the retained task at `i`, if queued, has
    /// left it.
    pub open spec fn queue_after_removal(&self, class: TaskClass, i: int) -> Seq<IdentityView> {
        let r = self.spec_retained()[i];
        if r.queued && r.identity.class == class {
            self.spec_queue(class).remove_value(r.identity)
        } else {
            self.spec_queue(class)
        }
    }

    /// The queue of `class` after the task of lane key `key`, if any, has
    /// left the table.
    pub open spec fn queue_without_key(&self, class: TaskClass, key: (Seq<char>, TaskClass)) -> Seq<IdentityView> {
        match key_position(self.spec_retained(), key) {
            Some(i) => self.queue_after_removal(class, i),
            None => self.spec_queue(class),
        }
    }

    fn queue_push(&mut self, class: TaskClass, id: TaskIdentity)
        ensures
            final(self).same_table(old(self)),
            final(self).spec_queue(class) == old(self).spec_queue(class).push(id@),
            forall|c: TaskClass| c != class ==> final(self).spec_queue(c) == old(self).spec_queue(c),
    {
        match class {
            TaskClass::Foreground => deque_push(&mut self.foreground, id),
            TaskClass::Semantic => deque_push(&mut self.semantic, id),
            TaskClass::Rich => deque_push(&mut self.rich, id),
        }
    }

    fn queue_pop(&mut self, class: TaskClass) -> (r: Option<TaskIdentity>)
        ensures
            final(self).same_table(old(self)),
            old(self).spec_queue(class).len() == 0 ==> r is None && final(self).spec_queue(class) == old(
                self,
            ).spec_queue(class),
            old(self).spec_queue(class).len() > 0 ==> r is Some && r.unwrap()@ == old(self).spec_queue(class)[0]
                && final(self).spec_queue(class) == old(self).spec_queue(class).drop_first(),
            forall|c: TaskClass| c != class ==> final(self).spec_queue(c) == old(self).spec_queue(c),
    {
        match class {
            TaskClass::Foreground => deque_pop(&mut self.foreground),
            TaskClass::Semantic => deque_pop(&mut self.semantic),
            TaskClass::Rich => deque_pop(&mut self.rich),
        }
    }

    fn queue_remove(&mut self, class: TaskClass, id: &TaskIdentity)
        ensures
            final(self).same_table(old(self)),
            final(self).spec_queue(class) == old(self).spec_queue(class).remove_value(id@),
            forall|c: TaskClass| c != class ==> final(self).spec_queue(c) == old(self).spec_queue(c),
    {
        match class {
            TaskClass::Foreground => deque_remove(&mut self.foreground, id),
            TaskClass::Semantic => deque_remove(&mut self.semantic, id),
            TaskClass::Rich => deque_remove(&mut self.rich, id),
        }
    }

    /// The position of the retained task of lane key `(uri, class)`.
    fn find_key(&self, uri: &str, class: TaskClass) -> (r: Option<usize>)
        requires
            keys_distinct(self.spec_retained()),
        ensures
            match r {
                Some(i) => key_position(self.spec_retained(), (uri@, class)) == Some(i as int),
                None => key_position(self.spec_retained(), (uri@, class)) is None,
            },
    {
        let ghost rs = self.spec_retained();
        let mut i: usize = 0;
        while i < self.retained.len()
            invariant
                keys_distinct(rs),
                rs == self.spec_retained(),
                i <= rs.len(),
                forall|j: int| 0 <= j < i ==> key_of(rs[j].identity) != (uri@, class),
            decreases rs.len() - i,
        {
            let id = &self.retained[i].task.identity;
            assert(rs[i as int].identity == id@);
            if id.class == class && str_eq(id.uri.as_str(), uri) {
                proof {
                    assert(key_of(rs[i as int].identity) == (uri@, class));
                    let c = choose|c: int| 0 <= c < rs.len() && key_of(rs[c].identity) == (uri@, class);
                    if c != i {
                        lemma_key_unique(rs, c, i as int);
                    }
                }
                return Some(i);
            }
            i = i + 1;
        }
        None
    }

    /// Drops the retained task at `i`: cancels it, releases its bytes and
    /// takes it out of its queue.
    fn remove_at(&mut self, i: usize) -> (t: AnalysisTask)
        requires
            old(self).wf(),
            i < old(self).spec_retained().len(),
        ensures
            final(self).wf(),
            final(self).spec_limits() == old(self).spec_limits(),
            final(self).spec_next_sequence() == old(self).spec_next_sequence(),
            t.spec_identity() == old(self).spec_retained()[i as int].identity,
            t.spec_snapshot() == old(self).spec_retained()[i as int].snapshot,
            final(self).spec_retained() == old(self).spec_retained().remove(i as int),
            final(self).spec_retained_bytes() == old(self).spec_retained_bytes() - old(self).spec_retained()[i as int].bytes,
            forall|c: TaskClass| #[trigger] final(self).spec_queue(c) == old(self).queue_after_removal(c, i as int),
    {
        let ghost old_rs = self.spec_retained();
        let ghost before = *self;
        let r = self.retained.remove(i);
        raise_flag(&r.task.cancelled);
        proof {
            assert(self.spec_retained() =~= old_rs.remove(i as int));
            lemma_total_bytes_remove(old_rs, i as int);
        }
        self.retained_bytes = self.retained_bytes - r.bytes;
        let ghost mid = *self;
        if r.state == RetainedTaskState::Queued {
            self.queue_remove(r.task.identity.class, &r.task.identity);
        }
        proof {
            let rs = self.spec_retained();
            let gone = old_rs[i as int];
            assert(rs == old_rs.remove(i as int));
            assert forall|c: TaskClass| #[trigger] self.spec_queue(c) == before.queue_after_removal(c, i as int) by {
                assert(mid.spec_queue(c) == before.spec_queue(c));
            }
            assert forall|a: int, b: int| 0 <= a < b < rs.len() implies key_of(#[trigger] rs[a].identity) != key_of(
                #[trigger] rs[b].identity,
            ) by {
                let a0 = if a < i { a } else { a + 1 };
                let b0 = if b < i { b } else { b + 1 };
                assert(rs[a] == old_rs[a0] && rs[b] == old_rs[b0]);
            }
            assert forall|c: TaskClass| (#[trigger] self.spec_queue(c)).no_duplicates() by {
                assert(before.spec_queue(c).no_duplicates());
                if gone.queued && gone.identity.class == c {
                    lemma_remove_value_no_dup(before.spec_queue(c), gone.identity);
                }
            }
            assert forall|c: TaskClass, k: int| 0 <= k < self.spec_queue(c).len() implies self.queued_in_table(
                #[trigger] self.spec_queue(c)[k],
            ) && self.spec_queue(c)[k].class == c by {
                let x = self.spec_queue(c)[k];
                assert(self.spec_queue(c).contains(x));
                let bq = before.spec_queue(c);
                if gone.queued && gone.identity.class == c {
                    lemma_remove_value_no_dup(bq, gone.identity);
                }
                assert(bq.contains(x));
                assert(x != gone.identity || !(gone.queued && gone.identity.class == c));
                let kb = choose|kb: int| 0 <= kb < bq.len() && bq[kb] == x;
                assert(before.queued_in_table(bq[kb]) && bq[kb].class == c);
                let j = choose|j: int| 0 <= j < old_rs.len() && (#[trigger] old_rs[j]).queued && old_rs[j].identity == x;
                if j == i {
                    // `gone` was queued with class c, so it left the queue
                    assert(gone.queued && gone.identity.class == c);
                    assert(false);
                }
                let j1 = if j < i { j } else { j - 1 };
                assert(rs[j1] == old_rs[j]);
            }
            assert forall|a: int| 0 <= a < rs.len() && (#[trigger] rs[a]).queued implies self.spec_queue(
                rs[a].identity.class,
            ).contains(rs[a].identity) by {
                let a0 = if a < i { a } else { a + 1 };
                assert(rs[a] == old_rs[a0]);
                let c = rs[a].identity.class;
                assert(before.spec_queue(c).contains(rs[a].identity));
                if gone.queued && gone.identity.class == c {
                    lemma_remove_value_no_dup(before.spec_queue(c), gone.identity);
                    assert(key_of(old_rs[a0].identity) != key_of(gone.identity)) by {
                        if a0 < i {
                        } else {
                        }
                    }
                }
            }
        }
        r.task
    }
}

} // verus!

verus! {

/// The position of the retained task with identity `id`.
pub open spec fn identity_position(rs: Seq<RetainedView>, id: IdentityView) -> int {
    choose|i: int| 0 <= i < rs.len() && rs[i].identity == id
}

/// The retained task as it is while a worker runs it.
pub open spec fn in_flight(r: RetainedView) -> RetainedView {
    RetainedView { identity: r.identity, snapshot: r.snapshot, queued: false, bytes: r.bytes }
}

/// Keeps the retained tasks whose URI is not `uri`.
pub open spec fn other_uri(uri: Seq<char>) -> spec_fn(RetainedView) -> bool {
    |x: RetainedView| x.identity.uri != uri
}

proof fn lemma_filter_take_step(rs: Seq<RetainedView>, keep: spec_fn(RetainedView) -> bool, j: int)
    requires
        0 <= j < rs.len(),
    ensures
        rs.take(j + 1).filter(keep) == if keep(rs[j]) {
            rs.take(j).filter(keep).push(rs[j])
        } else {
            rs.take(j).filter(keep)
        },
{
    reveal(Seq::filter);
    assert(rs.take(j + 1).drop_last() =~= rs.take(j));
    assert(rs.take(j + 1).last() == rs[j]);
}

impl TaskAdmission {
    /// Some retained task has exactly identity `id`.
    pub open spec fn is_current(&self, id: IdentityView) -> bool {
        exists|i: int| 0 <= i < self.spec_retained().len() && self.spec_retained()[i].identity == id
    }

    /// The first lane, in dispatch order, with a queued identity.
    pub open spec fn first_nonempty(&self) -> Option<TaskClass> {
        if self.spec_queue(TaskClass::Foreground).len() > 0 {
            Some(TaskClass::Foreground)
        } else if self.spec_queue(TaskClass::Semantic).len() > 0 {
            Some(TaskClass::Semantic)
        } else if self.spec_queue(TaskClass::Rich).len() > 0 {
            Some(TaskClass::Rich)
        } else {
            None
        }
    }

    /// `next` is `self` after the front identity of lane `c` went to a
    /// worker as `t`.
    pub open spec fn dispatched(&self, next: &Self, c: TaskClass, t: AnalysisTask) -> bool {
        let id = self.spec_queue(c)[0];
        let i = identity_position(self.spec_retained(), id);
        &&& t.spec_identity() == id
        &&& t.spec_snapshot() == self.spec_retained()[i].snapshot
        &&& next.spec_retained() == self.spec_retained().update(i, in_flight(self.spec_retained()[i]))
        &&& next.spec_queue(c) == self.spec_queue(c).drop_first()
        &&& forall|c2: TaskClass| c2 != c ==> #[trigger] next.spec_queue(c2) == self.spec_queue(c2)
    }

    /// `next` and `r` are the table and answer after admitting a task of
    /// lane `class` for `snapshot`: the lane's previous task leaves first;
    /// the new one is dropped when the job or byte limit would be exceeded,
    /// and otherwise queued at the back of its lane.
    pub open spec fn admitted(
        &self,
        next: &Self,
        class: TaskClass,
        snapshot: DocumentSnapshot,
        request_id: u64,
        r: AdmissionDisposition,
    ) -> bool {
        let key = (snapshot.spec_uri(), class);
        let kept = without_key(self.spec_retained(), key);
        let limits = self.spec_limits();
        let overload = kept.len() >= limits.max_retained_jobs || text_bytes(snapshot) > limits.max_retained_bytes
            - total_bytes(kept);
        &&& overload ==> {
            &&& r == AdmissionDisposition::DroppedOverload {
                class,
                retained_jobs: kept.len() as usize,
                retained_bytes: total_bytes(kept) as usize,
            }
            &&& next.spec_retained() == kept
            &&& next.spec_next_sequence() == self.spec_next_sequence()
            &&& forall|c: TaskClass| #[trigger] next.spec_queue(c) == self.queue_without_key(c, key)
        }
        &&& !overload ==> {
            &&& r is Enqueued
            &&& next.spec_next_sequence() == sat_inc_u64(self.spec_next_sequence())
            &&& r->Enqueued_task@ == IdentityView {
                uri: snapshot.spec_uri(),
                class,
                revision: snapshot.spec_revision(),
                request_id,
                sequence: next.spec_next_sequence(),
            }
            &&& (r->Enqueued_replaced is Some) == (key_position(self.spec_retained(), key) is Some)
            &&& r->Enqueued_replaced is Some ==> r->Enqueued_replaced.unwrap()@ == self.spec_retained()[key_position(
                self.spec_retained(),
                key,
            ).unwrap()].identity
            &&& next.spec_retained() == kept.push(
                RetainedView { identity: r->Enqueued_task@, snapshot, queued: true, bytes: text_bytes(snapshot) as nat },
            )
            &&& next.spec_queue(class) == self.queue_without_key(class, key).push(r->Enqueued_task@)
            &&& forall|c: TaskClass| c != class ==> #[trigger] next.spec_queue(c) == self.queue_without_key(c, key)
        }
    }

    /// Retains the newest task for the lane of `snapshot`'s URI and `class`,
    /// cancelling the task it replaces before capacity is evaluated.
    #[verifier::rlimit(80)]
    #[verifier::spinoff_prover]
    pub fn admit_task(&mut self, class: TaskClass, snapshot: DocumentSnapshot, request_id: u64) -> (r: AdmissionDisposition)
        requires
            old(self).wf(),
        ensures
            final(self).wf(),
            final(self).spec_limits() == old(self).spec_limits(),
            old(self).admitted(final(self), class, snapshot, request_id, r),
    {
        let ghost key = (snapshot.spec_uri(), class);
        let ghost start = *self;
        let found = self.find_key(snapshot.uri(), class);
        let replaced: Option<TaskIdentity> = match found {
            Some(i) => {
                let t = self.remove_at(i);
                Some(t.identity)
            },
            None => None,
        };
        let ghost kept = self.spec_retained();
        proof {
            assert(kept == without_key(start.spec_retained(), key));
            assert forall|c: TaskClass| #[trigger] self.spec_queue(c) == start.queue_without_key(c, key) by {
            }
            assert forall|j: int| 0 <= j < kept.len() implies key_of(#[trigger] kept[j].identity) != key by {
                match found {
                    Some(i) => {
                        let j0 = if j < i { j } else { j + 1 };
                        assert(kept[j] == start.spec_retained()[j0]);
                        if j0 < i {
                            assert(key_of(start.spec_retained()[j0].identity) != key_of(start.spec_retained()[i as int].identity));
                        } else {
                            assert(key_of(start.spec_retained()[i as int].identity) != key_of(start.spec_retained()[j0].identity));
                        }
                    },
                    None => {
                    },
                }
            }
        }
        let ghost removed = *self;
        let bytes = snapshot.text().len();
        let room = self.limits.max_retained_bytes.saturating_sub(self.retained_bytes);
        if self.retained.len() >= self.limits.max_retained_jobs || bytes > room {
            return AdmissionDisposition::DroppedOverload {
                class,
                retained_jobs: self.retained.len(),
                retained_bytes: self.retained_bytes,
            };
        }
        self.next_sequence = self.next_sequence.saturating_add(1);
        let identity = TaskIdentity {
            uri: share(&snapshot.uri),
            class,
            revision: snapshot.revision,
            request_id,
            sequence: self.next_sequence,
        };
        let task = AnalysisTask {
            identity: identity.share_identity(),
            snapshot,
            cancelled: Arc::new(AtomicBool::new(false)),
        };
        let ghost entry = RetainedView { identity: identity@, snapshot, queued: true, bytes: bytes as nat };
        self.retained_bytes = self.retained_bytes + bytes;
        self.retained.push(RetainedTask { task, state: RetainedTaskState::Queued, bytes });
        proof {
            assert(self.spec_retained() =~= kept.push(entry));
            lemma_total_bytes_push(kept, entry);
        }
        let ghost mid = *self;
        self.queue_push(class, identity.share_identity());
        proof {
            let rs = self.spec_retained();
            assert(rs == kept.push(entry));
            assert(forall|c: TaskClass| #[trigger] mid.spec_queue(c) == removed.spec_queue(c));
            assert(forall|j: int| 0 <= j < kept.len() ==> key_of(#[trigger] kept[j].identity) != key);
            Self::lemma_wf_after_enqueue(&removed, self, class, entry);
        }
        AdmissionDisposition::Enqueued { task: identity, replaced }
    }

    proof fn lemma_wf_after_enqueue(removed: &Self, next: &Self, class: TaskClass, entry: RetainedView)
        requires
            removed.wf(),
            entry.queued,
            entry.identity.class == class,
            entry.bytes == text_bytes(entry.snapshot),
            forall|j: int|
                0 <= j < removed.spec_retained().len() ==> key_of(#[trigger] removed.spec_retained()[j].identity)
                    != key_of(entry.identity),
            next.spec_limits() == removed.spec_limits(),
            next.spec_retained() == removed.spec_retained().push(entry),
            next.spec_retained_bytes() == total_bytes(next.spec_retained()),
            total_bytes(next.spec_retained()) <= next.spec_limits().max_retained_bytes,
            next.spec_retained().len() <= next.spec_limits().max_retained_jobs,
            next.spec_queue(class) == removed.spec_queue(class).push(entry.identity),
            forall|c: TaskClass| c != class ==> #[trigger] next.spec_queue(c) == removed.spec_queue(c),
        ensures
            next.wf(),
    {
        let kept = removed.spec_retained();
        let rs = next.spec_retained();
        let key = key_of(entry.identity);
        let identity = entry.identity;
        assert forall|a: int| 0 <= a < rs.len() implies (#[trigger] rs[a]).bytes == text_bytes(rs[a].snapshot) by {
            if a < kept.len() {
                assert(rs[a] == kept[a]);
            }
        }
        assert forall|a: int, b: int| 0 <= a < b < rs.len() implies key_of(#[trigger] rs[a].identity) != key_of(
            #[trigger] rs[b].identity,
        ) by {
            assert(rs[a] == kept[a]);
            if b < kept.len() {
                assert(rs[b] == kept[b]);
            }
        }
        assert forall|c: TaskClass, k: int| 0 <= k < removed.spec_queue(c).len() implies key_of(
            #[trigger] removed.spec_queue(c)[k],
        ) != key by {
            let x = removed.spec_queue(c)[k];
            assert(removed.queued_in_table(x));
            let j = choose|j: int| 0 <= j < kept.len() && (#[trigger] kept[j]).queued && kept[j].identity == x;
            assert(key_of(kept[j].identity) != key);
        }
        assert forall|c: TaskClass| (#[trigger] next.spec_queue(c)).no_duplicates() by {
            assert(removed.spec_queue(c).no_duplicates());
            if c == class {
                let q = removed.spec_queue(c);
                assert forall|a: int, b: int| 0 <= a < b < q.len() + 1 implies q.push(identity)[a] != q.push(
                    identity,
                )[b] by {
                    if b == q.len() {
                        assert(key_of(q[a]) != key);
                    } else {
                        assert(q[a] != q[b]);
                    }
                }
            }
        }
        assert forall|c: TaskClass, k: int| 0 <= k < next.spec_queue(c).len() implies next.queued_in_table(
            #[trigger] next.spec_queue(c)[k],
        ) && next.spec_queue(c)[k].class == c by {
            let x = next.spec_queue(c)[k];
            if c == class && k == removed.spec_queue(c).len() {
                assert(rs[kept.len() as int] == entry);
            } else {
                assert(x == removed.spec_queue(c)[k]);
                assert(removed.queued_in_table(x));
                let j = choose|j: int| 0 <= j < kept.len() && (#[trigger] kept[j]).queued && kept[j].identity == x;
                assert(rs[j] == kept[j]);
            }
        }
        assert forall|a: int| 0 <= a < rs.len() && (#[trigger] rs[a]).queued implies next.spec_queue(
            rs[a].identity.class,
        ).contains(rs[a].identity) by {
            let c = rs[a].identity.class;
            if a == kept.len() {
                assert(next.spec_queue(class)[removed.spec_queue(class).len() as int] == identity);
            } else {
                assert(rs[a] == kept[a]);
                assert(removed.spec_queue(c).contains(rs[a].identity));
                let k = choose|k: int| 0 <= k < removed.spec_queue(c).len() && removed.spec_queue(c)[k] == rs[a].identity;
                assert(next.spec_queue(c)[k] == rs[a].identity);
            }
        }
    }

    proof fn lemma_identity_position(&self, id: IdentityView, i: int)
        requires
            self.wf(),
            0 <= i < self.spec_retained().len(),
            self.spec_retained()[i].identity == id,
        ensures
            identity_position(self.spec_retained(), id) == i,
    {
        let j = identity_position(self.spec_retained(), id);
        assert(0 <= j < self.spec_retained().len() && self.spec_retained()[j].identity == id);
        if j != i {
            self.lemma_latest_wins(i, j);
        }
    }

    /// `next` and `r` are the table and answer after a worker asked for the
    /// next task: the front of the first non-empty lane in dispatch order,
    /// or nothing when every lane is empty.
    pub open spec fn took(&self, next: &Self, r: Option<AnalysisTask>) -> bool {
        &&& next.spec_limits() == self.spec_limits()
        &&& next.spec_next_sequence() == self.spec_next_sequence()
        &&& next.spec_retained_bytes() == self.spec_retained_bytes()
        &&& self.first_nonempty() is None ==> {
            &&& r is None
            &&& next.spec_retained() == self.spec_retained()
            &&& forall|c: TaskClass| #[trigger] next.spec_queue(c) == self.spec_queue(c)
        }
        &&& self.first_nonempty() is Some ==> r is Some && self.dispatched(
            next,
            self.first_nonempty().unwrap(),
            r.unwrap(),
        )
    }

    /// Two dispatches in a row never hand a worker the same identity: the
    /// first leaves its lane, and each lane holds an identity once.
    pub proof fn lemma_dispatch_once(a: &Self, b: &Self, c: &Self, first: AnalysisTask, second: AnalysisTask)
        requires
            a.wf(),
            b.wf(),
            a.took(b, Some(first)),
            b.took(c, Some(second)),
        ensures
            first.spec_identity() != second.spec_identity(),
    {
        let c1 = a.first_nonempty().unwrap();
        let c2 = b.first_nonempty().unwrap();
        let qa = a.spec_queue(c1);
        assert(first.spec_identity() == qa[0]);
        assert(qa[0].class == c1);
        assert(second.spec_identity() == b.spec_queue(c2)[0]);
        assert(b.spec_queue(c2)[0].class == c2);
        if c1 == c2 {
            assert(b.spec_queue(c1) == qa.drop_first());
            assert(b.spec_queue(c1)[0] == qa[1]);
            assert(qa.no_duplicates());
        }
    }

    /// `next` and `r` are the table and answer after completing `id`: `r`
    /// tells whether `id` was still current, and a current task leaves.
    pub open spec fn completed(&self, next: &Self, id: IdentityView, r: bool) -> bool {
        let i = identity_position(self.spec_retained(), id);
        &&& next.spec_limits() == self.spec_limits()
        &&& next.spec_next_sequence() == self.spec_next_sequence()
        &&& r == self.is_current(id)
        &&& r ==> next.spec_retained_bytes() == self.spec_retained_bytes() - text_bytes(self.spec_retained()[i].snapshot)
        &&& r ==> next.spec_retained() == self.spec_retained().remove(i) && forall|c: TaskClass|
            #[trigger] next.spec_queue(c) == self.queue_after_removal(c, i)
        &&& !r ==> next.spec_retained_bytes() == self.spec_retained_bytes()
        &&& !r ==> next.spec_retained() == self.spec_retained() && forall|c: TaskClass|
            #[trigger] next.spec_queue(c) == self.spec_queue(c)
    }

    /// `next` is the table after all work for `uri` was cancelled.
    pub open spec fn cancelled_uri(&self, next: &Self, uri: Seq<char>) -> bool {
        &&& next.spec_limits() == self.spec_limits()
        &&& next.spec_next_sequence() == self.spec_next_sequence()
        &&& next.spec_retained() == self.spec_retained().filter(other_uri(uri))
        &&& forall|c: TaskClass, x: IdentityView|
            #[trigger] next.spec_queue(c).contains(x) == (self.spec_queue(c).contains(x) && x.uri != uri)
    }

    /// Hands the front identity of the first non-empty lane, in dispatch
    /// order, to a worker; its task stays retained, now running.
    #[verifier::rlimit(40)]
    pub fn take_next(&mut self) -> (r: Option<AnalysisTask>)
        requires
            old(self).wf(),
        ensures
            final(self).wf(),
            old(self).took(final(self), r),
    {
        let ghost start = *self;
        let mut rank: usize = 0;
        while rank < 3
            invariant
                start == *old(self),
                rank <= 3,
                start.wf(),
                self.same_table(&start),
                forall|c: TaskClass| #[trigger] self.spec_queue(c) == start.spec_queue(c),
                forall|r: int| 0 <= r < rank ==> start.spec_queue(#[trigger] class_at(r)).len() == 0,
            decreases 3 - rank,
        {
            let class = exec_class_at(rank);
            let mut popped = self.queue_pop(class);
            while popped.is_some()
                invariant
                    start == *old(self),
                    rank < 3,
                    class == class_at(rank as int),
                    forall|r: int| 0 <= r < rank ==> start.spec_queue(#[trigger] class_at(r)).len() == 0,
                    start.wf(),
                    self.same_table(&start),
                    forall|c: TaskClass| c != class ==> #[trigger] self.spec_queue(c) == start.spec_queue(c),
                    popped is Some ==> start.spec_queue(class).len() > 0 && popped.unwrap()@ == start.spec_queue(
                        class,
                    )[0] && self.spec_queue(class) == start.spec_queue(class).drop_first(),
                    popped is None ==> self.spec_queue(class) == start.spec_queue(class) && start.spec_queue(
                        class,
                    ).len() == 0,
                decreases self.spec_queue(class).len(),
            {
                let identity = popped.unwrap();
                let ghost id = identity@;
                proof {
                    assert(start.spec_queue(class).contains(id));
                    assert(start.queued_in_table(start.spec_queue(class)[0]));
                }
                let found = self.find_key(identity.uri.as_str(), identity.class);
                let ghost j = choose|j: int| 0 <= j < start.spec_retained().len() && (#[trigger] start.spec_retained()[j]).queued
                    && start.spec_retained()[j].identity == id;
                proof {
                    assert(self.spec_retained() == start.spec_retained());
                }
                if let Some(i) = found {
                    proof {
                        if i != j {
                            start.lemma_latest_wins(i as int, j);
                        }
                    }
                    if self.retained[i].state == RetainedTaskState::Queued && self.retained[i].task.identity.same_as(
                        &identity,
                    ) {
                        let ghost pre = *self;
                        let mut entry = self.retained.remove(i);
                        entry.state = RetainedTaskState::InFlight;
                        let task = entry.task.share_task();
                        self.retained.insert(i, entry);
                        proof {
                            assert(self.foreground == pre.foreground && self.semantic == pre.semantic && self.rich
                                == pre.rich);
                            assert(forall|c: TaskClass| #[trigger] self.spec_queue(c) == pre.spec_queue(c));
                            assert(self.limits == pre.limits && self.next_sequence == pre.next_sequence
                                && self.retained_bytes == pre.retained_bytes);
                            start.lemma_identity_position(id, i as int);
                            assert(self.spec_retained() =~= start.spec_retained().update(
                                i as int,
                                in_flight(start.spec_retained()[i as int]),
                            ));
                            assert(class_rank(class) == rank);
                            assert(start.first_nonempty() == Some(class)) by {
                                if rank > 0 {
                                    assert(start.spec_queue(class_at(0)).len() == 0);
                                }
                                if rank > 1 {
                                    assert(start.spec_queue(class_at(1)).len() == 0);
                                }
                            }
                            assert(self.wf()) by {
                                self.lemma_wf_after_dispatch(&start, class, i as int);
                            }
                        }
                        return Some(task);
                    }
                }
                proof {
                    // the front identity of a lane always belongs to a queued task
                    assert(false);
                }
                popped = self.queue_pop(class);
            }
            rank = rank + 1;
        }
        proof {
            assert(start.spec_queue(class_at(0)).len() == 0);
            assert(start.spec_queue(class_at(1)).len() == 0);
            assert(start.spec_queue(class_at(2)).len() == 0);
            assert(self.spec_retained() == start.spec_retained());
        }
        None
    }

    proof fn lemma_wf_after_dispatch(&self, start: &Self, class: TaskClass, i: int)
        requires
            start.wf(),
            start.spec_queue(class).len() > 0,
            0 <= i < start.spec_retained().len(),
            start.spec_retained()[i].identity == start.spec_queue(class)[0],
            start.spec_retained()[i].queued,
            self.spec_limits() == start.spec_limits(),
            self.spec_retained_bytes() == start.spec_retained_bytes(),
            self.spec_retained() == start.spec_retained().update(i, in_flight(start.spec_retained()[i])),
            self.spec_queue(class) == start.spec_queue(class).drop_first(),
            forall|c: TaskClass| c != class ==> #[trigger] self.spec_queue(c) == start.spec_queue(c),
        ensures
            self.wf(),
    {
        let rs = self.spec_retained();
        let old_rs = start.spec_retained();
        let id = old_rs[i].identity;
        assert forall|a: int, b: int| 0 <= a < b < rs.len() implies key_of(#[trigger] rs[a].identity) != key_of(
            #[trigger] rs[b].identity,
        ) by {
            assert(rs[a].identity == old_rs[a].identity && rs[b].identity == old_rs[b].identity);
        }
        assert(total_bytes(rs) == total_bytes(old_rs)) by {
            lemma_total_bytes_remove(old_rs, i);
            lemma_total_bytes_remove(rs, i);
            assert(rs.remove(i) =~= old_rs.remove(i));
        }
        assert forall|c: TaskClass| (#[trigger] self.spec_queue(c)).no_duplicates() by {
            assert(start.spec_queue(c).no_duplicates());
            if c == class {
                let q = start.spec_queue(c);
                assert forall|a: int, b: int| 0 <= a < b < q.len() - 1 implies q.drop_first()[a] != q.drop_first()[b] by {
                    assert(q[a + 1] != q[b + 1]);
                }
            }
        }
        assert forall|c: TaskClass, k: int| 0 <= k < self.spec_queue(c).len() implies self.queued_in_table(
            #[trigger] self.spec_queue(c)[k],
        ) && self.spec_queue(c)[k].class == c by {
            let x = self.spec_queue(c)[k];
            let k0 = if c == class { k + 1 } else { k };
            assert(x == start.spec_queue(c)[k0]);
            assert(start.queued_in_table(start.spec_queue(c)[k0]));
            let j = choose|j: int| 0 <= j < old_rs.len() && (#[trigger] old_rs[j]).queued && old_rs[j].identity == x;
            if j == i {
                // x is the dispatched front, which occurs once in its lane
                assert(start.spec_queue(class)[0] == x);
                assert(x.class == class);
                assert(start.spec_queue(class).no_duplicates());
                assert(c == class);
                assert(start.spec_queue(class)[0] != start.spec_queue(class)[k + 1]);
            }
            assert(rs[j] == old_rs[j]);
        }
        assert forall|a: int| 0 <= a < rs.len() && (#[trigger] rs[a]).queued implies self.spec_queue(
            rs[a].identity.class,
        ).contains(rs[a].identity) by {
            assert(a != i);
            assert(rs[a] == old_rs[a]);
            let c = rs[a].identity.class;
            assert(start.spec_queue(c).contains(rs[a].identity));
            let k = choose|k: int| 0 <= k < start.spec_queue(c).len() && start.spec_queue(c)[k] == rs[a].identity;
            if c == class {
                if k == 0 {
                    assert(key_of(old_rs[a].identity) != key_of(old_rs[i].identity)) by {
                        if a < i {
                        } else {
                        }
                    }
                    assert(false);
                }
                assert(self.spec_queue(c)[k - 1] == rs[a].identity);
            } else {
                assert(self.spec_queue(c)[k] == rs[a].identity);
            }
        }
    }

    /// Whether the task with this exact identity is still current (and so
    /// may publish); a current task is released from the table.
    pub fn complete(&mut self, identity: &TaskIdentity) -> (r: bool)
        requires
            old(self).wf(),
        ensures
            final(self).wf(),
            old(self).completed(final(self), identity@, r),
    {
        let found = self.find_key(identity.uri.as_str(), identity.class);
        match found {
            Some(i) => {
                if self.retained[i].task.identity.same_as(identity) {
                    proof {
                        self.lemma_identity_position(identity@, i as int);
                        assert(self.spec_retained()[i as int].bytes == text_bytes(self.spec_retained()[i as int].snapshot));
                    }
                    self.remove_at(i);
                    true
                } else {
                    proof {
                        if self.is_current(identity@) {
                            let j = choose|j: int| 0 <= j < self.spec_retained().len() && self.spec_retained()[j].identity
                                == identity@;
                            self.lemma_latest_wins(i as int, j);
                        }
                    }
                    false
                }
            },
            None => {
                proof {
                    if self.is_current(identity@) {
                        let j = choose|j: int| 0 <= j < self.spec_retained().len() && self.spec_retained()[j].identity
                            == identity@;
                        assert(key_of(self.spec_retained()[j].identity) == (identity@.uri, identity@.class));
                    }
                }
                false
            },
        }
    }

    /// Cancels all retained work for `uri`.
    #[verifier::rlimit(60)]
    pub fn cancel_uri(&mut self, uri: &str)
        requires
            old(self).wf(),
        ensures
            final(self).wf(),
            old(self).cancelled_uri(final(self), uri@),
    {
        let ghost start = *self;
        let ghost old_rs = start.spec_retained();
        let ghost keep = other_uri(uri@);
        let mut i: usize = 0;
        let ghost mut j: int = 0;
        proof {
            assert(old_rs.take(0).filter(keep) =~= Seq::<RetainedView>::empty()) by {
                reveal(Seq::filter);
            }
            assert(old_rs.take(0).filter(keep) + old_rs.skip(0) =~= old_rs);
        }
        while i < self.retained.len()
            invariant
                self.wf(),
                self.spec_limits() == start.spec_limits(),
                self.spec_next_sequence() == start.spec_next_sequence(),
                0 <= j <= old_rs.len(),
                keep == other_uri(uri@),
                self.spec_retained() == old_rs.take(j).filter(keep) + old_rs.skip(j),
                i == old_rs.take(j).filter(keep).len(),
            decreases old_rs.len() - j,
        {
            let ghost before = self.spec_retained();
            proof {
                old_rs.take(j).lemma_filter_len(keep);
                assert(before[i as int] == old_rs[j]);
                assert(before[i as int] == retained_view(self.retained@[i as int]));
                assert(keep(old_rs[j]) == (old_rs[j].identity.uri != uri@));
                lemma_filter_take_step(old_rs, keep, j);
            }
            if str_eq(self.retained[i].task.identity.uri.as_str(), uri) {
                self.remove_at(i);
                proof {
                    assert(!keep(old_rs[j]));
                    assert(self.spec_retained() =~= old_rs.take(j + 1).filter(keep) + old_rs.skip(j + 1));
                }
            } else {
                proof {
                    assert(keep(old_rs[j]));
                    assert(self.spec_retained() =~= old_rs.take(j + 1).filter(keep) + old_rs.skip(j + 1));
                }
                i = i + 1;
            }
            proof {
                j = j + 1;
            }
        }
        proof {
            old_rs.take(j).lemma_filter_len(keep);
            assert(j == old_rs.len());
            assert(old_rs.take(j) =~= old_rs);
            assert(self.spec_retained() =~= old_rs.filter(keep));
            let rs = self.spec_retained();
            #[allow(deprecated)]
            old_rs.filter_lemma(keep);
            assert forall|c: TaskClass, x: IdentityView| #[trigger] self.spec_queue(c).contains(x) == (
            start.spec_queue(c).contains(x) && x.uri != uri@) by {
                if self.spec_queue(c).contains(x) {
                    let k = choose|k: int| 0 <= k < self.spec_queue(c).len() && self.spec_queue(c)[k] == x;
                    assert(self.queued_in_table(self.spec_queue(c)[k]));
                    assert(exists|a: int| 0 <= a < rs.len() && (#[trigger] rs[a]).queued && rs[a].identity == x);
                    let a = choose|a: int| 0 <= a < rs.len() && (#[trigger] rs[a]).queued && rs[a].identity == x;
                    assert(rs.contains(rs[a]));
                    assert(rs == old_rs.filter(keep));
                    assert(0 <= a < old_rs.filter(keep).len());
                    old_rs.lemma_filter_contains_rev(keep, rs[a]);
                    old_rs.lemma_filter_pred(keep, a);
                    assert(keep(rs[a]));
                    assert(old_rs.contains(rs[a]));
                    let a0 = choose|a0: int| 0 <= a0 < old_rs.len() && old_rs[a0] == rs[a];
                    assert(start.spec_queue(old_rs[a0].identity.class).contains(old_rs[a0].identity));
                    assert(x.class == c);
                }
                if start.spec_queue(c).contains(x) && x.uri != uri@ {
                    let k = choose|k: int| 0 <= k < start.spec_queue(c).len() && start.spec_queue(c)[k] == x;
                    assert(start.queued_in_table(start.spec_queue(c)[k]));
                    let a0 = choose|a0: int| 0 <= a0 < old_rs.len() && (#[trigger] old_rs[a0]).queued && old_rs[a0].identity == x;
                    assert(keep(old_rs[a0]));
                    assert(rs.contains(old_rs[a0]));
                    let a = choose|a: int| 0 <= a < rs.len() && rs[a] == old_rs[a0];
                    assert(rs[a].queued);
                    assert(x.class == c);
                }
            }
        }
    }
}

} // verus!

verus! {

/// Owner of document identity and admitted work: an accepted edit or a
/// close cancels all retained work for its URI.
#[derive(Debug)]
pub struct AnalysisRuntime {
    documents: DocumentStore,
    admission: TaskAdmission,
}

impl AnalysisRuntime {
    pub closed spec fn spec_documents(&self) -> DocumentStore {
        self.documents
    }

    pub closed spec fn spec_admission(&self) -> TaskAdmission {
        self.admission
    }

    pub open spec fn wf(&self) -> bool {
        self.spec_documents().wf() && self.spec_admission().wf()
    }

    pub fn new(limits: AdmissionLimits) -> (r: Self)
        ensures
            r.wf(),
            forall|u: Seq<char>| r.spec_documents().spec_latest(u) is None,
            r.spec_admission().spec_limits() == limits,
            r.spec_admission().spec_retained().len() == 0,
    {
        AnalysisRuntime { documents: DocumentStore::new(), admission: TaskAdmission::new(limits) }
    }

    /// Offers an edit to the store; when it is accepted, every retained task
    /// of the URI's older snapshot is cancelled.
    pub fn upsert(&mut self, uri: &str, version: i32, text: &str) -> (outcome: UpsertOutcome)
        requires
            old(self).wf(),
        ensures
            final(self).wf(),
            (outcome == UpsertOutcome::Stale) == (old(self).spec_documents().spec_latest(uri@) matches Some(cur)
                && version <= cur.spec_version()),
            outcome == UpsertOutcome::Stale ==> *final(self) == *old(self),
            outcome == UpsertOutcome::Accepted ==> {
                &&& final(self).spec_documents().spec_latest(uri@) matches Some(s) && s.spec_uri() == uri@
                    && s.spec_version() == version && s.spec_text() == text@ && s.spec_revision()
                    == final(self).spec_documents().spec_next_revision()
                &&& final(self).spec_documents().spec_next_revision() == sat_inc_u64(
                    old(self).spec_documents().spec_next_revision(),
                )
                &&& forall|u: Seq<char>|
                    u != uri@ ==> #[trigger] final(self).spec_documents().spec_latest(u) == old(
                        self,
                    ).spec_documents().spec_latest(u)
                &&& old(self).spec_admission().cancelled_uri(&final(self).spec_admission(), uri@)
            },
    {
        let outcome = self.documents.upsert(uri, version, text);
        if outcome == UpsertOutcome::Accepted {
            self.admission.cancel_uri(uri);
        }
        outcome
    }

    pub fn latest(&self, uri: &str) -> (r: Option<DocumentSnapshot>)
        requires
            self.wf(),
        ensures
            r == self.spec_documents().spec_latest(uri@),
    {
        self.documents.latest(uri)
    }

    /// Cancels the URI's retained work, then closes its snapshot if it still
    /// has `revision`.
    pub fn close(&mut self, uri: &str, revision: u64) -> (r: Option<DocumentSnapshot>)
        requires
            old(self).wf(),
        ensures
            final(self).wf(),
            old(self).spec_admission().cancelled_uri(&final(self).spec_admission(), uri@),
            final(self).spec_documents().spec_next_revision() == old(self).spec_documents().spec_next_revision(),
            old(self).spec_documents().spec_latest(uri@) is Some && old(self).spec_documents().spec_latest(
                uri@,
            ).unwrap().spec_revision() == revision ==> {
                &&& r == old(self).spec_documents().spec_latest(uri@)
                &&& final(self).spec_documents().spec_latest(uri@) is None
                &&& forall|u: Seq<char>|
                    u != uri@ ==> #[trigger] final(self).spec_documents().spec_latest(u) == old(
                        self,
                    ).spec_documents().spec_latest(u)
            },
            !(old(self).spec_documents().spec_latest(uri@) is Some && old(self).spec_documents().spec_latest(
                uri@,
            ).unwrap().spec_revision() == revision) ==> r is None && final(self).spec_documents() == old(
                self,
            ).spec_documents(),
    {
        self.admission.cancel_uri(uri);
        self.documents.close(uri, revision)
    }

    pub fn admit_task(&mut self, class: TaskClass, snapshot: DocumentSnapshot, request_id: u64) -> (r:
        AdmissionDisposition)
        requires
            old(self).wf(),
        ensures
            final(self).wf(),
            final(self).spec_documents() == old(self).spec_documents(),
            old(self).spec_admission().admitted(&final(self).spec_admission(), class, snapshot, request_id, r),
    {
        self.admission.admit_task(class, snapshot, request_id)
    }

    pub fn take_next(&mut self) -> (r: Option<AnalysisTask>)
        requires
            old(self).wf(),
        ensures
            final(self).wf(),
            final(self).spec_documents() == old(self).spec_documents(),
            old(self).spec_admission().took(&final(self).spec_admission(), r),
    {
        self.admission.take_next()
    }

    pub fn complete(&mut self, identity: &TaskIdentity) -> (r: bool)
        requires
            old(self).wf(),
        ensures
            final(self).wf(),
            final(self).spec_documents() == old(self).spec_documents(),
            old(self).spec_admission().completed(&final(self).spec_admission(), identity@, r),
    {
        self.admission.complete(identity)
    }
}

} // verus!
