//! The index's lookup tables seen whole: every key of a table, in key order,
//! with the ids filed under it, and the sizes of all tables.
use vstd::prelude::*;
use crate::index::{is_class_member_kind, select_ids, GlobalSymbolId, IndexMapCounts, IndexedFile, IndexedSymbol, SymbolIndex};
use crate::model::{SourceKind, SymbolKind};
use crate::order::{
    chars_lt, fields_equal, fields_less, fields_lt, is_strict_total, lemma_lex_irreflexive, lemma_chars_lt_strict_total, lemma_fields_lt_strict_total,
    segment_views,
};
use crate::text::{chars_of, string_from_chars};

verus! {

/// One lookup table of the index: the key under which it files a symbol.
#[derive(Debug, Clone, Copy, PartialEq, Eq, Structural)]
pub enum LookupTable {
    /// Every named symbol, by name.
    Names,
    /// Named symbols without a parent, by name.
    TopLevelNames,
    /// Classes by name.
    ClassNames,
    /// Typedefs by name.
    TypedefNames,
    /// Functions by name.
    FunctionNames,
    /// Methods by (owner class, name).
    MethodOwnerNames,
    /// Fields by (owner class, name).
    FieldOwnerNames,
    /// Named fields, methods, constructors and destructors by owner class.
    MemberOwners,
}

/// An entry of a table: its key (one field per key part) and its ids.
pub type TableEntry = (Vec<Vec<char>>, Vec<GlobalSymbolId>);

pub open spec fn entry_keys(r: Seq<TableEntry>) -> Seq<Seq<Seq<char>>> {
    r.map_values(|e: TableEntry| segment_views(e.0@))
}

pub open spec fn entry_groups(r: Seq<TableEntry>) -> Seq<Seq<GlobalSymbolId>> {
    r.map_values(|e: TableEntry| e.1@)
}

/// A listing by single names: each key is the one-field tuple of its name.
pub open spec fn name_keys(r: Seq<(String, Vec<GlobalSymbolId>)>) -> Seq<Seq<Seq<char>>> {
    r.map_values(|e: (String, Vec<GlobalSymbolId>)| seq![e.0@])
}

pub open spec fn name_groups(r: Seq<(String, Vec<GlobalSymbolId>)>) -> Seq<Seq<GlobalSymbolId>> {
    r.map_values(|e: (String, Vec<GlobalSymbolId>)| e.1@)
}

/// A listing by (owner, name) pairs.
pub open spec fn pair_keys(r: Seq<((String, String), Vec<GlobalSymbolId>)>) -> Seq<Seq<Seq<char>>> {
    r.map_values(|e: ((String, String), Vec<GlobalSymbolId>)| seq![e.0.0@, e.0.1@])
}

pub open spec fn pair_groups(r: Seq<((String, String), Vec<GlobalSymbolId>)>) -> Seq<Seq<GlobalSymbolId>> {
    r.map_values(|e: ((String, String), Vec<GlobalSymbolId>)| e.1@)
}

impl SymbolIndex {
    /// The key under which `table` files `s`, if it files it at all.
    pub open spec fn spec_table_key(&self, table: LookupTable, s: IndexedSymbol) -> Option<Seq<Seq<char>>> {
        match s.name {
            None => None,
            Some(n) => match table {
                LookupTable::Names => Some(seq![n@]),
                LookupTable::TopLevelNames => if s.parent is None {
                    Some(seq![n@])
                } else {
                    None
                },
                LookupTable::ClassNames => if s.kind == SymbolKind::Class {
                    Some(seq![n@])
                } else {
                    None
                },
                LookupTable::TypedefNames => if s.kind == SymbolKind::Typedef {
                    Some(seq![n@])
                } else {
                    None
                },
                LookupTable::FunctionNames => if s.kind == SymbolKind::Function {
                    Some(seq![n@])
                } else {
                    None
                },
                LookupTable::MethodOwnerNames => if s.kind == SymbolKind::Method {
                    match self.spec_parent_class_name(s) {
                        Some(o) => Some(seq![o, n@]),
                        None => None,
                    }
                } else {
                    None
                },
                LookupTable::FieldOwnerNames => if s.kind == SymbolKind::Field {
                    match self.spec_parent_class_name(s) {
                        Some(o) => Some(seq![o, n@]),
                        None => None,
                    }
                } else {
                    None
                },
                LookupTable::MemberOwners => if is_class_member_kind(s.kind) {
                    match self.spec_parent_class_name(s) {
                        Some(o) => Some(seq![o]),
                        None => None,
                    }
                } else {
                    None
                },
            },
        }
    }

    /// The ids `table` files under `key`, in table order.
    pub open spec fn spec_table_ids(&self, table: LookupTable, key: Seq<Seq<char>>) -> Seq<GlobalSymbolId> {
        select_ids(self.spec_symbols(), |s: IndexedSymbol| self.spec_table_key(table, s) == Some(key))
    }

    /// `table` files some symbol under `key`.
    pub open spec fn table_has_key(&self, table: LookupTable, key: Seq<Seq<char>>) -> bool {
        exists|j: int|
            0 <= j < self.spec_symbols().len() && #[trigger] self.spec_table_key(table, self.spec_symbols()[j])
                == Some(key)
    }

    /// `keys` lists every key of `table` once, in increasing key order, and
    /// `groups` holds, for each, the ids filed under it in table order.
    pub open spec fn lists_table(
        &self,
        table: LookupTable,
        keys: Seq<Seq<Seq<char>>>,
        groups: Seq<Seq<GlobalSymbolId>>,
    ) -> bool {
        &&& keys.len() == groups.len()
        &&& keys_sorted(keys)
        &&& forall|a: int| 0 <= a < keys.len() ==> #[trigger] groups[a] == self.spec_table_ids(table, keys[a])
        &&& forall|key: Seq<Seq<char>>| keys.contains(key) <==> self.table_has_key(table, key)
    }

    /// Like `lists_table`, restricted to the keys with more than one id.
    pub open spec fn lists_table_duplicates(
        &self,
        table: LookupTable,
        keys: Seq<Seq<Seq<char>>>,
        groups: Seq<Seq<GlobalSymbolId>>,
    ) -> bool {
        &&& keys.len() == groups.len()
        &&& keys_sorted(keys)
        &&& forall|a: int| 0 <= a < keys.len() ==> #[trigger] groups[a] == self.spec_table_ids(table, keys[a])
        &&& forall|key: Seq<Seq<char>>|
            keys.contains(key) <==> (self.table_has_key(table, key) && self.spec_table_ids(table, key).len() > 1)
    }

    /// `r` lists every key of `table` (see `lists_table`).
    pub open spec fn is_table_listing(&self, table: LookupTable, r: Seq<TableEntry>) -> bool {
        self.lists_table(table, entry_keys(r), entry_groups(r))
    }

    fn exec_table_key(&self, table: LookupTable, s: &IndexedSymbol) -> (r: Option<Vec<Vec<char>>>)
        ensures
            match r {
                Some(k) => self.spec_table_key(table, *s) == Some(segment_views(k@)),
                None => self.spec_table_key(table, *s) is None,
            },
    {
        let name = match &s.name {
            Some(n) => chars_of(n.as_str()),
            None => return None,
        };
        let keep = match table {
            LookupTable::Names => true,
            LookupTable::TopLevelNames => s.parent.is_none(),
            LookupTable::ClassNames => s.kind == SymbolKind::Class,
            LookupTable::TypedefNames => s.kind == SymbolKind::Typedef,
            LookupTable::FunctionNames => s.kind == SymbolKind::Function,
            LookupTable::MethodOwnerNames => s.kind == SymbolKind::Method,
            LookupTable::FieldOwnerNames => s.kind == SymbolKind::Field,
            LookupTable::MemberOwners => s.kind == SymbolKind::Field || s.kind == SymbolKind::Method
                || s.kind == SymbolKind::Constructor || s.kind == SymbolKind::Destructor,
        };
        if !keep {
            return None;
        }
        match table {
            LookupTable::MethodOwnerNames | LookupTable::FieldOwnerNames | LookupTable::MemberOwners => {
                let owner = match self.parent_class_name(s) {
                    Some(o) => chars_of(o.as_str()),
                    None => return None,
                };
                let mut key: Vec<Vec<char>> = Vec::new();
                key.push(owner);
                if table != LookupTable::MemberOwners {
                    key.push(name);
                }
                assert(segment_views(key@) =~= self.spec_table_key(table, *s)->0);
                Some(key)
            },
            _ => {
                let mut key: Vec<Vec<char>> = Vec::new();
                key.push(name);
                assert(segment_views(key@) =~= self.spec_table_key(table, *s)->0);
                Some(key)
            },
        }
    }
}


/// Keys in strictly increasing order.
pub open spec fn keys_sorted(keys: Seq<Seq<Seq<char>>>) -> bool {
    forall|a: int, b: int| 0 <= a < b < keys.len() ==> fields_lt(#[trigger] keys[a], #[trigger] keys[b])
}

pub proof fn lemma_insert_entry_keys(r: Seq<TableEntry>, p: int, e: TableEntry)
    requires
        0 <= p <= r.len(),
    ensures
        entry_keys(r.insert(p, e)) == entry_keys(r).insert(p, segment_views(e.0@)),
{
    assert(entry_keys(r.insert(p, e)) =~= entry_keys(r).insert(p, segment_views(e.0@)));
}

/// Where `key` stands, or would stand, in sorted `keys`.
fn find_slot(out: &Vec<TableEntry>, key: &Vec<Vec<char>>) -> (r: (usize, bool))
    requires
        keys_sorted(entry_keys(out@)),
    ensures
        r.0 <= out@.len(),
        r.1 ==> r.0 < out@.len() && entry_keys(out@)[r.0 as int] == segment_views(key@),
        r.1 <==> entry_keys(out@).contains(segment_views(key@)),
        !r.1 ==> (forall|q: int| 0 <= q < r.0 ==> fields_lt(#[trigger] entry_keys(out@)[q], segment_views(key@)))
            && (forall|q: int| r.0 <= q < out@.len() ==> fields_lt(segment_views(key@), #[trigger] entry_keys(out@)[q])),
{
    let ghost keys = entry_keys(out@);
    let ghost kv = segment_views(key@);
    proof {
        lemma_fields_lt_strict_total();
    }
    let ghost lt = |a: Seq<Seq<char>>, b: Seq<Seq<char>>| fields_lt(a, b);
    let mut p: usize = 0;
    while p < out.len()
        invariant
            p <= out@.len(),
            keys == entry_keys(out@),
            kv == segment_views(key@),
            keys_sorted(keys),
            is_strict_total(lt),
            lt == (|a: Seq<Seq<char>>, b: Seq<Seq<char>>| fields_lt(a, b)),
            forall|q: int| 0 <= q < p ==> fields_lt(#[trigger] keys[q], kv),
        decreases out@.len() - p,
    {
        assert(keys[p as int] == segment_views(out@[p as int].0@));
        if fields_equal(out[p].0.as_slice(), key.as_slice()) {
            assert(keys.contains(kv));
            return (p, true);
        }
        if fields_less(key.as_slice(), out[p].0.as_slice()) {
            proof {
                assert forall|q: int| p <= q < out@.len() implies fields_lt(kv, #[trigger] keys[q]) by {
                    if q > p {
                        assert(fields_lt(keys[p as int], keys[q]));
                        assert(lt(kv, keys[p as int]) && lt(keys[p as int], keys[q]));
                    }
                }
                assert(!keys.contains(kv)) by {
                    if keys.contains(kv) {
                        let q = choose|q: int| 0 <= q < keys.len() && keys[q] == kv;
                        if q < p {
                            assert(lt(kv, kv));
                        } else {
                            assert(lt(kv, kv));
                        }
                    }
                }
            }
            return (p, false);
        }
        assert(lt(keys[p as int], kv) || lt(kv, keys[p as int]));
        p = p + 1;
    }
    proof {
        assert(!keys.contains(kv)) by {
            if keys.contains(kv) {
                let q = choose|q: int| 0 <= q < keys.len() && keys[q] == kv;
                assert(lt(kv, kv));
            }
        }
    }
    (p, false)
}

impl SymbolIndex {
    fn table_ids(&self, table: LookupTable, key: &Vec<Vec<char>>) -> (r: Vec<GlobalSymbolId>)
        ensures
            r@ == self.spec_table_ids(table, segment_views(key@)),
    {
        let ghost kv = segment_views(key@);
        let ghost pred = |s: IndexedSymbol| self.spec_table_key(table, s) == Some(kv);
        let symbols = self.symbols();
        let mut out: Vec<GlobalSymbolId> = Vec::new();
        let mut i: usize = 0;
        while i < symbols.len()
            invariant
                symbols@ == self.spec_symbols(),
                i <= symbols@.len(),
                kv == segment_views(key@),
                pred == (|s: IndexedSymbol| self.spec_table_key(table, s) == Some(kv)),
                out@ == select_ids(symbols@.take(i as int), pred),
            decreases symbols@.len() - i,
        {
            proof {
                crate::index::lemma_select_ids_step(symbols@, pred, i as int);
            }
            let k = self.exec_table_key(table, &symbols[i]);
            let hit = match k {
                Some(k) => fields_equal(k.as_slice(), key.as_slice()),
                None => false,
            };
            assert(hit == pred(symbols@[i as int]));
            if hit {
                out.push(symbols[i].id);
            }
            i = i + 1;
        }
        assert(symbols@.take(symbols@.len() as int) =~= symbols@);
        out
    }

    /// Every key of `table`, in increasing key order, with the ids filed
    /// under it in table order.
    pub fn table_listing(&self, table: LookupTable) -> (r: Vec<TableEntry>)
        ensures
            self.is_table_listing(table, r@),
    {
        proof {
            lemma_fields_lt_strict_total();
        }
        let ghost lt = |a: Seq<Seq<char>>, b: Seq<Seq<char>>| fields_lt(a, b);
        let symbols = self.symbols();
        let mut out: Vec<TableEntry> = Vec::new();
        let mut i: usize = 0;
        while i < symbols.len()
            invariant
                symbols@ == self.spec_symbols(),
                i <= symbols@.len(),
                is_strict_total(lt),
                lt == (|a: Seq<Seq<char>>, b: Seq<Seq<char>>| fields_lt(a, b)),
                keys_sorted(entry_keys(out@)),
                forall|a: int| 0 <= a < out@.len() ==> (#[trigger] out@[a]).1@ == self.spec_table_ids(
                    table,
                    entry_keys(out@)[a],
                ),
                forall|a: int|
                    0 <= a < out@.len() ==> exists|j: int|
                        0 <= j < i && #[trigger] self.spec_table_key(table, symbols@[j]) == Some(
                            #[trigger] entry_keys(out@)[a],
                        ),
                forall|j: int|
                    0 <= j < i ==> (#[trigger] self.spec_table_key(table, symbols@[j]) matches Some(k)
                        ==> entry_keys(out@).contains(k)),
            decreases symbols@.len() - i,
        {
            let key = self.exec_table_key(table, &symbols[i]);
            let ghost old_out = out@;
            let ghost old_keys = entry_keys(out@);
            match key {
                None => {},
                Some(k) => {
                    let ghost kv = segment_views(k@);
                    let (p, present) = find_slot(&out, &k);
                    if !present {
                        let ids = self.table_ids(table, &k);
                        out.insert(p, (k, ids));
                        proof {
                            lemma_insert_entry_keys(old_out, p as int, (k, ids));
                            let keys = entry_keys(out@);
                            assert(keys == old_keys.insert(p as int, kv));
                            assert forall|a: int, b: int| 0 <= a < b < keys.len() implies fields_lt(
                                #[trigger] keys[a],
                                #[trigger] keys[b],
                            ) by {
                                if a < p && b == p {
                                    assert(fields_lt(old_keys[a], kv));
                                } else if a < p && b > p {
                                    assert(fields_lt(old_keys[a], old_keys[b - 1]));
                                } else if a == p {
                                    assert(fields_lt(kv, old_keys[b - 1]));
                                } else if a > p {
                                    assert(fields_lt(old_keys[a - 1], old_keys[b - 1]));
                                } else {
                                    assert(fields_lt(old_keys[a], old_keys[b]));
                                }
                            }
                            assert forall|a: int| 0 <= a < out@.len() implies (#[trigger] out@[a]).1@
                                == self.spec_table_ids(table, entry_keys(out@)[a]) by {
                                if a < p {
                                    assert(out@[a] == old_out[a]);
                                } else if a > p {
                                    assert(out@[a] == old_out[a - 1]);
                                }
                            }
                            assert forall|a: int| 0 <= a < out@.len() implies exists|j: int|
                                0 <= j < i + 1 && #[trigger] self.spec_table_key(table, symbols@[j]) == Some(
                                    #[trigger] entry_keys(out@)[a],
                                ) by {
                                if a < p {
                                    assert(keys[a] == old_keys[a]);
                                } else if a > p {
                                    assert(keys[a] == old_keys[a - 1]);
                                } else {
                                    assert(self.spec_table_key(table, symbols@[i as int]) == Some(keys[a]));
                                }
                            }
                            assert forall|j: int|
                                0 <= j < i + 1 implies (#[trigger] self.spec_table_key(table, symbols@[j]) matches Some(kk)
                                    ==> entry_keys(out@).contains(kk)) by {
                                if j < i {
                                    if let Some(kk) = self.spec_table_key(table, symbols@[j]) {
                                        let a = choose|a: int| 0 <= a < old_keys.len() && old_keys[a] == kk;
                                        if a < p {
                                            assert(keys[a] == kk);
                                        } else {
                                            assert(keys[a + 1] == kk);
                                        }
                                    }
                                } else {
                                    assert(keys[p as int] == kv);
                                }
                            }
                        }
                    } else {
                        proof {
                            assert forall|a: int| 0 <= a < out@.len() implies exists|j: int|
                                0 <= j < i + 1 && #[trigger] self.spec_table_key(table, symbols@[j]) == Some(
                                    #[trigger] entry_keys(out@)[a],
                                ) by {
                                let j = choose|j: int|
                                    0 <= j < i && #[trigger] self.spec_table_key(table, symbols@[j]) == Some(
                                        entry_keys(out@)[a],
                                    );
                            }
                        }
                    }
                },
            }
            proof {
                if key is None {
                    assert forall|a: int| 0 <= a < out@.len() implies exists|j: int|
                        0 <= j < i + 1 && #[trigger] self.spec_table_key(table, symbols@[j]) == Some(
                            #[trigger] entry_keys(out@)[a],
                        ) by {
                        let j = choose|j: int|
                            0 <= j < i && #[trigger] self.spec_table_key(table, symbols@[j]) == Some(
                                entry_keys(out@)[a],
                            );
                    }
                }
            }
            i = i + 1;
        }
        proof {
            let keys = entry_keys(out@);
            assert forall|key: Seq<Seq<char>>| keys.contains(key) <==> self.table_has_key(table, key) by {
                if keys.contains(key) {
                    let a = choose|a: int| 0 <= a < keys.len() && keys[a] == key;
                    let j = choose|j: int|
                        0 <= j < symbols@.len() && #[trigger] self.spec_table_key(table, symbols@[j]) == Some(
                            entry_keys(out@)[a],
                        );
                }
                if self.table_has_key(table, key) {
                    let j = choose|j: int|
                        0 <= j < self.spec_symbols().len() && #[trigger] self.spec_table_key(
                            table,
                            self.spec_symbols()[j],
                        ) == Some(key);
                    assert(self.spec_table_key(table, symbols@[j]) matches Some(kk) ==> keys.contains(kk));
                }
            }
        }
        out
    }
}


/// The number of fields of the keys of `table`.
pub open spec fn table_key_len(table: LookupTable) -> nat {
    match table {
        LookupTable::MethodOwnerNames | LookupTable::FieldOwnerNames => 2,
        _ => 1,
    }
}

impl SymbolIndex {
    pub proof fn lemma_listed_key_len(&self, table: LookupTable, keys: Seq<Seq<Seq<char>>>)
        requires
            forall|key: Seq<Seq<char>>| keys.contains(key) ==> self.table_has_key(table, key),
        ensures
            forall|a: int| 0 <= a < keys.len() ==> (#[trigger] keys[a]).len() == table_key_len(table),
    {
        assert forall|a: int| 0 <= a < keys.len() implies (#[trigger] keys[a]).len() == table_key_len(table) by {
            assert(keys.contains(keys[a]));
            let j = choose|j: int|
                0 <= j < self.spec_symbols().len() && #[trigger] self.spec_table_key(table, self.spec_symbols()[j])
                    == Some(keys[a]);
        }
    }

    /// Keeps the entries of a listing that hold more than one id.
    fn keep_duplicates(&self, table: LookupTable, listing: Vec<TableEntry>) -> (r: Vec<TableEntry>)
        requires
            self.is_table_listing(table, listing@),
        ensures
            self.lists_table_duplicates(table, entry_keys(r@), entry_groups(r@)),
    {
        let ghost keys = entry_keys(listing@);
        let ghost groups = entry_groups(listing@);
        let ghost orig = listing@;
        let mut listing = listing;
        let mut out: Vec<TableEntry> = Vec::new();
        let mut i: usize = 0;
        let n = listing.len();
        assert(listing@ =~= orig.skip(0));
        while i < n
            invariant
                n == orig.len(),
                i <= n,
                listing@ =~= orig.skip(i as int),
                keys == entry_keys(orig),
                groups == entry_groups(orig),
                self.lists_table(table, keys, groups),
                keys_sorted(entry_keys(out@)),
                forall|a: int| 0 <= a < out@.len() ==> #[trigger] entry_groups(out@)[a] == self.spec_table_ids(
                    table,
                    entry_keys(out@)[a],
                ),
                forall|a: int|
                    0 <= a < out@.len() ==> exists|b: int| 0 <= b < i && #[trigger] keys[b] == #[trigger] entry_keys(out@)[a],
                forall|b: int| 0 <= b < i ==> (groups[b].len() > 1 <==> entry_keys(out@).contains(#[trigger] keys[b])),
                forall|a: int| 0 <= a < out@.len() ==> (#[trigger] entry_groups(out@)[a]).len() > 1,
            decreases n - i,
        {
            let e = listing.remove(0);
            assert(orig.skip(i as int)[0] == orig[i as int]);
            assert(listing@ =~= orig.skip(i + 1));
            let ghost before = out@;
            let ghost kv = keys[i as int];
            if e.1.len() > 1 {
                out.push(e);
                proof {
                    let ok = entry_keys(out@);
                    assert(ok =~= entry_keys(before).push(kv));
                    assert(entry_groups(out@) =~= entry_groups(before).push(groups[i as int]));
                    assert forall|a: int, b: int| 0 <= a < b < ok.len() implies fields_lt(
                        #[trigger] ok[a],
                        #[trigger] ok[b],
                    ) by {
                        if b == ok.len() - 1 {
                            let c = choose|c: int| 0 <= c < i && #[trigger] keys[c] == #[trigger] entry_keys(before)[a];
                            assert(fields_lt(keys[c], keys[i as int]));
                        }
                    }
                    assert forall|a: int|
                        0 <= a < out@.len() implies exists|b: int| 0 <= b < i + 1 && #[trigger] keys[b] == #[trigger] entry_keys(out@)[a] by {
                        if a < before.len() {
                            let c = choose|c: int| 0 <= c < i && #[trigger] keys[c] == #[trigger] entry_keys(before)[a];
                            assert(keys[c] == ok[a]);
                        } else {
                            assert(keys[i as int] == ok[a]);
                        }
                    }
                    assert forall|b: int| 0 <= b < i + 1 implies (groups[b].len() > 1 <==> entry_keys(out@).contains(#[trigger] keys[b])) by {
                        if b < i {
                            if entry_keys(before).contains(keys[b]) {
                                let a = choose|a: int| 0 <= a < before.len() && entry_keys(before)[a] == keys[b];
                                assert(ok[a] == keys[b]);
                            }
                            if ok.contains(keys[b]) {
                                let a = choose|a: int| 0 <= a < ok.len() && ok[a] == keys[b];
                                if a == before.len() {
                                    assert(fields_lt(keys[b], keys[i as int]));
                                    lemma_chars_lt_strict_total();
                                    lemma_lex_irreflexive(keys[b], |x: Seq<char>, y: Seq<char>| chars_lt(x, y));
                                } else {
                                    assert(entry_keys(before)[a] == keys[b]);
                                }
                            }
                        } else {
                            assert(ok[before.len() as int] == kv);
                        }
                    }
                }
            } else {
                proof {
                    assert forall|b: int| 0 <= b < i + 1 implies (groups[b].len() > 1 <==> entry_keys(out@).contains(#[trigger] keys[b])) by {
                        if b == i && entry_keys(out@).contains(keys[b]) {
                            let a = choose|a: int| 0 <= a < out@.len() && entry_keys(out@)[a] == keys[b];
                            let c = choose|c: int| 0 <= c < i && #[trigger] keys[c] == #[trigger] entry_keys(out@)[a];
                            assert(fields_lt(keys[c], keys[i as int]));
                            lemma_chars_lt_strict_total();
                            lemma_lex_irreflexive(keys[c], |x: Seq<char>, y: Seq<char>| chars_lt(x, y));
                        }
                    }
                    assert forall|a: int|
                        0 <= a < out@.len() implies exists|b: int| 0 <= b < i + 1 && #[trigger] keys[b] == #[trigger] entry_keys(out@)[a] by {
                        let c = choose|c: int| 0 <= c < i && #[trigger] keys[c] == #[trigger] entry_keys(out@)[a];
                    }
                }
            }
            i = i + 1;
        }
        proof {
            let ok = entry_keys(out@);
            assert forall|key: Seq<Seq<char>>|
                ok.contains(key) <==> (self.table_has_key(table, key) && self.spec_table_ids(table, key).len() > 1) by {
                if ok.contains(key) {
                    let a = choose|a: int| 0 <= a < ok.len() && ok[a] == key;
                    let b = choose|b: int| 0 <= b < n && #[trigger] keys[b] == #[trigger] entry_keys(out@)[a];
                    assert(keys.contains(key));
                    assert(groups[b] == self.spec_table_ids(table, keys[b]));
                }
                if self.table_has_key(table, key) {
                    assert(keys.contains(key));
                    let b = choose|b: int| 0 <= b < keys.len() && keys[b] == key;
                    assert(groups[b] == self.spec_table_ids(table, keys[b]));
                }
            }
        }
        out
    }

    /// A listing of single-field keys, with each key as its one string.
    fn by_single_name(entries: Vec<TableEntry>) -> (r: Vec<(String, Vec<GlobalSymbolId>)>)
        requires
            forall|a: int| 0 <= a < entries@.len() ==> (#[trigger] entry_keys(entries@)[a]).len() == 1,
        ensures
            name_keys(r@) == entry_keys(entries@),
            name_groups(r@) == entry_groups(entries@),
    {
        let ghost orig = entries@;
        let mut entries = entries;
        let n = entries.len();
        let mut out: Vec<(String, Vec<GlobalSymbolId>)> = Vec::new();
        let mut i: usize = 0;
        assert(entries@ =~= orig.skip(0));
        while i < n
            invariant
                n == orig.len(),
                i <= n,
                entries@ =~= orig.skip(i as int),
                forall|a: int| 0 <= a < orig.len() ==> (#[trigger] entry_keys(orig)[a]).len() == 1,
                name_keys(out@) =~= entry_keys(orig).take(i as int),
                name_groups(out@) =~= entry_groups(orig).take(i as int),
            decreases n - i,
        {
            let e = entries.remove(0);
            assert(orig.skip(i as int)[0] == orig[i as int]);
            assert(entries@ =~= orig.skip(i + 1));
            assert(entry_keys(orig)[i as int].len() == 1);
            assert(e.0@.len() == 1);
            let name = string_from_chars(e.0[0].as_slice());
            let ghost before = out@;
            out.push((name, e.1));
            assert(seq![name@] =~= entry_keys(orig)[i as int]);
            assert(name_keys(out@) =~= name_keys(before).push(seq![name@]));
            assert(name_groups(out@) =~= name_groups(before).push(e.1@));
            i = i + 1;
        }
        out
    }

    /// A listing of two-field keys, with each key as an (owner, name) pair.
    fn by_owner_and_name(entries: Vec<TableEntry>) -> (r: Vec<((String, String), Vec<GlobalSymbolId>)>)
        requires
            forall|a: int| 0 <= a < entries@.len() ==> (#[trigger] entry_keys(entries@)[a]).len() == 2,
        ensures
            pair_keys(r@) == entry_keys(entries@),
            pair_groups(r@) == entry_groups(entries@),
    {
        let ghost orig = entries@;
        let mut entries = entries;
        let n = entries.len();
        let mut out: Vec<((String, String), Vec<GlobalSymbolId>)> = Vec::new();
        let mut i: usize = 0;
        assert(entries@ =~= orig.skip(0));
        while i < n
            invariant
                n == orig.len(),
                i <= n,
                entries@ =~= orig.skip(i as int),
                forall|a: int| 0 <= a < orig.len() ==> (#[trigger] entry_keys(orig)[a]).len() == 2,
                pair_keys(out@) =~= entry_keys(orig).take(i as int),
                pair_groups(out@) =~= entry_groups(orig).take(i as int),
            decreases n - i,
        {
            let e = entries.remove(0);
            assert(orig.skip(i as int)[0] == orig[i as int]);
            assert(entries@ =~= orig.skip(i + 1));
            assert(entry_keys(orig)[i as int].len() == 2);
            assert(e.0@.len() == 2);
            let owner = string_from_chars(e.0[0].as_slice());
            let name = string_from_chars(e.0[1].as_slice());
            let ghost before = out@;
            out.push(((owner, name), e.1));
            assert(seq![owner@, name@] =~= entry_keys(orig)[i as int]);
            assert(pair_keys(out@) =~= pair_keys(before).push(seq![owner@, name@]));
            assert(pair_groups(out@) =~= pair_groups(before).push(e.1@));
            i = i + 1;
        }
        out
    }

    fn single_name_listing(&self, table: LookupTable, duplicates_only: bool) -> (r: Vec<(String, Vec<GlobalSymbolId>)>)
        requires
            table_key_len(table) == 1,
        ensures
            !duplicates_only ==> self.lists_table(table, name_keys(r@), name_groups(r@)),
            duplicates_only ==> self.lists_table_duplicates(table, name_keys(r@), name_groups(r@)),
    {
        let listing = self.table_listing(table);
        let listing = if duplicates_only {
            self.keep_duplicates(table, listing)
        } else {
            listing
        };
        proof {
            let keys = entry_keys(listing@);
            assert forall|key: Seq<Seq<char>>| keys.contains(key) implies self.table_has_key(table, key) by {}
            self.lemma_listed_key_len(table, keys);
        }
        Self::by_single_name(listing)
    }

    /// Every name with the ids of the symbols that bear it, in name order.
    pub fn names(&self) -> (r: Vec<(String, Vec<GlobalSymbolId>)>)
        ensures
            self.lists_table(LookupTable::Names, name_keys(r@), name_groups(r@)),
    {
        self.single_name_listing(LookupTable::Names, false)
    }

    /// Every name of a symbol without a parent, with the ids of those
    /// symbols, in name order.
    pub fn top_level_names(&self) -> (r: Vec<(String, Vec<GlobalSymbolId>)>)
        ensures
            self.lists_table(LookupTable::TopLevelNames, name_keys(r@), name_groups(r@)),
    {
        self.single_name_listing(LookupTable::TopLevelNames, false)
    }

    /// The names borne by more than one symbol, in name order.
    pub fn duplicate_names(&self) -> (r: Vec<(String, Vec<GlobalSymbolId>)>)
        ensures
            self.lists_table_duplicates(LookupTable::Names, name_keys(r@), name_groups(r@)),
    {
        self.single_name_listing(LookupTable::Names, true)
    }

    /// The names borne by more than one top-level symbol, in name order.
    pub fn duplicate_top_level_names(&self) -> (r: Vec<(String, Vec<GlobalSymbolId>)>)
        ensures
            self.lists_table_duplicates(LookupTable::TopLevelNames, name_keys(r@), name_groups(r@)),
    {
        self.single_name_listing(LookupTable::TopLevelNames, true)
    }

    /// Every (owner class, method name) with its methods, in key order.
    pub fn method_owner_name_groups(&self) -> (r: Vec<((String, String), Vec<GlobalSymbolId>)>)
        ensures
            self.lists_table(LookupTable::MethodOwnerNames, pair_keys(r@), pair_groups(r@)),
    {
        let listing = self.table_listing(LookupTable::MethodOwnerNames);
        proof {
            self.lemma_listed_key_len(LookupTable::MethodOwnerNames, entry_keys(listing@));
        }
        Self::by_owner_and_name(listing)
    }
}


// ---------------------------------------------------------------------------
// Table sizes

/// The number of files of one kind.
pub open spec fn files_of_kind(files: Seq<IndexedFile>, kind: SourceKind) -> nat
    decreases files.len(),
{
    if files.len() == 0 {
        0
    } else {
        files_of_kind(files.drop_last(), kind) + if files.last().metadata.kind == kind {
            1nat
        } else {
            0nat
        }
    }
}

/// `[(kind, n)]` when `n` files have that kind, nothing when none has.
pub open spec fn kind_count_entry(files: Seq<IndexedFile>, kind: SourceKind) -> Seq<(SourceKind, usize)> {
    if files_of_kind(files, kind) > 0 {
        seq![(kind, files_of_kind(files, kind) as usize)]
    } else {
        Seq::empty()
    }
}

impl SymbolIndex {
    /// The number of distinct keys of `table`.
    pub open spec fn spec_table_size(&self, table: LookupTable) -> nat {
        Set::new(|key: Seq<Seq<char>>| self.table_has_key(table, key)).len()
    }

    /// The number of symbols `table` files under some key.
    pub open spec fn spec_table_entries(&self, table: LookupTable) -> nat {
        select_ids(self.spec_symbols(), |s: IndexedSymbol| self.spec_table_key(table, s) is Some).len()
    }

    /// The number of distinct symbol kinds in the index.
    pub open spec fn spec_kind_count(&self) -> nat {
        Set::new(|k: SymbolKind| exists|j: int| 0 <= j < self.spec_symbols().len() && #[trigger] self.spec_symbols()[j].kind == k).len()
    }

    /// The number of distinct parents named by the symbols.
    pub open spec fn spec_parent_count(&self) -> nat {
        Set::new(|p: GlobalSymbolId| exists|j: int| 0 <= j < self.spec_symbols().len() && #[trigger] self.spec_symbols()[j].parent == Some(p)).len()
    }

    /// The number of symbols that have a parent.
    pub open spec fn spec_child_entries(&self) -> nat {
        select_ids(self.spec_symbols(), |s: IndexedSymbol| s.parent is Some).len()
    }

    pub proof fn lemma_listing_size(&self, table: LookupTable, keys: Seq<Seq<Seq<char>>>)
        requires
            keys_sorted(keys),
            forall|key: Seq<Seq<char>>| keys.contains(key) <==> self.table_has_key(table, key),
        ensures
            keys.len() == self.spec_table_size(table),
    {
        lemma_fields_lt_strict_total();
        let lt = |a: Seq<Seq<char>>, b: Seq<Seq<char>>| fields_lt(a, b);
        assert forall|a: int, b: int| 0 <= a < keys.len() && 0 <= b < keys.len() && a != b implies keys[a] != keys[b] by {
            if a < b {
                assert(fields_lt(keys[a], keys[b]));
                assert(!lt(keys[a], keys[a]));
            } else {
                assert(fields_lt(keys[b], keys[a]));
                assert(!lt(keys[b], keys[b]));
            }
        }
        assert(keys.no_duplicates());
        keys.unique_seq_to_set();
        assert(keys.to_set() =~= Set::new(|key: Seq<Seq<char>>| self.table_has_key(table, key)));
    }

    fn table_size(&self, table: LookupTable) -> (r: usize)
        ensures
            r == self.spec_table_size(table),
    {
        let listing = self.table_listing(table);
        proof {
            self.lemma_listing_size(table, entry_keys(listing@));
        }
        listing.len()
    }

    fn table_entries(&self, table: LookupTable) -> (r: usize)
        ensures
            r == self.spec_table_entries(table),
    {
        let ghost pred = |s: IndexedSymbol| self.spec_table_key(table, s) is Some;
        let symbols = self.symbols();
        let mut n: usize = 0;
        let mut i: usize = 0;
        while i < symbols.len()
            invariant
                symbols@ == self.spec_symbols(),
                i <= symbols@.len(),
                pred == (|s: IndexedSymbol| self.spec_table_key(table, s) is Some),
                n == select_ids(symbols@.take(i as int), pred).len(),
                n <= i,
            decreases symbols@.len() - i,
        {
            proof {
                crate::index::lemma_select_ids_step(symbols@, pred, i as int);
            }
            if self.exec_table_key(table, &symbols[i]).is_some() {
                n = n + 1;
            }
            i = i + 1;
        }
        assert(symbols@.take(symbols@.len() as int) =~= symbols@);
        n
    }

    fn kind_count(&self) -> (r: usize)
        ensures
            r == self.spec_kind_count(),
    {
        let symbols = self.symbols();
        let mut seen: Vec<SymbolKind> = Vec::new();
        let mut i: usize = 0;
        while i < symbols.len()
            invariant
                symbols@ == self.spec_symbols(),
                i <= symbols@.len(),
                seen@.no_duplicates(),
                seen@.len() <= i,
                forall|k: SymbolKind| seen@.contains(k) <==> exists|j: int| 0 <= j < i && #[trigger] symbols@[j].kind == k,
            decreases symbols@.len() - i,
        {
            let k = symbols[i].kind;
            let mut p: usize = 0;
            let mut found = false;
            while p < seen.len()
                invariant
                    p <= seen@.len(),
                    !found ==> forall|q: int| 0 <= q < p ==> seen@[q] != k,
                    found ==> seen@.contains(k),
                decreases seen@.len() - p,
            {
                if seen[p] == k {
                    found = true;
                }
                p = p + 1;
            }
            let ghost before = seen@;
            if !found {
                seen.push(k);
            }
            proof {
                assert forall|kk: SymbolKind| seen@.contains(kk) <==> exists|j: int| 0 <= j < i + 1 && #[trigger] symbols@[j].kind == kk by {
                    if seen@.contains(kk) && !before.contains(kk) {
                        assert(symbols@[i as int].kind == kk);
                    }
                    if exists|j: int| 0 <= j < i + 1 && #[trigger] symbols@[j].kind == kk {
                        let j = choose|j: int| 0 <= j < i + 1 && #[trigger] symbols@[j].kind == kk;
                        if j < i {
                            assert(before.contains(kk));
                            let q = choose|q: int| 0 <= q < before.len() && before[q] == kk;
                            assert(seen@[q] == kk);
                        } else if found {
                        } else {
                            assert(seen@[before.len() as int] == kk);
                        }
                    }
                }
            }
            i = i + 1;
        }
        proof {
            seen@.unique_seq_to_set();
            assert(seen@.to_set() =~= Set::new(|k: SymbolKind| exists|j: int| 0 <= j < self.spec_symbols().len() && #[trigger] self.spec_symbols()[j].kind == k));
        }
        seen.len()
    }

    fn parent_count(&self) -> (r: usize)
        ensures
            r == self.spec_parent_count(),
    {
        let symbols = self.symbols();
        let mut seen: Vec<GlobalSymbolId> = Vec::new();
        let mut i: usize = 0;
        while i < symbols.len()
            invariant
                symbols@ == self.spec_symbols(),
                i <= symbols@.len(),
                seen@.no_duplicates(),
                seen@.len() <= i,
                forall|p: GlobalSymbolId| seen@.contains(p) <==> exists|j: int| 0 <= j < i && #[trigger] symbols@[j].parent == Some(p),
            decreases symbols@.len() - i,
        {
            let ghost before = seen@;
            if let Some(parent) = symbols[i].parent {
                let mut p: usize = 0;
                let mut found = false;
                while p < seen.len()
                    invariant
                        p <= seen@.len(),
                        !found ==> forall|q: int| 0 <= q < p ==> seen@[q] != parent,
                        found ==> seen@.contains(parent),
                    decreases seen@.len() - p,
                {
                    if seen[p] == parent {
                        found = true;
                    }
                    p = p + 1;
                }
                if !found {
                    seen.push(parent);
                }
                proof {
                    assert forall|pp: GlobalSymbolId| seen@.contains(pp) <==> exists|j: int| 0 <= j < i + 1 && #[trigger] symbols@[j].parent == Some(pp) by {
                        if seen@.contains(pp) && !before.contains(pp) {
                            assert(symbols@[i as int].parent == Some(pp));
                        }
                        if exists|j: int| 0 <= j < i + 1 && #[trigger] symbols@[j].parent == Some(pp) {
                            let j = choose|j: int| 0 <= j < i + 1 && #[trigger] symbols@[j].parent == Some(pp);
                            if j < i {
                                assert(before.contains(pp));
                                let q = choose|q: int| 0 <= q < before.len() && before[q] == pp;
                                assert(seen@[q] == pp);
                            } else if found {
                            } else {
                                assert(seen@[before.len() as int] == pp);
                            }
                        }
                    }
                }
            } else {
                proof {
                    assert forall|pp: GlobalSymbolId| seen@.contains(pp) <==> exists|j: int| 0 <= j < i + 1 && #[trigger] symbols@[j].parent == Some(pp) by {
                        if exists|j: int| 0 <= j < i + 1 && #[trigger] symbols@[j].parent == Some(pp) {
                            let j = choose|j: int| 0 <= j < i + 1 && #[trigger] symbols@[j].parent == Some(pp);
                            assert(j < i);
                        }
                    }
                }
            }
            i = i + 1;
        }
        proof {
            seen@.unique_seq_to_set();
            assert(seen@.to_set() =~= Set::new(|p: GlobalSymbolId| exists|j: int| 0 <= j < self.spec_symbols().len() && #[trigger] self.spec_symbols()[j].parent == Some(p)));
        }
        seen.len()
    }

    fn child_entries(&self) -> (r: usize)
        ensures
            r == self.spec_child_entries(),
    {
        let ghost pred = |s: IndexedSymbol| s.parent is Some;
        let symbols = self.symbols();
        let mut n: usize = 0;
        let mut i: usize = 0;
        while i < symbols.len()
            invariant
                symbols@ == self.spec_symbols(),
                i <= symbols@.len(),
                pred == (|s: IndexedSymbol| s.parent is Some),
                n == select_ids(symbols@.take(i as int), pred).len(),
                n <= i,
            decreases symbols@.len() - i,
        {
            proof {
                crate::index::lemma_select_ids_step(symbols@, pred, i as int);
            }
            if symbols[i].parent.is_some() {
                n = n + 1;
            }
            i = i + 1;
        }
        assert(symbols@.take(symbols@.len() as int) =~= symbols@);
        n
    }

    /// The sizes of all lookup tables: distinct keys and filed ids of each.
    pub fn map_counts(&self) -> (r: IndexMapCounts)
        ensures
            r.names == self.spec_table_size(LookupTable::Names),
            r.name_entries == self.spec_table_entries(LookupTable::Names),
            r.top_level_names == self.spec_table_size(LookupTable::TopLevelNames),
            r.top_level_name_entries == self.spec_table_entries(LookupTable::TopLevelNames),
            r.kinds == self.spec_kind_count(),
            r.kind_entries == self.spec_symbols().len(),
            r.class_names == self.spec_table_size(LookupTable::ClassNames),
            r.class_name_entries == self.spec_table_entries(LookupTable::ClassNames),
            r.typedef_names == self.spec_table_size(LookupTable::TypedefNames),
            r.typedef_name_entries == self.spec_table_entries(LookupTable::TypedefNames),
            r.function_names == self.spec_table_size(LookupTable::FunctionNames),
            r.function_name_entries == self.spec_table_entries(LookupTable::FunctionNames),
            r.method_owner_names == self.spec_table_size(LookupTable::MethodOwnerNames),
            r.method_owner_name_entries == self.spec_table_entries(LookupTable::MethodOwnerNames),
            r.field_owner_names == self.spec_table_size(LookupTable::FieldOwnerNames),
            r.field_owner_name_entries == self.spec_table_entries(LookupTable::FieldOwnerNames),
            r.member_owners == self.spec_table_size(LookupTable::MemberOwners),
            r.member_owner_entries == self.spec_table_entries(LookupTable::MemberOwners),
            r.parent_symbols == self.spec_parent_count(),
            r.child_entries == self.spec_child_entries(),
    {
        IndexMapCounts {
            names: self.table_size(LookupTable::Names),
            name_entries: self.table_entries(LookupTable::Names),
            top_level_names: self.table_size(LookupTable::TopLevelNames),
            top_level_name_entries: self.table_entries(LookupTable::TopLevelNames),
            kinds: self.kind_count(),
            kind_entries: self.symbols().len(),
            class_names: self.table_size(LookupTable::ClassNames),
            class_name_entries: self.table_entries(LookupTable::ClassNames),
            typedef_names: self.table_size(LookupTable::TypedefNames),
            typedef_name_entries: self.table_entries(LookupTable::TypedefNames),
            function_names: self.table_size(LookupTable::FunctionNames),
            function_name_entries: self.table_entries(LookupTable::FunctionNames),
            method_owner_names: self.table_size(LookupTable::MethodOwnerNames),
            method_owner_name_entries: self.table_entries(LookupTable::MethodOwnerNames),
            field_owner_names: self.table_size(LookupTable::FieldOwnerNames),
            field_owner_name_entries: self.table_entries(LookupTable::FieldOwnerNames),
            member_owners: self.table_size(LookupTable::MemberOwners),
            member_owner_entries: self.table_entries(LookupTable::MemberOwners),
            parent_symbols: self.parent_count(),
            child_entries: self.child_entries(),
        }
    }

    /// How many files the index holds of each source kind, for the kinds
    /// that occur, in the order game data, workspace, unknown.
    pub fn source_kind_counts(&self) -> (r: Vec<(SourceKind, usize)>)
        ensures
            r@ == kind_count_entry(self.spec_files(), SourceKind::GameData) + kind_count_entry(
                self.spec_files(),
                SourceKind::Workspace,
            ) + kind_count_entry(self.spec_files(), SourceKind::Unknown),
    {
        let files = self.files();
        let mut game: usize = 0;
        let mut workspace: usize = 0;
        let mut unknown: usize = 0;
        let mut i: usize = 0;
        while i < files.len()
            invariant
                files@ == self.spec_files(),
                i <= files@.len(),
                game == files_of_kind(files@.take(i as int), SourceKind::GameData),
                workspace == files_of_kind(files@.take(i as int), SourceKind::Workspace),
                unknown == files_of_kind(files@.take(i as int), SourceKind::Unknown),
                game + workspace + unknown == i,
            decreases files@.len() - i,
        {
            assert(files@.take(i + 1).drop_last() =~= files@.take(i as int));
            match files[i].metadata.kind {
                SourceKind::GameData => game = game + 1,
                SourceKind::Workspace => workspace = workspace + 1,
                SourceKind::Unknown => unknown = unknown + 1,
            }
            i = i + 1;
        }
        assert(files@.take(files@.len() as int) =~= files@);
        let mut r: Vec<(SourceKind, usize)> = Vec::new();
        if game > 0 {
            r.push((SourceKind::GameData, game));
        }
        if workspace > 0 {
            r.push((SourceKind::Workspace, workspace));
        }
        if unknown > 0 {
            r.push((SourceKind::Unknown, unknown));
        }
        assert(r@ =~= kind_count_entry(self.spec_files(), SourceKind::GameData) + kind_count_entry(
            self.spec_files(),
            SourceKind::Workspace,
        ) + kind_count_entry(self.spec_files(), SourceKind::Unknown));
        r
    }
}

} // verus!
