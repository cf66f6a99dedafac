use vstd::prelude::*;
use std::collections::BTreeMap;
use crate::error::StoreError;

verus! {

/// Abstract catalog: (table name, storage id) pairs in insertion order.
pub type CatalogView = Seq<(Seq<char>, Seq<char>)>;

pub open spec fn has_name(entries: CatalogView, name: Seq<char>) -> bool {
    exists|i: int| 0 <= i < entries.len() && (#[trigger] entries[i]).0 == name
}

pub open spec fn has_id(entries: CatalogView, id: Seq<char>) -> bool {
    exists|i: int| 0 <= i < entries.len() && (#[trigger] entries[i]).1 == id
}

/// Table names are unique keys and storage ids are unique too.
pub open spec fn catalog_ok(entries: CatalogView) -> bool {
    forall|i: int, j: int|
        0 <= i < entries.len() && 0 <= j < entries.len() && i != j ==> {
            &&& (#[trigger] entries[i]).0 != (#[trigger] entries[j]).0
            &&& entries[i].1 != entries[j].1
        }
}

/// The storage id catalogued under `name`.
pub open spec fn lookup(entries: CatalogView, name: Seq<char>) -> Option<Seq<char>> {
    if has_name(entries, name) {
        Some(entries[choose|i: int| 0 <= i < entries.len() && (#[trigger] entries[i]).0 == name].1)
    } else {
        None
    }
}

/// Abstract value of a list of (name, id) string pairs.
pub open spec fn pairs_view(v: Seq<(String, String)>) -> CatalogView {
    v.map_values(|e: (String, String)| (e.0@, e.1@))
}

/// The (name, id) pairs of a JSON object whose values are all strings, in key
/// order, or `None` when the text is not such an object.
pub uninterp spec fn parsed_catalog(text: Seq<char>) -> Option<CatalogView>;

/// The pretty-printed JSON object that maps each name to its storage id.
pub uninterp spec fn catalog_json(entries: CatalogView) -> Seq<char>;

/// Relies on uuid's `Uuid::new_v4` and its `Display`: a random version-4 id
/// in the hyphenated form of 36 characters. It panics only when the operating
/// system cannot supply random bytes.
#[verifier::external_body]
fn random_storage_id() -> (r: String)
    ensures
        r@.len() == 36,
{
    uuid::Uuid::new_v4().to_string()
}

/// Relies on serde_json's `to_string_pretty` on a `BTreeMap<String, String>`:
/// the JSON text of the mapping. It fails only on a map key that is not a
/// string or a failing `Serialize` impl, neither of which `String` has.
#[verifier::external_body]
fn map_to_json(entries: &Vec<(String, String)>) -> (r: Option<String>)
    ensures
        r is Some,
        r matches Some(s) ==> s@ == catalog_json(entries@.map_values(|e: (String, String)| (e.0@, e.1@))),
{
    let map: BTreeMap<&String, &String> = entries.iter().map(|e| (&e.0, &e.1)).collect();
    serde_json::to_string_pretty(&map).ok()
}

/// Relies on serde_json's `from_str` into a `BTreeMap<String, String>`: the
/// pairs of a JSON object of strings in key order, or nothing when the text is not one.
#[verifier::external_body]
fn json_to_map(text: &str) -> (r: Option<Vec<(String, String)>>)
    ensures
        match parsed_catalog(text@) {
            Some(p) => r matches Some(v) && pairs_view(v@) == p,
            None => r is None,
        },
{
    serde_json::from_str::<BTreeMap<String, String>>(text).ok().map(|m| m.into_iter().collect())
}

/// The table catalog: the sole source of name resolution.
pub struct TableCatalog {
    entries: Vec<(String, String)>,
}

impl View for TableCatalog {
    type V = CatalogView;

    closed spec fn view(&self) -> CatalogView {
        self.entries@.map_values(|e: (String, String)| (e.0@, e.1@))
    }
}

impl TableCatalog {
    pub open spec fn wf(&self) -> bool {
        catalog_ok(self@)
    }

    pub fn new() -> (r: TableCatalog)
        ensures
            r.wf(),
            r@ == Seq::<(Seq<char>, Seq<char>)>::empty(),
    {
        let r = TableCatalog { entries: Vec::new() };
        proof {
            assert(r@ =~= Seq::<(Seq<char>, Seq<char>)>::empty());
        }
        r
    }

    /// Position of the entry named `name`, if any.
    fn position(&self, name: &String) -> (r: Option<usize>)
        ensures
            match r {
                Some(i) => i < self@.len() && self@[i as int].0 == name@,
                None => !has_name(self@, name@),
            },
    {
        let mut i: usize = 0;
        while i < self.entries.len()
            invariant
                i <= self.entries@.len(),
                forall|k: int| 0 <= k < i ==> self@[k].0 != name@,
            decreases self.entries@.len() - i,
        {
            if self.entries[i].0 == *name {
                return Some(i);
            }
            i = i + 1;
        }
        None
    }

    /// Whether some entry uses `id` as its storage id.
    fn id_taken(&self, id: &String) -> (r: bool)
        ensures
            r == has_id(self@, id@),
    {
        let mut i: usize = 0;
        while i < self.entries.len()
            invariant
                i <= self.entries@.len(),
                forall|k: int| 0 <= k < i ==> self@[k].1 != id@,
            decreases self.entries@.len() - i,
        {
            if self.entries[i].1 == *id {
                assert(self@[i as int].1 == id@);
                return true;
            }
            i = i + 1;
        }
        false
    }

    /// Catalogues `name` under `storage_id`.
    pub fn add_table(&mut self, name: &str, storage_id: String) -> (r: Result<(), StoreError>)
        requires
            old(self).wf(),
        ensures
            final(self).wf(),
            has_name(old(self)@, name@) ==> r == Err::<(), StoreError>(StoreError::TableExists)
                && final(self)@ == old(self)@,
            !has_name(old(self)@, name@) && has_id(old(self)@, storage_id@)
                ==> r == Err::<(), StoreError>(StoreError::IdCollision) && final(self)@ == old(self)@,
            !has_name(old(self)@, name@) && !has_id(old(self)@, storage_id@)
                ==> r == Ok::<(), StoreError>(()) && final(self)@ == old(self)@.push((name@, storage_id@))
                && lookup(final(self)@, name@) == Some(storage_id@),
    {
        let key = name.to_owned();
        if self.position(&key).is_some() {
            return Err(StoreError::TableExists);
        }
        if self.id_taken(&storage_id) {
            return Err(StoreError::IdCollision);
        }
        let ghost before = self@;
        self.entries.push((key, storage_id));
        proof {
            assert(self@ =~= before.push((name@, storage_id@)));
            lemma_created_table_resolves(before, name@, storage_id@);
        }
        Ok(())
    }

    /// Creates a table under a freshly generated storage id and returns that id.
    pub fn new_table(&mut self, name: &str) -> (r: Result<String, StoreError>)
        requires
            old(self).wf(),
        ensures
            final(self).wf(),
            has_name(old(self)@, name@) ==> r == Err::<String, StoreError>(StoreError::TableExists),
            !has_name(old(self)@, name@) ==> r != Err::<String, StoreError>(StoreError::TableExists),
            match r {
                Ok(id) => !has_name(old(self)@, name@) && !has_id(old(self)@, id@)
                    && final(self)@ == old(self)@.push((name@, id@))
                    && lookup(final(self)@, name@) == Some(id@),
                Err(e) => final(self)@ == old(self)@
                    && (e == StoreError::TableExists || e == StoreError::IdCollision),
            },
    {
        let key = name.to_owned();
        if self.position(&key).is_some() {
            return Err(StoreError::TableExists);
        }
        let id = random_storage_id();
        let copy = id.clone();
        match self.add_table(name, id) {
            Ok(()) => Ok(copy),
            Err(e) => Err(e),
        }
    }

    /// Removes the entry of `name`.
    pub fn delete_table(&mut self, name: &str) -> (r: Result<(), StoreError>)
        requires
            old(self).wf(),
        ensures
            final(self).wf(),
            !has_name(old(self)@, name@) ==> r == Err::<(), StoreError>(StoreError::TableNotFound)
                && final(self)@ == old(self)@,
            has_name(old(self)@, name@) ==> r == Ok::<(), StoreError>(()) && !has_name(final(self)@, name@)
                && (exists|i: int| 0 <= i < old(self)@.len() && old(self)@[i].0 == name@
                    && final(self)@ == old(self)@.remove(i)),
    {
        let key = name.to_owned();
        match self.position(&key) {
            None => Err(StoreError::TableNotFound),
            Some(i) => {
                let ghost before = self@;
                let _ = self.entries.remove(i);
                proof {
                    assert(self@ =~= before.remove(i as int));
                    if has_name(self@, name@) {
                        let k = choose|k: int| 0 <= k < self@.len() && (#[trigger] self@[k]).0 == name@;
                        let k0 = if k < i { k } else { k + 1 };
                        assert(before[k0].0 == name@);
                    }
                    assert forall|a: int, b: int|
                        0 <= a < self@.len() && 0 <= b < self@.len() && a != b implies {
                            &&& (#[trigger] self@[a]).0 != (#[trigger] self@[b]).0
                            &&& self@[a].1 != self@[b].1
                        } by {
                        let ka = if a < i { a } else { a + 1 };
                        let kb = if b < i { b } else { b + 1 };
                        assert(self@[a] == before[ka]);
                        assert(self@[b] == before[kb]);
                    }
                }
                Ok(())
            },
        }
    }

    /// The storage id of `name`.
    pub fn open_table(&self, name: &str) -> (r: Result<String, StoreError>)
        requires
            self.wf(),
        ensures
            match lookup(self@, name@) {
                Some(id) => r matches Ok(s) && s@ == id,
                None => r == Err::<String, StoreError>(StoreError::TableNotFound),
            },
    {
        let key = name.to_owned();
        match self.position(&key) {
            None => Err(StoreError::TableNotFound),
            Some(i) => {
                proof {
                    lemma_lookup_at(self@, i as int);
                }
                Ok(self.entries[i].1.clone())
            },
        }
    }

    /// The catalog as JSON text, ready to be written out.
    pub fn to_json(&self) -> (r: Option<String>)
        ensures
            r is Some,
            r matches Some(s) ==> s@ == catalog_json(self@),
    {
        map_to_json(&self.entries)
    }

    /// Builds a catalog from JSON text; `None` when the text is not a JSON
    /// object of strings or two tables share a storage id.
    pub fn from_json(text: &str) -> (r: Option<TableCatalog>)
        ensures
            match parsed_catalog(text@) {
                Some(p) => (r is Some <==> catalog_ok(p)) && (r matches Some(c) ==> c@ == p && c.wf()),
                None => r is None,
            },
    {
        match json_to_map(text) {
            Some(pairs) => TableCatalog::from_pairs(pairs),
            None => None,
        }
    }

    /// A catalog of the given (name, id) pairs, in order; `None` when two
    /// pairs share a name or an id.
    pub fn from_pairs(pairs: Vec<(String, String)>) -> (r: Option<TableCatalog>)
        ensures
            r is Some <==> catalog_ok(pairs_view(pairs@)),
            r matches Some(c) ==> c@ == pairs_view(pairs@) && c.wf(),
    {
        let ghost pv = pairs_view(pairs@);
        let mut catalog = TableCatalog::new();
        let mut i: usize = 0;
        while i < pairs.len()
            invariant
                pv == pairs_view(pairs@),
                catalog.wf(),
                i <= pairs@.len(),
                catalog@ == pv.subrange(0, i as int),
            decreases pairs@.len() - i,
        {
            let name = pairs[i].0.clone();
            let id = pairs[i].1.clone();
            proof {
                assert(pv[i as int] == (name@, id@));
            }
            match catalog.add_table(name.as_str(), id) {
                Ok(()) => {},
                Err(_) => {
                    proof {
                        let prefix = pv.subrange(0, i as int);
                        let k = if has_name(prefix, name@) {
                            choose|k: int| 0 <= k < prefix.len() && (#[trigger] prefix[k]).0 == name@
                        } else {
                            choose|k: int| 0 <= k < prefix.len() && (#[trigger] prefix[k]).1 == pv[i as int].1
                        };
                        assert(pv[k] == prefix[k]);
                        assert(!catalog_ok(pv));
                    }
                    return None;
                },
            }
            proof {
                assert(catalog@ =~= pv.subrange(0, i + 1));
            }
            i = i + 1;
        }
        proof {
            assert(pv.subrange(0, i as int) =~= pv);
        }
        Some(catalog)
    }
}

/// With unique names, the entry at `i` is what `lookup` finds for its name.
pub proof fn lemma_lookup_at(entries: CatalogView, i: int)
    requires
        catalog_ok(entries),
        0 <= i < entries.len(),
    ensures
        lookup(entries, entries[i].0) == Some(entries[i].1),
{
    let name = entries[i].0;
    assert(has_name(entries, name));
    let k = choose|k: int| 0 <= k < entries.len() && (#[trigger] entries[k]).0 == name;
    assert(k == i);
}

/// Creating a table with a new name and a new id makes `lookup` return that id
/// for that name, keeps every other name's result, and keeps names and ids unique.
pub proof fn lemma_created_table_resolves(entries: CatalogView, name: Seq<char>, id: Seq<char>)
    requires
        catalog_ok(entries),
        !has_name(entries, name),
        !has_id(entries, id),
    ensures
        catalog_ok(entries.push((name, id))),
        lookup(entries.push((name, id)), name) == Some(id),
        forall|other: Seq<char>| other != name ==> lookup(entries.push((name, id)), other) == lookup(entries, other),
{
    let e2 = entries.push((name, id));
    assert forall|a: int, b: int| 0 <= a < e2.len() && 0 <= b < e2.len() && a != b implies {
        &&& (#[trigger] e2[a]).0 != (#[trigger] e2[b]).0
        &&& e2[a].1 != e2[b].1
    } by {
        if a == entries.len() {
            assert(e2[b] == entries[b]);
        } else if b == entries.len() {
            assert(e2[a] == entries[a]);
        } else {
            assert(e2[a] == entries[a]);
            assert(e2[b] == entries[b]);
        }
    }
    lemma_lookup_at(e2, entries.len() as int);
    assert forall|other: Seq<char>| other != name implies lookup(e2, other) == lookup(entries, other) by {
        if has_name(entries, other) {
            let k = choose|k: int| 0 <= k < entries.len() && (#[trigger] entries[k]).0 == other;
            lemma_lookup_at(entries, k);
            assert(e2[k] == entries[k]);
            lemma_lookup_at(e2, k);
        } else {
            if has_name(e2, other) {
                let k = choose|k: int| 0 <= k < e2.len() && (#[trigger] e2[k]).0 == other;
                assert(k != entries.len());
                assert(e2[k] == entries[k]);
            }
        }
    }
}

/// A deleted table no longer resolves, and every other name keeps its result.
pub proof fn lemma_deleted_table_not_found(entries: CatalogView, i: int)
    requires
        catalog_ok(entries),
        0 <= i < entries.len(),
    ensures
        lookup(entries.remove(i), entries[i].0) is None,
        forall|other: Seq<char>| other != entries[i].0 ==> lookup(entries.remove(i), other) == lookup(entries, other),
{
    let e2 = entries.remove(i);
    let name = entries[i].0;
    if has_name(e2, name) {
        let k = choose|k: int| 0 <= k < e2.len() && (#[trigger] e2[k]).0 == name;
        let k0 = if k < i { k } else { k + 1 };
        assert(e2[k] == entries[k0]);
    }
    assert(catalog_ok(e2)) by {
        assert forall|a: int, b: int| 0 <= a < e2.len() && 0 <= b < e2.len() && a != b implies {
            &&& (#[trigger] e2[a]).0 != (#[trigger] e2[b]).0
            &&& e2[a].1 != e2[b].1
        } by {
            let ka = if a < i { a } else { a + 1 };
            let kb = if b < i { b } else { b + 1 };
            assert(e2[a] == entries[ka]);
            assert(e2[b] == entries[kb]);
        }
    }
    assert forall|other: Seq<char>| other != name implies lookup(e2, other) == lookup(entries, other) by {
        if has_name(entries, other) {
            let k = choose|k: int| 0 <= k < entries.len() && (#[trigger] entries[k]).0 == other;
            lemma_lookup_at(entries, k);
            assert(k != i);
            let k2 = if k < i { k } else { k - 1 };
            assert(e2[k2] == entries[k]);
            lemma_lookup_at(e2, k2);
        } else {
            if has_name(e2, other) {
                let k = choose|k: int| 0 <= k < e2.len() && (#[trigger] e2[k]).0 == other;
                let k0 = if k < i { k } else { k + 1 };
                assert(e2[k] == entries[k0]);
            }
        }
    }
}

} // verus!
