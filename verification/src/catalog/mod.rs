//! Table schemas and the catalog that records them.

pub mod schema;

use crate::catalog::schema::{Schema, SchemaView};
use crate::strmap::StringMap;
use vstd::prelude::*;
use vstd::string::StringExecFns;

verus! {

/// The catalog as it is kept on disk: the schema of each table, and for each
/// table the last value that its autoincrement column was given.
pub struct CatalogData {
    pub tables: StringMap<Schema>,
    pub sequences: StringMap<i32>,
}

/// The catalog of a database, with the path of the file it is kept in.
pub struct Catalog {
    pub tables: StringMap<Schema>,
    pub sequences: StringMap<i32>,
    /// Whether the catalog has changed since it was last saved.
    pub unsaved: bool,
    /// The path of the file that the catalog is kept in.
    pub path: String,
}

/// The schemas of `tables`, each by its view.
pub open spec fn schema_views(tables: Map<Seq<char>, Schema>) -> Map<Seq<char>, SchemaView> {
    tables.map_values(|schema: Schema| schema@)
}

/// A copy of `tables` with the same keys and, for each key, a schema with the same view.
pub fn clone_tables(tables: &StringMap<Schema>) -> (copy: StringMap<Schema>)
    requires
        tables.wf(),
    ensures
        copy.wf(),
        schema_views(copy@) == schema_views(tables@),
{
    let keys = tables.keys();
    let mut copy: StringMap<Schema> = StringMap::new();
    let mut i: usize = 0;
    while i < keys.len()
        invariant
            i <= keys.len(),
            tables.wf(),
            copy.wf(),
            forall|k: int| 0 <= k < keys@.len() ==> tables@.contains_key((#[trigger] keys@[k])@),
            forall|key: Seq<char>|
                copy@.contains_key(key) <==> exists|k: int|
                    0 <= k < i && (#[trigger] keys@[k])@ == key,
            forall|key: Seq<char>| #[trigger]
                copy@.contains_key(key) ==> copy@[key]@ == tables@[key]@,
        decreases keys.len() - i,
    {
        let key = keys[i].clone();
        let ghost before = copy@;
        match tables.get(&key) {
            Some(schema) => {
                copy.insert(key, schema.clone());
            },
            None => {},
        }
        proof {
            assert forall|name: Seq<char>|
                copy@.contains_key(name) <==> exists|k: int|
                    0 <= k < i + 1 && (#[trigger] keys@[k])@ == name by {
                if copy@.contains_key(name) {
                    if name == keys@[i as int]@ {
                    } else {
                        assert(before.contains_key(name));
                        let k = choose|k: int| 0 <= k < i && (#[trigger] keys@[k])@ == name;
                        assert(0 <= k < i + 1 && keys@[k]@ == name);
                    }
                }
                if exists|k: int| 0 <= k < i + 1 && (#[trigger] keys@[k])@ == name {
                    let k = choose|k: int| 0 <= k < i + 1 && (#[trigger] keys@[k])@ == name;
                    if k < i {
                        assert(before.contains_key(name));
                    }
                }
            }
        }
        i += 1;
    }
    proof {
        assert forall|name: Seq<char>| copy@.contains_key(name) <==> tables@.contains_key(
            name,
        ) by {
            if copy@.contains_key(name) {
                let k = choose|k: int| 0 <= k < i && (#[trigger] keys@[k])@ == name;
            }
            if tables@.contains_key(name) {
                let k = choose|k: int| 0 <= k < keys@.len() && (#[trigger] keys@[k])@ == name;
            }
        }
        assert(schema_views(copy@) =~= schema_views(tables@));
    }
    copy
}

/// A copy of `sequences`.
pub fn clone_sequences(sequences: &StringMap<i32>) -> (copy: StringMap<i32>)
    requires
        sequences.wf(),
    ensures
        copy.wf(),
        copy@ == sequences@,
{
    let keys = sequences.keys();
    let mut copy: StringMap<i32> = StringMap::new();
    let mut i: usize = 0;
    while i < keys.len()
        invariant
            i <= keys.len(),
            sequences.wf(),
            copy.wf(),
            forall|k: int|
                0 <= k < keys@.len() ==> sequences@.contains_key((#[trigger] keys@[k])@),
            forall|key: Seq<char>|
                copy@.contains_key(key) <==> exists|k: int|
                    0 <= k < i && (#[trigger] keys@[k])@ == key,
            forall|key: Seq<char>| #[trigger]
                copy@.contains_key(key) ==> copy@[key] == sequences@[key],
        decreases keys.len() - i,
    {
        let key = keys[i].clone();
        let ghost before = copy@;
        match sequences.get(&key) {
            Some(counter) => {
                copy.insert(key, *counter);
            },
            None => {},
        }
        proof {
            assert forall|name: Seq<char>|
                copy@.contains_key(name) <==> exists|k: int|
                    0 <= k < i + 1 && (#[trigger] keys@[k])@ == name by {
                if copy@.contains_key(name) {
                    if name == keys@[i as int]@ {
                    } else {
                        assert(before.contains_key(name));
                        let k = choose|k: int| 0 <= k < i && (#[trigger] keys@[k])@ == name;
                        assert(0 <= k < i + 1 && keys@[k]@ == name);
                    }
                }
                if exists|k: int| 0 <= k < i + 1 && (#[trigger] keys@[k])@ == name {
                    let k = choose|k: int| 0 <= k < i + 1 && (#[trigger] keys@[k])@ == name;
                    if k < i {
                        assert(before.contains_key(name));
                    }
                }
            }
        }
        i += 1;
    }
    proof {
        assert forall|name: Seq<char>| copy@.contains_key(name) <==> sequences@.contains_key(
            name,
        ) by {
            if copy@.contains_key(name) {
                let k = choose|k: int| 0 <= k < i && (#[trigger] keys@[k])@ == name;
            }
            if sequences@.contains_key(name) {
                let k = choose|k: int| 0 <= k < keys@.len() && (#[trigger] keys@[k])@ == name;
            }
        }
        assert(copy@ =~= sequences@);
    }
    copy
}

impl CatalogData {
    /// Whether both maps are well formed.
    pub open spec fn wf(&self) -> bool {
        self.tables.wf() && self.sequences.wf()
    }
}

impl Catalog {
    /// Whether both maps are well formed.
    pub open spec fn wf(&self) -> bool {
        self.tables.wf() && self.sequences.wf()
    }

    /// The schemas of the catalog, by table name.
    pub open spec fn schemas(&self) -> Map<Seq<char>, SchemaView> {
        schema_views(self.tables@)
    }

    /// The counter that the next autoincrement value of table `name` is taken from:
    /// the last value given, or 0 when none was.
    pub open spec fn counter(&self, name: Seq<char>) -> int {
        if self.sequences@.contains_key(name) {
            self.sequences@[name] as int
        } else {
            0
        }
    }

    /// The catalog kept at `path`: what `stored` holds if the file could be
    /// read, and otherwise a catalog without tables.
    pub fn load_or_create(path: &str, stored: Option<CatalogData>) -> (catalog: Self)
        requires
            stored matches Some(data) ==> data.wf(),
        ensures
            catalog.wf(),
            catalog.path@ == path@,
            !catalog.unsaved,
            stored matches Some(data) ==> catalog.tables == data.tables && catalog.sequences
                == data.sequences,
            stored is None ==> catalog.tables@ == Map::<Seq<char>, Schema>::empty()
                && catalog.sequences@ == Map::<Seq<char>, i32>::empty(),
    {
        match stored {
            Some(data) => Self {
                tables: data.tables,
                sequences: data.sequences,
                unsaved: false,
                path: String::from_str(path),
            },
            None => Self {
                tables: StringMap::new(),
                sequences: StringMap::new(),
                unsaved: false,
                path: String::from_str(path),
            },
        }
    }

    /// Records `schema` under its table name, and starts the table's counter
    /// at 0 unless it has one already.
    pub fn add_table(&mut self, schema: Schema)
        requires
            old(self).wf(),
        ensures
            final(self).wf(),
            final(self).tables@ == old(self).tables@.insert(schema.table_name@, schema),
            final(self).sequences@ == (if old(self).sequences@.contains_key(schema.table_name@) {
                old(self).sequences@
            } else {
                old(self).sequences@.insert(schema.table_name@, 0)
            }),
            final(self).unsaved,
            final(self).path@ == old(self).path@,
    {
        let name = schema.table_name.clone();
        if !self.sequences.contains_key(&name) {
            self.sequences.insert(name.clone(), 0);
        }
        self.tables.insert(name, schema);
        self.unsaved = true;
    }

    /// Advances the counter of table `table_name` by one and returns its new value.
    pub fn get_next_id(&mut self, table_name: &str) -> (next_id: i32)
        requires
            old(self).wf(),
            old(self).counter(table_name@) < i32::MAX,
        ensures
            final(self).wf(),
            next_id == old(self).counter(table_name@) + 1,
            final(self).sequences@ == old(self).sequences@.insert(table_name@, next_id),
            final(self).tables == old(self).tables,
            final(self).unsaved,
            final(self).path@ == old(self).path@,
    {
        let name = String::from_str(table_name);
        let current_id: i32 = match self.sequences.get(&name) {
            Some(counter) => *counter,
            None => 0,
        };
        let next_id: i32 = current_id + 1;
        self.sequences.insert(name, next_id);
        self.unsaved = true;
        next_id
    }

    /// Takes table `table_name` and its counter out of the catalog. Returns
    /// whether the catalog had the table.
    pub fn remove(&mut self, table_name: &String) -> (removed: bool)
        requires
            old(self).wf(),
        ensures
            final(self).wf(),
            removed == old(self).tables@.contains_key(table_name@),
            final(self).tables@ == old(self).tables@.remove(table_name@),
            final(self).sequences@ == (if removed {
                old(self).sequences@.remove(table_name@)
            } else {
                old(self).sequences@
            }),
            final(self).unsaved == (old(self).unsaved || removed),
            final(self).path@ == old(self).path@,
    {
        match self.tables.remove(table_name) {
            Some(_) => {
                let _ = self.sequences.remove(table_name);
                self.unsaved = true;
                true
            },
            None => false,
        }
    }

    /// The catalog as it is to be written to its file. After this call the
    /// catalog counts as saved.
    pub fn save(&mut self) -> (data: CatalogData)
        requires
            old(self).wf(),
        ensures
            final(self).wf(),
            final(self).tables == old(self).tables,
            final(self).sequences == old(self).sequences,
            final(self).path@ == old(self).path@,
            !final(self).unsaved,
            data.wf(),
            schema_views(data.tables@) == old(self).schemas(),
            data.sequences@ == old(self).sequences@,
    {
        self.unsaved = false;
        CatalogData {
            tables: clone_tables(&self.tables),
            sequences: clone_sequences(&self.sequences),
        }
    }
}

} // verus!
