//! A namespace of uniquely named tables.

use vstd::prelude::*;

use crate::data::{Data, DataModel, data_eq};
use crate::table::Table;

verus! {

/// Why a database operation was refused.
#[derive(Clone, Copy, Debug, PartialEq, Eq, Structural)]
pub enum DatabaseError {
    /// A table with the given name is already registered.
    NameAlreadyExists,
    /// No table with the given name is registered.
    NameDoesNotExist,
}

impl DatabaseError {
    /// A short description of the error, fit for showing to a caller.
    pub fn message(&self) -> (r: String)
        ensures
            r@ == match self {
                DatabaseError::NameAlreadyExists => "a table with that name already exists"@,
                DatabaseError::NameDoesNotExist => "a table with that name does not exist"@,
            },
    {
        match self {
            DatabaseError::NameAlreadyExists => String::from_str(
                "a table with that name already exists",
            ),
            DatabaseError::NameDoesNotExist => String::from_str(
                "a table with that name does not exist",
            ),
        }
    }
}

/// Where a database keeps its data.  Only in-memory storage is
/// implemented; the other modes name on-disk layouts that are accepted
/// as configuration but deliberately have no effect yet.
pub enum DatabaseStorageType {
    /// The database is kept completely in memory.
    Memory,
    /// The database is kept completely on disk.
    Storage(String),
    /// The database is kept both on disk and in memory.
    MemoryAndStorage(String),
    /// The database is kept on disk, with the most recently used items
    /// also in memory.
    Smart(String),
}

/// Configuration a database is created with.  It is recorded and has
/// no observable effect on any operation of this crate.
pub struct DatabaseConfig {
    /// Whether changes should be persisted automatically.
    pub auto_save: bool,
    /// Where the data should live.
    pub storage_type: DatabaseStorageType,
}

impl DatabaseConfig {
    /// Bundle the two configuration choices.
    pub fn new(auto_save: bool, storage_type: DatabaseStorageType) -> (r: DatabaseConfig)
        ensures
            r.auto_save == auto_save,
            r.storage_type == storage_type,
    {
        DatabaseConfig { auto_save, storage_type }
    }
}

/// A flat namespace of tables: each table is registered under its
/// name, and no two tables share one.  Tables are reached through
/// indices handed out by [`Database::add_table`] and
/// [`Database::get_table`].
pub struct Database {
    /// The recorded configuration; it changes no behaviour.
    pub config: DatabaseConfig,
    /// The registered tables.
    pub tables: Vec<Table>,
}

impl Database {
    /// Model of the registry: the registered tables in registration
    /// order.
    pub open spec fn spec_tables(&self) -> Seq<Table> {
        self.tables@
    }

    /// The names of the registered tables, in registration order.
    pub open spec fn spec_names(&self) -> Seq<DataModel> {
        self.spec_tables().map_values(|t: Table| t.spec_name())
    }

    /// Whether a table is registered under name `n`.
    pub open spec fn has_table(&self, n: DataModel) -> bool {
        self.spec_names().contains(n)
    }

    /// Well-formedness: every registered table is well formed, and no
    /// name is registered twice.
    pub open spec fn wf(&self) -> bool {
        &&& forall|i: int|
            0 <= i < self.spec_tables().len() ==> (#[trigger] self.spec_tables()[i]).wf()
        &&& forall|i: int, j: int|
            0 <= i < j < self.spec_tables().len() ==> self.spec_tables()[i].spec_name()
                != self.spec_tables()[j].spec_name()
    }

    /// Create an empty database with the given configuration.
    pub fn new(config: DatabaseConfig) -> (r: Database)
        ensures
            r.wf(),
            r.spec_tables().len() == 0,
            r.config == config,
    {
        Database { config, tables: Vec::new() }
    }

    /// Register a new empty table under `name` with the given
    /// attributes, and hand back its index.  If the name is already
    /// taken, the registry is left exactly as it was and the
    /// attributes are never looked at; only a fresh name requires a
    /// valid schema, non-empty and duplicate-free, as
    /// [`Table::new`] demands.
    pub fn add_table(&mut self, name: Data, attributes: Vec<Data>) -> (r: Result<
        usize,
        DatabaseError,
    >)
        requires
            old(self).wf(),
            old(self).has_table(name@) || (attributes@.len() > 0
                && attributes.deep_view().no_duplicates()),
        ensures
            final(self).wf(),
            old(self).has_table(name@) <==> r is Err,
            r matches Err(e) ==> e == DatabaseError::NameAlreadyExists && *final(self) == *old(
                self,
            ),
            r matches Ok(i) ==> {
                &&& i == old(self).spec_tables().len()
                &&& final(self).spec_tables().len() == old(self).spec_tables().len() + 1
                &&& forall|j: int|
                    0 <= j < old(self).spec_tables().len() ==> final(self).spec_tables()[j]
                        == old(self).spec_tables()[j]
                &&& final(self).config == old(self).config
                &&& ({
                    let t = final(self).spec_tables()[i as int];
                    &&& t.wf()
                    &&& t.spec_name() == name@
                    &&& t.spec_attrs().len() == attributes.deep_view().len()
                    &&& (forall|a: DataModel|
                        t.has_attr(a) <==> attributes.deep_view().contains(a))
                    &&& t.spec_row_count() == 0
                })
            },
    {
        let n = self.tables.len();
        let mut j: usize = 0;
        while j < n
            invariant
                *self == *old(self),
                old(self).wf(),
                n == self.tables@.len(),
                j <= n,
                forall|l: int| 0 <= l < j ==> self.spec_tables()[l].spec_name() != name@,
            decreases n - j,
        {
            if data_eq(&self.tables[j].name, &name) {
                proof {
                    assert(self.spec_names()[j as int] == name@);
                }
                return Err(DatabaseError::NameAlreadyExists);
            }
            j += 1;
        }
        proof {
            assert forall|l: int| 0 <= l < self.spec_names().len() implies self.spec_names()[l]
                != name@ by {
                assert(self.spec_names()[l] == self.spec_tables()[l].spec_name());
            }
            assert(!self.has_table(name@));
        }
        let table = match Table::new(name, attributes) {
            Ok(t) => t,
            Err(_) => {
                proof {
                    assert(false);
                }
                vstd::pervasive::unreached()
            },
        };
        let ghost old_tables = self.tables@;
        self.tables.push(table);
        proof {
            assert forall|i: int, j2: int|
                0 <= i < j2 < self.spec_tables().len() implies self.spec_tables()[i].spec_name()
                != self.spec_tables()[j2].spec_name() by {
                if j2 < old_tables.len() {
                    assert(self.spec_tables()[i] == old_tables[i]);
                    assert(self.spec_tables()[j2] == old_tables[j2]);
                } else {
                    assert(self.spec_tables()[i] == old_tables[i]);
                    assert(old(self).spec_names()[i] == old_tables[i].spec_name());
                }
            }
        }
        Ok(n)
    }

    /// Look up the index of the table registered under `name`.
    pub fn get_table(&self, name: &Data) -> (r: Result<usize, DatabaseError>)
        requires
            self.wf(),
        ensures
            self.has_table(name@) <==> r is Ok,
            r matches Ok(i) ==> 0 <= i < self.spec_tables().len() && self.spec_tables()[
                i as int
            ].spec_name() == name@,
            r matches Err(e) ==> e == DatabaseError::NameDoesNotExist,
    {
        let n = self.tables.len();
        let mut j: usize = 0;
        while j < n
            invariant
                self.wf(),
                n == self.tables@.len(),
                j <= n,
                forall|l: int| 0 <= l < j ==> self.spec_tables()[l].spec_name() != name@,
            decreases n - j,
        {
            if data_eq(&self.tables[j].name, &name) {
                proof {
                    assert(self.spec_names()[j as int] == name@);
                }
                return Ok(j);
            }
            j += 1;
        }
        proof {
            assert forall|l: int| 0 <= l < self.spec_names().len() implies self.spec_names()[l]
                != name@ by {
                assert(self.spec_names()[l] == self.spec_tables()[l].spec_name());
            }
        }
        Err(DatabaseError::NameDoesNotExist)
    }

    /// The table at a given index, as handed out by
    /// [`Database::add_table`] or [`Database::get_table`].
    pub fn table(&self, i: usize) -> (r: &Table)
        requires
            i < self.spec_tables().len(),
        ensures
            *r == self.spec_tables()[i as int],
    {
        &self.tables[i]
    }

    /// How many tables are registered.
    pub fn table_count(&self) -> (r: usize)
        ensures
            r == self.spec_tables().len(),
    {
        self.tables.len()
    }
}

} // verus!
