//! The engine facade: a catalog of named tables, the in-memory write-ahead
//! log protecting them, and the operations the store exposes. Every mutation
//! is logged and applied in one step; the log replays through the same
//! transition function `apply_entry`, which is what recovery runs.

use vstd::prelude::*;

use crate::assoc::{
    keys_distinct, lemma_map_of_contains, lemma_map_of_get, lemma_map_of_update_at, map_of,
};
use crate::row::Row;
use crate::schema::sorted_insert;
use crate::strutil::str_eq;
use crate::table::{table_lookup, Table, TableState};
use crate::wal::{encode_spec, entry_list_views, wf_entry, WalEntry, WalEntryView};

verus! {

/// Why an operation was refused. Missing tables and rows are ordinary
/// outcomes of the API; the file variants carry a path and a cause for the
/// surrounding process to report.
#[derive(Debug)]
pub enum DatabaseError {
    TableAlreadyExists(String),
    TableDoesNotExist(String),
    RowDoesNotExist(String, String),
    RowNotFound(String, String),
    FileCreationError(String, String),
}

impl DatabaseError {
    /// A human-readable account of the error, for callers that print.
    pub fn message(&self) -> (r: String)
        ensures
            match self {
                DatabaseError::TableAlreadyExists(n) => r@ == "table already exists: "@ + n@,
                DatabaseError::TableDoesNotExist(n) => r@ == "table does not exist: "@ + n@,
                DatabaseError::RowDoesNotExist(rid, n) => r@ == "row does not exist: "@ + rid@
                    + " in "@ + n@,
                DatabaseError::RowNotFound(rid, n) => r@ == "row not found: "@ + rid@ + " in "@
                    + n@,
                DatabaseError::FileCreationError(p, c) => r@ == "error creating file: "@ + p@
                    + ": "@ + c@,
            },
    {
        let mut out = String::new();
        match self {
            DatabaseError::TableAlreadyExists(n) => {
                out.append("table already exists: ");
                out.append(n.as_str());
            },
            DatabaseError::TableDoesNotExist(n) => {
                out.append("table does not exist: ");
                out.append(n.as_str());
            },
            DatabaseError::RowDoesNotExist(rid, n) => {
                out.append("row does not exist: ");
                out.append(rid.as_str());
                out.append(" in ");
                out.append(n.as_str());
            },
            DatabaseError::RowNotFound(rid, n) => {
                out.append("row not found: ");
                out.append(rid.as_str());
                out.append(" in ");
                out.append(n.as_str());
            },
            DatabaseError::FileCreationError(p, c) => {
                out.append("error creating file: ");
                out.append(p.as_str());
                out.append(": ");
                out.append(c.as_str());
            },
        }
        out
    }
}

/// The catalog as mathematics: table name to table state.
pub type Catalog = Map<Seq<char>, TableState>;

/// The state of the whole store: its catalog and its pending log.
#[verifier::ext_equal]
pub struct DbView {
    pub catalog: Catalog,
    pub wal: Seq<WalEntryView>,
}

/// The views of the catalog's backing list.
pub open spec fn catalog_views(s: Seq<(String, Table)>) -> Seq<(Seq<char>, TableState)> {
    s.map_values(|p: (String, Table)| (p.0@, p.1@))
}

/// A table that was just created: no columns, no rows, no segments.
pub open spec fn empty_table() -> TableState {
    TableState {
        schema: Seq::empty(),
        mem: Map::empty(),
        segs: Seq::empty(),
    }
}

/// A table state after its buffer was flushed into a new segment.
pub open spec fn flushed_state(t: TableState) -> TableState {
    TableState { schema: t.schema, mem: Map::empty(), segs: t.segs.push(t.mem) }
}

/// How one log entry changes the catalog. This is both what a live mutation
/// does and what replay does; an entry whose table (or, for an update, row)
/// is missing changes nothing.
pub open spec fn apply_entry(c: Catalog, e: WalEntryView) -> Catalog {
    match e {
        WalEntryView::CreateTable { table } => {
            if c.contains_key(table) {
                c
            } else {
                c.insert(table, empty_table())
            }
        },
        WalEntryView::AddColumn { table, column } => {
            if c.contains_key(table) {
                let t = c[table];
                c.insert(
                    table,
                    TableState { schema: sorted_insert(t.schema, column), mem: t.mem, segs: t.segs },
                )
            } else {
                c
            }
        },
        WalEntryView::InsertRow { table, row_id, data } => {
            if c.contains_key(table) {
                let t = c[table];
                let fm = data.restrict(t.schema.to_set());
                let newrow = if t.mem.contains_key(row_id) {
                    t.mem[row_id].union_prefer_right(fm)
                } else {
                    fm
                };
                c.insert(
                    table,
                    TableState { schema: t.schema, mem: t.mem.insert(row_id, newrow), segs: t.segs },
                )
            } else {
                c
            }
        },
        WalEntryView::UpdateRow { table, row_id, column, value } => {
            if c.contains_key(table) && c[table].mem.contains_key(row_id) {
                let t = c[table];
                c.insert(
                    table,
                    TableState {
                        schema: sorted_insert(t.schema, column),
                        mem: t.mem.insert(row_id, t.mem[row_id].insert(column, value)),
                        segs: t.segs,
                    },
                )
            } else {
                c
            }
        },
        WalEntryView::DeleteRow { table, row_id } => {
            if c.contains_key(table) {
                let t = c[table];
                c.insert(
                    table,
                    TableState { schema: t.schema, mem: t.mem.remove(row_id), segs: t.segs },
                )
            } else {
                c
            }
        },
    }
}

/// A whole log applied in order, oldest entry first.
pub open spec fn apply_entries(c: Catalog, es: Seq<WalEntryView>) -> Catalog
    decreases es.len(),
{
    if es.len() == 0 {
        c
    } else {
        apply_entry(apply_entries(c, es.drop_last()), es.last())
    }
}

/// Whether the live API, run against this catalog, could have produced the
/// entry: the operation it records succeeded there, and a row write records
/// only columns the schema knew at that point.
pub open spec fn entry_enabled(c: Catalog, e: WalEntryView) -> bool {
    match e {
        WalEntryView::CreateTable { table } => !c.contains_key(table),
        WalEntryView::AddColumn { table, .. } => c.contains_key(table),
        WalEntryView::InsertRow { table, row_id: _, data } => c.contains_key(table) && data.dom()
            <= c[table].schema.to_set(),
        WalEntryView::UpdateRow { table, row_id, .. } => c.contains_key(table)
            && c[table].mem.contains_key(row_id),
        WalEntryView::DeleteRow { table, .. } => c.contains_key(table),
    }
}

/// The log is one the live API could have written, starting from `c`.
pub open spec fn wal_ok(c: Catalog, es: Seq<WalEntryView>) -> bool
    decreases es.len(),
{
    es.len() == 0 || (wal_ok(c, es.drop_last()) && entry_enabled(
        apply_entries(c, es.drop_last()),
        es.last(),
    ))
}

/// The table store: the catalog, how many mutations have happened since the
/// last flush, the buffer-size threshold that triggers one, the pending log,
/// and the file the surrounding process keeps that log in.
pub struct Database {
    pub tables: Vec<(String, Table)>,
    pub operations_since_save: usize,
    pub save_threshold: usize,
    pub wal: Vec<WalEntry>,
    pub wal_file: String,
}

impl View for Database {
    type V = DbView;

    open spec fn view(&self) -> DbView {
        DbView {
            catalog: map_of(catalog_views(self.tables@)),
            wal: entry_list_views(self.wal@),
        }
    }
}

impl Database {
    /// Table names are distinct and every table is well-formed.
    pub open spec fn wf(&self) -> bool {
        &&& keys_distinct(catalog_views(self.tables@))
        &&& forall|i: int| 0 <= i < self.tables@.len() ==> (#[trigger] self.tables@[i]).1.wf()
    }

    /// A fresh store: no tables, an empty log, and the default flush
    /// threshold and log file name.
    pub fn new() -> (r: Database)
        ensures
            r.wf(),
            r@.catalog == Map::<Seq<char>, TableState>::empty(),
            r@.wal == Seq::<WalEntryView>::empty(),
            r.operations_since_save == 0,
            r.save_threshold == 5,
            r.wal_file@ == "wal.log"@,
    {
        let r = Database {
            tables: Vec::new(),
            operations_since_save: 0,
            save_threshold: 5,
            wal: Vec::new(),
            wal_file: String::from_str("wal.log"),
        };
        proof {
            assert(catalog_views(r.tables@) =~= Seq::<(Seq<char>, TableState)>::empty());
            assert(entry_list_views(r.wal@) =~= Seq::<WalEntryView>::empty());
        }
        r
    }

    /// Position of a table in a backing list, if present.
    fn find_in(tables: &Vec<(String, Table)>, table_name: &str) -> (r: Option<usize>)
        ensures
            match r {
                Some(i) => i < tables@.len() && tables@[i as int].0@ == table_name@,
                None => !map_of(catalog_views(tables@)).contains_key(table_name@),
            },
    {
        let mut i: usize = 0;
        while i < tables.len()
            invariant
                i <= tables@.len(),
                forall|j: int| 0 <= j < i ==> (#[trigger] tables@[j]).0@ != table_name@,
            decreases tables@.len() - i,
        {
            if str_eq(tables[i].0.as_str(), table_name) {
                return Some(i);
            }
            i += 1;
        }
        proof {
            lemma_map_of_contains(catalog_views(tables@), table_name@);
        }
        None
    }

    /// Position of a table in the backing list, if present.
    fn find_table(&self, table_name: &str) -> (r: Option<usize>)
        ensures
            match r {
                Some(i) => i < self.tables@.len() && self.tables@[i as int].0@ == table_name@,
                None => !self@.catalog.contains_key(table_name@),
            },
    {
        Self::find_in(&self.tables, table_name)
    }

    /// Applies one log entry to the catalog, exactly as `apply_entry` says:
    /// entries for missing tables or rows change nothing, creation is a
    /// no-op when the table exists, and row writes are upserts.
    #[verifier::rlimit(60)]
    fn apply_to_tables(tables: &mut Vec<(String, Table)>, e: &WalEntry)
        requires
            keys_distinct(catalog_views(old(tables)@)),
            forall|i: int| 0 <= i < old(tables)@.len() ==> (#[trigger] old(tables)@[i]).1.wf(),
        ensures
            keys_distinct(catalog_views(final(tables)@)),
            forall|i: int| 0 <= i < final(tables)@.len() ==> (#[trigger] final(tables)@[i]).1.wf(),
            map_of(catalog_views(final(tables)@)) == apply_entry(
                map_of(catalog_views(old(tables)@)),
                e@,
            ),
    {
        let ghost orig = catalog_views(tables@);
        let ghost c0 = map_of(orig);
        match e {
            WalEntry::CreateTable { table } => {
                match Self::find_in(tables, table.as_str()) {
                    Some(i) => {
                        proof {
                            assert(orig[i as int].0 == table@);
                            lemma_map_of_contains(orig, table@);
                        }
                    },
                    None => {
                        let name = table.clone();
                        let t = Table::new();
                        proof {
                            assert(t@ =~= empty_table());
                        }
                        tables.push((name, t));
                        proof {
                            let post = catalog_views(tables@);
                            assert(post.drop_last() =~= orig);
                            assert(post.last() == (table@, empty_table()));
                            assert forall|j: int| 0 <= j < orig.len() implies (#[trigger] orig[j]).0
                                != table@ by {
                                if orig[j].0 == table@ {
                                    lemma_map_of_contains(orig, table@);
                                }
                            }
                            assert forall|a: int, b: int| 0 <= a < b < post.len() implies post[a].0
                                != post[b].0 by {
                                if b == post.len() - 1 {
                                    assert(post[a].0 == orig[a].0);
                                    assert(post[a].0 != table@);
                                } else {
                                    assert(orig[a].0 != orig[b].0);
                                }
                            }
                            assert(map_of(post) =~= apply_entry(c0, e@));
                            assert(forall|j: int|
                                0 <= j < orig.len() ==> tables@[j] == old(tables)@[j]);
                        }
                    },
                }
            },
            WalEntry::AddColumn { table, column } => {
                match Self::find_in(tables, table.as_str()) {
                    None => {
                        proof {
                            assert(map_of(catalog_views(tables@)) =~= apply_entry(c0, e@));
                        }
                    },
                    Some(i) => {
                        proof {
                            lemma_map_of_get(orig, i as int);
                        }
                        let mut pair = tables.remove(i);
                        pair.1.add_column(column.as_str());
                        let ghost newstate = pair.1@;
                        tables.insert(i, pair);
                        proof {
                            let post = catalog_views(tables@);
                            assert(post =~= orig.update(i as int, (orig[i as int].0, newstate)));
                            lemma_map_of_update_at(orig, i as int, newstate);
                            assert(newstate =~= TableState {
                                schema: sorted_insert(c0[table@].schema, column@),
                                mem: c0[table@].mem,
                                segs: c0[table@].segs,
                            });
                            assert(map_of(post) =~= apply_entry(c0, e@));
                            assert(forall|j: int|
                                0 <= j < tables@.len() && j != i ==> tables@[j] == old(
                                    tables,
                                )@[j]);
                        }
                    },
                }
            },
            WalEntry::InsertRow { table, row_id, data } => {
                match Self::find_in(tables, table.as_str()) {
                    None => {
                        proof {
                            assert(map_of(catalog_views(tables@)) =~= apply_entry(c0, e@));
                        }
                    },
                    Some(i) => {
                        proof {
                            lemma_map_of_get(orig, i as int);
                        }
                        let mut pair = tables.remove(i);
                        let _ = pair.1.insert_row(row_id.as_str(), data);
                        let ghost newstate = pair.1@;
                        tables.insert(i, pair);
                        proof {
                            let post = catalog_views(tables@);
                            assert(post =~= orig.update(i as int, (orig[i as int].0, newstate)));
                            lemma_map_of_update_at(orig, i as int, newstate);
                            let t0 = c0[table@];
                            let fm = e@->InsertRow_data.restrict(t0.schema.to_set());
                            assert(newstate =~= TableState {
                                schema: t0.schema,
                                mem: t0.mem.insert(
                                    row_id@,
                                    if t0.mem.contains_key(row_id@) {
                                        t0.mem[row_id@].union_prefer_right(fm)
                                    } else {
                                        fm
                                    },
                                ),
                                segs: t0.segs,
                            });
                            assert(map_of(post) =~= apply_entry(c0, e@));
                            assert(forall|j: int|
                                0 <= j < tables@.len() && j != i ==> tables@[j] == old(
                                    tables,
                                )@[j]);
                        }
                    },
                }
            },
            WalEntry::UpdateRow { table, row_id, column, value } => {
                match Self::find_in(tables, table.as_str()) {
                    None => {
                        proof {
                            assert(map_of(catalog_views(tables@)) =~= apply_entry(c0, e@));
                        }
                    },
                    Some(i) => {
                        proof {
                            lemma_map_of_get(orig, i as int);
                        }
                        let mut pair = tables.remove(i);
                        let updated = pair.1.update_value(
                            row_id.as_str(),
                            column.as_str(),
                            value.as_str(),
                        );
                        let ghost newstate = pair.1@;
                        tables.insert(i, pair);
                        proof {
                            let post = catalog_views(tables@);
                            assert(post =~= orig.update(i as int, (orig[i as int].0, newstate)));
                            lemma_map_of_update_at(orig, i as int, newstate);
                            let t0 = c0[table@];
                            if updated {
                                assert(newstate =~= TableState {
                                    schema: sorted_insert(t0.schema, column@),
                                    mem: t0.mem.insert(
                                        row_id@,
                                        t0.mem[row_id@].insert(column@, value@),
                                    ),
                                    segs: t0.segs,
                                });
                            } else {
                                assert(orig.update(i as int, orig[i as int]) =~= orig);
                            }
                            assert(map_of(post) =~= apply_entry(c0, e@));
                            assert(forall|j: int|
                                0 <= j < tables@.len() && j != i ==> tables@[j] == old(
                                    tables,
                                )@[j]);
                        }
                    },
                }
            },
            WalEntry::DeleteRow { table, row_id } => {
                match Self::find_in(tables, table.as_str()) {
                    None => {
                        proof {
                            assert(map_of(catalog_views(tables@)) =~= apply_entry(c0, e@));
                        }
                    },
                    Some(i) => {
                        proof {
                            lemma_map_of_get(orig, i as int);
                        }
                        let mut pair = tables.remove(i);
                        let _ = pair.1.delete_row(row_id.as_str());
                        let ghost newstate = pair.1@;
                        tables.insert(i, pair);
                        proof {
                            let post = catalog_views(tables@);
                            assert(post =~= orig.update(i as int, (orig[i as int].0, newstate)));
                            lemma_map_of_update_at(orig, i as int, newstate);
                            let t0 = c0[table@];
                            assert(newstate =~= TableState {
                                schema: t0.schema,
                                mem: t0.mem.remove(row_id@),
                                segs: t0.segs,
                            });
                            assert(map_of(post) =~= apply_entry(c0, e@));
                            assert(forall|j: int|
                                0 <= j < tables@.len() && j != i ==> tables@[j] == old(
                                    tables,
                                )@[j]);
                        }
                    },
                }
            },
        }
    }

    /// Replays every pending log entry against the catalog, oldest first.
    /// Replay runs the same transition as the live operations, so it is
    /// harmless on state that already reflects the log.
    pub fn flush_wal(&mut self) -> (r: Result<(), DatabaseError>)
        requires
            old(self).wf(),
        ensures
            final(self).wf(),
            r is Ok,
            final(self)@.catalog == apply_entries(old(self)@.catalog, old(self)@.wal),
            final(self)@.wal == old(self)@.wal,
            final(self).operations_since_save == old(self).operations_since_save,
            final(self).save_threshold == old(self).save_threshold,
            final(self).wal_file == old(self).wal_file,
    {
        let ghost es = entry_list_views(self.wal@);
        let ghost c0 = self@.catalog;
        let mut k: usize = 0;
        proof {
            assert(es.take(0) =~= Seq::<WalEntryView>::empty());
        }
        while k < self.wal.len()
            invariant
                self.wal@ == old(self).wal@,
                es == entry_list_views(self.wal@),
                c0 == old(self)@.catalog,
                k <= self.wal@.len(),
                keys_distinct(catalog_views(self.tables@)),
                forall|i: int| 0 <= i < self.tables@.len() ==> (#[trigger] self.tables@[i]).1.wf(),
                map_of(catalog_views(self.tables@)) == apply_entries(c0, es.take(k as int)),
                self.operations_since_save == old(self).operations_since_save,
                self.save_threshold == old(self).save_threshold,
                self.wal_file == old(self).wal_file,
            decreases self.wal@.len() - k,
        {
            Self::apply_to_tables(&mut self.tables, &self.wal[k]);
            proof {
                assert(es.take(k + 1).drop_last() =~= es.take(k as int));
                assert(es.take(k + 1).last() == es[k as int]);
                assert(es[k as int] == self.wal@[k as int]@);
            }
            k += 1;
        }
        proof {
            assert(es.take(es.len() as int) =~= es);
        }
        Ok(())
    }

    /// Replays the pending log; recovery after a restart is exactly this.
    pub fn replay_wal(&mut self) -> (r: Result<(), DatabaseError>)
        requires
            old(self).wf(),
        ensures
            final(self).wf(),
            r is Ok,
            final(self)@.catalog == apply_entries(old(self)@.catalog, old(self)@.wal),
            final(self)@.wal == old(self)@.wal,
            final(self).operations_since_save == old(self).operations_since_save,
            final(self).save_threshold == old(self).save_threshold,
            final(self).wal_file == old(self).wal_file,
    {
        self.flush_wal()
    }

    /// Whether the catalog holds a table of this name.
    pub fn check_table(&self, table_name: &str) -> (r: bool)
        ensures
            r == self@.catalog.contains_key(table_name@),
    {
        match self.find_table(table_name) {
            Some(i) => {
                proof {
                    lemma_map_of_contains(catalog_views(self.tables@), table_name@);
                    assert(catalog_views(self.tables@)[i as int].0 == table_name@);
                }
                true
            },
            None => false,
        }
    }

    /// Creates an empty table and logs the creation; a name already in the
    /// catalog is refused and nothing changes.
    pub fn create_table(&mut self, table_name: &str) -> (r: Result<String, DatabaseError>)
        requires
            old(self).wf(),
        ensures
            final(self).wf(),
            old(self)@.catalog.contains_key(table_name@) ==> (r matches Err(
                DatabaseError::TableAlreadyExists(n),
            ) && n@ == table_name@ && *final(self) == *old(self)),
            !old(self)@.catalog.contains_key(table_name@) ==> {
                &&& r matches Ok(n) && n@ == table_name@
                &&& final(self)@.catalog == apply_entry(
                    old(self)@.catalog,
                    WalEntryView::CreateTable { table: table_name@ },
                )
                &&& final(self)@.wal == old(self)@.wal.push(
                    WalEntryView::CreateTable { table: table_name@ },
                )
                &&& final(self).operations_since_save == old(self).operations_since_save
                &&& final(self).save_threshold == old(self).save_threshold
                &&& final(self).wal_file == old(self).wal_file
            },
    {
        if self.check_table(table_name) {
            return Err(DatabaseError::TableAlreadyExists(table_name.to_owned()));
        }
        let ghost orig = catalog_views(self.tables@);
        let name = table_name.to_owned();
        let t = Table::new();
        proof {
            assert(t@ =~= empty_table());
        }
        self.tables.push((name, t));
        let entry = WalEntry::CreateTable { table: table_name.to_owned() };
        self.wal.push(entry);
        proof {
            let post = catalog_views(self.tables@);
            assert(post.drop_last() =~= orig);
            assert(post.last() == (table_name@, empty_table()));
            lemma_map_of_contains(orig, table_name@);
            assert(forall|j: int| 0 <= j < orig.len() ==> post[j] == orig[j]);
            assert forall|j: int| 0 <= j < orig.len() implies (#[trigger] orig[j]).0
                != table_name@ by {
                if orig[j].0 == table_name@ {
                    assert(exists|k: int| 0 <= k < orig.len() && orig[k].0 == table_name@);
                }
            }
            assert forall|a: int, b: int| 0 <= a < b < post.len() implies post[a].0 != post[b].0
                by {
                if b < post.len() - 1 {
                    assert(orig[a].0 != orig[b].0);
                }
            }
            assert(keys_distinct(post));
            assert(forall|i: int|
                0 <= i < old(self).tables@.len() ==> self.tables@[i] == old(self).tables@[i]);
            assert(final(self)@.catalog =~= apply_entry(
                old(self)@.catalog,
                WalEntryView::CreateTable { table: table_name@ },
            ));
            assert(entry_list_views(self.wal@) =~= entry_list_views(old(self).wal@).push(
                WalEntryView::CreateTable { table: table_name@ },
            ));
        }
        Ok(table_name.to_owned())
    }

    /// The table of that name, read-only.
    pub fn get_table(&self, table_name: &str) -> (r: Result<&Table, DatabaseError>)
        requires
            self.wf(),
        ensures
            match r {
                Ok(t) => self@.catalog.contains_key(table_name@) && t@
                    == self@.catalog[table_name@] && t.wf(),
                Err(e) => !self@.catalog.contains_key(table_name@) && (e matches
                    DatabaseError::TableDoesNotExist(n) && n@ == table_name@),
            },
    {
        match self.find_table(table_name) {
            None => Err(DatabaseError::TableDoesNotExist(table_name.to_owned())),
            Some(i) => {
                proof {
                    lemma_map_of_get(catalog_views(self.tables@), i as int);
                }
                Ok(&self.tables[i].1)
            },
        }
    }

    /// Declares a column on an existing table and logs it; declaring a
    /// column twice is harmless. A missing table is refused.
    pub fn add_column(&mut self, table_name: &str, column_name: &str) -> (r: Result<
        Vec<String>,
        DatabaseError,
    >)
        requires
            old(self).wf(),
        ensures
            final(self).wf(),
            !old(self)@.catalog.contains_key(table_name@) ==> (r matches Err(
                DatabaseError::TableDoesNotExist(n),
            ) && n@ == table_name@ && *final(self) == *old(self)),
            old(self)@.catalog.contains_key(table_name@) ==> {
                &&& r matches Ok(v) && v@.len() == 2 && v@[0]@ == column_name@ && v@[1]@
                    == table_name@
                &&& final(self)@.catalog == apply_entry(
                    old(self)@.catalog,
                    WalEntryView::AddColumn { table: table_name@, column: column_name@ },
                )
                &&& final(self)@.wal == old(self)@.wal.push(
                    WalEntryView::AddColumn { table: table_name@, column: column_name@ },
                )
                &&& final(self).operations_since_save == old(self).operations_since_save
                &&& final(self).save_threshold == old(self).save_threshold
                &&& final(self).wal_file == old(self).wal_file
            },
    {
        let ghost orig = catalog_views(self.tables@);
        let i = match self.find_table(table_name) {
            None => {
                return Err(DatabaseError::TableDoesNotExist(table_name.to_owned()));
            },
            Some(i) => i,
        };
        proof {
            lemma_map_of_get(orig, i as int);
        }
        let mut pair = self.tables.remove(i);
        pair.1.add_column(column_name);
        let ghost newstate = pair.1@;
        self.tables.insert(i, pair);
        let entry = WalEntry::AddColumn {
            table: table_name.to_owned(),
            column: column_name.to_owned(),
        };
        self.wal.push(entry);
        proof {
            let post = catalog_views(self.tables@);
            assert(post =~= orig.update(i as int, (orig[i as int].0, newstate)));
            lemma_map_of_update_at(orig, i as int, newstate);
            let e = WalEntryView::AddColumn { table: table_name@, column: column_name@ };
            assert(newstate =~= TableState {
                schema: sorted_insert(old(self)@.catalog[table_name@].schema, column_name@),
                mem: old(self)@.catalog[table_name@].mem,
                segs: old(self)@.catalog[table_name@].segs,
            });
            assert(final(self)@.catalog =~= apply_entry(old(self)@.catalog, e));
            assert(entry_list_views(self.wal@) =~= entry_list_views(old(self).wal@).push(e));
            assert(forall|j: int|
                0 <= j < self.tables@.len() && j != i ==> self.tables@[j] == old(self).tables@[j]);
        }
        let mut out: Vec<String> = Vec::new();
        out.push(column_name.to_owned());
        out.push(table_name.to_owned());
        Ok(out)
    }

    /// Upserts a row and logs it: the given columns, filtered by the table's
    /// schema, merge into any current row under `row_id`. When the buffer
    /// then holds at least `save_threshold` rows it is flushed into a new
    /// segment, which changes how the rows are stored but not what any
    /// lookup returns. A missing table is refused.
    pub fn insert_row(&mut self, table_name: &str, row_id: &str, data: Vec<(String, String)>) -> (r:
        Result<Vec<String>, DatabaseError>)
        requires
            old(self).wf(),
        ensures
            final(self).wf(),
            !old(self)@.catalog.contains_key(table_name@) ==> (r matches Err(
                DatabaseError::TableDoesNotExist(n),
            ) && n@ == table_name@ && *final(self) == *old(self)),
            old(self)@.catalog.contains_key(table_name@) ==> {
                let fm = map_of(crate::row::pair_views(data@)).restrict(
                    old(self)@.catalog[table_name@].schema.to_set(),
                );
                let e = WalEntryView::InsertRow { table: table_name@, row_id: row_id@, data: fm };
                let c1 = apply_entry(old(self)@.catalog, e);
                &&& r matches Ok(v) && v@.len() == 2 && v@[0]@ == row_id@ && v@[1]@ == table_name@
                &&& final(self)@.wal == old(self)@.wal.push(e)
                &&& forall|id: Seq<char>|
                    table_lookup(#[trigger] final(self)@.catalog[table_name@], id) == table_lookup(
                        c1[table_name@],
                        id,
                    )
                &&& (final(self)@.catalog == c1 || final(self)@.catalog == c1.insert(
                    table_name@,
                    flushed_state(c1[table_name@]),
                ))
                &&& c1[table_name@].mem.dom().len() < old(self).save_threshold
                    ==> final(self)@.catalog == c1
                &&& final(self).save_threshold == old(self).save_threshold
                &&& final(self).wal_file == old(self).wal_file
            },
    {
        let ghost orig = catalog_views(self.tables@);
        let i = match self.find_table(table_name) {
            None => {
                return Err(DatabaseError::TableDoesNotExist(table_name.to_owned()));
            },
            Some(i) => i,
        };
        proof {
            lemma_map_of_get(orig, i as int);
        }
        let mut pair = self.tables.remove(i);
        let filtered = pair.1.insert_row(row_id, &data);
        let ghost mid = pair.1@;
        let ghost fm = map_of(crate::row::pair_views(filtered@));
        let ghost e = WalEntryView::InsertRow { table: table_name@, row_id: row_id@, data: fm };
        let ghost c1 = apply_entry(old(self)@.catalog, e);
        proof {
            let t0 = old(self)@.catalog[table_name@];
            assert(fm.restrict(t0.schema.to_set()) =~= fm);
            assert(mid =~= TableState {
                schema: t0.schema,
                mem: t0.mem.insert(
                    row_id@,
                    if t0.mem.contains_key(row_id@) {
                        t0.mem[row_id@].union_prefer_right(fm)
                    } else {
                        fm
                    },
                ),
                segs: t0.segs,
            });
            crate::assoc::lemma_sorted_distinct(crate::memtable::entry_views(pair.1.mem.entries@));
            crate::assoc::lemma_map_of_len(crate::memtable::entry_views(pair.1.mem.entries@));
        }
        let flush_now = pair.1.mem.size() >= self.save_threshold;
        if flush_now {
            pair.1.flush();
            self.operations_since_save = 0;
        } else {
            if self.operations_since_save < usize::MAX {
                self.operations_since_save = self.operations_since_save + 1;
            }
        }
        let ghost newstate = pair.1@;
        self.tables.insert(i, pair);
        let entry = WalEntry::InsertRow {
            table: table_name.to_owned(),
            row_id: row_id.to_owned(),
            data: filtered,
        };
        self.wal.push(entry);
        proof {
            let post = catalog_views(self.tables@);
            assert(post =~= orig.update(i as int, (orig[i as int].0, newstate)));
            lemma_map_of_update_at(orig, i as int, newstate);
            assert(c1 =~= old(self)@.catalog.insert(table_name@, mid));
            if flush_now {
                if newstate == mid {
                    assert(final(self)@.catalog =~= c1);
                } else {
                    assert(newstate =~= flushed_state(mid));
                    assert(c1[table_name@] == mid);
                    assert(final(self)@.catalog =~= c1.insert(table_name@, flushed_state(mid)));
                }
            } else {
                assert(final(self)@.catalog =~= c1);
            }
            assert(entry_list_views(self.wal@) =~= entry_list_views(old(self).wal@).push(e));
            assert(forall|j: int|
                0 <= j < self.tables@.len() && j != i ==> self.tables@[j] == old(self).tables@[j]);
            assert(final(self)@.catalog[table_name@] == newstate);
            assert(c1[table_name@] == mid);
        }
        let mut out: Vec<String> = Vec::new();
        out.push(row_id.to_owned());
        out.push(table_name.to_owned());
        Ok(out)
    }

    /// Sets one column of an existing row and logs it, declaring the column
    /// first when the schema does not know it yet: the schema evolves on
    /// write. A missing table or a row absent from the buffer is refused.
    pub fn update_row(
        &mut self,
        table_name: &str,
        row_id: &str,
        column_name: &str,
        new_value: &str,
    ) -> (r: Result<Vec<String>, DatabaseError>)
        requires
            old(self).wf(),
        ensures
            final(self).wf(),
            !old(self)@.catalog.contains_key(table_name@) ==> (r matches Err(
                DatabaseError::TableDoesNotExist(n),
            ) && n@ == table_name@ && *final(self) == *old(self)),
            (old(self)@.catalog.contains_key(table_name@) && !old(
                self,
            )@.catalog[table_name@].mem.contains_key(row_id@)) ==> (r matches Err(
                DatabaseError::RowDoesNotExist(rid, n),
            ) && rid@ == row_id@ && n@ == table_name@ && *final(self) == *old(self)),
            (old(self)@.catalog.contains_key(table_name@) && old(
                self,
            )@.catalog[table_name@].mem.contains_key(row_id@)) ==> {
                let e = WalEntryView::UpdateRow {
                    table: table_name@,
                    row_id: row_id@,
                    column: column_name@,
                    value: new_value@,
                };
                &&& r matches Ok(v) && v@.len() == 3 && v@[0]@ == row_id@ && v@[1]@ == column_name@
                    && v@[2]@ == new_value@
                &&& final(self)@.catalog == apply_entry(old(self)@.catalog, e)
                &&& final(self)@.wal == old(self)@.wal.push(e)
                &&& final(self).save_threshold == old(self).save_threshold
                &&& final(self).wal_file == old(self).wal_file
            },
    {
        let ghost orig = catalog_views(self.tables@);
        let i = match self.find_table(table_name) {
            None => {
                return Err(DatabaseError::TableDoesNotExist(table_name.to_owned()));
            },
            Some(i) => i,
        };
        proof {
            lemma_map_of_get(orig, i as int);
        }
        let present = match self.tables[i].1.mem.get(row_id) {
            Some(_) => true,
            None => false,
        };
        if !present {
            return Err(DatabaseError::RowDoesNotExist(row_id.to_owned(), table_name.to_owned()));
        }
        let mut pair = self.tables.remove(i);
        let updated = pair.1.update_value(row_id, column_name, new_value);
        let ghost newstate = pair.1@;
        self.tables.insert(i, pair);
        proof {
            assert(updated);
            let post = catalog_views(self.tables@);
            assert(post =~= orig.update(i as int, (orig[i as int].0, newstate)));
            lemma_map_of_update_at(orig, i as int, newstate);
            assert(forall|j: int|
                0 <= j < self.tables@.len() && j != i ==> self.tables@[j] == old(self).tables@[j]);
        }
        if self.operations_since_save < usize::MAX {
            self.operations_since_save = self.operations_since_save + 1;
        }
        let entry = WalEntry::UpdateRow {
            table: table_name.to_owned(),
            row_id: row_id.to_owned(),
            column: column_name.to_owned(),
            value: new_value.to_owned(),
        };
        self.wal.push(entry);
        proof {
            let e = WalEntryView::UpdateRow {
                table: table_name@,
                row_id: row_id@,
                column: column_name@,
                value: new_value@,
            };
            let t0 = old(self)@.catalog[table_name@];
            assert(newstate =~= TableState {
                schema: sorted_insert(t0.schema, column_name@),
                mem: t0.mem.insert(row_id@, t0.mem[row_id@].insert(column_name@, new_value@)),
                segs: t0.segs,
            });
            assert(final(self)@.catalog =~= apply_entry(old(self)@.catalog, e));
            assert(entry_list_views(self.wal@) =~= entry_list_views(old(self).wal@).push(e));
        }
        let mut out: Vec<String> = Vec::new();
        out.push(row_id.to_owned());
        out.push(column_name.to_owned());
        out.push(new_value.to_owned());
        Ok(out)
    }

    /// Removes a row from the named table's buffer and logs it, reporting
    /// whether a buffered row was removed; a missing row is an ordinary
    /// `false`, only a missing table is an error. Rows already flushed to
    /// segments are immutable and remain visible.
    pub fn delete_row(&mut self, table_name: &str, row_id: &str) -> (r: Result<
        bool,
        DatabaseError,
    >)
        requires
            old(self).wf(),
        ensures
            final(self).wf(),
            !old(self)@.catalog.contains_key(table_name@) ==> (r matches Err(
                DatabaseError::TableDoesNotExist(n),
            ) && n@ == table_name@ && *final(self) == *old(self)),
            old(self)@.catalog.contains_key(table_name@) ==> {
                let e = WalEntryView::DeleteRow { table: table_name@, row_id: row_id@ };
                &&& r matches Ok(b) && b == old(self)@.catalog[table_name@].mem.contains_key(
                    row_id@,
                )
                &&& final(self)@.catalog == apply_entry(old(self)@.catalog, e)
                &&& final(self)@.wal == old(self)@.wal.push(e)
                &&& final(self).operations_since_save == old(self).operations_since_save
                &&& final(self).save_threshold == old(self).save_threshold
                &&& final(self).wal_file == old(self).wal_file
            },
    {
        let ghost orig = catalog_views(self.tables@);
        let i = match self.find_table(table_name) {
            None => {
                return Err(DatabaseError::TableDoesNotExist(table_name.to_owned()));
            },
            Some(i) => i,
        };
        proof {
            lemma_map_of_get(orig, i as int);
        }
        let mut pair = self.tables.remove(i);
        let removed = pair.1.delete_row(row_id);
        let ghost newstate = pair.1@;
        self.tables.insert(i, pair);
        let entry = WalEntry::DeleteRow { table: table_name.to_owned(), row_id: row_id.to_owned() };
        self.wal.push(entry);
        proof {
            let post = catalog_views(self.tables@);
            assert(post =~= orig.update(i as int, (orig[i as int].0, newstate)));
            lemma_map_of_update_at(orig, i as int, newstate);
            let e = WalEntryView::DeleteRow { table: table_name@, row_id: row_id@ };
            let t0 = old(self)@.catalog[table_name@];
            assert(newstate =~= TableState {
                schema: t0.schema,
                mem: t0.mem.remove(row_id@),
                segs: t0.segs,
            });
            assert(final(self)@.catalog =~= apply_entry(old(self)@.catalog, e));
            assert(entry_list_views(self.wal@) =~= entry_list_views(old(self).wal@).push(e));
            assert(forall|j: int|
                0 <= j < self.tables@.len() && j != i ==> self.tables@[j] == old(self).tables@[j]);
        }
        Ok(removed)
    }

    /// The pending log as lines of text, oldest first, ready to be appended
    /// to the durable log file; every line is newline-free, so one line is
    /// one record.
    pub fn persist_wal(&self) -> (r: Vec<String>)
        ensures
            crate::wal::line_views(r@).len() == self@.wal.len(),
            forall|k: int|
                0 <= k < self@.wal.len() ==> crate::wal::line_views(r@)[k] == encode_spec(
                    #[trigger] self@.wal[k],
                ),
            forall|k: int|
                0 <= k < self@.wal.len() ==> (wf_entry(#[trigger] self@.wal[k])
                    ==> crate::strutil::sep_free(crate::wal::line_views(r@)[k], '\n')),
    {
        let mut out: Vec<String> = Vec::new();
        let mut k: usize = 0;
        while k < self.wal.len()
            invariant
                k <= self.wal@.len(),
                out@.len() == k,
                forall|j: int|
                    0 <= j < k ==> (#[trigger] out@[j])@ == encode_spec(self.wal@[j]@),
                forall|j: int|
                    0 <= j < k ==> (wf_entry(self.wal@[j]@) ==> crate::strutil::sep_free(
                        out@[j]@,
                        '\n',
                    )),
            decreases self.wal@.len() - k,
        {
            let line = crate::wal::encode_entry(&self.wal[k]);
            out.push(line);
            k += 1;
        }
        out
    }

    /// Hands out the pending log as archive lines and clears it; the caller
    /// appends the lines to the never-truncated history file and truncates
    /// the working log file, in that order.
    pub fn commit_wal(&mut self) -> (r: Vec<String>)
        requires
            old(self).wf(),
        ensures
            final(self).wf(),
            crate::wal::line_views(r@).len() == old(self)@.wal.len(),
            forall|k: int|
                0 <= k < old(self)@.wal.len() ==> crate::wal::line_views(r@)[k] == encode_spec(
                    #[trigger] old(self)@.wal[k],
                ),
            final(self)@.wal == Seq::<WalEntryView>::empty(),
            final(self)@.catalog == old(self)@.catalog,
            final(self).operations_since_save == old(self).operations_since_save,
            final(self).save_threshold == old(self).save_threshold,
            final(self).wal_file == old(self).wal_file,
    {
        let out = self.persist_wal();
        self.wal = Vec::new();
        proof {
            assert(entry_list_views(self.wal@) =~= Seq::<WalEntryView>::empty());
        }
        out
    }

    /// Forgets the pending log without archiving it; the caller truncates
    /// the working log file to match.
    pub fn clear_wal(&mut self) -> (r: Result<(), DatabaseError>)
        requires
            old(self).wf(),
        ensures
            final(self).wf(),
            r is Ok,
            final(self)@.wal == Seq::<WalEntryView>::empty(),
            final(self)@.catalog == old(self)@.catalog,
            final(self).operations_since_save == old(self).operations_since_save,
            final(self).save_threshold == old(self).save_threshold,
            final(self).wal_file == old(self).wal_file,
    {
        self.wal = Vec::new();
        proof {
            assert(entry_list_views(self.wal@) =~= Seq::<WalEntryView>::empty());
        }
        Ok(())
    }

    /// Recovery: reads the durable log back and replays it. Each line that
    /// decodes becomes a pending entry (a line no encoder wrote is skipped),
    /// and the whole pending log then replays into the catalog. When the
    /// lines are exactly what `persist_wal` wrote for some run of
    /// operations, the catalog afterwards is the one that run had built.
    pub fn load_wal(&mut self, lines: &Vec<String>) -> (r: Result<(), DatabaseError>)
        requires
            old(self).wf(),
        ensures
            final(self).wf(),
            r is Ok,
            forall|es: Seq<WalEntryView>|
                crate::wal::encodes(crate::wal::line_views(lines@), es) ==> (final(self)@.wal
                    == old(self)@.wal + es && final(self)@.catalog == apply_entries(
                    old(self)@.catalog,
                    old(self)@.wal + es,
                )),
            final(self).operations_since_save == old(self).operations_since_save,
            final(self).save_threshold == old(self).save_threshold,
            final(self).wal_file == old(self).wal_file,
    {
        let ghost lv = crate::wal::line_views(lines@);
        let ghost wal0 = entry_list_views(self.wal@);
        let mut k: usize = 0;
        proof {
            assert(lv.take(0) =~= Seq::<Seq<char>>::empty());
        }
        while k < lines.len()
            invariant
                old(self).wf(),
                lv == crate::wal::line_views(lines@),
                wal0 == entry_list_views(old(self).wal@),
                k <= lines@.len(),
                self.tables@ == old(self).tables@,
                self.operations_since_save == old(self).operations_since_save,
                self.save_threshold == old(self).save_threshold,
                self.wal_file == old(self).wal_file,
                entry_list_views(self.wal@).len() >= wal0.len(),
                entry_list_views(self.wal@).take(wal0.len() as int) == wal0,
                forall|es2: Seq<WalEntryView>|
                    crate::wal::encodes(lv.take(k as int), es2) ==> entry_list_views(self.wal@)
                        == wal0 + es2,
            decreases lines@.len() - k,
        {
            let ghost pre = entry_list_views(self.wal@);
            match crate::wal::decode_entry(lines[k].as_str()) {
                None => {
                    proof {
                        assert forall|es2: Seq<WalEntryView>|
                            crate::wal::encodes(lv.take(k + 1), es2) implies entry_list_views(
                            self.wal@,
                        ) == wal0 + es2 by {
                            assert(lv.take(k + 1)[k as int] == lv[k as int]);
                            assert(wf_entry(es2[k as int]) && lv[k as int] == encode_spec(
                                es2[k as int],
                            ));
                            assert(false);
                        }
                    }
                },
                Some(d) => {
                    self.wal.push(d);
                    proof {
                        assert(entry_list_views(self.wal@) =~= pre.push(d@));
                        assert(entry_list_views(self.wal@).take(wal0.len() as int) =~= pre.take(
                            wal0.len() as int,
                        ));
                        assert forall|es2: Seq<WalEntryView>|
                            crate::wal::encodes(lv.take(k + 1), es2) implies entry_list_views(
                            self.wal@,
                        ) == wal0 + es2 by {
                            assert(lv.take(k + 1)[k as int] == lv[k as int]);
                            assert(wf_entry(es2[k as int]) && lv[k as int] == encode_spec(
                                es2[k as int],
                            ));
                            assert(d@ == es2[k as int]);
                            assert(crate::wal::encodes(lv.take(k as int), es2.take(
                                es2.len() - 1,
                            ))) by {
                                assert(forall|j: int|
                                    0 <= j < k ==> lv.take(k + 1)[j] == lv.take(k as int)[j]);
                                assert(forall|j: int|
                                    0 <= j < es2.len() - 1 ==> es2.take(es2.len() - 1)[j]
                                        == es2[j]);
                            }
                            assert(pre == wal0 + es2.take(es2.len() - 1));
                            assert(entry_list_views(self.wal@) =~= wal0 + es2);
                        }
                    }
                },
            }
            k += 1;
        }
        proof {
            assert(lv.take(lv.len() as int) =~= lv);
        }
        let r = self.flush_wal();
        r
    }

    /// Flushes the named table's buffer into a new segment; every row of the
    /// table reads exactly as before. A missing table is refused.
    pub fn flush_table(&mut self, table_name: &str) -> (r: Result<(), DatabaseError>)
        requires
            old(self).wf(),
        ensures
            final(self).wf(),
            !old(self)@.catalog.contains_key(table_name@) ==> (r matches Err(
                DatabaseError::TableDoesNotExist(n),
            ) && n@ == table_name@ && *final(self) == *old(self)),
            old(self)@.catalog.contains_key(table_name@) ==> {
                &&& r is Ok
                &&& forall|id: Seq<char>|
                    table_lookup(#[trigger] final(self)@.catalog[table_name@], id) == table_lookup(
                        old(self)@.catalog[table_name@],
                        id,
                    )
                &&& (final(self)@.catalog == old(self)@.catalog || final(self)@.catalog == old(
                    self,
                )@.catalog.insert(table_name@, flushed_state(old(self)@.catalog[table_name@])))
                &&& final(self)@.wal == old(self)@.wal
                &&& final(self).operations_since_save == old(self).operations_since_save
                &&& final(self).save_threshold == old(self).save_threshold
                &&& final(self).wal_file == old(self).wal_file
            },
    {
        let ghost orig = catalog_views(self.tables@);
        let i = match self.find_table(table_name) {
            None => {
                return Err(DatabaseError::TableDoesNotExist(table_name.to_owned()));
            },
            Some(i) => i,
        };
        proof {
            lemma_map_of_get(orig, i as int);
        }
        let mut pair = self.tables.remove(i);
        pair.1.flush();
        let ghost newstate = pair.1@;
        self.tables.insert(i, pair);
        proof {
            let post = catalog_views(self.tables@);
            assert(post =~= orig.update(i as int, (orig[i as int].0, newstate)));
            lemma_map_of_update_at(orig, i as int, newstate);
            let t0 = old(self)@.catalog[table_name@];
            if newstate == t0 {
                assert(final(self)@.catalog =~= old(self)@.catalog);
            } else {
                assert(newstate =~= flushed_state(t0));
            }
            assert(forall|j: int|
                0 <= j < self.tables@.len() && j != i ==> self.tables@[j] == old(self).tables@[j]);
            assert(final(self)@.catalog[table_name@] == newstate);
        }
        Ok(())
    }

    /// Merges the named table's segments into one; every row of the table
    /// reads exactly as before. A missing table is refused.
    pub fn compact_table(&mut self, table_name: &str) -> (r: Result<(), DatabaseError>)
        requires
            old(self).wf(),
        ensures
            final(self).wf(),
            !old(self)@.catalog.contains_key(table_name@) ==> (r matches Err(
                DatabaseError::TableDoesNotExist(n),
            ) && n@ == table_name@ && *final(self) == *old(self)),
            old(self)@.catalog.contains_key(table_name@) ==> {
                let t0 = old(self)@.catalog[table_name@];
                &&& r is Ok
                &&& forall|id: Seq<char>|
                    table_lookup(#[trigger] final(self)@.catalog[table_name@], id) == table_lookup(
                        t0,
                        id,
                    )
                &&& t0.segs.len() >= 2 ==> final(self)@.catalog == old(self)@.catalog.insert(
                    table_name@,
                    TableState {
                        schema: t0.schema,
                        mem: t0.mem,
                        segs: seq![crate::table::stack_merged(t0.segs)],
                    },
                )
                &&& t0.segs.len() < 2 ==> final(self)@.catalog == old(self)@.catalog
                &&& final(self)@.wal == old(self)@.wal
                &&& final(self).operations_since_save == old(self).operations_since_save
                &&& final(self).save_threshold == old(self).save_threshold
                &&& final(self).wal_file == old(self).wal_file
            },
    {
        let ghost orig = catalog_views(self.tables@);
        let i = match self.find_table(table_name) {
            None => {
                return Err(DatabaseError::TableDoesNotExist(table_name.to_owned()));
            },
            Some(i) => i,
        };
        proof {
            lemma_map_of_get(orig, i as int);
        }
        let mut pair = self.tables.remove(i);
        let ghost oldsegs = pair.1.store.segs@;
        pair.1.compact_segments();
        let ghost newstate = pair.1@;
        self.tables.insert(i, pair);
        proof {
            let post = catalog_views(self.tables@);
            assert(post =~= orig.update(i as int, (orig[i as int].0, newstate)));
            lemma_map_of_update_at(orig, i as int, newstate);
            let t0 = old(self)@.catalog[table_name@];
            crate::table::lemma_stack_merged_is_store(oldsegs);
            if oldsegs.len() >= 2 {
                assert(newstate =~= TableState {
                    schema: t0.schema,
                    mem: t0.mem,
                    segs: seq![crate::table::stack_merged(t0.segs)],
                });
            } else {
                assert(newstate == t0);
                assert(final(self)@.catalog =~= old(self)@.catalog);
            }
            assert(forall|j: int|
                0 <= j < self.tables@.len() && j != i ==> self.tables@[j] == old(self).tables@[j]);
            assert(final(self)@.catalog[table_name@] == newstate);
        }
        Ok(())
    }

    /// Exports the named table as comma-separated lines: a header with the
    /// sorted columns, then one line per row of the table's merged view in
    /// ascending identifier order, an empty field standing for a missing
    /// value. A missing table is refused. The caller writes the lines to
    /// whatever file it chooses.
    pub fn save_table(&self, table_name: &str) -> (r: Result<Vec<String>, DatabaseError>)
        requires
            self.wf(),
        ensures
            match r {
                Ok(lines) => self@.catalog.contains_key(table_name@) && (exists|
                    rows: Seq<(Seq<char>, Map<Seq<char>, Seq<char>>)>,
                |
                    {
                        &&& crate::assoc::keys_sorted(rows)
                        &&& map_of(rows) == crate::table::stack_merged(
                            self@.catalog[table_name@].segs,
                        ).union_prefer_right(self@.catalog[table_name@].mem)
                        &&& crate::wal::line_views(lines@) == crate::csv::csv_lines_spec(
                            self@.catalog[table_name@].schema,
                            rows,
                        )
                    }),
                Err(e) => !self@.catalog.contains_key(table_name@) && (e matches
                    DatabaseError::TableDoesNotExist(n) && n@ == table_name@),
            },
    {
        let i = match self.find_table(table_name) {
            None => {
                return Err(DatabaseError::TableDoesNotExist(table_name.to_owned()));
            },
            Some(i) => i,
        };
        proof {
            lemma_map_of_get(catalog_views(self.tables@), i as int);
        }
        let t = &self.tables[i].1;
        let rows = t.merged_rows();
        let lines = crate::csv::csv_lines(&t.schema, &rows);
        proof {
            crate::table::lemma_stack_merged_is_store(t.store.segs@);
            let rvs = crate::memtable::entry_views(rows@);
            assert(crate::assoc::keys_sorted(rvs) && map_of(rvs) == crate::table::stack_merged(
                self@.catalog[table_name@].segs,
            ).union_prefer_right(self@.catalog[table_name@].mem) && crate::wal::line_views(lines@)
                == crate::csv::csv_lines_spec(self@.catalog[table_name@].schema, rvs));
        }
        Ok(lines)
    }

    /// The row the named table shows for `row_id`: the buffer first, then
    /// the segments, newest first. Missing table and missing row are the two
    /// error outcomes; the catalog never loads anything from outside on a
    /// miss.
    pub fn get_row(&self, table_name: &str, row_id: &str) -> (r: Result<Row, DatabaseError>)
        requires
            self.wf(),
        ensures
            match r {
                Ok(row) => self@.catalog.contains_key(table_name@) && table_lookup(
                    self@.catalog[table_name@],
                    row_id@,
                ) == Some(row@) && row.wf(),
                Err(e) => match e {
                    DatabaseError::TableDoesNotExist(n) => !self@.catalog.contains_key(table_name@)
                        && n@ == table_name@,
                    DatabaseError::RowDoesNotExist(rid, n) => self@.catalog.contains_key(
                        table_name@,
                    ) && table_lookup(self@.catalog[table_name@], row_id@) is None && rid@
                        == row_id@ && n@ == table_name@,
                    _ => false,
                },
            },
    {
        match self.find_table(table_name) {
            None => Err(DatabaseError::TableDoesNotExist(table_name.to_owned())),
            Some(i) => {
                proof {
                    lemma_map_of_get(catalog_views(self.tables@), i as int);
                }
                match self.tables[i].1.get_row(row_id) {
                    Some(row) => Ok(row),
                    None => Err(
                        DatabaseError::RowDoesNotExist(row_id.to_owned(), table_name.to_owned()),
                    ),
                }
            },
        }
    }
}

} // verus!
