//! The commands a front end exposes over the store: creating a table (with
//! or without its columns) and exporting a table. Each command keeps its
//! name, a description, a usage line, and the outcome of its last run.

use vstd::prelude::*;

use crate::db::{apply_entries, apply_entry, Database};
use crate::wal::WalEntryView;

verus! {

/// The outcome of a command's last run: a value or an error message.
pub enum CmdResult {
    Success(String),
    Failure(String),
}

/// The command that creates tables.
pub struct Create_Table {
    pub name: String,
    pub description: String,
    pub usage: String,
    pub res_message: CmdResult,
}

impl Create_Table {
    /// A fresh command with an empty outcome.
    pub fn new() -> (r: Create_Table)
        ensures
            r.name@ == "Create_Table"@,
            r.res_message matches CmdResult::Success(m) && m@ == Seq::<char>::empty(),
    {
        Create_Table {
            name: String::from_str("Create_Table"),
            description: String::from_str("This is Create_Table"),
            usage: String::from_str("Create_Table"),
            res_message: CmdResult::Success(String::new()),
        }
    }

    /// Creates the table and records the outcome.
    pub fn create_table(&mut self, t_name: &str, db: &mut Database)
        requires
            old(db).wf(),
        ensures
            final(db).wf(),
            old(db)@.catalog.contains_key(t_name@) ==> *final(db) == *old(db)
                && (final(self).res_message is Failure),
            !old(db)@.catalog.contains_key(t_name@) ==> {
                &&& final(db)@.catalog == apply_entry(
                    old(db)@.catalog,
                    (WalEntryView::CreateTable { table: t_name@ }),
                )
                &&& final(db)@.wal == old(db)@.wal.push(
                    (WalEntryView::CreateTable { table: t_name@ }),
                )
                &&& final(self).res_message matches CmdResult::Success(m) && m@ == t_name@
            },
            final(self).name == old(self).name,
            final(self).description == old(self).description,
            final(self).usage == old(self).usage,
    {
        self.res_message = match db.create_table(t_name) {
            Ok(val) => CmdResult::Success(val),
            Err(err) => CmdResult::Failure(err.message()),
        };
    }

    /// Creates the table and declares the given columns on it, recording the
    /// outcome. A name already in the catalog fails the whole command and
    /// leaves the store unchanged; once the table is created, declaring its
    /// columns cannot fail.
    pub fn create_table_with_columns(&mut self, t_name: &str, columns: &Vec<String>, db: &mut Database)
        requires
            old(db).wf(),
        ensures
            final(db).wf(),
            old(db)@.catalog.contains_key(t_name@) ==> *final(db) == *old(db)
                && (final(self).res_message is Failure),
            !old(db)@.catalog.contains_key(t_name@) ==> {
                let es = seq![(WalEntryView::CreateTable { table: t_name@ })] + columns@.map_values(
                    |c: String| (WalEntryView::AddColumn { table: t_name@, column: c@ }),
                );
                &&& final(db)@.catalog == apply_entries(old(db)@.catalog, es)
                &&& final(db)@.wal == old(db)@.wal + es
                &&& final(self).res_message matches CmdResult::Success(m) && m@ == t_name@
            },
            final(self).name == old(self).name,
            final(self).description == old(self).description,
            final(self).usage == old(self).usage,
    {
        let created = match db.create_table(t_name) {
            Ok(val) => val,
            Err(err) => {
                self.res_message = CmdResult::Failure(err.message());
                return;
            },
        };
        let ghost ce = (WalEntryView::CreateTable { table: t_name@ });
        let ghost adds = columns@.map_values(
            |c: String| (WalEntryView::AddColumn { table: t_name@, column: c@ }),
        );
        let mut i: usize = 0;
        proof {
            assert(seq![ce] + adds.take(0) =~= seq![ce]);
            assert(seq![ce].drop_last() =~= Seq::<WalEntryView>::empty());
            assert(seq![ce].last() == ce);
            assert(seq![ce].len() == 1);
            assert(apply_entries(old(db)@.catalog, seq![ce].drop_last()) == old(db)@.catalog);
            assert(apply_entries(old(db)@.catalog, seq![ce]) == apply_entry(
                old(db)@.catalog,
                ce,
            ));
            assert(db@.wal =~= old(db)@.wal + (seq![ce] + adds.take(0)));
        }
        while i < columns.len()
            invariant
                db.wf(),
                adds == columns@.map_values(
                    |c: String| (WalEntryView::AddColumn { table: t_name@, column: c@ }),
                ),
                i <= columns@.len(),
                db@.catalog.contains_key(t_name@),
                db@.catalog == apply_entries(old(db)@.catalog, seq![ce] + adds.take(i as int)),
                db@.wal == old(db)@.wal + (seq![ce] + adds.take(i as int)),
            decreases columns@.len() - i,
        {
            let res = db.add_column(t_name, columns[i].as_str());
            proof {
                assert(res is Ok);
                let pre = seq![ce] + adds.take(i as int);
                let cur = seq![ce] + adds.take(i + 1);
                assert(cur.drop_last() =~= pre);
                assert(cur.last() == adds[i as int]);
                assert(adds[i as int] == (WalEntryView::AddColumn {
                    table: t_name@,
                    column: columns@[i as int]@,
                }));
                assert(apply_entries(old(db)@.catalog, cur) == apply_entry(
                    apply_entries(old(db)@.catalog, pre),
                    adds[i as int],
                ));
                assert(db@.wal =~= old(db)@.wal + cur);
            }
            i += 1;
        }
        proof {
            assert(adds.take(adds.len() as int) =~= adds);
        }
        self.res_message = CmdResult::Success(created);
    }
}

/// The command that exports a table.
pub struct Save_table {
    pub name: String,
    pub description: String,
    pub usage: String,
    pub res_message: CmdResult,
}

impl Save_table {
    /// A fresh command with an empty outcome.
    pub fn new() -> (r: Save_table)
        ensures
            r.name@ == "Save_table"@,
            r.res_message matches CmdResult::Success(m) && m@ == Seq::<char>::empty(),
    {
        Save_table {
            name: String::from_str("Save_table"),
            description: String::from_str("This is command1"),
            usage: String::from_str("Save_table"),
            res_message: CmdResult::Success(String::new()),
        }
    }

    /// Exports the named table as lines for the caller to write to the named
    /// file, and records the outcome: the table and file name on success,
    /// the error's message otherwise.
    pub fn save_table(&mut self, t_name: &str, file_name: &str, db: &Database) -> (r: Option<
        Vec<String>,
    >)
        requires
            db.wf(),
        ensures
            db@.catalog.contains_key(t_name@) ==> (r is Some && (final(self).res_message matches
                CmdResult::Success(m) && m@ == t_name@ + ", "@ + file_name@)),
            !db@.catalog.contains_key(t_name@) ==> (r is None && final(self).res_message is Failure),
            final(self).name == old(self).name,
            final(self).description == old(self).description,
            final(self).usage == old(self).usage,
    {
        match db.save_table(t_name) {
            Ok(lines) => {
                let mut m = String::new();
                m.append(t_name);
                m.append(", ");
                m.append(file_name);
                self.res_message = CmdResult::Success(m);
                Some(lines)
            },
            Err(err) => {
                self.res_message = CmdResult::Failure(err.message());
                None
            },
        }
    }
}

} // verus!
