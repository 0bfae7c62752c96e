//! Write-ahead-log entries and their one-line text encoding,
//! `opcode:field:...:payload`. Table and row names may not carry the field
//! separator or a newline; the payload of a row operation is self-delimiting
//! JSON, so values are free to contain anything.

use vstd::prelude::*;

use crate::payload::{
    json_decode_pairs, json_decode_value, json_encode_pairs, json_encode_value, json_obj_of,
    json_str_of,
};
use crate::row::pair_views;
use crate::assoc::map_of;
use crate::strutil::{lemma_split_unique, sep_free, split_first, str_eq};

verus! {

/// One durable record of a mutation, in the order it was applied.
pub enum WalEntry {
    CreateTable { table: String },
    AddColumn { table: String, column: String },
    InsertRow { table: String, row_id: String, data: Vec<(String, String)> },
    UpdateRow { table: String, row_id: String, column: String, value: String },
    DeleteRow { table: String, row_id: String },
}

/// The mathematical content of an entry; row data is the column/value map it
/// denotes, later pairs having won.
#[verifier::ext_equal]
pub enum WalEntryView {
    CreateTable { table: Seq<char> },
    AddColumn { table: Seq<char>, column: Seq<char> },
    InsertRow { table: Seq<char>, row_id: Seq<char>, data: Map<Seq<char>, Seq<char>> },
    UpdateRow { table: Seq<char>, row_id: Seq<char>, column: Seq<char>, value: Seq<char> },
    DeleteRow { table: Seq<char>, row_id: Seq<char> },
}

impl View for WalEntry {
    type V = WalEntryView;

    open spec fn view(&self) -> WalEntryView {
        match self {
            WalEntry::CreateTable { table } => WalEntryView::CreateTable { table: table@ },
            WalEntry::AddColumn { table, column } => WalEntryView::AddColumn {
                table: table@,
                column: column@,
            },
            WalEntry::InsertRow { table, row_id, data } => WalEntryView::InsertRow {
                table: table@,
                row_id: row_id@,
                data: map_of(pair_views(data@)),
            },
            WalEntry::UpdateRow { table, row_id, column, value } => WalEntryView::UpdateRow {
                table: table@,
                row_id: row_id@,
                column: column@,
                value: value@,
            },
            WalEntry::DeleteRow { table, row_id } => WalEntryView::DeleteRow {
                table: table@,
                row_id: row_id@,
            },
        }
    }
}

/// The views of a list of entries.
pub open spec fn entry_list_views(s: Seq<WalEntry>) -> Seq<WalEntryView> {
    s.map_values(|e: WalEntry| e@)
}

/// A name that the line format can carry: free of the field separator and of
/// the record separator.
pub open spec fn name_ok(s: Seq<char>) -> bool {
    sep_free(s, ':') && sep_free(s, '\n')
}

/// Every name of the entry fits the line format.
pub open spec fn wf_entry(e: WalEntryView) -> bool {
    match e {
        WalEntryView::CreateTable { table } => name_ok(table),
        WalEntryView::AddColumn { table, column } => name_ok(table) && name_ok(column),
        WalEntryView::InsertRow { table, row_id, data: _ } => name_ok(table) && name_ok(row_id),
        WalEntryView::UpdateRow { table, row_id, column, value: _ } => name_ok(table) && name_ok(
            row_id,
        ) && name_ok(column),
        WalEntryView::DeleteRow { table, row_id } => name_ok(table) && name_ok(row_id),
    }
}

/// The opcode that starts the entry's line.
pub open spec fn opstr(e: WalEntryView) -> Seq<char> {
    match e {
        WalEntryView::CreateTable { .. } => "create_table"@,
        WalEntryView::AddColumn { .. } => "add_column"@,
        WalEntryView::InsertRow { .. } => "insert_row"@,
        WalEntryView::UpdateRow { .. } => "update_row"@,
        WalEntryView::DeleteRow { .. } => "delete_row"@,
    }
}

/// What follows the opcode and its separator.
pub open spec fn enctail(e: WalEntryView) -> Seq<char> {
    match e {
        WalEntryView::CreateTable { table } => table,
        WalEntryView::AddColumn { table, column } => table + seq![':'] + column,
        WalEntryView::InsertRow { table, row_id, data } => table + seq![':'] + row_id + seq![':']
            + json_obj_of(data),
        WalEntryView::UpdateRow { table, row_id, column, value } => table + seq![':'] + row_id
            + seq![':'] + column + seq![':'] + json_str_of(value),
        WalEntryView::DeleteRow { table, row_id } => table + seq![':'] + row_id,
    }
}

/// The one-line text of an entry.
pub open spec fn encode_spec(e: WalEntryView) -> Seq<char> {
    opstr(e) + seq![':'] + enctail(e)
}

/// The views of a list of owned lines.
pub open spec fn line_views(s: Seq<String>) -> Seq<Seq<char>> {
    s.map_values(|l: String| l@)
}

/// The lines are exactly the encodings of the entries, which are all
/// well-formed.
pub open spec fn encodes(lines: Seq<Seq<char>>, es: Seq<WalEntryView>) -> bool {
    &&& lines.len() == es.len()
    &&& forall|k: int|
        0 <= k < es.len() ==> wf_entry(#[trigger] es[k]) && lines[k] == encode_spec(es[k])
}

/// The five opcodes are pairwise distinct and free of separators.
proof fn lemma_opcodes()
    ensures
        sep_free("create_table"@, ':'),
        sep_free("add_column"@, ':'),
        sep_free("insert_row"@, ':'),
        sep_free("update_row"@, ':'),
        sep_free("delete_row"@, ':'),
        sep_free("create_table"@, '\n'),
        sep_free("add_column"@, '\n'),
        sep_free("insert_row"@, '\n'),
        sep_free("update_row"@, '\n'),
        sep_free("delete_row"@, '\n'),
        "create_table"@.len() == 12,
        "add_column"@.len() == 10,
        "insert_row"@.len() == 10,
        "update_row"@.len() == 10,
        "delete_row"@.len() == 10,
        "add_column"@ != "insert_row"@,
        "add_column"@ != "update_row"@,
        "add_column"@ != "delete_row"@,
        "insert_row"@ != "update_row"@,
        "insert_row"@ != "delete_row"@,
        "update_row"@ != "delete_row"@,
{
    reveal_strlit("create_table");
    reveal_strlit("add_column");
    reveal_strlit("insert_row");
    reveal_strlit("update_row");
    reveal_strlit("delete_row");
    assert("add_column"@[0] != "insert_row"@[0]);
    assert("add_column"@[0] != "update_row"@[0]);
    assert("add_column"@[0] != "delete_row"@[0]);
    assert("insert_row"@[0] != "update_row"@[0]);
    assert("insert_row"@[0] != "delete_row"@[0]);
    assert("update_row"@[0] != "delete_row"@[0]);
}

/// Turns an entry into its line. The line never holds a newline when the
/// entry's names are well-formed, so a line-per-record file cannot tear.
pub fn encode_entry(e: &WalEntry) -> (r: String)
    ensures
        r@ == encode_spec(e@),
        wf_entry(e@) ==> sep_free(r@, '\n'),
{
    proof {
        lemma_opcodes();
        reveal_strlit(":");
        assert(":"@ =~= seq![':']);
    }
    let mut out = String::new();
    match e {
        WalEntry::CreateTable { table } => {
            out.append("create_table");
            out.append(":");
            out.append(table.as_str());
            proof {
                assert(out@ =~= encode_spec(e@));
            }
        },
        WalEntry::AddColumn { table, column } => {
            out.append("add_column");
            out.append(":");
            out.append(table.as_str());
            out.append(":");
            out.append(column.as_str());
            proof {
                assert(out@ =~= encode_spec(e@));
            }
        },
        WalEntry::InsertRow { table, row_id, data } => {
            let payload = json_encode_pairs(data);
            out.append("insert_row");
            out.append(":");
            out.append(table.as_str());
            out.append(":");
            out.append(row_id.as_str());
            out.append(":");
            out.append(payload.as_str());
            proof {
                assert(out@ =~= encode_spec(e@));
            }
        },
        WalEntry::UpdateRow { table, row_id, column, value } => {
            let payload = json_encode_value(value.as_str());
            out.append("update_row");
            out.append(":");
            out.append(table.as_str());
            out.append(":");
            out.append(row_id.as_str());
            out.append(":");
            out.append(column.as_str());
            out.append(":");
            out.append(payload.as_str());
            proof {
                assert(out@ =~= encode_spec(e@));
            }
        },
        WalEntry::DeleteRow { table, row_id } => {
            out.append("delete_row");
            out.append(":");
            out.append(table.as_str());
            out.append(":");
            out.append(row_id.as_str());
            proof {
                assert(out@ =~= encode_spec(e@));
            }
        },
    }
    out
}

/// Reads an entry back from its line: decoding is total, and on any line
/// that `encode_entry` produced for a well-formed entry it returns exactly
/// that entry.
pub fn decode_entry(line: &str) -> (r: Option<WalEntry>)
    ensures
        forall|e: WalEntryView|
            wf_entry(e) && line@ == encode_spec(e) ==> (r matches Some(d) && d@ == e),
{
    proof {
        lemma_opcodes();
    }
    let parts = split_first(line, ':');
    match parts {
        None => {
            proof {
                assert forall|e: WalEntryView| wf_entry(e) && line@ == encode_spec(e) implies false
                    by {
                    assert(line@[opstr(e).len() as int] == ':');
                }
            }
            None
        },
        Some((op, rest)) => {
            if str_eq(op, "create_table") {
                let d = WalEntry::CreateTable { table: rest.to_owned() };
                proof {
                    assert forall|e: WalEntryView| wf_entry(e) && line@ == encode_spec(e) implies d@
                        == e by {
                        lemma_split_unique(op@, rest@, opstr(e), enctail(e), ':');
                        match e {
                            WalEntryView::CreateTable { table } => {
                                assert(rest@ == table);
                            },
                            _ => {
                                assert(opstr(e) != "create_table"@);
                                assert(false);
                            },
                        }
                    }
                }
                Some(d)
            } else if str_eq(op, "add_column") {
                match split_first(rest, ':') {
                    None => {
                        proof {
                            assert forall|e: WalEntryView|
                                wf_entry(e) && line@ == encode_spec(e) implies false by {
                                lemma_split_unique(op@, rest@, opstr(e), enctail(e), ':');
                                match e {
                                    WalEntryView::AddColumn { table, column } => {
                                        assert(rest@[table.len() as int] == ':');
                                    },
                                    _ => {
                                        assert(opstr(e) != "add_column"@);
                                    },
                                }
                            }
                        }
                        None
                    },
                    Some((t, c)) => {
                        let d = WalEntry::AddColumn { table: t.to_owned(), column: c.to_owned() };
                        proof {
                            assert forall|e: WalEntryView|
                                wf_entry(e) && line@ == encode_spec(e) implies d@ == e by {
                                lemma_split_unique(op@, rest@, opstr(e), enctail(e), ':');
                                match e {
                                    WalEntryView::AddColumn { table, column } => {
                                        lemma_split_unique(t@, c@, table, column, ':');
                                    },
                                    _ => {
                                        assert(opstr(e) != "add_column"@);
                                    },
                                }
                            }
                        }
                        Some(d)
                    },
                }
            } else if str_eq(op, "insert_row") {
                match split_first(rest, ':') {
                    None => {
                        proof {
                            assert forall|e: WalEntryView|
                                wf_entry(e) && line@ == encode_spec(e) implies false by {
                                lemma_split_unique(op@, rest@, opstr(e), enctail(e), ':');
                                match e {
                                    WalEntryView::InsertRow { table, row_id, data } => {
                                        assert(rest@ =~= table + seq![':'] + (row_id + seq![':']
                                            + json_obj_of(data)));
                                        assert(rest@[table.len() as int] == ':');
                                    },
                                    _ => {
                                        assert(opstr(e) != "insert_row"@);
                                    },
                                }
                            }
                        }
                        None
                    },
                    Some((t, rest2)) => {
                        match split_first(rest2, ':') {
                            None => {
                                proof {
                                    assert forall|e: WalEntryView|
                                        wf_entry(e) && line@ == encode_spec(e) implies false by {
                                        lemma_split_unique(op@, rest@, opstr(e), enctail(e), ':');
                                        match e {
                                            WalEntryView::InsertRow { table, row_id, data } => {
                                                assert(rest@ =~= table + seq![':'] + (row_id
                                                    + seq![':'] + json_obj_of(data)));
                                                lemma_split_unique(
                                                    t@,
                                                    rest2@,
                                                    table,
                                                    row_id + seq![':'] + json_obj_of(data),
                                                    ':',
                                                );
                                                assert(rest2@[row_id.len() as int] == ':');
                                            },
                                            _ => {
                                                assert(opstr(e) != "insert_row"@);
                                            },
                                        }
                                    }
                                }
                                None
                            },
                            Some((rid, payload)) => {
                                match json_decode_pairs(payload) {
                                    None => {
                                        proof {
                                            assert forall|e: WalEntryView|
                                                wf_entry(e) && line@ == encode_spec(e)
                                                implies false by {
                                                lemma_split_unique(
                                                    op@,
                                                    rest@,
                                                    opstr(e),
                                                    enctail(e),
                                                    ':',
                                                );
                                                match e {
                                                    WalEntryView::InsertRow {
                                                        table,
                                                        row_id,
                                                        data,
                                                    } => {
                                                        assert(rest@ =~= table + seq![':'] + (
                                                        row_id + seq![':'] + json_obj_of(data)));
                                                        lemma_split_unique(
                                                            t@,
                                                            rest2@,
                                                            table,
                                                            row_id + seq![':'] + json_obj_of(data),
                                                            ':',
                                                        );
                                                        lemma_split_unique(
                                                            rid@,
                                                            payload@,
                                                            row_id,
                                                            json_obj_of(data),
                                                            ':',
                                                        );
                                                        assert(payload@ == json_obj_of(data));
                                                        assert(false);
                                                    },
                                                    _ => {
                                                        assert(opstr(e) != "insert_row"@);
                                                    },
                                                }
                                            }
                                        }
                                        None
                                    },
                                    Some(data) => {
                                        let d = WalEntry::InsertRow {
                                            table: t.to_owned(),
                                            row_id: rid.to_owned(),
                                            data,
                                        };
                                        proof {
                                            assert forall|e: WalEntryView|
                                                wf_entry(e) && line@ == encode_spec(e) implies d@
                                                == e by {
                                                lemma_split_unique(
                                                    op@,
                                                    rest@,
                                                    opstr(e),
                                                    enctail(e),
                                                    ':',
                                                );
                                                match e {
                                                    WalEntryView::InsertRow {
                                                        table,
                                                        row_id,
                                                        data: dm,
                                                    } => {
                                                        assert(rest@ =~= table + seq![':'] + (
                                                        row_id + seq![':'] + json_obj_of(dm)));
                                                        lemma_split_unique(
                                                            t@,
                                                            rest2@,
                                                            table,
                                                            row_id + seq![':'] + json_obj_of(dm),
                                                            ':',
                                                        );
                                                        lemma_split_unique(
                                                            rid@,
                                                            payload@,
                                                            row_id,
                                                            json_obj_of(dm),
                                                            ':',
                                                        );
                                                        assert(payload@ == json_obj_of(dm));
                                                    },
                                                    _ => {
                                                        assert(opstr(e) != "insert_row"@);
                                                    },
                                                }
                                            }
                                        }
                                        Some(d)
                                    },
                                }
                            },
                        }
                    },
                }
            } else if str_eq(op, "update_row") {
                decode_update(line, op, rest)
            } else if str_eq(op, "delete_row") {
                match split_first(rest, ':') {
                    None => {
                        proof {
                            assert forall|e: WalEntryView|
                                wf_entry(e) && line@ == encode_spec(e) implies false by {
                                lemma_split_unique(op@, rest@, opstr(e), enctail(e), ':');
                                match e {
                                    WalEntryView::DeleteRow { table, row_id } => {
                                        assert(rest@[table.len() as int] == ':');
                                    },
                                    _ => {
                                        assert(opstr(e) != "delete_row"@);
                                    },
                                }
                            }
                        }
                        None
                    },
                    Some((t, rid)) => {
                        let d = WalEntry::DeleteRow { table: t.to_owned(), row_id: rid.to_owned() };
                        proof {
                            assert forall|e: WalEntryView|
                                wf_entry(e) && line@ == encode_spec(e) implies d@ == e by {
                                lemma_split_unique(op@, rest@, opstr(e), enctail(e), ':');
                                match e {
                                    WalEntryView::DeleteRow { table, row_id } => {
                                        lemma_split_unique(t@, rid@, table, row_id, ':');
                                    },
                                    _ => {
                                        assert(opstr(e) != "delete_row"@);
                                    },
                                }
                            }
                        }
                        Some(d)
                    },
                }
            } else {
                proof {
                    assert forall|e: WalEntryView| wf_entry(e) && line@ == encode_spec(e)
                        implies false by {
                        lemma_split_unique(op@, rest@, opstr(e), enctail(e), ':');
                    }
                }
                None
            }
        },
    }
}

/// The `update_row` arm of decoding: three fields and a JSON value payload.
fn decode_update(line: &str, op: &str, rest: &str) -> (r: Option<WalEntry>)
    requires
        op@ == "update_row"@,
        sep_free(op@, ':'),
        line@ == op@ + seq![':'] + rest@,
    ensures
        forall|e: WalEntryView|
            wf_entry(e) && line@ == encode_spec(e) ==> (r matches Some(d) && d@ == e),
{
    proof {
        lemma_opcodes();
    }
    let cut_table = split_first(rest, ':');
    let (t, rest2) = match cut_table {
        None => {
            proof {
                assert forall|e: WalEntryView| wf_entry(e) && line@ == encode_spec(e) implies false
                    by {
                    lemma_split_unique(op@, rest@, opstr(e), enctail(e), ':');
                    match e {
                        WalEntryView::UpdateRow { table, row_id, column, value } => {
                            assert(rest@ =~= table + seq![':'] + (row_id + seq![':'] + column
                                + seq![':'] + json_str_of(value)));
                            assert(rest@[table.len() as int] == ':');
                        },
                        _ => {
                            assert(opstr(e) != "update_row"@);
                        },
                    }
                }
            }
            return None;
        },
        Some(p) => p,
    };
    let cut_row = split_first(rest2, ':');
    let (rid, rest3) = match cut_row {
        None => {
            proof {
                assert forall|e: WalEntryView| wf_entry(e) && line@ == encode_spec(e) implies false
                    by {
                    lemma_split_unique(op@, rest@, opstr(e), enctail(e), ':');
                    match e {
                        WalEntryView::UpdateRow { table, row_id, column, value } => {
                            assert(rest@ =~= table + seq![':'] + (row_id + seq![':'] + (column
                                + seq![':'] + json_str_of(value))));
                            lemma_split_unique(
                                t@,
                                rest2@,
                                table,
                                row_id + seq![':'] + (column + seq![':'] + json_str_of(value)),
                                ':',
                            );
                            assert(rest2@[row_id.len() as int] == ':');
                        },
                        _ => {
                            assert(opstr(e) != "update_row"@);
                        },
                    }
                }
            }
            return None;
        },
        Some(p) => p,
    };
    let cut_col = split_first(rest3, ':');
    let (col, payload) = match cut_col {
        None => {
            proof {
                assert forall|e: WalEntryView| wf_entry(e) && line@ == encode_spec(e) implies false
                    by {
                    lemma_split_unique(op@, rest@, opstr(e), enctail(e), ':');
                    match e {
                        WalEntryView::UpdateRow { table, row_id, column, value } => {
                            assert(rest@ =~= table + seq![':'] + (row_id + seq![':'] + (column
                                + seq![':'] + json_str_of(value))));
                            lemma_split_unique(
                                t@,
                                rest2@,
                                table,
                                row_id + seq![':'] + (column + seq![':'] + json_str_of(value)),
                                ':',
                            );
                            lemma_split_unique(
                                rid@,
                                rest3@,
                                row_id,
                                column + seq![':'] + json_str_of(value),
                                ':',
                            );
                            assert(rest3@[column.len() as int] == ':');
                        },
                        _ => {
                            assert(opstr(e) != "update_row"@);
                        },
                    }
                }
            }
            return None;
        },
        Some(p) => p,
    };
    match json_decode_value(payload) {
        None => {
            proof {
                assert forall|e: WalEntryView| wf_entry(e) && line@ == encode_spec(e) implies false
                    by {
                    lemma_split_unique(op@, rest@, opstr(e), enctail(e), ':');
                    match e {
                        WalEntryView::UpdateRow { table, row_id, column, value } => {
                            assert(rest@ =~= table + seq![':'] + (row_id + seq![':'] + (column
                                + seq![':'] + json_str_of(value))));
                            lemma_split_unique(
                                t@,
                                rest2@,
                                table,
                                row_id + seq![':'] + (column + seq![':'] + json_str_of(value)),
                                ':',
                            );
                            lemma_split_unique(
                                rid@,
                                rest3@,
                                row_id,
                                column + seq![':'] + json_str_of(value),
                                ':',
                            );
                            lemma_split_unique(col@, payload@, column, json_str_of(value), ':');
                            assert(payload@ == json_str_of(value));
                            assert(false);
                        },
                        _ => {
                            assert(opstr(e) != "update_row"@);
                        },
                    }
                }
            }
            None
        },
        Some(value) => {
            let d = WalEntry::UpdateRow {
                table: t.to_owned(),
                row_id: rid.to_owned(),
                column: col.to_owned(),
                value,
            };
            proof {
                assert forall|e: WalEntryView| wf_entry(e) && line@ == encode_spec(e) implies d@
                    == e by {
                    lemma_split_unique(op@, rest@, opstr(e), enctail(e), ':');
                    match e {
                        WalEntryView::UpdateRow { table, row_id, column, value: v } => {
                            assert(rest@ =~= table + seq![':'] + (row_id + seq![':'] + (column
                                + seq![':'] + json_str_of(v))));
                            lemma_split_unique(
                                t@,
                                rest2@,
                                table,
                                row_id + seq![':'] + (column + seq![':'] + json_str_of(v)),
                                ':',
                            );
                            lemma_split_unique(
                                rid@,
                                rest3@,
                                row_id,
                                column + seq![':'] + json_str_of(v),
                                ':',
                            );
                            lemma_split_unique(col@, payload@, column, json_str_of(v), ':');
                            assert(payload@ == json_str_of(v));
                        },
                        _ => {
                            assert(opstr(e) != "update_row"@);
                        },
                    }
                }
            }
            Some(d)
        },
    }
}

} // verus!
