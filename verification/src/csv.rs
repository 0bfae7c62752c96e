//! Table export and import as comma-separated lines: a header naming the
//! row-identifier field and the sorted columns, then one line per row, with
//! an empty field for a column the row has no value for.

use vstd::map::*;
use vstd::prelude::*;

use crate::assoc::{keys_sorted, map_of};
use crate::memtable::{entries_wf, entry_views};
use crate::row::Row;
use crate::schema::{sorted_insert, Schema};
use crate::strutil::{join_all, join_spec, sep_free, split_all, split_spec};
use crate::table::Table;

verus! {

/// The header line: the identifier field name, then every column in order.
pub open spec fn csv_header_spec(schema: Seq<Seq<char>>) -> Seq<char> {
    join_spec(seq!["row_id"@] + schema, ',')
}

/// One field of a row line: the stored value, or empty when the row has
/// none for that column.
pub open spec fn csv_value_spec(row: Map<Seq<char>, Seq<char>>, c: Seq<char>) -> Seq<char> {
    if row.contains_key(c) {
        row[c]
    } else {
        Seq::empty()
    }
}

/// The fields of one row, in schema order.
pub open spec fn csv_values_spec(schema: Seq<Seq<char>>, row: Map<Seq<char>, Seq<char>>) -> Seq<
    Seq<char>,
> {
    Seq::new(schema.len(), |j: int| csv_value_spec(row, schema[j]))
}

/// One row's line: its identifier, then its fields.
pub open spec fn csv_row_spec(
    schema: Seq<Seq<char>>,
    id: Seq<char>,
    row: Map<Seq<char>, Seq<char>>,
) -> Seq<char> {
    join_spec(seq![id] + csv_values_spec(schema, row), ',')
}

/// A whole export: the header, then one line per row in the given order.
pub open spec fn csv_lines_spec(
    schema: Seq<Seq<char>>,
    rows: Seq<(Seq<char>, Map<Seq<char>, Seq<char>>)>,
) -> Seq<Seq<char>> {
    seq![csv_header_spec(schema)] + Seq::new(
        rows.len(),
        |k: int| csv_row_spec(schema, rows[k].0, rows[k].1),
    )
}

/// Renders a schema and a list of rows as comma-separated lines.
#[verifier::loop_isolation(false)]
pub fn csv_lines(schema: &Schema, rows: &Vec<(String, Row)>) -> (r: Vec<String>)
    requires
        schema.wf(),
        entries_wf(rows@),
    ensures
        crate::wal::line_views(r@) == csv_lines_spec(schema@, entry_views(rows@)),
{
    proof {
        reveal_strlit(",");
        assert(","@ =~= seq![',']);
    }
    let mut out: Vec<String> = Vec::new();
    let mut pieces: Vec<String> = Vec::new();
    pieces.push(String::from_str("row_id"));
    let mut j: usize = 0;
    proof {
        assert(pieces@.map_values(|p: String| p@) =~= seq!["row_id"@] + schema@.take(0));
    }
    while j < schema.cols.len()
        invariant
            schema.wf(),
            j <= schema.cols@.len(),
            pieces@.map_values(|p: String| p@) == seq!["row_id"@] + schema@.take(j as int),
        decreases schema.cols@.len() - j,
    {
        let c = schema.cols[j].clone();
        proof {
            assert(c@ == schema@[j as int]);
        }
        let ghost prevp = pieces@.map_values(|p: String| p@);
        pieces.push(c);
        proof {
            assert(pieces@.map_values(|p: String| p@) =~= prevp.push(c@));
            assert(schema@.take(j + 1) =~= schema@.take(j as int).push(schema@[j as int]));
            assert(seq!["row_id"@] + schema@.take(j + 1) =~= (seq!["row_id"@] + schema@.take(
                j as int,
            )).push(schema@[j as int]));
            assert(pieces@.map_values(|p: String| p@) =~= seq!["row_id"@] + schema@.take(j + 1));
        }
        j += 1;
    }
    proof {
        assert(schema@.take(schema@.len() as int) =~= schema@);
    }
    let header = join_all(&pieces, ',', ",");
    out.push(header);
    let ghost rvs = entry_views(rows@);
    proof {
        assert(crate::wal::line_views(out@) =~= csv_lines_spec(schema@, rvs.take(0)));
        assert(csv_lines_spec(schema@, rvs.take(0)) =~= csv_lines_spec(schema@, rvs).take(1));
    }
    let mut k: usize = 0;
    while k < rows.len()
        invariant
            schema.wf(),
            entries_wf(rows@),
            rvs == entry_views(rows@),
            k <= rows@.len(),
            crate::wal::line_views(out@) == csv_lines_spec(schema@, rvs).take(1 + k as int),
        decreases rows@.len() - k,
    {
        let mut rp: Vec<String> = Vec::new();
        rp.push(rows[k].0.clone());
        let ghost rowmap = rvs[k as int].1;
        proof {
            assert(rp@.map_values(|p: String| p@) =~= seq![rvs[k as int].0] + csv_values_spec(
                schema@,
                rowmap,
            ).take(0));
        }
        let mut j2: usize = 0;
        while j2 < schema.cols.len()
            invariant
                schema.wf(),
                entries_wf(rows@),
                rvs == entry_views(rows@),
                k < rows@.len(),
                rowmap == rvs[k as int].1,
                j2 <= schema.cols@.len(),
                rp@.map_values(|p: String| p@) == seq![rvs[k as int].0] + csv_values_spec(
                    schema@,
                    rowmap,
                ).take(j2 as int),
            decreases schema.cols@.len() - j2,
        {
            let v = match rows[k].1.get(schema.cols[j2].as_str()) {
                Some(v) => v.clone(),
                None => String::new(),
            };
            proof {
                assert(v@ == csv_value_spec(rowmap, schema@[j2 as int]));
                assert(csv_values_spec(schema@, rowmap)[j2 as int] == v@);
            }
            let ghost prevr = rp@.map_values(|p: String| p@);
            rp.push(v);
            proof {
                let vals = csv_values_spec(schema@, rowmap);
                assert(rp@.map_values(|p: String| p@) =~= prevr.push(v@));
                assert(vals.take(j2 + 1) =~= vals.take(j2 as int).push(vals[j2 as int]));
                assert(seq![rvs[k as int].0] + vals.take(j2 + 1) =~= (seq![rvs[k as int].0]
                    + vals.take(j2 as int)).push(vals[j2 as int]));
                assert(rp@.map_values(|p: String| p@) =~= seq![rvs[k as int].0] + vals.take(
                    j2 + 1,
                ));
            }
            j2 += 1;
        }
        proof {
            assert(csv_values_spec(schema@, rowmap).take(schema@.len() as int) =~= csv_values_spec(
                schema@,
                rowmap,
            ));
        }
        let line = join_all(&rp, ',', ",");
        proof {
            assert(rp@.map_values(|p: String| p@) =~= seq![rvs[k as int].0] + csv_values_spec(
                schema@,
                rowmap,
            ));
            assert(line@ == csv_row_spec(schema@, rvs[k as int].0, rvs[k as int].1));
        }
        let ghost prev_lines = crate::wal::line_views(out@);
        out.push(line);
        proof {
            assert(crate::wal::line_views(out@) =~= prev_lines.push(line@));
            assert(csv_lines_spec(schema@, rvs).take(1 + (k + 1)) =~= csv_lines_spec(
                schema@,
                rvs,
            ).take(1 + k as int).push(csv_lines_spec(schema@, rvs)[1 + k as int]));
            assert(csv_lines_spec(schema@, rvs)[1 + k as int] == csv_row_spec(
                schema@,
                rvs[k as int].0,
                rvs[k as int].1,
            ));
            assert(crate::wal::line_views(out@) =~= csv_lines_spec(schema@, rvs).take(
                1 + (k + 1),
            ));
        }
        k += 1;
    }
    proof {
        assert(csv_lines_spec(schema@, rvs).take(csv_lines_spec(schema@, rvs).len() as int)
            =~= csv_lines_spec(schema@, rvs));
    }
    out
}

/// The columns a header line declares: everything after the first field.
pub open spec fn parse_cols(header: Seq<char>) -> Seq<Seq<char>> {
    split_spec(header, ',').skip(1)
}

/// A schema built by declaring the columns one after the other.
pub open spec fn schema_fold(cols: Seq<Seq<char>>) -> Seq<Seq<char>>
    decreases cols.len(),
{
    if cols.len() == 0 {
        Seq::empty()
    } else {
        sorted_insert(schema_fold(cols.drop_last()), cols.last())
    }
}

/// Columns paired with the fields of one line, shorter side deciding.
pub open spec fn zip_pairs(cols: Seq<Seq<char>>, vals: Seq<Seq<char>>) -> Seq<
    (Seq<char>, Seq<char>),
> {
    Seq::new(
        if cols.len() <= vals.len() {
            cols.len()
        } else {
            vals.len()
        },
        |j: int| (cols[j], vals[j]),
    )
}

/// The row one line denotes, against the given columns.
pub open spec fn parse_row(line: Seq<char>, cols: Seq<Seq<char>>) -> (
    Seq<char>,
    Map<Seq<char>, Seq<char>>,
) {
    let ps = split_spec(line, ',');
    (ps[0], map_of(zip_pairs(cols, ps.skip(1))))
}

/// The buffered rows an import builds: each line upserts its row, filtered
/// by the schema the header declared.
pub open spec fn load_rows(
    lines: Seq<Seq<char>>,
    cols: Seq<Seq<char>>,
    schema: Seq<Seq<char>>,
) -> Map<Seq<char>, Map<Seq<char>, Seq<char>>>
    decreases lines.len(),
{
    if lines.len() == 0 {
        Map::empty()
    } else {
        let m = load_rows(lines.drop_last(), cols, schema);
        let p = parse_row(lines.last(), cols);
        let fm = p.1.restrict(schema.to_set());
        m.insert(
            p.0,
            if m.contains_key(p.0) {
                m[p.0].union_prefer_right(fm)
            } else {
                fm
            },
        )
    }
}

/// Rebuilds a table from exported lines: the header declares the columns,
/// every further line upserts one row into the buffer. An empty input is
/// refused, as there is no table to speak of.
#[verifier::loop_isolation(false)]
pub fn load_table_from_lines(lines: &Vec<String>) -> (r: Option<Table>)
    ensures
        lines@.len() == 0 <==> r is None,
        lines@.len() > 0 ==> (r matches Some(t) && {
            let lv = crate::wal::line_views(lines@);
            let cols = parse_cols(lv[0]);
            &&& t.wf()
            &&& t@.schema == schema_fold(cols)
            &&& t@.mem == load_rows(lv.skip(1), cols, schema_fold(cols))
            &&& t@.segs == Seq::<Map<Seq<char>, Map<Seq<char>, Seq<char>>>>::empty()
        }),
{
    if lines.len() == 0 {
        return None;
    }
    let ghost lv = crate::wal::line_views(lines@);
    let header_parts = split_all(lines[0].as_str(), ',');
    let ghost cols = parse_cols(lv[0]);
    proof {
        assert(header_parts@.map_values(|p: String| p@).skip(1) =~= cols);
    }
    let mut t = Table::new();
    let mut j: usize = 1;
    proof {
        assert(cols.take(0) =~= Seq::<Seq<char>>::empty());
        assert(t@.schema =~= schema_fold(cols.take(0)));
    }
    while j < header_parts.len()
        invariant
            t.wf(),
            cols == parse_cols(lv[0]),
            cols == header_parts@.map_values(|p: String| p@).skip(1),
            cols.len() == header_parts@.len() - 1,
            1 <= j <= header_parts@.len(),
            t@.schema == schema_fold(cols.take(j - 1)),
            t@.mem == Map::<Seq<char>, Map<Seq<char>, Seq<char>>>::empty(),
            t@.segs == Seq::<Map<Seq<char>, Map<Seq<char>, Seq<char>>>>::empty(),
        decreases header_parts@.len() - j,
    {
        t.add_column(header_parts[j].as_str());
        proof {
            assert(cols[j - 1] == header_parts@[j as int]@);
            assert(cols.take(j as int).drop_last() =~= cols.take(j - 1));
            assert(cols.take(j as int).last() == cols[j - 1]);
        }
        j += 1;
    }
    proof {
        assert(cols.take(cols.len() as int) =~= cols);
    }
    let ghost schema = schema_fold(cols);
    let mut k: usize = 1;
    proof {
        assert(lv.skip(1).take(0) =~= Seq::<Seq<char>>::empty());
        assert(t@.mem =~= load_rows(lv.skip(1).take(0), cols, schema));
    }
    while k < lines.len()
        invariant
            t.wf(),
            lv == crate::wal::line_views(lines@),
            cols == parse_cols(lv[0]),
            cols.len() == header_parts@.len() - 1,
            cols == header_parts@.map_values(|p: String| p@).skip(1),
            schema == schema_fold(cols),
            1 <= k <= lines@.len(),
            t@.schema == schema,
            t@.segs == Seq::<Map<Seq<char>, Map<Seq<char>, Seq<char>>>>::empty(),
            t@.mem == load_rows(lv.skip(1).take(k - 1), cols, schema),
        decreases lines@.len() - k,
    {
        let ps = split_all(lines[k].as_str(), ',');
        let ghost psv = ps@.map_values(|p: String| p@);
        let mut pairs: Vec<(String, String)> = Vec::new();
        let n: usize = if header_parts.len() - 1 < ps.len() - 1 {
            header_parts.len() - 1
        } else {
            ps.len() - 1
        };
        let mut j2: usize = 0;
        proof {
            assert(crate::row::pair_views(pairs@) =~= zip_pairs(cols, psv.skip(1)).take(0));
            assert(n == zip_pairs(cols, psv.skip(1)).len());
        }
        while j2 < n
            invariant
                cols.len() == header_parts@.len() - 1,
                cols == header_parts@.map_values(|p: String| p@).skip(1),
                psv == ps@.map_values(|p: String| p@),
                psv.len() == ps@.len(),
                n == zip_pairs(cols, psv.skip(1)).len(),
                n <= cols.len(),
                n <= psv.len() - 1,
                j2 <= n,
                crate::row::pair_views(pairs@) == zip_pairs(cols, psv.skip(1)).take(j2 as int),
            decreases n - j2,
        {
            let ck = header_parts[j2 + 1].clone();
            let vk = ps[j2 + 1].clone();
            proof {
                assert(ck@ == cols[j2 as int]);
                assert(vk@ == psv.skip(1)[j2 as int]);
            }
            let ghost prev_pairs = crate::row::pair_views(pairs@);
            pairs.push((ck, vk));
            proof {
                let zp = zip_pairs(cols, psv.skip(1));
                assert(crate::row::pair_views(pairs@) =~= prev_pairs.push((ck@, vk@)));
                assert(zp.take(j2 + 1) =~= zp.take(j2 as int).push(zp[j2 as int]));
                assert(zp[j2 as int] == (cols[j2 as int], psv.skip(1)[j2 as int]));
                assert(crate::row::pair_views(pairs@) =~= zp.take(j2 + 1));
            }
            j2 += 1;
        }
        proof {
            let zp = zip_pairs(cols, psv.skip(1));
            assert(zp.take(zp.len() as int) =~= zp);
            assert(crate::row::pair_views(pairs@) =~= zp);
        }
        let _ = t.insert_row(ps[0].as_str(), &pairs);
        proof {
            let processed = lv.skip(1).take(k as int);
            assert(processed.drop_last() =~= lv.skip(1).take(k - 1));
            assert(processed.last() == lv[k as int]);
            assert(psv =~= split_spec(lv[k as int], ','));
            assert(parse_row(lv[k as int], cols).0 == psv[0]);
            assert(parse_row(lv[k as int], cols).1 == map_of(zip_pairs(cols, psv.skip(1))));
            assert(t@.mem =~= load_rows(processed, cols, schema));
        }
        k += 1;
    }
    proof {
        assert(lv.skip(1).take(lines@.len() - 1) =~= lv.skip(1));
    }
    Some(t)
}

/// A row padded out to a whole schema: every declared column has a field,
/// an empty one where the row held no value.
pub open spec fn padded_row(schema: Seq<Seq<char>>, row: Map<Seq<char>, Seq<char>>) -> Map<
    Seq<char>,
    Seq<char>,
> {
    Map::new(|c: Seq<char>| schema.contains(c), |c: Seq<char>| csv_value_spec(row, c))
}

/// Every row padded, as the map an import rebuilds.
pub open spec fn padded_rows(
    schema: Seq<Seq<char>>,
    rows: Seq<(Seq<char>, Map<Seq<char>, Seq<char>>)>,
) -> Map<Seq<char>, Map<Seq<char>, Seq<char>>> {
    map_of(
        rows.map_values(
            |p: (Seq<char>, Map<Seq<char>, Seq<char>>)| (p.0, padded_row(schema, p.1)),
        ),
    )
}

/// Names and values an export can carry losslessly: free of the field
/// separator.
pub open spec fn export_wf(
    schema: Seq<Seq<char>>,
    rows: Seq<(Seq<char>, Map<Seq<char>, Seq<char>>)>,
) -> bool {
    &&& forall|j: int| 0 <= j < schema.len() ==> sep_free(#[trigger] schema[j], ',')
    &&& forall|k: int| 0 <= k < rows.len() ==> sep_free((#[trigger] rows[k]).0, ',')
    &&& forall|k: int, c: Seq<char>|
        0 <= k < rows.len() && #[trigger] rows[k].1.contains_key(c) ==> schema.contains(c)
    &&& forall|k: int, c: Seq<char>|
        0 <= k < rows.len() && #[trigger] rows[k].1.contains_key(c) ==> sep_free(
            rows[k].1[c],
            ',',
        )
}

/// Declaring an already sorted list of columns one by one rebuilds it.
proof fn lemma_schema_fold_sorted(schema: Seq<Seq<char>>)
    requires
        crate::schema::cols_sorted(schema),
    ensures
        schema_fold(schema) == schema,
    decreases schema.len(),
{
    if schema.len() > 0 {
        assert(crate::schema::cols_sorted(schema.drop_last())) by {
            assert(forall|i: int|
                0 <= i < schema.drop_last().len() ==> #[trigger] schema.drop_last()[i]
                    == schema[i]);
        }
        lemma_schema_fold_sorted(schema.drop_last());
        assert forall|j: int| 0 <= j < schema.drop_last().len() implies crate::strutil::char_seq_lt(
            #[trigger] schema.drop_last()[j],
            schema.last(),
        ) by {
            assert(schema.drop_last()[j] == schema[j]);
        }
        crate::schema::lemma_sorted_insert_append(schema.drop_last(), schema.last());
        assert(schema.drop_last().push(schema.last()) =~= schema);
    }
}

/// One exported row line parses back to its identifier and its padded row.
proof fn lemma_parse_exported_row(
    schema: Seq<Seq<char>>,
    id: Seq<char>,
    row: Map<Seq<char>, Seq<char>>,
)
    requires
        crate::schema::cols_sorted(schema),
        sep_free(id, ','),
        forall|j: int| 0 <= j < schema.len() ==> sep_free(#[trigger] schema[j], ','),
        forall|c: Seq<char>| row.contains_key(c) ==> schema.contains(c),
        forall|c: Seq<char>| row.contains_key(c) ==> sep_free(#[trigger] row[c], ','),
    ensures
        parse_row(csv_row_spec(schema, id, row), schema).0 == id,
        parse_row(csv_row_spec(schema, id, row), schema).1 == padded_row(schema, row),
        padded_row(schema, row).dom() <= schema.to_set(),
{
    let vals = csv_values_spec(schema, row);
    let ps0 = seq![id] + vals;
    assert forall|i: int| 0 <= i < ps0.len() implies sep_free(#[trigger] ps0[i], ',') by {
        if i >= 1 {
            assert(ps0[i] == vals[i - 1]);
            if row.contains_key(schema[i - 1]) {
                assert(vals[i - 1] == row[schema[i - 1]]);
            } else {
                assert(vals[i - 1] =~= Seq::<char>::empty());
            }
        }
    }
    crate::strutil::lemma_split_join(ps0, ',');
    let line = csv_row_spec(schema, id, row);
    assert(split_spec(line, ',') == ps0);
    assert(ps0[0] == id);
    assert(split_spec(line, ',').skip(1) =~= vals);
    let zp = zip_pairs(schema, vals);
    assert(zp.len() == schema.len());
    assert(crate::assoc::keys_distinct(zp)) by {
        assert forall|a: int, b: int| 0 <= a < b < zp.len() implies zp[a].0 != zp[b].0 by {
            crate::strutil::lemma_lt_trichotomy(schema[a], schema[b]);
        }
    }
    assert_maps_equal!(map_of(zp), padded_row(schema, row), c => {
        crate::assoc::lemma_map_of_contains(zp, c);
        if schema.contains(c) {
            let j = choose|j: int| 0 <= j < schema.len() && schema[j] == c;
            assert(zp[j].0 == c);
            crate::assoc::lemma_map_of_get(zp, j);
        }
        if map_of(zp).contains_key(c) {
            let j = choose|j: int| 0 <= j < zp.len() && zp[j].0 == c;
            assert(schema[j] == c);
        }
    });
}

/// Export then import rebuilds the same table: the same columns, the same
/// rows, every row padded out with empty fields for its missing columns.
pub proof fn lemma_export_import_round_trip(
    schema: Seq<Seq<char>>,
    rows: Seq<(Seq<char>, Map<Seq<char>, Seq<char>>)>,
)
    requires
        crate::schema::cols_sorted(schema),
        keys_sorted(rows),
        export_wf(schema, rows),
    ensures
        parse_cols(csv_lines_spec(schema, rows)[0]) == schema,
        schema_fold(schema) == schema,
        load_rows(csv_lines_spec(schema, rows).skip(1), schema, schema) == padded_rows(
            schema,
            rows,
        ),
{
    let lines = csv_lines_spec(schema, rows);
    let hdr_pieces = seq!["row_id"@] + schema;
    assert forall|i: int| 0 <= i < hdr_pieces.len() implies sep_free(
        #[trigger] hdr_pieces[i],
        ',',
    ) by {
        if i == 0 {
            reveal_strlit("row_id");
        } else {
            assert(hdr_pieces[i] == schema[i - 1]);
        }
    }
    crate::strutil::lemma_split_join(hdr_pieces, ',');
    assert(lines[0] == csv_header_spec(schema));
    assert(split_spec(lines[0], ',') == hdr_pieces);
    assert(parse_cols(lines[0]) =~= schema);
    lemma_schema_fold_sorted(schema);
    let rowlines = lines.skip(1);
    assert(rowlines =~= Seq::new(rows.len(), |k: int| csv_row_spec(schema, rows[k].0, rows[k].1)));
    lemma_load_exported_rows(schema, rows);
}

/// Importing the exported row lines rebuilds the padded rows.
proof fn lemma_load_exported_rows(
    schema: Seq<Seq<char>>,
    rows: Seq<(Seq<char>, Map<Seq<char>, Seq<char>>)>,
)
    requires
        crate::schema::cols_sorted(schema),
        keys_sorted(rows),
        export_wf(schema, rows),
    ensures
        load_rows(
            Seq::new(rows.len(), |k: int| csv_row_spec(schema, rows[k].0, rows[k].1)),
            schema,
            schema,
        ) == padded_rows(schema, rows),
    decreases rows.len(),
{
    let f = |p: (Seq<char>, Map<Seq<char>, Seq<char>>)| (p.0, padded_row(schema, p.1));
    let lines = Seq::new(rows.len(), |k: int| csv_row_spec(schema, rows[k].0, rows[k].1));
    if rows.len() == 0 {
        assert(load_rows(lines, schema, schema) =~= padded_rows(schema, rows)) by {
            assert(rows.map_values(f) =~= Seq::<(Seq<char>, Map<Seq<char>, Seq<char>>)>::empty());
        }
    } else {
        let prev = rows.drop_last();
        assert(keys_sorted(prev) && export_wf(schema, prev)) by {
            assert(forall|i: int| 0 <= i < prev.len() ==> #[trigger] prev[i] == rows[i]);
        }
        lemma_load_exported_rows(schema, prev);
        let prevlines = Seq::new(prev.len(), |k: int| csv_row_spec(schema, prev[k].0, prev[k].1));
        assert(lines.drop_last() =~= prevlines) by {
            assert(forall|k: int|
                0 <= k < prev.len() ==> #[trigger] prev[k] == rows[k]);
        }
        let last = rows.last();
        assert(lines.last() == csv_row_spec(schema, last.0, last.1)) by {
            assert(rows[rows.len() - 1] == last);
        }
        assert forall|c: Seq<char>| last.1.contains_key(c) implies schema.contains(c) && sep_free(
            #[trigger] last.1[c],
            ',',
        ) by {
            assert(rows[rows.len() - 1].1.contains_key(c));
        }
        assert(sep_free(last.0, ',')) by {
            assert(rows[rows.len() - 1] == last);
        }
        lemma_parse_exported_row(schema, last.0, last.1);
        let m = load_rows(prevlines, schema, schema);
        assert(m == padded_rows(schema, prev));
        let p = parse_row(lines.last(), schema);
        assert(p.0 == last.0);
        assert(p.1 == padded_row(schema, last.1));
        assert(p.1.restrict(schema.to_set()) =~= p.1);
        assert(!m.contains_key(last.0)) by {
            crate::assoc::lemma_map_of_contains(prev.map_values(f), last.0);
            if exists|i: int|
                0 <= i < prev.map_values(f).len() && prev.map_values(f)[i].0 == last.0 {
                let i = choose|i: int|
                    0 <= i < prev.map_values(f).len() && prev.map_values(f)[i].0 == last.0;
                assert(rows[i].0 == last.0);
                crate::strutil::lemma_lt_trichotomy(rows[i].0, rows[rows.len() - 1].0);
            }
        }
        assert(load_rows(lines, schema, schema) == m.insert(last.0, p.1));
        assert(rows.map_values(f).drop_last() =~= prev.map_values(f));
        assert(rows.map_values(f).last() == (last.0, padded_row(schema, last.1)));
        assert(padded_rows(schema, rows) == padded_rows(schema, prev).insert(
            last.0,
            padded_row(schema, last.1),
        ));
    }
}

} // verus!
