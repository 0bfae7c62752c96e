//! Laws of the replay model: what holds of `apply_entries` over any log the
//! live API could have written. The central one: replaying such a log a
//! second time changes nothing — recovery may run again after every restart
//! without corrupting the state it rebuilt.

use vstd::map::*;
use vstd::prelude::*;

use crate::db::{apply_entries, apply_entry, entry_enabled, wal_ok, Catalog};
use crate::schema::{cols_sorted, lemma_sorted_insert, sorted_insert};
use crate::table::TableState;
use crate::wal::WalEntryView;

verus! {

/// The catalog a store starts from: nothing.
pub open spec fn empty_catalog() -> Catalog {
    Map::empty()
}

/// The contents of one row's buffered state, `None` when the table or the
/// row is missing.
pub open spec fn rowstate(c: Catalog, t: Seq<char>, r: Seq<char>) -> Option<
    Map<Seq<char>, Seq<char>>,
> {
    if c.contains_key(t) && c[t].mem.contains_key(r) {
        Some(c[t].mem[r])
    } else {
        None
    }
}

/// Merging an optional newer row over an optional older one: the newer
/// columns win, absent sides drop out.
pub open spec fn merge_opt(
    a: Option<Map<Seq<char>, Seq<char>>>,
    b: Option<Map<Seq<char>, Seq<char>>>,
) -> Option<Map<Seq<char>, Seq<char>>> {
    match b {
        None => a,
        Some(bm) => match a {
            None => Some(bm),
            Some(am) => Some(am.union_prefer_right(bm)),
        },
    }
}

/// Whether the prefix holds a deletion of exactly this row.
pub open spec fn deleted_in(es: Seq<WalEntryView>, t: Seq<char>, r: Seq<char>) -> bool {
    exists|j: int|
        0 <= j < es.len() && es[j] == (WalEntryView::DeleteRow { table: t, row_id: r })
}

/// Every table of the catalog has its columns in sorted order.
pub open spec fn schemas_sorted(c: Catalog) -> bool {
    forall|t: Seq<char>| c.contains_key(t) ==> cols_sorted(#[trigger] c[t].schema)
}

/// What `sorted_insert` holds, for any list: the old columns and the new one.
pub proof fn lemma_sorted_insert_contains(vs: Seq<Seq<char>>, c: Seq<char>)
    ensures
        forall|x: Seq<char>| #![trigger sorted_insert(vs, c).contains(x)]
            sorted_insert(vs, c).contains(x) <==> (vs.contains(x) || x == c),
    decreases vs.len(),
{
    if vs.len() == 0 {
        assert forall|x: Seq<char>|
            sorted_insert(vs, c).contains(x) <==> (vs.contains(x) || x == c) by {
            if sorted_insert(vs, c).contains(x) {
                assert(sorted_insert(vs, c)[0] == c);
            }
            if x == c {
                assert(sorted_insert(vs, c)[0] == x);
            }
        }
    } else if crate::strutil::char_seq_lt(c, vs[0]) {
        let r = seq![c] + vs;
        assert forall|x: Seq<char>| r.contains(x) <==> (vs.contains(x) || x == c) by {
            if r.contains(x) {
                let i = choose|i: int| 0 <= i < r.len() && r[i] == x;
                if i > 0 {
                    assert(vs[i - 1] == x);
                }
            }
            if vs.contains(x) {
                let i = choose|i: int| 0 <= i < vs.len() && vs[i] == x;
                assert(r[i + 1] == x);
            }
            if x == c {
                assert(r[0] == x);
            }
        }
    } else if c == vs[0] {
        assert forall|x: Seq<char>|
            sorted_insert(vs, c).contains(x) <==> (vs.contains(x) || x == c) by {
            if x == c {
                assert(vs[0] == x);
            }
        }
    } else {
        lemma_sorted_insert_contains(vs.skip(1), c);
        let tail = sorted_insert(vs.skip(1), c);
        let r = seq![vs[0]] + tail;
        assert forall|x: Seq<char>| r.contains(x) <==> (vs.contains(x) || x == c) by {
            if r.contains(x) {
                let i = choose|i: int| 0 <= i < r.len() && r[i] == x;
                if i == 0 {
                    assert(vs[0] == x);
                } else {
                    assert(tail.contains(x)) by {
                        assert(tail[i - 1] == x);
                    }
                    if vs.skip(1).contains(x) {
                        let m = choose|m: int| 0 <= m < vs.skip(1).len() && vs.skip(1)[m] == x;
                        assert(vs[m + 1] == x);
                    }
                }
            }
            if vs.contains(x) {
                let i = choose|i: int| 0 <= i < vs.len() && vs[i] == x;
                if i == 0 {
                    assert(r[0] == x);
                } else {
                    assert(vs.skip(1).contains(x)) by {
                        assert(vs.skip(1)[i - 1] == x);
                    }
                    assert(tail.contains(x));
                    let m = choose|m: int| 0 <= m < tail.len() && tail[m] == x;
                    assert(r[m + 1] == x);
                }
            }
            if x == c {
                assert(vs.skip(1).contains(x) || x == c);
                assert(tail.contains(x));
                let m = choose|m: int| 0 <= m < tail.len() && tail[m] == x;
                assert(r[m + 1] == x);
            }
        }
    }
}

/// Applying a log in two halves is applying it whole.
pub proof fn lemma_apply_split(c: Catalog, es: Seq<WalEntryView>, i: int)
    requires
        0 <= i <= es.len(),
    ensures
        apply_entries(c, es) == apply_entries(apply_entries(c, es.take(i)), es.skip(i)),
    decreases es.len() - i,
{
    if i == es.len() {
        assert(es.take(i) =~= es);
        assert(es.skip(i) =~= Seq::<WalEntryView>::empty());
    } else {
        lemma_apply_split(c, es, i + 1);
        assert(es.take(i + 1).drop_last() =~= es.take(i));
        assert(es.take(i + 1).last() == es[i]);
        assert(apply_entries(c, es.take(i + 1)) == apply_entry(
            apply_entries(c, es.take(i)),
            es[i],
        ));
        let mid = apply_entries(c, es.take(i));
        lemma_apply_step_front(mid, es[i], es.skip(i));
        assert(es.skip(i).skip(1) =~= es.skip(i + 1));
        assert(es.skip(i)[0] == es[i]);
    }
}

/// Applying a nonempty log is applying its head, then its tail.
pub proof fn lemma_apply_step_front(c: Catalog, e: WalEntryView, rest: Seq<WalEntryView>)
    requires
        rest.len() > 0,
        rest[0] == e,
    ensures
        apply_entries(c, rest) == apply_entries(apply_entry(c, e), rest.skip(1)),
    decreases rest.len(),
{
    if rest.len() == 1 {
        assert(rest.drop_last() =~= Seq::<WalEntryView>::empty());
        assert(rest.skip(1) =~= Seq::<WalEntryView>::empty());
        assert(rest.last() == e);
        assert(apply_entries(c, rest) == apply_entry(apply_entries(c, rest.drop_last()), e));
        assert(apply_entries(c, rest.drop_last()) == c);
        assert(apply_entries(apply_entry(c, e), rest.skip(1)) == apply_entry(c, e));
    } else {
        assert(rest.drop_last()[0] == rest[0]);
        lemma_apply_step_front(c, e, rest.drop_last());
        assert(rest.skip(1).drop_last() =~= rest.drop_last().skip(1));
        assert(rest.skip(1).last() == rest.last());
        assert(rest.skip(1).len() > 0);
        assert(apply_entries(c, rest) == apply_entry(
            apply_entries(c, rest.drop_last()),
            rest.last(),
        ));
        assert(apply_entries(apply_entry(c, e), rest.skip(1)) == apply_entry(
            apply_entries(apply_entry(c, e), rest.skip(1).drop_last()),
            rest.skip(1).last(),
        ));
    }
}

/// A valid log stays valid when an entry enabled in its final state is
/// appended — which is exactly what every successful live mutation does.
pub proof fn lemma_wal_ok_push(c: Catalog, es: Seq<WalEntryView>, e: WalEntryView)
    requires
        wal_ok(c, es),
        entry_enabled(apply_entries(c, es), e),
    ensures
        wal_ok(c, es.push(e)),
{
    assert(es.push(e).drop_last() =~= es);
    assert(es.push(e).last() == e);
}

/// A prefix of a valid log is a valid log.
pub proof fn lemma_wal_ok_prefix(c: Catalog, es: Seq<WalEntryView>, i: int)
    requires
        wal_ok(c, es),
        0 <= i <= es.len(),
    ensures
        wal_ok(c, es.take(i)),
    decreases es.len(),
{
    if i == es.len() {
        assert(es.take(i) =~= es);
    } else if es.len() > 0 {
        assert(wal_ok(c, es.drop_last()));
        lemma_wal_ok_prefix(c, es.drop_last(), i);
        assert(es.drop_last().take(i) =~= es.take(i));
    }
}

/// In a valid log, every entry was enabled in the state its prefix built.
pub proof fn lemma_wal_ok_enabled(c: Catalog, es: Seq<WalEntryView>, i: int)
    requires
        wal_ok(c, es),
        0 <= i < es.len(),
    ensures
        entry_enabled(apply_entries(c, es.take(i)), es[i]),
    decreases es.len(),
{
    if i == es.len() - 1 {
        assert(es.drop_last() =~= es.take(i));
        assert(es.last() == es[i]);
    } else {
        assert(wal_ok(c, es.drop_last()));
        lemma_wal_ok_enabled(c, es.drop_last(), i);
        assert(es.drop_last().take(i) =~= es.take(i));
        assert(es.drop_last()[i] == es[i]);
    }
}

/// One application only grows the set of tables and each schema, and never
/// touches segments.
pub proof fn lemma_apply_entry_monotone(c: Catalog, e: WalEntryView)
    ensures
        forall|t: Seq<char>| c.contains_key(t) ==> apply_entry(c, e).contains_key(t),
        forall|t: Seq<char>, x: Seq<char>|
            c.contains_key(t) && #[trigger] c[t].schema.contains(x) ==> apply_entry(
                c,
                e,
            )[t].schema.contains(x),
        forall|t: Seq<char>|
            c.contains_key(t) ==> apply_entry(c, e)[t].segs == #[trigger] c[t].segs,
{
    match e {
        WalEntryView::AddColumn { table, column } => {
            if c.contains_key(table) {
                lemma_sorted_insert_contains(c[table].schema, column);
            }
        },
        WalEntryView::UpdateRow { table, row_id, column, value } => {
            if c.contains_key(table) && c[table].mem.contains_key(row_id) {
                lemma_sorted_insert_contains(c[table].schema, column);
            }
        },
        _ => {},
    }
}

/// A whole log only grows the set of tables and each schema, and never
/// touches segments.
pub proof fn lemma_apply_entries_monotone(c: Catalog, es: Seq<WalEntryView>)
    ensures
        forall|t: Seq<char>| c.contains_key(t) ==> apply_entries(c, es).contains_key(t),
        forall|t: Seq<char>, x: Seq<char>|
            c.contains_key(t) && #[trigger] c[t].schema.contains(x) ==> apply_entries(
                c,
                es,
            )[t].schema.contains(x),
        forall|t: Seq<char>|
            c.contains_key(t) ==> apply_entries(c, es)[t].segs == #[trigger] c[t].segs,
    decreases es.len(),
{
    if es.len() > 0 {
        lemma_apply_entries_monotone(c, es.drop_last());
        lemma_apply_entry_monotone(apply_entries(c, es.drop_last()), es.last());
    }
}

/// Setting a column distributes over a whole-row merge.
proof fn lemma_union_insert(
    x: Map<Seq<char>, Seq<char>>,
    a: Map<Seq<char>, Seq<char>>,
    col: Seq<char>,
    v: Seq<char>,
)
    ensures
        x.union_prefer_right(a.insert(col, v)) == x.union_prefer_right(a).insert(col, v),
{
    assert(x.union_prefer_right(a.insert(col, v)) =~= x.union_prefer_right(a).insert(col, v));
}

/// Merging a row over itself changes nothing.
proof fn lemma_union_self(a: Map<Seq<char>, Seq<char>>)
    ensures
        a.union_prefer_right(a) == a,
{
    assert(a.union_prefer_right(a) =~= a);
}

/// Optional row merging is associative when the newest side is present.
proof fn lemma_merge_opt_assoc(
    a: Option<Map<Seq<char>, Seq<char>>>,
    b: Option<Map<Seq<char>, Seq<char>>>,
    d: Map<Seq<char>, Seq<char>>,
)
    ensures
        merge_opt(merge_opt(a, b), Some(d)) == merge_opt(a, merge_opt(b, Some(d))),
{
    match (a, b) {
        (Some(am), Some(bm)) => {
            assert(am.union_prefer_right(bm).union_prefer_right(d) =~= am.union_prefer_right(
                bm.union_prefer_right(d),
            ));
        },
        _ => {},
    }
}

/// Appending one entry to a prefix adds exactly its deletion, if it is one.
proof fn lemma_deleted_push(pfx: Seq<WalEntryView>, e: WalEntryView, tn: Seq<char>, r: Seq<char>)
    ensures
        deleted_in(pfx.push(e), tn, r) == (deleted_in(pfx, tn, r) || e == (
        WalEntryView::DeleteRow { table: tn, row_id: r })),
{
    let p = pfx.push(e);
    if deleted_in(p, tn, r) {
        let j = choose|j: int|
            0 <= j < p.len() && p[j] == (WalEntryView::DeleteRow { table: tn, row_id: r });
        if j < pfx.len() {
            assert(pfx[j] == (WalEntryView::DeleteRow { table: tn, row_id: r }));
        } else {
            assert(p[j] == e);
        }
    }
    if deleted_in(pfx, tn, r) {
        let j = choose|j: int|
            0 <= j < pfx.len() && pfx[j] == (WalEntryView::DeleteRow { table: tn, row_id: r });
        assert(p[j] == pfx[j]);
    }
    if e == (WalEntryView::DeleteRow { table: tn, row_id: r }) {
        assert(p[pfx.len() as int] == e);
    }
}

/// How the second replay pass tracks the first: after the same prefix, the
/// second pass holds the first pass's tables and schemas of the final state,
/// and each row is the final row overwritten by whatever the prefix has
/// rebuilt — unless the prefix deleted the row, in which case the two passes
/// agree exactly.
pub open spec fn second_pass_inv(
    s: Catalog,
    t: Catalog,
    s1: Catalog,
    pfx: Seq<WalEntryView>,
) -> bool {
    &&& forall|tn: Seq<char>| #[trigger] t.contains_key(tn) <==> s1.contains_key(tn)
    &&& forall|tn: Seq<char>| #[trigger] s.contains_key(tn) ==> s1.contains_key(tn)
    &&& forall|tn: Seq<char>|
        s1.contains_key(tn) ==> (#[trigger] t[tn]).schema == s1[tn].schema && t[tn].segs
            == s1[tn].segs
    &&& forall|tn: Seq<char>, r: Seq<char>|
        #[trigger] rowstate(t, tn, r) == (if deleted_in(pfx, tn, r) {
            rowstate(s, tn, r)
        } else {
            merge_opt(rowstate(s1, tn, r), rowstate(s, tn, r))
        })
}

/// One entry preserves the second-pass invariant.
#[verifier::rlimit(100)]
proof fn lemma_inv_step(
    s0: Catalog,
    t0: Catalog,
    s1: Catalog,
    pfx0: Seq<WalEntryView>,
    e: WalEntryView,
)
    requires
        second_pass_inv(s0, t0, s1, pfx0),
        entry_enabled(s0, e),
        schemas_sorted(s1),
        forall|tn: Seq<char>|
            #[trigger] apply_entry(s0, e).contains_key(tn) ==> s1.contains_key(tn),
        forall|tn: Seq<char>, x: Seq<char>|
            apply_entry(s0, e).contains_key(tn) && #[trigger] apply_entry(
                s0,
                e,
            )[tn].schema.contains(x) ==> s1[tn].schema.contains(x),
    ensures
        second_pass_inv(apply_entry(s0, e), apply_entry(t0, e), s1, pfx0.push(e)),
{
    let s = apply_entry(s0, e);
    let t = apply_entry(t0, e);
    let pfx = pfx0.push(e);
    assert forall|tn: Seq<char>, r: Seq<char>| true implies #[trigger] deleted_in(pfx, tn, r) == (
    deleted_in(pfx0, tn, r) || e == (WalEntryView::DeleteRow { table: tn, row_id: r })) by {
        lemma_deleted_push(pfx0, e, tn, r);
    }
    match e {
        WalEntryView::CreateTable { table } => {
            assert(!s0.contains_key(table));
            assert(s.contains_key(table));
            assert(s1.contains_key(table));
            assert(t0.contains_key(table));
            assert(t == t0);
            assert forall|tn: Seq<char>, r: Seq<char>| true implies #[trigger] rowstate(t, tn, r)
                == (if deleted_in(pfx, tn, r) {
                rowstate(s, tn, r)
            } else {
                merge_opt(rowstate(s1, tn, r), rowstate(s, tn, r))
            }) by {
                assert(rowstate(s, tn, r) == rowstate(s0, tn, r));
                assert(rowstate(t, tn, r) == rowstate(t0, tn, r));
            }
        },
        WalEntryView::AddColumn { table, column } => {
            assert(s0.contains_key(table));
            assert(s1.contains_key(table));
            lemma_sorted_insert_contains(s0[table].schema, column);
            assert(s[table].schema == sorted_insert(s0[table].schema, column));
            assert(sorted_insert(s0[table].schema, column).contains(column));
            assert(s[table].schema.contains(column));
            assert(s1[table].schema.contains(column));
            lemma_sorted_insert(s1[table].schema, column);
            assert(t[table].schema == s1[table].schema) by {
                assert(t0[table].schema == s1[table].schema);
                assert(s1[table].schema.contains(column));
            }
            assert forall|tn: Seq<char>, r: Seq<char>| true implies #[trigger] rowstate(t, tn, r)
                == (if deleted_in(pfx, tn, r) {
                rowstate(s, tn, r)
            } else {
                merge_opt(rowstate(s1, tn, r), rowstate(s, tn, r))
            }) by {
                assert(rowstate(s, tn, r) == rowstate(s0, tn, r));
                assert(rowstate(t, tn, r) == rowstate(t0, tn, r));
            }
        },
        WalEntryView::InsertRow { table, row_id, data } => {
            assert(s0.contains_key(table));
            assert(s1.contains_key(table));
            assert(data.dom() <= s0[table].schema.to_set());
            let fm_s = data.restrict(s0[table].schema.to_set());
            let fm_t = data.restrict(t0[table].schema.to_set());
            assert(fm_s =~= data);
            assert(t0[table].schema == s1[table].schema);
            assert forall|x: Seq<char>| data.dom().contains(x) implies s1[
                table
            ].schema.to_set().contains(x) by {
                assert(s0[table].schema.to_set().contains(x));
                assert(s0[table].schema.contains(x));
                assert(s[table].schema.contains(x));
            }
            assert(fm_t =~= data);
            assert forall|tn: Seq<char>, r: Seq<char>| true implies #[trigger] rowstate(t, tn, r)
                == (if deleted_in(pfx, tn, r) {
                rowstate(s, tn, r)
            } else {
                merge_opt(rowstate(s1, tn, r), rowstate(s, tn, r))
            }) by {
                if tn == table && r == row_id {
                    assert(rowstate(s, tn, r) == merge_opt(rowstate(s0, tn, r), Some(data)));
                    assert(rowstate(t, tn, r) == merge_opt(rowstate(t0, tn, r), Some(data)));
                    if deleted_in(pfx0, tn, r) {
                        assert(rowstate(t0, tn, r) == rowstate(s0, tn, r));
                    } else {
                        lemma_merge_opt_assoc(rowstate(s1, tn, r), rowstate(s0, tn, r), data);
                    }
                } else {
                    assert(rowstate(s, tn, r) == rowstate(s0, tn, r));
                    assert(rowstate(t, tn, r) == rowstate(t0, tn, r));
                }
            }
        },
        WalEntryView::UpdateRow { table, row_id, column, value } => {
            assert(s0.contains_key(table));
            assert(s0[table].mem.contains_key(row_id));
            assert(s1.contains_key(table));
            lemma_sorted_insert_contains(s0[table].schema, column);
            assert(s[table].schema == sorted_insert(s0[table].schema, column));
            assert(sorted_insert(s0[table].schema, column).contains(column));
            assert(s[table].schema.contains(column));
            assert(s1[table].schema.contains(column));
            lemma_sorted_insert(s1[table].schema, column);
            assert(rowstate(s0, table, row_id) == Some(s0[table].mem[row_id]));
            assert(rowstate(t0, table, row_id) is Some);
            assert(t0[table].mem.contains_key(row_id));
            assert(t[table].schema == s1[table].schema) by {
                assert(t0[table].schema == s1[table].schema);
            }
            assert forall|tn: Seq<char>, r: Seq<char>| true implies #[trigger] rowstate(t, tn, r)
                == (if deleted_in(pfx, tn, r) {
                rowstate(s, tn, r)
            } else {
                merge_opt(rowstate(s1, tn, r), rowstate(s, tn, r))
            }) by {
                if tn == table && r == row_id {
                    let am = s0[table].mem[row_id];
                    let bm = t0[table].mem[row_id];
                    assert(rowstate(s, tn, r) == Some(am.insert(column, value)));
                    assert(rowstate(t, tn, r) == Some(bm.insert(column, value)));
                    if deleted_in(pfx0, tn, r) {
                        assert(bm == am);
                    } else {
                        match rowstate(s1, tn, r) {
                            None => {
                                assert(bm == am);
                            },
                            Some(x) => {
                                assert(bm == x.union_prefer_right(am));
                                lemma_union_insert(x, am, column, value);
                            },
                        }
                    }
                } else {
                    assert(rowstate(s, tn, r) == rowstate(s0, tn, r));
                    assert(rowstate(t, tn, r) == rowstate(t0, tn, r));
                }
            }
        },
        WalEntryView::DeleteRow { table, row_id } => {
            assert(s0.contains_key(table));
            assert(s1.contains_key(table));
            assert(t0.contains_key(table));
            assert forall|tn: Seq<char>, r: Seq<char>| true implies #[trigger] rowstate(t, tn, r)
                == (if deleted_in(pfx, tn, r) {
                rowstate(s, tn, r)
            } else {
                merge_opt(rowstate(s1, tn, r), rowstate(s, tn, r))
            }) by {
                if tn == table && r == row_id {
                    assert(rowstate(s, tn, r) is None);
                    assert(rowstate(t, tn, r) is None);
                    assert(deleted_in(pfx, tn, r));
                } else {
                    assert(rowstate(s, tn, r) == rowstate(s0, tn, r));
                    assert(rowstate(t, tn, r) == rowstate(t0, tn, r));
                }
            }
        },
    }
}

/// After any valid prefix, the second pass relates to the first as
/// `second_pass_inv` says.
proof fn lemma_second_pass(es: Seq<WalEntryView>, i: int)
    requires
        wal_ok(empty_catalog(), es),
        0 <= i <= es.len(),
    ensures
        second_pass_inv(
            apply_entries(empty_catalog(), es.take(i)),
            apply_entries(apply_entries(empty_catalog(), es), es.take(i)),
            apply_entries(empty_catalog(), es),
            es.take(i),
        ),
    decreases i,
{
    let s1 = apply_entries(empty_catalog(), es);
    if i == 0 {
        assert(es.take(0) =~= Seq::<WalEntryView>::empty());
        assert(apply_entries(empty_catalog(), es.take(0)) == empty_catalog());
        assert(apply_entries(s1, es.take(0)) == s1);
        assert forall|tn: Seq<char>, r: Seq<char>| true implies #[trigger] rowstate(s1, tn, r) == (
        if deleted_in(es.take(0), tn, r) {
            rowstate(empty_catalog(), tn, r)
        } else {
            merge_opt(rowstate(s1, tn, r), rowstate(empty_catalog(), tn, r))
        }) by {
            assert(!deleted_in(es.take(0), tn, r));
            assert(rowstate(empty_catalog(), tn, r) is None);
        }
    } else {
        lemma_second_pass(es, i - 1);
        let pfx0 = es.take(i - 1);
        let e = es[i - 1];
        let s0 = apply_entries(empty_catalog(), pfx0);
        let t0 = apply_entries(s1, pfx0);
        lemma_wal_ok_enabled(empty_catalog(), es, i - 1);
        assert(es.take(i).drop_last() =~= pfx0);
        assert(es.take(i).last() == e);
        assert(apply_entries(empty_catalog(), es.take(i)) == apply_entry(s0, e));
        assert(apply_entries(s1, es.take(i)) == apply_entry(t0, e));
        lemma_apply_entries_schemas_sorted(empty_catalog(), es);
        let s = apply_entry(s0, e);
        lemma_apply_split(empty_catalog(), es, i);
        assert(s1 == apply_entries(s, es.skip(i)));
        lemma_apply_entries_monotone(s, es.skip(i));
        lemma_inv_step(s0, t0, s1, pfx0, e);
        assert(es.take(i) =~= pfx0.push(e));
    }
}

/// Idempotent replay: a log the live API wrote from a clean catalog builds
/// the same final state whether it is replayed once or twice.
pub proof fn lemma_replay_idempotent(es: Seq<WalEntryView>)
    requires
        wal_ok(empty_catalog(), es),
    ensures
        apply_entries(apply_entries(empty_catalog(), es), es) == apply_entries(
            empty_catalog(),
            es,
        ),
{
    lemma_second_pass(es, es.len() as int);
    assert(es.take(es.len() as int) =~= es);
    let s1 = apply_entries(empty_catalog(), es);
    let t = apply_entries(s1, es);
    assert(second_pass_inv(s1, t, s1, es));
    assert forall|tn: Seq<char>| #[trigger] t.contains_key(tn) implies s1.contains_key(tn)
        && t[tn] == s1[tn] by {
        assert(s1.contains_key(tn));
        assert(t[tn].schema == s1[tn].schema);
        assert(t[tn].segs == s1[tn].segs);
        assert forall|r: Seq<char>| true implies #[trigger] rowstate(t, tn, r) == rowstate(
            s1,
            tn,
            r,
        ) by {
            assert(rowstate(t, tn, r) == (if deleted_in(es, tn, r) {
                rowstate(s1, tn, r)
            } else {
                merge_opt(rowstate(s1, tn, r), rowstate(s1, tn, r))
            }));
            match rowstate(s1, tn, r) {
                None => {},
                Some(am) => {
                    lemma_union_self(am);
                },
            }
        }
        assert(t[tn].mem =~= s1[tn].mem) by {
            assert forall|r: Seq<char>|
                #[trigger] t[tn].mem.contains_key(r) == s1[tn].mem.contains_key(r) && (t[
                tn].mem.contains_key(r) ==> t[tn].mem[r] == s1[tn].mem[r]) by {
                assert(rowstate(t, tn, r) == rowstate(s1, tn, r));
            }
        }
        assert(t[tn] =~= s1[tn]);
    }
    assert(t =~= s1);
}

/// Application keeps every schema sorted.
pub proof fn lemma_apply_entries_schemas_sorted(c: Catalog, es: Seq<WalEntryView>)
    requires
        schemas_sorted(c),
    ensures
        schemas_sorted(apply_entries(c, es)),
    decreases es.len(),
{
    if es.len() > 0 {
        lemma_apply_entries_schemas_sorted(c, es.drop_last());
        let mid = apply_entries(c, es.drop_last());
        assert forall|t: Seq<char>| apply_entry(mid, es.last()).contains_key(t) implies cols_sorted(
            #[trigger] apply_entry(mid, es.last())[t].schema,
        ) by {
            match es.last() {
                WalEntryView::AddColumn { table, column } => {
                    if mid.contains_key(table) && t == table {
                        lemma_sorted_insert(mid[table].schema, column);
                    }
                },
                WalEntryView::UpdateRow { table, row_id, column, value } => {
                    if mid.contains_key(table) && mid[table].mem.contains_key(row_id) && t
                        == table {
                        lemma_sorted_insert(mid[table].schema, column);
                    }
                },
                _ => {},
            }
        }
    }
}

} // verus!
