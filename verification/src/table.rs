//! One named table: its schema, its in-memory buffer of recent writes, and
//! the immutable segments flushed from that buffer. A row is looked up in the
//! buffer first, then in the segments from the newest sequence number to the
//! oldest; the first hit wins.

use vstd::prelude::*;

use crate::assoc::map_of;
use crate::memtable::{entry_views, MemTable};
use crate::row::{pair_views, Row};
use crate::schema::{sorted_insert, Schema};
use crate::segment::{compact, store_lookup, store_merged, Segment, SegmentStore};

verus! {

/// The mathematical state of a table: its sorted column list, the buffered
/// rows, and the contents of each segment, oldest first.
#[verifier::ext_equal]
pub struct TableState {
    pub schema: Seq<Seq<char>>,
    pub mem: Map<Seq<char>, Map<Seq<char>, Seq<char>>>,
    pub segs: Seq<Map<Seq<char>, Map<Seq<char>, Seq<char>>>>,
}

/// The row a stack of segment contents shows: newest first, first hit wins.
pub open spec fn stack_lookup(
    segs: Seq<Map<Seq<char>, Map<Seq<char>, Seq<char>>>>,
    row_id: Seq<char>,
) -> Option<Map<Seq<char>, Seq<char>>>
    decreases segs.len(),
{
    if segs.len() == 0 {
        None
    } else if segs.last().contains_key(row_id) {
        Some(segs.last()[row_id])
    } else {
        stack_lookup(segs.drop_last(), row_id)
    }
}

/// The row a whole table shows: the buffer first, then the segments.
pub open spec fn table_lookup(t: TableState, row_id: Seq<char>) -> Option<
    Map<Seq<char>, Seq<char>>,
> {
    if t.mem.contains_key(row_id) {
        Some(t.mem[row_id])
    } else {
        stack_lookup(t.segs, row_id)
    }
}

/// Everything a stack of segment contents shows, as one map: newer contents
/// shadow older ones wholesale.
pub open spec fn stack_merged(
    segs: Seq<Map<Seq<char>, Map<Seq<char>, Seq<char>>>>,
) -> Map<Seq<char>, Map<Seq<char>, Seq<char>>>
    decreases segs.len(),
{
    if segs.len() == 0 {
        Map::empty()
    } else {
        stack_merged(segs.drop_last()).union_prefer_right(segs.last())
    }
}

/// `stack_merged` on the views of real segments is `store_merged`.
pub proof fn lemma_stack_merged_is_store(segs: Seq<Segment>)
    ensures
        stack_merged(segs.map_values(|s: Segment| s@)) == store_merged(segs),
    decreases segs.len(),
{
    let views = segs.map_values(|s: Segment| s@);
    if segs.len() > 0 {
        assert(views.last() == segs.last()@);
        assert(views.drop_last() =~= segs.drop_last().map_values(|s: Segment| s@));
        lemma_stack_merged_is_store(segs.drop_last());
    }
}

/// Every column of every row of `m` is in the schema.
pub open spec fn rows_within(
    m: Map<Seq<char>, Map<Seq<char>, Seq<char>>>,
    schema: Seq<Seq<char>>,
) -> bool {
    forall|id: Seq<char>, c: Seq<char>|
        m.contains_key(id) && #[trigger] m[id].contains_key(c) ==> schema.contains(c)
}

/// `stack_lookup` on the views of real segments is `store_lookup`.
pub proof fn lemma_stack_is_store(segs: Seq<Segment>, row_id: Seq<char>)
    ensures
        stack_lookup(segs.map_values(|s: Segment| s@), row_id) == store_lookup(segs, row_id),
    decreases segs.len(),
{
    let views = segs.map_values(|s: Segment| s@);
    if segs.len() > 0 {
        assert(views.last() == segs.last()@);
        assert(views.drop_last() =~= segs.drop_last().map_values(|s: Segment| s@));
        lemma_stack_is_store(segs.drop_last(), row_id);
    }
}

/// A whole-map union of schema-respecting row maps respects the schema.
pub proof fn lemma_union_within(
    a: Map<Seq<char>, Map<Seq<char>, Seq<char>>>,
    b: Map<Seq<char>, Map<Seq<char>, Seq<char>>>,
    schema: Seq<Seq<char>>,
)
    requires
        rows_within(a, schema),
        rows_within(b, schema),
    ensures
        rows_within(a.union_prefer_right(b), schema),
{
    let u = a.union_prefer_right(b);
    assert forall|id: Seq<char>, c: Seq<char>|
        u.contains_key(id) && #[trigger] u[id].contains_key(c) implies schema.contains(c) by {
        if b.contains_key(id) {
            assert(u[id] == b[id]);
        } else {
            assert(u[id] == a[id]);
        }
    }
}

/// Everything a stack of schema-respecting segments shows respects the schema.
pub proof fn lemma_store_merged_within(segs: Seq<Segment>, schema: Seq<Seq<char>>)
    requires
        forall|i: int| 0 <= i < segs.len() ==> rows_within((#[trigger] segs[i])@, schema),
    ensures
        rows_within(store_merged(segs), schema),
    decreases segs.len(),
{
    if segs.len() == 0 {
        assert(rows_within(Map::empty(), schema));
    } else {
        lemma_store_merged_within(segs.drop_last(), schema);
        assert(segs.last() == segs[segs.len() - 1]);
        lemma_union_within(store_merged(segs.drop_last()), segs.last()@, schema);
    }
}

/// One named table's complete in-memory state.
pub struct Table {
    pub schema: Schema,
    pub mem: MemTable,
    pub store: SegmentStore,
    pub next_seq: u64,
}

impl View for Table {
    type V = TableState;

    open spec fn view(&self) -> TableState {
        TableState {
            schema: self.schema@,
            mem: self.mem@,
            segs: self.store.segs@.map_values(|s: Segment| s@),
        }
    }
}

impl Table {
    /// Schema sorted, buffer sorted, segments ordered by sequence number and
    /// all strictly older than `next_seq`, and every stored column declared
    /// by the schema.
    pub open spec fn wf(&self) -> bool {
        &&& self.schema.wf()
        &&& self.mem.wf()
        &&& self.store.wf()
        &&& forall|i: int|
            0 <= i < self.store.segs@.len() ==> (#[trigger] self.store.segs@[i]).seq_no
                < self.next_seq
        &&& rows_within(self.mem@, self.schema@)
        &&& forall|i: int|
            0 <= i < self.store.segs@.len() ==> rows_within(
                (#[trigger] self.store.segs@[i])@,
                self.schema@,
            )
    }

    /// A fresh table: no columns, no rows, no segments.
    pub fn new() -> (r: Table)
        ensures
            r.wf(),
            r@.schema == Seq::<Seq<char>>::empty(),
            r@.mem == Map::<Seq<char>, Map<Seq<char>, Seq<char>>>::empty(),
            r@.segs == Seq::<Map<Seq<char>, Map<Seq<char>, Seq<char>>>>::empty(),
    {
        let r = Table {
            schema: Schema::new(),
            mem: MemTable::new(),
            store: SegmentStore::new(),
            next_seq: 0,
        };
        proof {
            assert(r@.segs =~= Seq::<Map<Seq<char>, Map<Seq<char>, Seq<char>>>>::empty());
        }
        r
    }

    /// Declares a column; existing rows do not gain a value for it, and a
    /// column already declared is left as it is.
    pub fn add_column(&mut self, column_name: &str)
        requires
            old(self).wf(),
        ensures
            final(self).wf(),
            final(self)@.schema == sorted_insert(old(self)@.schema, column_name@),
            forall|x: Seq<char>|
                final(self)@.schema.contains(x) <==> (old(self)@.schema.contains(x) || x
                    == column_name@),
            final(self)@.mem == old(self)@.mem,
            final(self)@.segs == old(self)@.segs,
    {
        self.schema.add(column_name);
        proof {
            assert forall|id: Seq<char>, c: Seq<char>|
                self.mem@.contains_key(id) && #[trigger] self.mem@[id].contains_key(c)
                implies self.schema@.contains(c) by {
                assert(old(self).schema@.contains(c));
            }
            assert forall|i: int|
                0 <= i < self.store.segs@.len() implies rows_within(
                (#[trigger] self.store.segs@[i])@,
                self.schema@,
            ) by {
                assert(rows_within(self.store.segs@[i]@, old(self).schema@));
                assert forall|id: Seq<char>, c: Seq<char>|
                    self.store.segs@[i]@.contains_key(id)
                        && #[trigger] self.store.segs@[i]@[id].contains_key(c)
                    implies self.schema@.contains(c) by {
                    assert(old(self).schema@.contains(c));
                }
            }
        }
    }

    /// The row the table shows for `row_id`: buffered version first, else the
    /// newest segment that holds it.
    pub fn get_row(&self, row_id: &str) -> (r: Option<Row>)
        requires
            self.wf(),
        ensures
            match r {
                Some(row) => table_lookup(self@, row_id@) == Some(row@) && row.wf(),
                None => table_lookup(self@, row_id@) is None,
            },
    {
        match self.mem.get(row_id) {
            Some(row) => Some(row.duplicate()),
            None => {
                let r = self.store.lookup(row_id);
                proof {
                    lemma_stack_is_store(self.store.segs@, row_id@);
                }
                r
            },
        }
    }

    /// Removes the buffered row under `row_id`, reporting whether one was
    /// there; rows already flushed to segments are immutable and stay.
    pub fn delete_row(&mut self, row_id: &str) -> (r: bool)
        requires
            old(self).wf(),
        ensures
            final(self).wf(),
            r == old(self)@.mem.contains_key(row_id@),
            final(self)@.mem == old(self)@.mem.remove(row_id@),
            final(self)@.schema == old(self)@.schema,
            final(self)@.segs == old(self)@.segs,
    {
        let r = self.mem.delete(row_id);
        proof {
            assert forall|id: Seq<char>, c: Seq<char>|
                self.mem@.contains_key(id) && #[trigger] self.mem@[id].contains_key(c)
                implies self.schema@.contains(c) by {
                assert(old(self).mem@.contains_key(id));
                assert(old(self).mem@[id] == self.mem@[id]);
            }
        }
        r
    }

    /// The in-memory buffer itself, in ascending row identifier order.
    pub fn get_table(&self) -> (r: &MemTable)
        ensures
            r == &self.mem,
    {
        &self.mem
    }

    /// The pairs of `data` whose column the schema declares; pairs with
    /// unknown columns are dropped silently, never rejected.
    pub fn filter_by_schema(&self, data: &Vec<(String, String)>) -> (r: Vec<(String, String)>)
        ensures
            map_of(pair_views(r@)) == map_of(pair_views(data@)).restrict(self@.schema.to_set()),
    {
        let ghost sset = self@.schema.to_set();
        let mut out: Vec<(String, String)> = Vec::new();
        let mut i: usize = 0;
        proof {
            assert(pair_views(out@) =~= Seq::<(Seq<char>, Seq<char>)>::empty());
            assert(pair_views(data@.take(0)) =~= Seq::<(Seq<char>, Seq<char>)>::empty());
            assert(map_of(pair_views(out@)) =~= map_of(pair_views(data@.take(0))).restrict(sset));
        }
        while i < data.len()
            invariant
                sset == self@.schema.to_set(),
                i <= data@.len(),
                map_of(pair_views(out@)) == map_of(pair_views(data@.take(i as int))).restrict(
                    sset,
                ),
            decreases data@.len() - i,
        {
            let ghost k = data@[i as int].0@;
            let ghost v = data@[i as int].1@;
            proof {
                assert(pair_views(data@.take(i + 1)).drop_last() =~= pair_views(
                    data@.take(i as int),
                ));
                assert(pair_views(data@.take(i + 1)).last() == (k, v));
                assert(map_of(pair_views(data@.take(i + 1))) == map_of(
                    pair_views(data@.take(i as int)),
                ).insert(k, v));
            }
            if self.schema.contains(data[i].0.as_str()) {
                let ghost pre_pairs = pair_views(out@);
                let name = data[i].0.clone();
                let value = data[i].1.clone();
                out.push((name, value));
                proof {
                    assert(sset.contains(k));
                    assert(pair_views(out@) =~= pre_pairs.push((k, v)));
                    assert(pair_views(out@).drop_last() =~= pre_pairs);
                    assert(pair_views(out@).last() == (k, v));
                    assert(map_of(pair_views(out@)) == map_of(pre_pairs).insert(k, v));
                    assert(map_of(pair_views(out@)) =~= map_of(
                        pair_views(data@.take(i + 1)),
                    ).restrict(sset));
                }
            } else {
                proof {
                    assert(!sset.contains(k));
                    assert(map_of(pair_views(out@)) =~= map_of(
                        pair_views(data@.take(i + 1)),
                    ).restrict(sset));
                }
            }
            i += 1;
        }
        proof {
            assert(data@.take(data@.len() as int) =~= data@);
        }
        out
    }

    /// Upserts a row: the given columns, filtered by the schema, are merged
    /// into any buffered row under `row_id`, or become a new buffered row.
    /// Returns the filtered pairs, which are what durability must record.
    pub fn insert_row(&mut self, row_id: &str, data: &Vec<(String, String)>) -> (filtered: Vec<
        (String, String),
    >)
        requires
            old(self).wf(),
        ensures
            final(self).wf(),
            map_of(pair_views(filtered@)) == map_of(pair_views(data@)).restrict(
                old(self)@.schema.to_set(),
            ),
            final(self)@.schema == old(self)@.schema,
            final(self)@.segs == old(self)@.segs,
            final(self)@.mem == old(self)@.mem.insert(
                row_id@,
                if old(self)@.mem.contains_key(row_id@) {
                    old(self)@.mem[row_id@].union_prefer_right(map_of(pair_views(filtered@)))
                } else {
                    map_of(pair_views(filtered@))
                },
            ),
            final(self).mem.entries@.len() == old(self).mem.entries@.len() + (if old(
                self,
            )@.mem.contains_key(row_id@) {
                0int
            } else {
                1int
            }),
    {
        let filtered = self.filter_by_schema(data);
        self.mem.upsert(row_id, &filtered);
        proof {
            let fm = map_of(pair_views(filtered@));
            assert(fm.dom() <= self@.schema.to_set()) by {
                assert forall|c: Seq<char>| fm.contains_key(c) implies self@.schema.to_set()
                    .contains(c) by {
                }
            }
            assert forall|id: Seq<char>, c: Seq<char>|
                self.mem@.contains_key(id) && #[trigger] self.mem@[id].contains_key(c)
                implies self.schema@.contains(c) by {
                if id == row_id@ {
                    if old(self)@.mem.contains_key(row_id@) {
                        if fm.contains_key(c) {
                            assert(self@.schema.to_set().contains(c));
                        } else {
                            assert(old(self)@.mem[row_id@].contains_key(c));
                        }
                    } else {
                        assert(fm.contains_key(c));
                        assert(self@.schema.to_set().contains(c));
                    }
                } else {
                    assert(old(self)@.mem.contains_key(id));
                    assert(old(self)@.mem[id] == self.mem@[id]);
                }
            }
        }
        filtered
    }

    /// Sets one column of an existing buffered row, declaring the column
    /// first if the schema does not know it yet. Reports whether the row was
    /// there; nothing changes when it is not.
    pub fn update_value(&mut self, row_id: &str, column_name: &str, value: &str) -> (r: bool)
        requires
            old(self).wf(),
        ensures
            final(self).wf(),
            r == old(self)@.mem.contains_key(row_id@),
            r ==> final(self)@.schema == sorted_insert(old(self)@.schema, column_name@)
                && final(self)@.mem == old(self)@.mem.insert(
                row_id@,
                old(self)@.mem[row_id@].insert(column_name@, value@),
            ) && final(self)@.segs == old(self)@.segs,
            !r ==> *final(self) == *old(self),
    {
        let present = match self.mem.get(row_id) {
            Some(_) => true,
            None => false,
        };
        if !present {
            return false;
        }
        self.add_column(column_name);
        let owned = value.to_owned();
        self.mem.set_col(row_id, column_name, owned);
        proof {
            assert forall|id: Seq<char>, c: Seq<char>|
                self.mem@.contains_key(id) && #[trigger] self.mem@[id].contains_key(c)
                implies self.schema@.contains(c) by {
                if id == row_id@ && c == column_name@ {
                } else {
                    if id == row_id@ {
                        assert(old(self)@.mem[row_id@].contains_key(c));
                    } else {
                        assert(old(self)@.mem.contains_key(id));
                        assert(old(self)@.mem[id] == self.mem@[id]);
                    }
                    assert(old(self)@.schema.contains(c));
                }
            }
        }
        true
    }

    /// Flushes the buffer into a new segment: the segment is created first,
    /// then the buffer is cleared, and every row reads exactly as before.
    /// An empty buffer is left alone, as is a table whose sequence numbers
    /// are exhausted.
    pub fn flush(&mut self)
        requires
            old(self).wf(),
        ensures
            final(self).wf(),
            final(self)@.schema == old(self)@.schema,
            forall|id: Seq<char>| table_lookup(final(self)@, id) == table_lookup(old(self)@, id),
            (old(self).mem.entries@.len() > 0 && old(self).next_seq < u64::MAX) ==> {
                &&& final(self)@.mem == Map::<Seq<char>, Map<Seq<char>, Seq<char>>>::empty()
                &&& final(self)@.segs == old(self)@.segs.push(old(self)@.mem)
                &&& final(self).next_seq == old(self).next_seq + 1
            },
            !(old(self).mem.entries@.len() > 0 && old(self).next_seq < u64::MAX)
                ==> *final(self) == *old(self),
    {
        if self.mem.size() == 0 || self.next_seq == u64::MAX {
            return;
        }
        let seq_no = self.next_seq;
        let ghost memmap = self.mem@;
        let rows = self.mem.drain();
        let seg = Segment { seq_no, rows };
        proof {
            assert(seg@ == memmap);
        }
        self.store.add(seg);
        self.next_seq = seq_no + 1;
        proof {
            assert(final(self)@.segs =~= old(self)@.segs.push(memmap));
            assert forall|id: Seq<char>|
                table_lookup(self@, id) == table_lookup(old(self)@, id) by {
                assert(self@.segs.last() == memmap);
                assert(self@.segs.drop_last() =~= old(self)@.segs);
                if memmap.contains_key(id) {
                } else {
                    assert(stack_lookup(self@.segs, id) == stack_lookup(old(self)@.segs, id));
                }
            }
        }
    }

    /// Merges all of the table's segments into one. Every row still reads
    /// exactly as before; a table with fewer than two segments is untouched.
    pub fn compact_segments(&mut self)
        requires
            old(self).wf(),
        ensures
            final(self).wf(),
            final(self)@.schema == old(self)@.schema,
            final(self)@.mem == old(self)@.mem,
            final(self).next_seq == old(self).next_seq,
            forall|id: Seq<char>| table_lookup(final(self)@, id) == table_lookup(old(self)@, id),
            old(self).store.segs@.len() >= 2 ==> final(self)@.segs == seq![
                store_merged(old(self).store.segs@),
            ],
            old(self).store.segs@.len() < 2 ==> *final(self) == *old(self),
    {
        if self.store.count() < 2 {
            return;
        }
        let ghost oldsegs = self.store.segs@;
        let last_seq = self.store.segs[self.store.count() - 1].seq_no;
        let merged = compact(&self.store.segs, last_seq);
        let mut replacement: Vec<Segment> = Vec::new();
        replacement.push(merged);
        self.store.segs = replacement;
        proof {
            assert(self.store.segs@.len() == 1);
            assert(self.store.segs@[0]@ == store_merged(oldsegs));
            assert(self@.segs =~= seq![store_merged(oldsegs)]);
            lemma_store_merged_within(oldsegs, self.schema@);
            assert(self.store.segs@[0].seq_no == oldsegs[oldsegs.len() - 1].seq_no);
            assert forall|id: Seq<char>|
                table_lookup(self@, id) == table_lookup(old(self)@, id) by {
                if !self.mem@.contains_key(id) {
                    lemma_stack_is_store(oldsegs, id);
                    lemma_stack_is_store(self.store.segs@, id);
                    assert(self.store.segs@.map_values(|s: Segment| s@) =~= seq![
                        self.store.segs@[0]@,
                    ]);
                    assert(store_lookup(self.store.segs@, id) == store_lookup(seq![
                        self.store.segs@[0],
                    ], id)) by {
                        assert(seq![self.store.segs@[0]] =~= self.store.segs@);
                    }
                }
            }
        }
    }

    /// Every row the table shows, in ascending identifier order: segment
    /// contents overlaid by the buffer, newest version of each row only.
    pub fn merged_rows(&self) -> (r: Vec<(String, Row)>)
        requires
            self.wf(),
        ensures
            crate::assoc::keys_sorted(entry_views(r@)),
            crate::memtable::entries_wf(r@),
            map_of(entry_views(r@)) == store_merged(self.store.segs@).union_prefer_right(
                self@.mem,
            ),
    {
        let base = compact(&self.store.segs, 0);
        let mut acc = MemTable { entries: base.rows };
        let ghost mementries = entry_views(self.mem.entries@);
        proof {
            crate::assoc::lemma_sorted_distinct(mementries);
            assert(acc.wf());
            assert(acc@ == store_merged(self.store.segs@));
            assert(mementries.take(0) =~= Seq::<(Seq<char>, Map<Seq<char>, Seq<char>>)>::empty());
            assert(acc@ =~= store_merged(self.store.segs@).union_prefer_right(
                map_of(mementries.take(0)),
            ));
        }
        let mut j: usize = 0;
        while j < self.mem.entries.len()
            invariant
                self.wf(),
                mementries == entry_views(self.mem.entries@),
                crate::assoc::keys_distinct(mementries),
                j <= self.mem.entries@.len(),
                acc.wf(),
                acc@ == store_merged(self.store.segs@).union_prefer_right(
                    map_of(mementries.take(j as int)),
                ),
            decreases self.mem.entries@.len() - j,
        {
            let row = self.mem.entries[j].1.duplicate();
            acc.put(self.mem.entries[j].0.as_str(), row);
            proof {
                assert(mementries.take(j + 1).drop_last() =~= mementries.take(j as int));
                assert(mementries.take(j + 1).last() == mementries[j as int]);
                assert(map_of(mementries.take(j + 1)) == map_of(mementries.take(j as int)).insert(
                    mementries[j as int].0,
                    mementries[j as int].1,
                ));
                assert(acc@ =~= store_merged(self.store.segs@).union_prefer_right(
                    map_of(mementries.take(j + 1)),
                ));
            }
            j += 1;
        }
        proof {
            assert(mementries.take(mementries.len() as int) =~= mementries);
            assert(map_of(mementries) == self@.mem);
        }
        acc.entries
    }
}

/// What a table shows equals one merged map: the union of all segments,
/// newest winning, overlaid by the buffer.
pub proof fn lemma_table_lookup_merged(t: &Table, row_id: Seq<char>)
    ensures
        table_lookup(t@, row_id) == {
            let m = store_merged(t.store.segs@).union_prefer_right(t@.mem);
            if m.contains_key(row_id) {
                Some(m[row_id])
            } else {
                None::<Map<Seq<char>, Seq<char>>>
            }
        },
{
    let m = store_merged(t.store.segs@).union_prefer_right(t@.mem);
    lemma_stack_is_store(t.store.segs@, row_id);
    crate::segment::lemma_store_lookup_merged(t.store.segs@, row_id);
    if t@.mem.contains_key(row_id) {
        assert(m.contains_key(row_id));
        assert(m[row_id] == t@.mem[row_id]);
    } else {
        if store_merged(t.store.segs@).contains_key(row_id) {
            assert(m[row_id] == store_merged(t.store.segs@)[row_id]);
        } else {
            assert(!m.contains_key(row_id));
        }
    }
}

} // verus!
