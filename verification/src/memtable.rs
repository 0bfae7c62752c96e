//! The in-memory buffer of one table's recent row mutations, kept sorted by
//! row identifier and viewed as a map from row identifier to row contents.

use vstd::prelude::*;

use crate::assoc::{
    keys_sorted, lemma_map_of_contains, lemma_map_of_get, lemma_map_of_insert_at,
    lemma_map_of_remove_at, lemma_map_of_update_at, lemma_sorted_distinct, lemma_sorted_insert_at,
    lemma_sorted_remove_at, map_of,
};
use crate::row::{pair_views, Row};
use crate::strutil::{char_seq_lt, lemma_lt_trichotomy, str_eq, str_lt};

verus! {

/// The views of a sequence of identifier/row pairs.
pub open spec fn entry_views(s: Seq<(String, Row)>) -> Seq<(Seq<char>, Map<Seq<char>, Seq<char>>)> {
    s.map_values(|p: (String, Row)| (p.0@, p.1@))
}

/// All rows of a sequence of entries are well-formed.
pub open spec fn entries_wf(s: Seq<(String, Row)>) -> bool {
    forall|i: int| 0 <= i < s.len() ==> (#[trigger] s[i]).1.wf()
}

/// The ordered buffer of recent row mutations for one table.
pub struct MemTable {
    pub entries: Vec<(String, Row)>,
}

impl View for MemTable {
    type V = Map<Seq<char>, Map<Seq<char>, Seq<char>>>;

    open spec fn view(&self) -> Map<Seq<char>, Map<Seq<char>, Seq<char>>> {
        map_of(entry_views(self.entries@))
    }
}

impl MemTable {
    /// Entries are strictly sorted by row identifier and hold only
    /// well-formed rows.
    pub open spec fn wf(&self) -> bool {
        keys_sorted(entry_views(self.entries@)) && entries_wf(self.entries@)
    }

    /// An empty buffer.
    pub fn new() -> (r: MemTable)
        ensures
            r.wf(),
            r@ == Map::<Seq<char>, Map<Seq<char>, Seq<char>>>::empty(),
            r.entries@.len() == 0,
    {
        let r = MemTable { entries: Vec::new() };
        proof {
            assert(entry_views(r.entries@) =~= Seq::<(Seq<char>, Map<Seq<char>, Seq<char>>)>::empty());
        }
        r
    }

    /// Position of a row in the backing list, if present.
    fn find(&self, row_id: &str) -> (r: Option<usize>)
        ensures
            match r {
                Some(i) => i < self.entries@.len() && self.entries@[i as int].0@ == row_id@,
                None => !self@.contains_key(row_id@),
            },
    {
        let mut i: usize = 0;
        while i < self.entries.len()
            invariant
                i <= self.entries@.len(),
                forall|j: int| 0 <= j < i ==> (#[trigger] self.entries@[j]).0@ != row_id@,
            decreases self.entries@.len() - i,
        {
            if str_eq(self.entries[i].0.as_str(), row_id) {
                return Some(i);
            }
            i += 1;
        }
        proof {
            lemma_map_of_contains(entry_views(self.entries@), row_id@);
        }
        None
    }

    /// The buffered row under `row_id`, if any.
    pub fn get(&self, row_id: &str) -> (r: Option<&Row>)
        requires
            self.wf(),
        ensures
            match r {
                Some(row) => self@.contains_key(row_id@) && row@ == self@[row_id@] && row.wf(),
                None => !self@.contains_key(row_id@),
            },
    {
        match self.find(row_id) {
            None => None,
            Some(i) => {
                proof {
                    lemma_sorted_distinct(entry_views(self.entries@));
                    lemma_map_of_get(entry_views(self.entries@), i as int);
                }
                Some(&self.entries[i].1)
            },
        }
    }

    /// Upserts: merges `data` into the row under `row_id`, creating the row
    /// from `data` alone when it is absent.
    pub fn upsert(&mut self, row_id: &str, data: &Vec<(String, String)>)
        requires
            old(self).wf(),
        ensures
            final(self).wf(),
            final(self)@ == old(self)@.insert(
                row_id@,
                if old(self)@.contains_key(row_id@) {
                    old(self)@[row_id@].union_prefer_right(map_of(pair_views(data@)))
                } else {
                    map_of(pair_views(data@))
                },
            ),
            old(self)@.contains_key(row_id@) ==> final(self).entries@.len() == old(
                self,
            ).entries@.len(),
            !old(self)@.contains_key(row_id@) ==> final(self).entries@.len() == old(
                self,
            ).entries@.len() + 1,
    {
        let ghost orig = entry_views(self.entries@);
        proof {
            lemma_sorted_distinct(orig);
        }
        let mut i: usize = 0;
        while i < self.entries.len()
            invariant
                orig == entry_views(old(self).entries@),
                self == old(self),
                keys_sorted(orig),
                crate::assoc::keys_distinct(orig),
                entries_wf(self.entries@),
                i <= self.entries@.len(),
                forall|j: int| 0 <= j < i ==> char_seq_lt((#[trigger] orig[j]).0, row_id@),
            decreases self.entries@.len() - i,
        {
            if str_eq(self.entries[i].0.as_str(), row_id) {
                let mut merged = self.entries[i].1.duplicate();
                merged.merge(data);
                let id = row_id.to_owned();
                self.entries.set(i, (id, merged));
                proof {
                    let post = entry_views(self.entries@);
                    assert(post =~= orig.update(i as int, (orig[i as int].0, merged@)));
                    lemma_map_of_update_at(orig, i as int, merged@);
                    lemma_map_of_get(orig, i as int);
                    assert(keys_sorted(post)) by {
                        assert(forall|j: int|
                            0 <= j < post.len() ==> (#[trigger] post[j]).0 == orig[j].0);
                    }
                    assert(final(self)@ == old(self)@.insert(
                        row_id@,
                        old(self)@[row_id@].union_prefer_right(map_of(pair_views(data@))),
                    ));
                }
                return;
            }
            if str_lt(row_id, self.entries[i].0.as_str()) {
                let mut fresh = Row::new();
                fresh.merge(data);
                proof {
                    assert(fresh@ =~= map_of(pair_views(data@)));
                }
                let id = row_id.to_owned();
                self.entries.insert(i, (id, fresh));
                proof {
                    let post = entry_views(self.entries@);
                    assert(post =~= orig.take(i as int) + seq![(row_id@, fresh@)] + orig.skip(
                        i as int,
                    ));
                    lemma_sorted_insert_at(orig, i as int, row_id@, fresh@);
                    lemma_map_of_insert_at(orig, i as int, row_id@, fresh@);
                    lemma_map_of_contains(orig, row_id@);
                    assert(!old(self)@.contains_key(row_id@));
                }
                return;
            }
            proof {
                lemma_lt_trichotomy(row_id@, orig[i as int].0);
            }
            i += 1;
        }
        let mut fresh = Row::new();
        fresh.merge(data);
        proof {
            assert(fresh@ =~= map_of(pair_views(data@)));
        }
        let id = row_id.to_owned();
        self.entries.push((id, fresh));
        proof {
            let post = entry_views(self.entries@);
            assert(post =~= orig.take(orig.len() as int) + seq![(row_id@, fresh@)] + orig.skip(
                orig.len() as int,
            ));
            lemma_sorted_insert_at(orig, orig.len() as int, row_id@, fresh@);
            lemma_map_of_insert_at(orig, orig.len() as int, row_id@, fresh@);
            lemma_map_of_contains(orig, row_id@);
            assert(!old(self)@.contains_key(row_id@));
        }
    }

    /// Puts a whole row under `row_id`, replacing any buffered row outright;
    /// compaction relies on this whole-row precedence.
    pub fn put(&mut self, row_id: &str, row: Row)
        requires
            old(self).wf(),
            row.wf(),
        ensures
            final(self).wf(),
            final(self)@ == old(self)@.insert(row_id@, row@),
    {
        let ghost orig = entry_views(self.entries@);
        proof {
            lemma_sorted_distinct(orig);
        }
        let mut i: usize = 0;
        while i < self.entries.len()
            invariant
                orig == entry_views(old(self).entries@),
                self == old(self),
                row.wf(),
                keys_sorted(orig),
                crate::assoc::keys_distinct(orig),
                entries_wf(self.entries@),
                i <= self.entries@.len(),
                forall|j: int| 0 <= j < i ==> char_seq_lt((#[trigger] orig[j]).0, row_id@),
            decreases self.entries@.len() - i,
        {
            if str_eq(self.entries[i].0.as_str(), row_id) {
                let id = row_id.to_owned();
                self.entries.set(i, (id, row));
                proof {
                    let post = entry_views(self.entries@);
                    assert(post =~= orig.update(i as int, (orig[i as int].0, post[i as int].1)));
                    lemma_map_of_update_at(orig, i as int, post[i as int].1);
                    assert(keys_sorted(post)) by {
                        assert(forall|j: int|
                            0 <= j < post.len() ==> (#[trigger] post[j]).0 == orig[j].0);
                    }
                }
                return;
            }
            if str_lt(row_id, self.entries[i].0.as_str()) {
                let id = row_id.to_owned();
                let ghost rv = row@;
                self.entries.insert(i, (id, row));
                proof {
                    let post = entry_views(self.entries@);
                    assert(post =~= orig.take(i as int) + seq![(row_id@, rv)] + orig.skip(
                        i as int,
                    ));
                    lemma_sorted_insert_at(orig, i as int, row_id@, rv);
                    lemma_map_of_insert_at(orig, i as int, row_id@, rv);
                }
                return;
            }
            proof {
                lemma_lt_trichotomy(row_id@, orig[i as int].0);
            }
            i += 1;
        }
        let id = row_id.to_owned();
        let ghost rv = row@;
        self.entries.push((id, row));
        proof {
            let post = entry_views(self.entries@);
            assert(post =~= orig.take(orig.len() as int) + seq![(row_id@, rv)] + orig.skip(
                orig.len() as int,
            ));
            lemma_sorted_insert_at(orig, orig.len() as int, row_id@, rv);
            lemma_map_of_insert_at(orig, orig.len() as int, row_id@, rv);
        }
    }

    /// Sets one column of an existing buffered row.
    pub fn set_col(&mut self, row_id: &str, col: &str, val: String)
        requires
            old(self).wf(),
            old(self)@.contains_key(row_id@),
        ensures
            final(self).wf(),
            final(self)@ == old(self)@.insert(row_id@, old(self)@[row_id@].insert(col@, val@)),
            final(self).entries@.len() == old(self).entries@.len(),
    {
        let ghost orig = entry_views(self.entries@);
        proof {
            lemma_sorted_distinct(orig);
        }
        match self.find(row_id) {
            None => {
                proof {
                    assert(false);
                }
            },
            Some(i) => {
                let mut updated = self.entries[i].1.duplicate();
                updated.set(col, val);
                let id = row_id.to_owned();
                self.entries.set(i, (id, updated));
                proof {
                    let post = entry_views(self.entries@);
                    assert(post =~= orig.update(i as int, (orig[i as int].0, updated@)));
                    lemma_map_of_update_at(orig, i as int, updated@);
                    lemma_map_of_get(orig, i as int);
                    assert(keys_sorted(post)) by {
                        assert(forall|j: int|
                            0 <= j < post.len() ==> (#[trigger] post[j]).0 == orig[j].0);
                    }
                }
            },
        }
    }

    /// Removes the row under `row_id`; reports whether one was there.
    pub fn delete(&mut self, row_id: &str) -> (r: bool)
        requires
            old(self).wf(),
        ensures
            final(self).wf(),
            r == old(self)@.contains_key(row_id@),
            final(self)@ == old(self)@.remove(row_id@),
            final(self).entries@.len() == old(self).entries@.len() - (if r {
                1int
            } else {
                0int
            }),
    {
        let ghost orig = entry_views(self.entries@);
        proof {
            lemma_sorted_distinct(orig);
        }
        match self.find(row_id) {
            None => {
                proof {
                    assert(self@ =~= old(self)@.remove(row_id@));
                }
                false
            },
            Some(i) => {
                self.entries.remove(i);
                proof {
                    let post = entry_views(self.entries@);
                    assert(post =~= orig.remove(i as int));
                    lemma_map_of_remove_at(orig, i as int);
                    lemma_sorted_remove_at(orig, i as int);
                    lemma_map_of_get(orig, i as int);
                }
                true
            },
        }
    }

    /// How many rows are buffered.
    pub fn size(&self) -> (r: usize)
        ensures
            r == self.entries@.len(),
    {
        self.entries.len()
    }

    /// Hands out all buffered entries in ascending identifier order and
    /// leaves the buffer empty; segment flushing relies on this order.
    pub fn drain(&mut self) -> (r: Vec<(String, Row)>)
        requires
            old(self).wf(),
        ensures
            r@ == old(self).entries@,
            final(self).wf(),
            final(self)@ == Map::<Seq<char>, Map<Seq<char>, Seq<char>>>::empty(),
            final(self).entries@.len() == 0,
    {
        let mut out: Vec<(String, Row)> = Vec::new();
        core::mem::swap(&mut out, &mut self.entries);
        proof {
            assert(entry_views(self.entries@)
                =~= Seq::<(Seq<char>, Map<Seq<char>, Seq<char>>)>::empty());
            assert(self@ =~= Map::<Seq<char>, Map<Seq<char>, Seq<char>>>::empty());
        }
        out
    }

    /// Empties the buffer.
    pub fn clear(&mut self)
        ensures
            final(self).wf(),
            final(self)@ == Map::<Seq<char>, Map<Seq<char>, Seq<char>>>::empty(),
            final(self).entries@.len() == 0,
    {
        self.entries = Vec::new();
        proof {
            assert(entry_views(self.entries@)
                =~= Seq::<(Seq<char>, Map<Seq<char>, Seq<char>>)>::empty());
            assert(self@ =~= Map::<Seq<char>, Map<Seq<char>, Seq<char>>>::empty());
        }
    }
}

} // verus!
