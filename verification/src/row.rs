//! A row: a mapping from column names to string values, stored as an
//! association list with distinct keys and viewed as a `Map`.

use vstd::prelude::*;

use crate::assoc::{keys_distinct, lemma_map_of_contains, lemma_map_of_get, map_of};
use crate::strutil::str_eq;

verus! {

/// The views of a sequence of owned string pairs.
pub open spec fn pair_views(s: Seq<(String, String)>) -> Seq<(Seq<char>, Seq<char>)> {
    s.map_values(|p: (String, String)| (p.0@, p.1@))
}

/// One table row: column name to value, every value an opaque string.
pub struct Row {
    pub cols: Vec<(String, String)>,
}

impl View for Row {
    type V = Map<Seq<char>, Seq<char>>;

    open spec fn view(&self) -> Map<Seq<char>, Seq<char>> {
        map_of(pair_views(self.cols@))
    }
}

impl Row {
    /// Column names are stored at most once.
    pub open spec fn wf(&self) -> bool {
        keys_distinct(pair_views(self.cols@))
    }

    /// An empty row.
    pub fn new() -> (r: Row)
        ensures
            r.wf(),
            r@ == Map::<Seq<char>, Seq<char>>::empty(),
    {
        let r = Row { cols: Vec::new() };
        proof {
            assert(pair_views(r.cols@) =~= Seq::<(Seq<char>, Seq<char>)>::empty());
        }
        r
    }

    /// Position of a column in the backing list, if present.
    fn find(&self, col: &str) -> (r: Option<usize>)
        ensures
            match r {
                Some(i) => i < self.cols@.len() && self.cols@[i as int].0@ == col@,
                None => !self@.contains_key(col@),
            },
    {
        let mut i: usize = 0;
        while i < self.cols.len()
            invariant
                i <= self.cols@.len(),
                forall|j: int| 0 <= j < i ==> (#[trigger] self.cols@[j]).0@ != col@,
            decreases self.cols@.len() - i,
        {
            if str_eq(self.cols[i].0.as_str(), col) {
                return Some(i);
            }
            i += 1;
        }
        proof {
            lemma_map_of_contains(pair_views(self.cols@), col@);
            assert(forall|j: int|
                0 <= j < self.cols@.len() ==> (#[trigger] pair_views(self.cols@)[j]).0
                    == self.cols@[j].0@);
        }
        None
    }

    /// The value stored under `col`, if any.
    pub fn get(&self, col: &str) -> (r: Option<&String>)
        requires
            self.wf(),
        ensures
            match r {
                Some(v) => self@.contains_key(col@) && v@ == self@[col@],
                None => !self@.contains_key(col@),
            },
    {
        match self.find(col) {
            None => None,
            Some(i) => {
                proof {
                    lemma_map_of_get(pair_views(self.cols@), i as int);
                }
                Some(&self.cols[i].1)
            },
        }
    }

    /// Sets `col` to `val`, replacing any previous value.
    pub fn set(&mut self, col: &str, val: String)
        requires
            old(self).wf(),
        ensures
            final(self).wf(),
            final(self)@ == old(self)@.insert(col@, val@),
    {
        let ghost pre = pair_views(self.cols@);
        match self.find(col) {
            Some(i) => {
                let name = col.to_owned();
                self.cols.set(i, (name, val));
                proof {
                    let post = pair_views(self.cols@);
                    assert(forall|j: int|
                        0 <= j < post.len() && j != i ==> post[j] == pre[j]);
                    assert(pre[i as int].0 == col@);
                    assert(post[i as int].0 == col@);
                    assert forall|a: int, b: int| 0 <= a < b < post.len() implies post[a].0
                        != post[b].0 by {
                        assert(post[a].0 == pre[a].0);
                        assert(post[b].0 == pre[b].0);
                    }
                    assert(self.wf());
                    assert forall|k: Seq<char>| #[trigger]
                        self@.contains_key(k) || old(self)@.insert(col@, val@).contains_key(k)
                        implies self@.contains_key(k) == old(self)@.insert(
                        col@,
                        val@,
                    ).contains_key(k) && (self@.contains_key(k) ==> self@[k] == old(self)@.insert(
                        col@,
                        val@,
                    )[k]) by {
                        lemma_map_of_contains(pre, k);
                        lemma_map_of_contains(post, k);
                        if post.contains(post[i as int]) {
                        }
                        if k == col@ {
                            lemma_map_of_get(post, i as int);
                        } else {
                            if self@.contains_key(k) {
                                let j = choose|j: int|
                                    0 <= j < post.len() && post[j].0 == k;
                                lemma_map_of_get(post, j);
                                lemma_map_of_get(pre, j);
                            }
                            if old(self)@.contains_key(k) {
                                let j = choose|j: int|
                                    0 <= j < pre.len() && pre[j].0 == k;
                                lemma_map_of_get(pre, j);
                                lemma_map_of_get(post, j);
                            }
                        }
                    }
                    assert(self@ =~= old(self)@.insert(col@, val@));
                }
            },
            None => {
                let name = col.to_owned();
                self.cols.push((name, val));
                proof {
                    let post = pair_views(self.cols@);
                    assert(post =~= pre.push((col@, val@)));
                    assert(post.drop_last() =~= pre);
                    lemma_map_of_contains(pre, col@);
                    assert(self.wf());
                    assert(self@ =~= old(self)@.insert(col@, val@));
                }
            },
        }
    }

    /// Merges `data` into this row: every listed column takes the listed
    /// value, later pairs winning; other columns keep their values.
    pub fn merge(&mut self, data: &Vec<(String, String)>)
        requires
            old(self).wf(),
        ensures
            final(self).wf(),
            final(self)@ == old(self)@.union_prefer_right(map_of(pair_views(data@))),
    {
        let mut i: usize = 0;
        while i < data.len()
            invariant
                old(self).wf(),
                self.wf(),
                i <= data@.len(),
                self@ == old(self)@.union_prefer_right(map_of(pair_views(data@.take(i as int)))),
            decreases data@.len() - i,
        {
            let ghost pre = self@;
            let v = data[i].1.clone();
            self.set(data[i].0.as_str(), v);
            proof {
                assert(pair_views(data@.take(i + 1)) =~= pair_views(data@.take(i as int)).push(
                    (data@[i as int].0@, data@[i as int].1@),
                ));
                assert(pair_views(data@.take(i + 1)).drop_last() =~= pair_views(
                    data@.take(i as int),
                ));
                assert(map_of(pair_views(data@.take(i + 1))) == map_of(
                    pair_views(data@.take(i as int)),
                ).insert(data@[i as int].0@, data@[i as int].1@));
                assert(self@ =~= old(self)@.union_prefer_right(
                    map_of(pair_views(data@.take(i + 1))),
                ));
            }
            i += 1;
        }
        proof {
            assert(data@.take(data@.len() as int) =~= data@);
        }
    }

    /// An owned copy of this row.
    pub fn duplicate(&self) -> (r: Row)
        requires
            self.wf(),
        ensures
            r.wf(),
            r@ == self@,
    {
        let mut cols: Vec<(String, String)> = Vec::new();
        let mut i: usize = 0;
        while i < self.cols.len()
            invariant
                i <= self.cols@.len(),
                pair_views(cols@) == pair_views(self.cols@.take(i as int)),
            decreases self.cols@.len() - i,
        {
            let c0 = self.cols[i].0.clone();
            let c1 = self.cols[i].1.clone();
            cols.push((c0, c1));
            proof {
                assert(c0@ == self.cols@[i as int].0@);
                assert(c1@ == self.cols@[i as int].1@);
                assert(pair_views(cols@) =~= pair_views(self.cols@.take(i as int)).push(
                    (c0@, c1@),
                ));
                assert(pair_views(cols@) =~= pair_views(self.cols@.take(i + 1)));
            }
            i += 1;
        }
        proof {
            assert(self.cols@.take(self.cols@.len() as int) =~= self.cols@);
        }
        Row { cols }
    }
}

} // verus!
