//! A table schema: the set of recognized column names. Columns are only ever
//! added, never removed, and the backing list is kept in strictly increasing
//! lexicographic order so that exports are deterministic.

use vstd::prelude::*;

use crate::strutil::{char_seq_lt, lemma_lt_transitive, lemma_lt_trichotomy, str_eq, str_lt};

verus! {

/// The views of a sequence of owned strings.
pub open spec fn col_views(s: Seq<String>) -> Seq<Seq<char>> {
    s.map_values(|c: String| c@)
}

/// Strictly increasing lexicographic order.
pub open spec fn cols_sorted(vs: Seq<Seq<char>>) -> bool {
    forall|i: int, j: int| 0 <= i < j < vs.len() ==> char_seq_lt(vs[i], vs[j])
}

/// Where a new column lands in a sorted list: before the first entry that is
/// not smaller, swallowed if that entry equals it.
pub open spec fn sorted_insert(vs: Seq<Seq<char>>, c: Seq<char>) -> Seq<Seq<char>>
    decreases vs.len(),
{
    if vs.len() == 0 {
        seq![c]
    } else if char_seq_lt(c, vs[0]) {
        seq![c] + vs
    } else if c == vs[0] {
        vs
    } else {
        seq![vs[0]] + sorted_insert(vs.skip(1), c)
    }
}

/// `sorted_insert` keeps the order and adds exactly the new column.
pub proof fn lemma_sorted_insert(vs: Seq<Seq<char>>, c: Seq<char>)
    requires
        cols_sorted(vs),
    ensures
        cols_sorted(sorted_insert(vs, c)),
        forall|x: Seq<char>|
            sorted_insert(vs, c).contains(x) <==> (vs.contains(x) || x == c),
        vs.contains(c) ==> sorted_insert(vs, c) == vs,
        !vs.contains(c) ==> sorted_insert(vs, c).len() == vs.len() + 1,
    decreases vs.len(),
{
    if vs.len() == 0 {
        assert forall|x: Seq<char>|
            sorted_insert(vs, c).contains(x) <==> (vs.contains(x) || x == c) by {
            if sorted_insert(vs, c).contains(x) {
                assert(sorted_insert(vs, c)[0] == c);
            }
            if x == c {
                assert(sorted_insert(vs, c)[0] == x);
            }
        }
    } else if char_seq_lt(c, vs[0]) {
        let r = seq![c] + vs;
        assert forall|i: int, j: int| 0 <= i < j < r.len() implies char_seq_lt(r[i], r[j]) by {
            if i == 0 {
                if j > 1 {
                    lemma_lt_transitive(c, vs[0], vs[j - 1]);
                }
            }
        }
        assert forall|x: Seq<char>| r.contains(x) <==> (vs.contains(x) || x == c) by {
            if r.contains(x) {
                let i = choose|i: int| 0 <= i < r.len() && r[i] == x;
                if i > 0 {
                    assert(vs[i - 1] == x);
                }
            }
            if vs.contains(x) {
                let i = choose|i: int| 0 <= i < vs.len() && vs[i] == x;
                assert(r[i + 1] == x);
            }
            if x == c {
                assert(r[0] == x);
            }
        }
        if vs.contains(c) {
            let i = choose|i: int| 0 <= i < vs.len() && vs[i] == c;
            if i > 0 {
                lemma_lt_transitive(c, vs[0], vs[i]);
            }
            lemma_lt_trichotomy(c, vs[i]);
        }
    } else if c == vs[0] {
        assert(vs.contains(c)) by {
            assert(vs[0] == c);
        }
    } else {
        lemma_lt_trichotomy(c, vs[0]);
        assert(char_seq_lt(vs[0], c));
        assert(cols_sorted(vs.skip(1))) by {
            assert(forall|i: int, j: int|
                0 <= i < j < vs.skip(1).len() ==> char_seq_lt(
                    #[trigger] vs.skip(1)[i],
                    #[trigger] vs.skip(1)[j],
                ));
        }
        lemma_sorted_insert(vs.skip(1), c);
        let tail = sorted_insert(vs.skip(1), c);
        let r = seq![vs[0]] + tail;
        assert forall|i: int, j: int| 0 <= i < j < r.len() implies char_seq_lt(r[i], r[j]) by {
            if i == 0 {
                assert(tail.contains(tail[j - 1]));
                if vs.skip(1).contains(tail[j - 1]) {
                    let m = choose|m: int|
                        0 <= m < vs.skip(1).len() && vs.skip(1)[m] == tail[j - 1];
                    assert(vs[m + 1] == tail[j - 1]);
                    assert(char_seq_lt(vs[0], vs[m + 1]));
                } else {
                    assert(tail[j - 1] == c);
                }
            } else {
                assert(char_seq_lt(tail[i - 1], tail[j - 1]));
            }
        }
        assert forall|x: Seq<char>| r.contains(x) <==> (vs.contains(x) || x == c) by {
            if r.contains(x) {
                let i = choose|i: int| 0 <= i < r.len() && r[i] == x;
                if i == 0 {
                    assert(vs[0] == x);
                } else {
                    assert(tail.contains(x)) by {
                        assert(tail[i - 1] == x);
                    }
                    if vs.skip(1).contains(x) {
                        let m = choose|m: int|
                            0 <= m < vs.skip(1).len() && vs.skip(1)[m] == x;
                        assert(vs[m + 1] == x);
                    }
                }
            }
            if vs.contains(x) {
                let i = choose|i: int| 0 <= i < vs.len() && vs[i] == x;
                if i == 0 {
                    assert(r[0] == x);
                } else {
                    assert(vs.skip(1).contains(x)) by {
                        assert(vs.skip(1)[i - 1] == x);
                    }
                    assert(tail.contains(x));
                    let m = choose|m: int| 0 <= m < tail.len() && tail[m] == x;
                    assert(r[m + 1] == x);
                }
            }
            if x == c {
                assert(tail.contains(x));
                let m = choose|m: int| 0 <= m < tail.len() && tail[m] == x;
                assert(r[m + 1] == x);
            }
        }
        if vs.contains(c) {
            assert(vs.skip(1).contains(c)) by {
                let i = choose|i: int| 0 <= i < vs.len() && vs[i] == c;
                assert(i != 0);
                assert(vs.skip(1)[i - 1] == c);
            }
            assert(r =~= vs) by {
                assert(tail == vs.skip(1));
                assert(forall|i: int| 1 <= i < vs.len() ==> r[i] == vs.skip(1)[i - 1]);
            }
        } else {
            assert(!vs.skip(1).contains(c)) by {
                if vs.skip(1).contains(c) {
                    let m = choose|m: int|
                        0 <= m < vs.skip(1).len() && vs.skip(1)[m] == c;
                    assert(vs[m + 1] == c);
                }
            }
        }
    }
}

/// Inserting a column larger than all present ones appends it.
pub proof fn lemma_sorted_insert_append(vs: Seq<Seq<char>>, c: Seq<char>)
    requires
        forall|j: int| 0 <= j < vs.len() ==> char_seq_lt(#[trigger] vs[j], c),
    ensures
        sorted_insert(vs, c) == vs.push(c),
    decreases vs.len(),
{
    if vs.len() == 0 {
        assert(sorted_insert(vs, c) =~= vs.push(c));
    } else {
        lemma_lt_trichotomy(c, vs[0]);
        assert(char_seq_lt(vs[0], c));
        assert(forall|j: int| 0 <= j < vs.skip(1).len() ==> char_seq_lt(
            #[trigger] vs.skip(1)[j],
            c,
        ));
        lemma_sorted_insert_append(vs.skip(1), c);
        assert(seq![vs[0]] + vs.skip(1).push(c) =~= vs.push(c));
    }
}

/// The growable set of column names a table recognizes.
pub struct Schema {
    pub cols: Vec<String>,
}

impl View for Schema {
    type V = Seq<Seq<char>>;

    open spec fn view(&self) -> Seq<Seq<char>> {
        col_views(self.cols@)
    }
}

impl Schema {
    /// Column names are kept strictly sorted, hence distinct.
    pub open spec fn wf(&self) -> bool {
        cols_sorted(self@)
    }

    /// The schema as a set of column names.
    pub open spec fn to_set(&self) -> Set<Seq<char>> {
        self@.to_set()
    }

    /// An empty schema.
    pub fn new() -> (r: Schema)
        ensures
            r.wf(),
            r@ == Seq::<Seq<char>>::empty(),
    {
        let r = Schema { cols: Vec::new() };
        proof {
            assert(r@ =~= Seq::<Seq<char>>::empty());
        }
        r
    }

    /// Whether `col` is a recognized column.
    pub fn contains(&self, col: &str) -> (r: bool)
        ensures
            r == self@.contains(col@),
    {
        let mut i: usize = 0;
        while i < self.cols.len()
            invariant
                i <= self.cols@.len(),
                forall|j: int| 0 <= j < i ==> (#[trigger] self.cols@[j])@ != col@,
            decreases self.cols@.len() - i,
        {
            if str_eq(self.cols[i].as_str(), col) {
                proof {
                    assert(self@[i as int] == col@);
                }
                return true;
            }
            i += 1;
        }
        proof {
            if self@.contains(col@) {
                let j = choose|j: int| 0 <= j < self@.len() && self@[j] == col@;
                assert(self.cols@[j]@ == col@);
            }
        }
        false
    }

    /// Adds `col` to the schema; a column already present stays as it is.
    pub fn add(&mut self, col: &str)
        requires
            old(self).wf(),
        ensures
            final(self).wf(),
            final(self)@ == sorted_insert(old(self)@, col@),
            forall|x: Seq<char>|
                final(self)@.contains(x) <==> (old(self)@.contains(x) || x == col@),
    {
        proof {
            lemma_sorted_insert(self@, col@);
        }
        let ghost orig = self@;
        let mut i: usize = 0;
        proof {
            assert(orig.skip(0) =~= orig);
            assert(orig.take(0) + sorted_insert(orig.skip(0), col@) =~= sorted_insert(
                orig,
                col@,
            ));
        }
        while i < self.cols.len()
            invariant
                orig == old(self)@,
                self@ == orig,
                self.wf(),
                i <= self.cols@.len(),
                forall|j: int| 0 <= j < i ==> char_seq_lt(#[trigger] self.cols@[j]@, col@),
                sorted_insert(orig, col@) == orig.take(i as int) + sorted_insert(
                    orig.skip(i as int),
                    col@,
                ),
            decreases self.cols@.len() - i,
        {
            if str_eq(self.cols[i].as_str(), col) {
                proof {
                    assert(orig.skip(i as int)[0] == col@);
                    assert(sorted_insert(orig.skip(i as int), col@) == orig.skip(i as int)) by {
                        lemma_lt_trichotomy(col@, orig.skip(i as int)[0]);
                    }
                    assert(orig.take(i as int) + orig.skip(i as int) =~= orig);
                    assert(self@ == sorted_insert(orig, col@));
                }
                return;
            }
            if str_lt(col, self.cols[i].as_str()) {
                let c = col.to_owned();
                self.cols.insert(i, c);
                proof {
                    assert(orig.skip(i as int)[0] == orig[i as int]);
                    assert(sorted_insert(orig.skip(i as int), col@) == seq![col@] + orig.skip(
                        i as int,
                    ));
                    assert(self@ =~= orig.take(i as int) + (seq![col@] + orig.skip(i as int)));
                    assert(self@ == sorted_insert(orig, col@));
                    lemma_sorted_insert(orig, col@);
                }
                return;
            }
            proof {
                let rest = orig.skip(i as int);
                assert(rest[0] == orig[i as int]);
                lemma_lt_trichotomy(col@, rest[0]);
                assert(char_seq_lt(rest[0], col@));
                assert(sorted_insert(rest, col@) == seq![rest[0]] + sorted_insert(
                    rest.skip(1),
                    col@,
                ));
                assert(rest.skip(1) =~= orig.skip(i + 1));
                assert(orig.take(i + 1) =~= orig.take(i as int) + seq![orig[i as int]]);
                assert(orig.take(i + 1) + sorted_insert(orig.skip(i + 1), col@) =~= orig.take(
                    i as int,
                ) + (seq![rest[0]] + sorted_insert(rest.skip(1), col@)));
            }
            i += 1;
        }
        let c = col.to_owned();
        self.cols.push(c);
        proof {
            assert(orig.skip(orig.len() as int) =~= Seq::<Seq<char>>::empty());
            assert(sorted_insert(orig.skip(orig.len() as int), col@) =~= seq![col@]);
            assert(orig.take(orig.len() as int) =~= orig);
            assert(self@ =~= orig + seq![col@]);
            assert(self@ =~= orig.take(orig.len() as int) + sorted_insert(
                orig.skip(orig.len() as int),
                col@,
            ));
            lemma_sorted_insert(orig, col@);
        }
    }

    /// How many columns the schema holds.
    pub fn len(&self) -> (r: usize)
        ensures
            r == self@.len(),
    {
        self.cols.len()
    }
}

} // verus!
