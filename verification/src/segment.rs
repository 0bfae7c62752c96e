//! Immutable sorted segments: the on-disk form of a flushed memtable, and
//! the compaction that merges several segments into one. A table's segments
//! carry strictly increasing sequence numbers; for a row present in several
//! segments the one with the highest sequence number wins.

use vstd::prelude::*;

use crate::assoc::{
    keys_sorted, lemma_map_of_contains, lemma_map_of_get, lemma_sorted_distinct, map_of,
};
use crate::memtable::{entries_wf, entry_views, MemTable};
use crate::row::{pair_views, Row};
use crate::strutil::{
    join_all, join_spec, lemma_split_join, lemma_split_unique, sep_free, split_all, split_first,
    split_spec, str_eq, str_lt,
};

verus! {

/// One immutable, identifier-sorted snapshot of flushed rows.
pub struct Segment {
    pub seq_no: u64,
    pub rows: Vec<(String, Row)>,
}

impl View for Segment {
    type V = Map<Seq<char>, Map<Seq<char>, Seq<char>>>;

    open spec fn view(&self) -> Map<Seq<char>, Map<Seq<char>, Seq<char>>> {
        map_of(entry_views(self.rows@))
    }
}

impl Segment {
    /// Rows are strictly sorted by identifier and well-formed.
    pub open spec fn wf(&self) -> bool {
        keys_sorted(entry_views(self.rows@)) && entries_wf(self.rows@)
    }

    /// The stored row under `row_id`, if any.
    pub fn get(&self, row_id: &str) -> (r: Option<&Row>)
        requires
            self.wf(),
        ensures
            match r {
                Some(row) => self@.contains_key(row_id@) && row@ == self@[row_id@] && row.wf(),
                None => !self@.contains_key(row_id@),
            },
    {
        let mut i: usize = 0;
        while i < self.rows.len()
            invariant
                self.wf(),
                i <= self.rows@.len(),
                forall|j: int| 0 <= j < i ==> (#[trigger] self.rows@[j]).0@ != row_id@,
            decreases self.rows@.len() - i,
        {
            if str_eq(self.rows[i].0.as_str(), row_id) {
                proof {
                    lemma_sorted_distinct(entry_views(self.rows@));
                    lemma_map_of_get(entry_views(self.rows@), i as int);
                }
                return Some(&self.rows[i].1);
            }
            i += 1;
        }
        proof {
            lemma_map_of_contains(entry_views(self.rows@), row_id@);
        }
        None
    }
}

/// The row a stack of segments shows for `row_id`: the newest segment that
/// holds the identifier decides.
pub open spec fn store_lookup(segs: Seq<Segment>, row_id: Seq<char>) -> Option<
    Map<Seq<char>, Seq<char>>,
>
    decreases segs.len(),
{
    if segs.len() == 0 {
        None
    } else if segs.last()@.contains_key(row_id) {
        Some(segs.last()@[row_id])
    } else {
        store_lookup(segs.drop_last(), row_id)
    }
}

/// Everything a stack of segments shows, as one map: newer segments shadow
/// older ones wholesale.
pub open spec fn store_merged(segs: Seq<Segment>) -> Map<Seq<char>, Map<Seq<char>, Seq<char>>>
    decreases segs.len(),
{
    if segs.len() == 0 {
        Map::empty()
    } else {
        store_merged(segs.drop_last()).union_prefer_right(segs.last()@)
    }
}

/// `store_lookup` reads off `store_merged`.
pub proof fn lemma_store_lookup_merged(segs: Seq<Segment>, row_id: Seq<char>)
    ensures
        store_lookup(segs, row_id) == (if store_merged(segs).contains_key(row_id) {
            Some(store_merged(segs)[row_id])
        } else {
            None::<Map<Seq<char>, Seq<char>>>
        }),
    decreases segs.len(),
{
    if segs.len() > 0 {
        lemma_store_lookup_merged(segs.drop_last(), row_id);
    }
}

/// The collection of segments one table owns, oldest first.
pub struct SegmentStore {
    pub segs: Vec<Segment>,
}

impl SegmentStore {
    /// Segments are well-formed and their sequence numbers strictly increase.
    pub open spec fn wf(&self) -> bool {
        &&& forall|i: int| 0 <= i < self.segs@.len() ==> (#[trigger] self.segs@[i]).wf()
        &&& forall|i: int, j: int|
            0 <= i < j < self.segs@.len() ==> self.segs@[i].seq_no < self.segs@[j].seq_no
    }

    /// No segments yet.
    pub fn new() -> (r: SegmentStore)
        ensures
            r.wf(),
            r.segs@.len() == 0,
    {
        SegmentStore { segs: Vec::new() }
    }

    /// The row the store shows for `row_id`, scanning segments newest first.
    pub fn lookup(&self, row_id: &str) -> (r: Option<Row>)
        requires
            self.wf(),
        ensures
            match r {
                Some(row) => store_lookup(self.segs@, row_id@) == Some(row@) && row.wf(),
                None => store_lookup(self.segs@, row_id@) is None,
            },
    {
        let mut i: usize = self.segs.len();
        proof {
            assert(self.segs@.take(i as int) =~= self.segs@);
        }
        while i > 0
            invariant
                self.wf(),
                i <= self.segs@.len(),
                store_lookup(self.segs@, row_id@) == store_lookup(
                    self.segs@.take(i as int),
                    row_id@,
                ),
            decreases i,
        {
            i -= 1;
            match self.segs[i].get(row_id) {
                Some(row) => {
                    proof {
                        assert(self.segs@.take(i + 1).last() == self.segs@[i as int]);
                    }
                    return Some(row.duplicate());
                },
                None => {
                    proof {
                        assert(self.segs@.take(i + 1).last() == self.segs@[i as int]);
                        assert(self.segs@.take(i + 1).drop_last() =~= self.segs@.take(i as int));
                    }
                },
            }
        }
        proof {
            assert(self.segs@.take(0) =~= Seq::<Segment>::empty());
        }
        None
    }

    /// The segments themselves, for iteration in sequence-number order.
    pub fn list(&self) -> (r: &Vec<Segment>)
        ensures
            r == &self.segs,
    {
        &self.segs
    }

    /// How many segments the store holds.
    pub fn count(&self) -> (r: usize)
        ensures
            r == self.segs@.len(),
    {
        self.segs.len()
    }

    /// Adds a freshly flushed segment, which must be newer than all others.
    pub fn add(&mut self, seg: Segment)
        requires
            old(self).wf(),
            seg.wf(),
            forall|i: int|
                0 <= i < old(self).segs@.len() ==> (#[trigger] old(self).segs@[i]).seq_no
                    < seg.seq_no,
        ensures
            final(self).wf(),
            final(self).segs@ == old(self).segs@.push(seg),
    {
        self.segs.push(seg);
    }
}

/// The text of one column/value pair in a segment file.
pub open spec fn seg_pair_text(p: (Seq<char>, Seq<char>)) -> Seq<char> {
    p.0 + seq!['='] + p.1
}

/// One row's line in a segment file: the identifier, then its pairs.
pub open spec fn seg_row_line(id: Seq<char>, pairs: Seq<(Seq<char>, Seq<char>)>) -> Seq<char> {
    id + seq![':'] + join_spec(pairs.map_values(|p: (Seq<char>, Seq<char>)| seg_pair_text(p)), ',')
}

/// A whole segment file: one line per row, in stored order.
pub open spec fn segment_lines_spec(rows: Seq<(String, Row)>) -> Seq<Seq<char>> {
    Seq::new(rows.len(), |k: int| seg_row_line(rows[k].0@, pair_views(rows[k].1.cols@)))
}

/// Names the segment line format can carry: the identifier free of the field
/// separator, column names free of both pair separators, values free of the
/// pair-list separator.
pub open spec fn seg_row_wf(id: Seq<char>, pairs: Seq<(Seq<char>, Seq<char>)>) -> bool {
    &&& sep_free(id, ':')
    &&& forall|j: int|
        0 <= j < pairs.len() ==> sep_free((#[trigger] pairs[j]).0, '=') && sep_free(
            pairs[j].0,
            ',',
        ) && sep_free(pairs[j].1, ',')
}

/// Every row of the list fits the segment line format.
pub open spec fn seg_rows_wf(rows: Seq<(String, Row)>) -> bool {
    forall|k: int|
        0 <= k < rows.len() ==> seg_row_wf(
            (#[trigger] rows[k]).0@,
            pair_views(rows[k].1.cols@),
        )
}

/// Renders a segment as its file lines, one row per line.
#[verifier::loop_isolation(false)]
pub fn encode_segment(seg: &Segment) -> (r: Vec<String>)
    ensures
        crate::wal::line_views(r@) == segment_lines_spec(seg.rows@),
{
    proof {
        reveal_strlit(",");
        reveal_strlit(":");
        reveal_strlit("=");
        assert(","@ =~= seq![',']);
        assert(":"@ =~= seq![':']);
        assert("="@ =~= seq!['=']);
    }
    let mut out: Vec<String> = Vec::new();
    let mut k: usize = 0;
    proof {
        assert(crate::wal::line_views(out@) =~= segment_lines_spec(seg.rows@).take(0));
    }
    while k < seg.rows.len()
        invariant
            k <= seg.rows@.len(),
            crate::wal::line_views(out@) == segment_lines_spec(seg.rows@).take(k as int),
        decreases seg.rows@.len() - k,
    {
        let ghost pairs = pair_views(seg.rows@[k as int].1.cols@);
        let ghost texts = pairs.map_values(|p: (Seq<char>, Seq<char>)| seg_pair_text(p));
        let mut pieces: Vec<String> = Vec::new();
        let mut j: usize = 0;
        proof {
            assert(pieces@.map_values(|p: String| p@) =~= texts.take(0));
        }
        while j < seg.rows[k].1.cols.len()
            invariant
                k < seg.rows@.len(),
                pairs == pair_views(seg.rows@[k as int].1.cols@),
                texts == pairs.map_values(|p: (Seq<char>, Seq<char>)| seg_pair_text(p)),
                j <= pairs.len(),
                pieces@.map_values(|p: String| p@) == texts.take(j as int),
            decreases pairs.len() - j,
        {
            let mut piece = String::new();
            piece.append(seg.rows[k].1.cols[j].0.as_str());
            piece.append("=");
            piece.append(seg.rows[k].1.cols[j].1.as_str());
            let ghost prevp = pieces@.map_values(|p: String| p@);
            proof {
                assert(piece@ == seg_pair_text(pairs[j as int]));
                assert(texts[j as int] == seg_pair_text(pairs[j as int]));
            }
            pieces.push(piece);
            proof {
                assert(pieces@.map_values(|p: String| p@) =~= prevp.push(texts[j as int]));
                assert(texts.take(j + 1) =~= texts.take(j as int).push(texts[j as int]));
            }
            j += 1;
        }
        proof {
            assert(texts.take(texts.len() as int) =~= texts);
        }
        let joined = join_all(&pieces, ',', ",");
        let mut line = String::new();
        line.append(seg.rows[k].0.as_str());
        line.append(":");
        line.append(joined.as_str());
        let ghost prevl = crate::wal::line_views(out@);
        proof {
            assert(line@ =~= seg_row_line(seg.rows@[k as int].0@, pairs));
        }
        out.push(line);
        proof {
            assert(crate::wal::line_views(out@) =~= prevl.push(line@));
            assert(segment_lines_spec(seg.rows@).take(k + 1) =~= segment_lines_spec(
                seg.rows@,
            ).take(k as int).push(segment_lines_spec(seg.rows@)[k as int]));
            assert(crate::wal::line_views(out@) =~= segment_lines_spec(seg.rows@).take(k + 1));
        }
        k += 1;
    }
    proof {
        assert(segment_lines_spec(seg.rows@).take(seg.rows@.len() as int) =~= segment_lines_spec(
            seg.rows@,
        ));
    }
    out
}

/// A segment line decomposes in only one way into an identifier and
/// well-formed pairs.
proof fn lemma_seg_line_unique(
    id1: Seq<char>,
    ps1: Seq<(Seq<char>, Seq<char>)>,
    id2: Seq<char>,
    ps2: Seq<(Seq<char>, Seq<char>)>,
)
    requires
        seg_row_wf(id1, ps1),
        seg_row_wf(id2, ps2),
        seg_row_line(id1, ps1) == seg_row_line(id2, ps2),
    ensures
        id1 == id2,
        ps1 == ps2,
{
    let t1 = ps1.map_values(|p: (Seq<char>, Seq<char>)| seg_pair_text(p));
    let t2 = ps2.map_values(|p: (Seq<char>, Seq<char>)| seg_pair_text(p));
    lemma_split_unique(id1, join_spec(t1, ','), id2, join_spec(t2, ','), ':');
    assert forall|j: int| 0 <= j < t1.len() implies sep_free(#[trigger] t1[j], ',') by {
        assert(t1[j] == ps1[j].0 + seq!['='] + ps1[j].1);
    }
    assert forall|j: int| 0 <= j < t2.len() implies sep_free(#[trigger] t2[j], ',') by {
        assert(t2[j] == ps2[j].0 + seq!['='] + ps2[j].1);
    }
    if ps1.len() == 0 && ps2.len() == 0 {
        assert(ps1 =~= ps2);
    } else if ps1.len() == 0 {
        assert(join_spec(t1, ',') =~= Seq::<char>::empty());
        lemma_split_join(t2, ',');
        assert(sep_free(Seq::<char>::empty(), ','));
        assert(split_spec(Seq::<char>::empty(), ',') =~= seq![Seq::<char>::empty()]);
        assert(t2 =~= seq![Seq::<char>::empty()]);
        assert(t2[0].len() == ps2[0].0.len() + 1 + ps2[0].1.len());
        assert(false);
    } else if ps2.len() == 0 {
        assert(join_spec(t2, ',') =~= Seq::<char>::empty());
        lemma_split_join(t1, ',');
        assert(split_spec(Seq::<char>::empty(), ',') =~= seq![Seq::<char>::empty()]);
        assert(t1 =~= seq![Seq::<char>::empty()]);
        assert(t1[0].len() == ps1[0].0.len() + 1 + ps1[0].1.len());
        assert(false);
    } else {
        lemma_split_join(t1, ',');
        lemma_split_join(t2, ',');
        assert(t1 == t2);
        assert forall|j: int| 0 <= j < ps1.len() implies ps1[j] == ps2[j] by {
            assert(t1[j] == ps1[j].0 + seq!['='] + ps1[j].1);
            assert(t2[j] == ps2[j].0 + seq!['='] + ps2[j].1);
            lemma_split_unique(ps1[j].0, ps1[j].1, ps2[j].0, ps2[j].1, '=');
        }
        assert(ps1 =~= ps2);
    }
}

/// Reads a segment back from its file lines. Decoding validates what a
/// segment file promises — identifiers strictly ascending — and on the lines
/// `encode_segment` wrote for a well-formed segment it returns a segment
/// showing exactly the same rows.
#[verifier::loop_isolation(false)]
#[verifier::rlimit(100)]
pub fn decode_segment(lines: &Vec<String>, seq_no: u64) -> (r: Option<Segment>)
    ensures
        r matches Some(d) ==> d.wf() && d.seq_no == seq_no,
        forall|s: Segment|
            (s.wf() && s.seq_no == seq_no && seg_rows_wf(s.rows@) && crate::wal::line_views(
                lines@,
            ) == segment_lines_spec(s.rows@)) ==> (r matches Some(d) && d@ == s@),
{
    let mut rows: Vec<(String, Row)> = Vec::new();
    let ghost mut ids: Seq<Seq<char>> = Seq::empty();
    let ghost mut decs: Seq<Seq<(Seq<char>, Seq<char>)>> = Seq::empty();
    let mut k: usize = 0;
    proof {
        assert(entry_views(rows@) =~= Seq::<(Seq<char>, Map<Seq<char>, Seq<char>>)>::empty());
    }
    while k < lines.len()
        invariant
            k <= lines@.len(),
            rows@.len() == k,
            ids.len() == k,
            decs.len() == k,
            keys_sorted(entry_views(rows@)),
            entries_wf(rows@),
            forall|k2: int| 0 <= k2 < k ==> (#[trigger] rows@[k2]).0@ == ids[k2],
            forall|k2: int| 0 <= k2 < k ==> (#[trigger] rows@[k2]).1@ == map_of(decs[k2]),
            forall|k2: int| 0 <= k2 < k ==> seg_row_wf(ids[k2], #[trigger] decs[k2]),
            forall|k2: int|
                0 <= k2 < k ==> lines@[k2]@ == seg_row_line(ids[k2], #[trigger] decs[k2]),
        decreases lines@.len() - k,
    {
        let line = lines[k].as_str();
        let (id, tail) = match split_first(line, ':') {
            None => {
                proof {
                    assert forall|s: Segment|
                        (s.wf() && s.seq_no == seq_no && seg_rows_wf(s.rows@)
                            && crate::wal::line_views(lines@) == segment_lines_spec(s.rows@))
                        implies false by {
                        assert(crate::wal::line_views(lines@).len() == lines@.len());
                        assert(segment_lines_spec(s.rows@).len() == s.rows@.len());
                        assert(s.rows@.len() == lines@.len());
                        assert(crate::wal::line_views(lines@)[k as int] == lines@[k as int]@);
                        assert(segment_lines_spec(s.rows@)[k as int] == seg_row_line(
                            s.rows@[k as int].0@,
                            pair_views(s.rows@[k as int].1.cols@),
                        ));
                        assert(line@[s.rows@[k as int].0@.len() as int] == ':');
                    }
                }
                return None;
            },
            Some(p) => p,
        };
        let mut row = Row::new();
        let ghost mut dec: Seq<(Seq<char>, Seq<char>)> = Seq::empty();
        if tail.unicode_len() > 0 {
            let ps = split_all(tail, ',');
            let ghost psv = ps@.map_values(|p: String| p@);
            let mut j: usize = 0;
            while j < ps.len()
                invariant
                    j <= ps@.len(),
                    psv == ps@.map_values(|p: String| p@),
                    row.wf(),
                    dec.len() == j,
                    row@ == map_of(dec),
                    forall|j2: int|
                        0 <= j2 < j ==> psv[j2] == seg_pair_text(#[trigger] dec[j2])
                            && sep_free(dec[j2].0, '='),
                decreases ps@.len() - j,
            {
                let (c, v) = match split_first(ps[j].as_str(), '=') {
                    None => {
                        proof {
                            assert forall|s: Segment|
                                (s.wf() && s.seq_no == seq_no && seg_rows_wf(s.rows@)
                                    && crate::wal::line_views(lines@) == segment_lines_spec(
                                    s.rows@,
                                )) implies false by {
                                let sid = s.rows@[k as int].0@;
                                let sps = pair_views(s.rows@[k as int].1.cols@);
                                let texts = sps.map_values(
                                    |p: (Seq<char>, Seq<char>)| seg_pair_text(p),
                                );
                                assert(crate::wal::line_views(lines@).len() == lines@.len());
                                assert(segment_lines_spec(s.rows@).len() == s.rows@.len());
                                assert(s.rows@.len() == lines@.len());
                                assert(crate::wal::line_views(lines@)[k as int] == lines@[k as int]@);
                                assert(segment_lines_spec(s.rows@)[k as int] == seg_row_line(
                                    sid,
                                    sps,
                                ));
                                assert(seg_row_wf(sid, sps));
                                assert(line@ == sid + seq![':'] + join_spec(texts, ','));
                                lemma_split_unique(id@, tail@, sid, join_spec(texts, ','), ':');
                                assert forall|j3: int| 0 <= j3 < texts.len() implies sep_free(
                                    #[trigger] texts[j3],
                                    ',',
                                ) by {
                                    assert(texts[j3] == seg_pair_text(sps[j3]));
                                    assert(sep_free(sps[j3].0, ',') && sep_free(sps[j3].1, ','));
                                    assert forall|i: int| 0 <= i < texts[j3].len() implies
                                        texts[j3][i] != ',' by {
                                        if i < sps[j3].0.len() {
                                            assert(texts[j3][i] == sps[j3].0[i]);
                                        } else if i == sps[j3].0.len() {
                                            assert(texts[j3][i] == '=');
                                        } else {
                                            assert(texts[j3][i] == sps[j3].1[i - sps[j3].0.len()
                                                - 1]);
                                        }
                                    }
                                }
                                if sps.len() == 0 {
                                    assert(tail@ =~= Seq::<char>::empty());
                                } else {
                                    lemma_split_join(texts, ',');
                                    assert(psv == split_spec(tail@, ','));
                                    assert(psv[j as int] == texts[j as int]);
                                    assert(texts[j as int] == sps[j as int].0 + seq!['=']
                                        + sps[j as int].1);
                                    assert(psv[j as int][sps[j as int].0.len() as int] == '=');
                                }
                            }
                        }
                        return None;
                    },
                    Some(p) => p,
                };
                row.set(c, v.to_owned());
                proof {
                    let pre_dec = dec;
                    dec = pre_dec.push((c@, v@));
                    assert(dec.drop_last() =~= pre_dec);
                    assert(dec.last() == (c@, v@));
                    assert(map_of(dec) == map_of(pre_dec).insert(c@, v@));
                    assert(psv[j as int] == seg_pair_text((c@, v@)));
                }
                j += 1;
            }
            proof {
                let texts = dec.map_values(|p: (Seq<char>, Seq<char>)| seg_pair_text(p));
                assert(texts =~= psv);
                crate::strutil::lemma_join_split(tail@, ',');
                assert(join_spec(texts, ',') == tail@);
                crate::strutil::lemma_split_pieces_free(tail@, ',');
                assert forall|j2: int| 0 <= j2 < dec.len() implies sep_free(
                    (#[trigger] dec[j2]).0,
                    ',',
                ) && sep_free(dec[j2].1, ',') by {
                    assert(sep_free(psv[j2], ',')) by {
                        assert(psv[j2] == split_spec(tail@, ',')[j2]);
                    }
                    assert(psv[j2] == dec[j2].0 + seq!['='] + dec[j2].1);
                    assert forall|i: int| 0 <= i < dec[j2].0.len() implies dec[j2].0[i] != ','
                        by {
                        assert(psv[j2][i] == dec[j2].0[i]);
                    }
                    assert forall|i: int| 0 <= i < dec[j2].1.len() implies dec[j2].1[i] != ','
                        by {
                        assert(psv[j2][dec[j2].0.len() + 1 + i] == dec[j2].1[i]);
                    }
                }
                assert(seg_row_wf(id@, dec));
            }
        } else {
            proof {
                assert(tail@ =~= Seq::<char>::empty());
                let texts = dec.map_values(|p: (Seq<char>, Seq<char>)| seg_pair_text(p));
                assert(texts =~= Seq::<Seq<char>>::empty());
                assert(join_spec(texts, ',') == tail@);
                assert(seg_row_wf(id@, dec));
                assert(row@ =~= map_of(dec));
            }
        }
        let in_order = if rows.len() == 0 {
            true
        } else {
            str_lt(rows[rows.len() - 1].0.as_str(), id)
        };
        if !in_order {
            proof {
                assert forall|s: Segment|
                    (s.wf() && s.seq_no == seq_no && seg_rows_wf(s.rows@)
                        && crate::wal::line_views(lines@) == segment_lines_spec(s.rows@))
                    implies false by {
                    assert(crate::wal::line_views(lines@).len() == lines@.len());
                    assert(segment_lines_spec(s.rows@).len() == s.rows@.len());
                    assert(s.rows@.len() == lines@.len());
                    assert(crate::wal::line_views(lines@)[k as int] == lines@[k as int]@);
                    assert(crate::wal::line_views(lines@)[k - 1] == lines@[k - 1]@);
                    let sid = s.rows@[k as int].0@;
                    let sps = pair_views(s.rows@[k as int].1.cols@);
                    assert(segment_lines_spec(s.rows@)[k as int] == seg_row_line(sid, sps));
                    assert(seg_row_wf(sid, sps));
                    assert(lines@[k as int]@ == seg_row_line(id@, dec));
                    lemma_seg_line_unique(id@, dec, sid, sps);
                    let pid = s.rows@[k - 1].0@;
                    let pps = pair_views(s.rows@[k - 1].1.cols@);
                    assert(seg_row_wf(pid, pps));
                    assert(lines@[k - 1]@ == seg_row_line(pid, pps)) by {
                        assert(segment_lines_spec(s.rows@)[k - 1] == seg_row_line(pid, pps));
                    }
                    lemma_seg_line_unique(ids[k - 1], decs[k - 1], pid, pps);
                    assert(rows@[k - 1].0@ == pid);
                    assert(entry_views(s.rows@)[k - 1].0 == pid);
                    assert(entry_views(s.rows@)[k as int].0 == sid);
                    assert(crate::strutil::char_seq_lt(
                        entry_views(s.rows@)[k - 1].0,
                        entry_views(s.rows@)[k as int].0,
                    ));
                }
            }
            return None;
        }
        let ghost pre_entries = entry_views(rows@);
        let id_owned = id.to_owned();
        rows.push((id_owned, row));
        proof {
            assert(lines@[k as int]@ == seg_row_line(id@, dec));
            assert(entry_views(rows@) =~= pre_entries.push((id@, map_of(dec))));
            assert forall|a: int, b: int|
                0 <= a < b < entry_views(rows@).len() implies crate::strutil::char_seq_lt(
                entry_views(rows@)[a].0,
                entry_views(rows@)[b].0,
            ) by {
                let ev = entry_views(rows@);
                if b < ev.len() - 1 {
                    assert(pre_entries[a].0 == ev[a].0 && pre_entries[b].0 == ev[b].0);
                } else {
                    assert(ev[b].0 == id@);
                    if a < ev.len() - 2 {
                        assert(pre_entries[a].0 == ev[a].0);
                        crate::strutil::lemma_lt_transitive(
                            ev[a].0,
                            pre_entries[pre_entries.len() - 1].0,
                            id@,
                        );
                    }
                }
            }
            ids = ids.push(id@);
            decs = decs.push(dec);
        }
        k += 1;
    }
    let d = Segment { seq_no, rows };
    proof {
        assert forall|s: Segment|
            (s.wf() && s.seq_no == seq_no && seg_rows_wf(s.rows@) && crate::wal::line_views(
                lines@,
            ) == segment_lines_spec(s.rows@)) implies d@ == s@ by {
            assert(crate::wal::line_views(lines@).len() == lines@.len());
            assert(segment_lines_spec(s.rows@).len() == s.rows@.len());
            assert(s.rows@.len() == lines@.len());
            assert forall|k2: int| 0 <= k2 < lines@.len() implies entry_views(d.rows@)[k2]
                == entry_views(s.rows@)[k2] by {
                let sid = s.rows@[k2].0@;
                let sps = pair_views(s.rows@[k2].1.cols@);
                assert(seg_row_wf(sid, sps));
                assert(crate::wal::line_views(lines@)[k2] == lines@[k2]@);
                assert(lines@[k2]@ == seg_row_line(sid, sps)) by {
                    assert(segment_lines_spec(s.rows@)[k2] == seg_row_line(sid, sps));
                }
                lemma_seg_line_unique(ids[k2], decs[k2], sid, sps);
                assert(d.rows@[k2].0@ == sid);
                assert(d.rows@[k2].1@ == map_of(sps));
            }
            assert(entry_views(d.rows@) =~= entry_views(s.rows@));
        }
    }
    Some(d)
}

/// Merges the given segments into a single one tagged `seq_no`: every row of
/// every input appears, and a row in several inputs keeps the version from
/// the newest (the whole row, not a column-level merge).
pub fn compact(inputs: &Vec<Segment>, seq_no: u64) -> (r: Segment)
    requires
        forall|i: int| 0 <= i < inputs@.len() ==> (#[trigger] inputs@[i]).wf(),
    ensures
        r.wf(),
        r.seq_no == seq_no,
        r@ == store_merged(inputs@),
        forall|row_id: Seq<char>|
            store_lookup(seq![r], row_id) == store_lookup(inputs@, row_id),
{
    let mut acc = MemTable::new();
    let mut i: usize = 0;
    proof {
        assert(inputs@.take(0) =~= Seq::<Segment>::empty());
    }
    while i < inputs.len()
        invariant
            forall|k: int| 0 <= k < inputs@.len() ==> (#[trigger] inputs@[k]).wf(),
            i <= inputs@.len(),
            acc.wf(),
            acc@ == store_merged(inputs@.take(i as int)),
        decreases inputs@.len() - i,
    {
        let seg = &inputs[i];
        let ghost rows = entry_views(seg.rows@);
        proof {
            lemma_sorted_distinct(rows);
        }
        let mut j: usize = 0;
        proof {
            assert(rows.take(0) =~= Seq::<(Seq<char>, Map<Seq<char>, Seq<char>>)>::empty());
            assert(acc@ =~= store_merged(inputs@.take(i as int)).union_prefer_right(
                map_of(rows.take(0)),
            ));
        }
        while j < seg.rows.len()
            invariant
                seg.wf(),
                rows == entry_views(seg.rows@),
                crate::assoc::keys_distinct(rows),
                j <= seg.rows@.len(),
                acc.wf(),
                acc@ == store_merged(inputs@.take(i as int)).union_prefer_right(
                    map_of(rows.take(j as int)),
                ),
            decreases seg.rows@.len() - j,
        {
            let row = seg.rows[j].1.duplicate();
            acc.put(seg.rows[j].0.as_str(), row);
            proof {
                assert(rows.take(j + 1).drop_last() =~= rows.take(j as int));
                assert(rows.take(j + 1).last() == rows[j as int]);
                assert(map_of(rows.take(j + 1)) == map_of(rows.take(j as int)).insert(
                    rows[j as int].0,
                    rows[j as int].1,
                ));
                assert(acc@ =~= store_merged(inputs@.take(i as int)).union_prefer_right(
                    map_of(rows.take(j + 1)),
                ));
            }
            j += 1;
        }
        proof {
            assert(rows.take(rows.len() as int) =~= rows);
            assert(inputs@.take(i + 1).drop_last() =~= inputs@.take(i as int));
            assert(inputs@.take(i + 1).last() == inputs@[i as int]);
            assert(acc@ == store_merged(inputs@.take(i + 1)));
        }
        i += 1;
    }
    proof {
        assert(inputs@.take(inputs@.len() as int) =~= inputs@);
    }
    let rows = acc.drain();
    let r = Segment { seq_no, rows };
    proof {
        assert(r@ == store_merged(inputs@));
        assert forall|row_id: Seq<char>|
            store_lookup(seq![r], row_id) == store_lookup(inputs@, row_id) by {
            lemma_store_lookup_merged(inputs@, row_id);
            assert(seq![r].len() == 1);
            assert(seq![r].last() == r);
            assert(seq![r].drop_last() =~= Seq::<Segment>::empty());
            assert(store_lookup(seq![r].drop_last(), row_id) is None);
            if r@.contains_key(row_id) {
                assert(store_lookup(seq![r], row_id) == Some(r@[row_id]));
            } else {
                assert(store_lookup(seq![r], row_id) == store_lookup(
                    seq![r].drop_last(),
                    row_id,
                ));
            }
        }
    }
    r
}

} // verus!
