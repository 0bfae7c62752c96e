//! String helpers shared by the whole store: equality and lexicographic
//! comparison of `&str` values, splitting on a separator character, and
//! joining pieces back together.
//!
//! The comparison order is lexicographic by character value, which for UTF-8
//! text coincides with the byte order that sorted files use.

use vstd::prelude::*;
use vstd::string::*;

verus! {

/// Lexicographic "strictly less than" on character sequences.
pub open spec fn char_seq_lt(a: Seq<char>, b: Seq<char>) -> bool
    decreases a.len(),
{
    if b.len() == 0 {
        false
    } else if a.len() == 0 {
        true
    } else if a[0] != b[0] {
        (a[0] as u32) < (b[0] as u32)
    } else {
        char_seq_lt(a.skip(1), b.skip(1))
    }
}

/// Exactly one of `a < b`, `a == b`, `b < a` holds.
pub proof fn lemma_lt_trichotomy(a: Seq<char>, b: Seq<char>)
    ensures
        char_seq_lt(a, b) || char_seq_lt(b, a) || a == b,
        char_seq_lt(a, b) ==> !char_seq_lt(b, a) && a != b,
        char_seq_lt(b, a) ==> !char_seq_lt(a, b) && a != b,
    decreases a.len(),
{
    if b.len() == 0 {
        if a.len() == 0 {
            assert(a =~= b);
        }
    } else if a.len() == 0 {
    } else if a[0] != b[0] {
        assert((a[0] as u32) != (b[0] as u32)) by {
            vstd::utf8::char_u32_cast(a[0], a[0] as u32);
            vstd::utf8::char_u32_cast(b[0], b[0] as u32);
        }
    } else {
        lemma_lt_trichotomy(a.skip(1), b.skip(1));
        if a.skip(1) == b.skip(1) {
            assert forall|i: int| 0 <= i < a.len() implies a[i] == b[i] by {
                if i >= 1 {
                    assert(a.skip(1)[i - 1] == a[i]);
                    assert(b.skip(1)[i - 1] == b[i]);
                }
            }
            assert(a =~= b);
        }
        if a == b {
            assert(a.skip(1) == b.skip(1));
        }
    }
}

/// The order is transitive.
pub proof fn lemma_lt_transitive(a: Seq<char>, b: Seq<char>, c: Seq<char>)
    requires
        char_seq_lt(a, b),
        char_seq_lt(b, c),
    ensures
        char_seq_lt(a, c),
    decreases a.len(),
{
    if c.len() == 0 {
    } else if b.len() == 0 {
    } else if a.len() == 0 {
    } else {
        if a[0] == b[0] && b[0] == c[0] {
            lemma_lt_transitive(a.skip(1), b.skip(1), c.skip(1));
        }
    }
}

/// Equality of two string slices, decided character by character.
pub fn str_eq(a: &str, b: &str) -> (r: bool)
    ensures
        r == (a@ == b@),
{
    let alen = a.unicode_len();
    let blen = b.unicode_len();
    if alen != blen {
        return false;
    }
    let mut i: usize = 0;
    while i < alen
        invariant
            alen == a@.len(),
            blen == b@.len(),
            alen == blen,
            i <= alen,
            forall|j: int| 0 <= j < i ==> a@[j] == b@[j],
        decreases alen - i,
    {
        if a.get_char(i) != b.get_char(i) {
            return false;
        }
        i += 1;
    }
    proof {
        assert(a@ =~= b@);
    }
    true
}

/// No character of `s` equals `sep`.
pub open spec fn sep_free(s: Seq<char>, sep: char) -> bool {
    forall|i: int| 0 <= i < s.len() ==> s[i] != sep
}

/// Index of the first occurrence of `sep` in `s`; `s.len()` if absent.
pub open spec fn first_index(s: Seq<char>, sep: char) -> int
    decreases s.len(),
{
    if s.len() == 0 {
        0
    } else if s[0] == sep {
        0
    } else {
        1 + first_index(s.skip(1), sep)
    }
}

/// `first_index` points at the first separator: everything before it is
/// separator-free, and it lies inside `s` exactly when `s` holds a separator.
pub proof fn lemma_first_index(s: Seq<char>, sep: char)
    ensures
        0 <= first_index(s, sep) <= s.len(),
        first_index(s, sep) < s.len() ==> s[first_index(s, sep)] == sep,
        sep_free(s.take(first_index(s, sep)), sep),
        (first_index(s, sep) == s.len()) == sep_free(s, sep),
    decreases s.len(),
{
    if s.len() == 0 {
        assert(sep_free(s, sep));
    } else if s[0] == sep {
        assert(!sep_free(s, sep));
        assert(s.take(0) =~= Seq::<char>::empty());
    } else {
        lemma_first_index(s.skip(1), sep);
        let fi = first_index(s, sep);
        let fit = first_index(s.skip(1), sep);
        assert(fi == 1 + fit);
        if fit < s.skip(1).len() {
            assert(s[fi] == s.skip(1)[fit]);
        }
        assert forall|i: int| 0 <= i < fi implies s.take(fi)[i] != sep by {
            if i >= 1 {
                assert(s[i] == s.skip(1)[i - 1]);
                assert(s.skip(1).take(fit)[i - 1] == s.skip(1)[i - 1]);
            }
        }
        if fi == s.len() {
            assert(s.take(fi) =~= s);
        }
        if sep_free(s, sep) {
            assert forall|i: int| 0 <= i < s.skip(1).len() implies s.skip(1)[i] != sep by {
                assert(s.skip(1)[i] == s[i + 1]);
            }
            assert(sep_free(s.skip(1), sep));
        }
    }
}

/// A string splits in only one way around its first separator.
pub proof fn lemma_split_unique(x1: Seq<char>, y1: Seq<char>, x2: Seq<char>, y2: Seq<char>, sep: char)
    requires
        x1 + seq![sep] + y1 == x2 + seq![sep] + y2,
        sep_free(x1, sep),
        sep_free(x2, sep),
    ensures
        x1 == x2,
        y1 == y2,
{
    let s = x1 + seq![sep] + y1;
    let t = x2 + seq![sep] + y2;
    assert(s.len() == x1.len() + 1 + y1.len());
    assert(t.len() == x2.len() + 1 + y2.len());
    assert(s[x1.len() as int] == sep);
    assert(t[x2.len() as int] == sep);
    if x1.len() < x2.len() {
        assert(t[x1.len() as int] == x2[x1.len() as int]);
        assert(false);
    }
    if x2.len() < x1.len() {
        assert(s[x2.len() as int] == x1[x2.len() as int]);
        assert(false);
    }
    assert forall|i: int| 0 <= i < x1.len() implies x1[i] == x2[i] by {
        assert(s[i] == x1[i]);
        assert(t[i] == x2[i]);
    }
    assert(x1 =~= x2);
    assert(y1.len() == y2.len());
    assert forall|i: int| 0 <= i < y1.len() implies y1[i] == y2[i] by {
        assert(s[x1.len() + 1 + i] == y1[i]);
        assert(t[x2.len() + 1 + i] == y2[i]);
    }
    assert(y1 =~= y2);
}

/// The pieces of `s` between separators, in order; an empty string gives one
/// empty piece, and `n` separators give `n + 1` pieces.
pub open spec fn split_spec(s: Seq<char>, sep: char) -> Seq<Seq<char>>
    decreases s.len(),
    via split_spec_decreases
{
    if sep_free(s, sep) {
        seq![s]
    } else {
        let fi = first_index(s, sep);
        seq![s.take(fi)] + split_spec(s.skip(fi + 1), sep)
    }
}

#[via_fn]
proof fn split_spec_decreases(s: Seq<char>, sep: char) {
    lemma_first_index(s, sep);
}

/// Splitting a string that starts `head`, separator, `tail` (with `head`
/// separator-free) yields `head` followed by the split of `tail`.
pub proof fn lemma_split_step(head: Seq<char>, tail: Seq<char>, sep: char)
    requires
        sep_free(head, sep),
    ensures
        split_spec(head + seq![sep] + tail, sep) == seq![head] + split_spec(tail, sep),
{
    let s = head + seq![sep] + tail;
    assert(s[head.len() as int] == sep);
    assert(!sep_free(s, sep));
    lemma_first_index(s, sep);
    let fi = first_index(s, sep);
    assert(fi < s.len());
    assert(s[fi] == sep);
    if fi < head.len() {
        assert(s[fi] == head[fi]);
        assert(false);
    }
    if fi > head.len() {
        assert(s.take(fi)[head.len() as int] == s[head.len() as int]);
        assert(false);
    }
    assert(s.take(fi) =~= head);
    assert(s.skip(fi + 1) =~= tail);
    assert(split_spec(s, sep) =~= seq![head] + split_spec(tail, sep));
}

/// The pieces joined back together with `sep` between them.
pub open spec fn join_spec(ps: Seq<Seq<char>>, sep: char) -> Seq<char>
    decreases ps.len(),
{
    if ps.len() == 0 {
        Seq::empty()
    } else if ps.len() == 1 {
        ps[0]
    } else {
        ps[0] + seq![sep] + join_spec(ps.skip(1), sep)
    }
}

/// Adding a piece at the end extends the joined string.
pub proof fn lemma_join_push(ps: Seq<Seq<char>>, p: Seq<char>, sep: char)
    requires
        ps.len() >= 1,
    ensures
        join_spec(ps.push(p), sep) == join_spec(ps, sep) + seq![sep] + p,
    decreases ps.len(),
{
    if ps.len() == 1 {
        assert(ps.push(p).len() == 2);
        assert(ps.push(p)[0] == ps[0]);
        assert(ps.push(p).skip(1) =~= seq![p]);
        assert(join_spec(seq![p], sep) == p);
        assert(join_spec(ps.push(p), sep) == ps[0] + seq![sep] + p);
        assert(join_spec(ps, sep) == ps[0]);
    } else {
        lemma_join_push(ps.skip(1), p, sep);
        assert(ps.push(p).skip(1) =~= ps.skip(1).push(p));
        assert(join_spec(ps.push(p), sep) =~= ps[0] + seq![sep] + join_spec(ps.skip(1).push(p), sep));
        assert(join_spec(ps, sep) + seq![sep] + p =~= ps[0] + seq![sep] + (join_spec(ps.skip(1), sep)
            + seq![sep] + p));
    }
}

/// Splitting undoes joining, provided every piece is separator-free.
pub proof fn lemma_split_join(ps: Seq<Seq<char>>, sep: char)
    requires
        ps.len() >= 1,
        forall|i: int| 0 <= i < ps.len() ==> sep_free(#[trigger] ps[i], sep),
    ensures
        split_spec(join_spec(ps, sep), sep) == ps,
    decreases ps.len(),
{
    if ps.len() == 1 {
        assert(split_spec(ps[0], sep) =~= seq![ps[0]]);
        assert(seq![ps[0]] =~= ps);
    } else {
        assert(forall|i: int| 0 <= i < ps.skip(1).len() ==> sep_free(
            #[trigger] ps.skip(1)[i],
            sep,
        )) by {
            assert(forall|i: int| 0 <= i < ps.skip(1).len() ==> ps.skip(1)[i] == ps[i + 1]);
        }
        lemma_split_join(ps.skip(1), sep);
        lemma_split_step(ps[0], join_spec(ps.skip(1), sep), sep);
        assert(seq![ps[0]] + ps.skip(1) =~= ps);
    }
}

/// Every piece of a split is free of the separator.
pub proof fn lemma_split_pieces_free(s: Seq<char>, sep: char)
    ensures
        forall|i: int| 0 <= i < split_spec(s, sep).len() ==> sep_free(
            #[trigger] split_spec(s, sep)[i],
            sep,
        ),
    decreases s.len(),
{
    if sep_free(s, sep) {
        assert(split_spec(s, sep)[0] == s);
    } else {
        lemma_first_index(s, sep);
        let fi = first_index(s, sep);
        lemma_split_pieces_free(s.skip(fi + 1), sep);
        assert forall|i: int| 0 <= i < split_spec(s, sep).len() implies sep_free(
            #[trigger] split_spec(s, sep)[i],
            sep,
        ) by {
            if i == 0 {
                assert(split_spec(s, sep)[0] == s.take(fi));
            } else {
                assert(split_spec(s, sep)[i] == split_spec(s.skip(fi + 1), sep)[i - 1]);
            }
        }
    }
}

/// Joining undoes splitting.
pub proof fn lemma_join_split(s: Seq<char>, sep: char)
    ensures
        join_spec(split_spec(s, sep), sep) == s,
    decreases s.len(),
{
    if sep_free(s, sep) {
    } else {
        lemma_first_index(s, sep);
        let fi = first_index(s, sep);
        lemma_join_split(s.skip(fi + 1), sep);
        let rest = split_spec(s.skip(fi + 1), sep);
        let whole = seq![s.take(fi)] + rest;
        assert(whole.len() >= 2);
        assert(whole[0] == s.take(fi));
        assert(whole.skip(1) =~= rest);
        assert(join_spec(whole, sep) == s.take(fi) + seq![sep] + join_spec(rest, sep));
        assert(s.take(fi) + seq![sep] + s.skip(fi + 1) =~= s);
    }
}

/// Index of the first occurrence of `sep`, or `None` if `s` is free of it.
pub fn find_char(s: &str, sep: char) -> (r: Option<usize>)
    ensures
        match r {
            Some(i) => i == first_index(s@, sep) && i < s@.len() && s@[i as int] == sep,
            None => sep_free(s@, sep) && first_index(s@, sep) == s@.len(),
        },
{
    proof {
        lemma_first_index(s@, sep);
    }
    let n = s.unicode_len();
    let mut i: usize = 0;
    while i < n
        invariant
            n == s@.len(),
            i <= n,
            forall|j: int| 0 <= j < i ==> s@[j] != sep,
            first_index(s@, sep) >= i,
        decreases n - i,
    {
        if s.get_char(i) == sep {
            proof {
                lemma_first_index(s@, sep);
                if first_index(s@, sep) > i {
                    assert(s@.take(first_index(s@, sep))[i as int] == s@[i as int]);
                }
            }
            return Some(i);
        }
        i += 1;
        proof {
            lemma_first_index(s@, sep);
            if first_index(s@, sep) < i {
                assert(s@.take(first_index(s@, sep))[first_index(s@, sep)] == s@[first_index(
                    s@,
                    sep,
                )]);
            }
        }
    }
    proof {
        if !sep_free(s@, sep) {
            lemma_first_index(s@, sep);
        }
    }
    None
}

/// Splits `s` at its first `sep` into the part before and the part after.
pub fn split_first<'a>(s: &'a str, sep: char) -> (r: Option<(&'a str, &'a str)>)
    ensures
        match r {
            Some(p) => s@ == p.0@ + seq![sep] + p.1@ && sep_free(p.0@, sep),
            None => sep_free(s@, sep),
        },
{
    match find_char(s, sep) {
        None => None,
        Some(i) => {
            let n = s.unicode_len();
            let head = s.substring_char(0, i);
            let tail = s.substring_char(i + 1, n);
            proof {
                lemma_first_index(s@, sep);
                assert(head@ =~= s@.take(i as int));
                assert(s@ =~= s@.take(i as int) + seq![sep] + s@.subrange(i + 1, n as int));
            }
            Some((head, tail))
        },
    }
}

/// Splits `s` into all its pieces between occurrences of `sep`.
pub fn split_all(s: &str, sep: char) -> (r: Vec<String>)
    ensures
        r@.map_values(|p: String| p@) == split_spec(s@, sep),
        r@.len() >= 1,
{
    let mut pieces: Vec<String> = Vec::new();
    let mut rest: &str = s;
    proof {
        assert(pieces@.map_values(|p: String| p@) + split_spec(rest@, sep) =~= split_spec(
            s@,
            sep,
        ));
    }
    loop
        invariant
            pieces@.map_values(|p: String| p@) + split_spec(rest@, sep) == split_spec(s@, sep),
        decreases rest@.len(),
    {
        match split_first(rest, sep) {
            None => {
                let piece = rest.to_owned();
                pieces.push(piece);
                proof {
                    assert(split_spec(rest@, sep) =~= seq![rest@]);
                    assert(pieces@.map_values(|p: String| p@) =~= pieces@.drop_last().map_values(
                        |p: String| p@,
                    ).push(rest@));
                    assert(pieces@.map_values(|p: String| p@) =~= split_spec(s@, sep));
                }
                return pieces;
            },
            Some((head, tail)) => {
                let piece = head.to_owned();
                pieces.push(piece);
                proof {
                    lemma_split_step(head@, tail@, sep);
                    assert(pieces@.map_values(|p: String| p@) =~= pieces@.drop_last().map_values(
                        |p: String| p@,
                    ).push(head@));
                    assert(pieces@.map_values(|p: String| p@) + split_spec(tail@, sep) =~= split_spec(
                        s@,
                        sep,
                    ));
                }
                rest = tail;
            },
        }
    }
}

/// Joins the pieces with `sep` between consecutive ones; `sep_str` is the
/// same separator as a one-character string.
pub fn join_all(pieces: &Vec<String>, sep: char, sep_str: &str) -> (r: String)
    requires
        sep_str@ == seq![sep],
    ensures
        r@ == join_spec(pieces@.map_values(|p: String| p@), sep),
{
    let ghost views = pieces@.map_values(|p: String| p@);
    let mut out = String::new();
    let mut i: usize = 0;
    while i < pieces.len()
        invariant
            i <= pieces@.len(),
            views == pieces@.map_values(|p: String| p@),
            sep_str@ == seq![sep],
            out@ == join_spec(views.take(i as int), sep),
        decreases pieces@.len() - i,
    {
        if i > 0 {
            out.append(sep_str);
        }
        out.append(pieces[i].as_str());
        proof {
            assert(views.take(i + 1) =~= views.take(i as int).push(views[i as int]));
            if i == 0 {
                assert(join_spec(views.take(1), sep) == views[0]);
                assert(out@ =~= views[0]);
            } else {
                lemma_join_push(views.take(i as int), views[i as int], sep);
            }
        }
        i += 1;
    }
    proof {
        assert(views.take(views.len() as int) =~= views);
    }
    out
}

/// Strict lexicographic comparison of two string slices.
pub fn str_lt(a: &str, b: &str) -> (r: bool)
    ensures
        r == char_seq_lt(a@, b@),
{
    let alen = a.unicode_len();
    let blen = b.unicode_len();
    let mut i: usize = 0;
    proof {
        assert(a@.skip(0) =~= a@);
        assert(b@.skip(0) =~= b@);
    }
    loop
        invariant
            alen == a@.len(),
            blen == b@.len(),
            i <= alen,
            i <= blen,
            forall|j: int| 0 <= j < i ==> a@[j] == b@[j],
            char_seq_lt(a@, b@) == char_seq_lt(a@.skip(i as int), b@.skip(i as int)),
        decreases alen - i,
    {
        if i == blen {
            return false;
        }
        if i == alen {
            return true;
        }
        let ca = a.get_char(i);
        let cb = b.get_char(i);
        proof {
            assert(a@.skip(i as int)[0] == a@[i as int]);
            assert(b@.skip(i as int)[0] == b@[i as int]);
            assert(a@.skip(i as int).skip(1) =~= a@.skip(i + 1));
            assert(b@.skip(i as int).skip(1) =~= b@.skip(i + 1));
        }
        if ca != cb {
            return (ca as u32) < (cb as u32);
        }
        i += 1;
    }
}

} // verus!
