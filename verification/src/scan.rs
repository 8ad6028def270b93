//! Byte-sequence scanning: first occurrence of a byte or a two-byte
//! pattern, and splitting on a separator byte, together with the
//! split/join facts the codec proofs rest on.

use vstd::prelude::*;

verus! {

/// Index of the first occurrence of `x` in `s`, or `s.len()` when absent.
pub open spec fn find_ix(s: Seq<u8>, x: u8) -> int
    decreases s.len(),
{
    if s.len() == 0 {
        0
    } else if s[0] == x {
        0
    } else {
        1 + find_ix(s.skip(1), x)
    }
}

pub proof fn lemma_find_ix(s: Seq<u8>, x: u8)
    ensures
        0 <= find_ix(s, x) <= s.len(),
        find_ix(s, x) < s.len() ==> s[find_ix(s, x)] == x,
        forall|j: int| 0 <= j < find_ix(s, x) ==> s[j] != x,
    decreases s.len(),
{
    if s.len() > 0 && s[0] != x {
        lemma_find_ix(s.skip(1), x);
        assert forall|j: int| 0 <= j < find_ix(s, x) implies s[j] != x by {
            if j > 0 {
                assert(s.skip(1)[j - 1] == s[j]);
            }
        }
    }
}

/// Index of the first `i` with `s[i] == x && s[i + 1] == y`;
/// at least `s.len() - 1` when there is none.
pub open spec fn find2_ix(s: Seq<u8>, x: u8, y: u8) -> int
    decreases s.len(),
{
    if s.len() < 2 {
        s.len() as int
    } else if s[0] == x && s[1] == y {
        0
    } else {
        1 + find2_ix(s.skip(1), x, y)
    }
}

pub proof fn lemma_find2_ix(s: Seq<u8>, x: u8, y: u8)
    ensures
        0 <= find2_ix(s, x, y) <= s.len(),
        find2_ix(s, x, y) + 2 <= s.len() ==> s[find2_ix(s, x, y)] == x && s[find2_ix(s, x, y)
            + 1] == y,
        forall|j: int|
            0 <= j < find2_ix(s, x, y) && j + 2 <= s.len() ==> !(#[trigger] s[j] == x && s[j + 1]
                == y),
    decreases s.len(),
{
    if s.len() >= 2 && !(s[0] == x && s[1] == y) {
        lemma_find2_ix(s.skip(1), x, y);
        assert forall|j: int|
            0 <= j < find2_ix(s, x, y) && j + 2 <= s.len() implies !(#[trigger] s[j] == x && s[j
            + 1] == y) by {
            if j > 0 {
                assert(s.skip(1)[j - 1] == s[j]);
                assert(s.skip(1)[j] == s[j + 1]);
            }
        }
    }
}

/// In `x ++ [sep] ++ t` with `x` clean, the first separator sits right
/// after `x`.
pub proof fn lemma_find_ix_concat(x: Seq<u8>, t: Seq<u8>, sep: u8)
    requires
        forall|j: int| 0 <= j < x.len() ==> x[j] != sep,
    ensures
        find_ix(x + seq![sep] + t, sep) == x.len(),
    decreases x.len(),
{
    let s = x + seq![sep] + t;
    if x.len() == 0 {
        assert(s[0] == sep);
    } else {
        assert(s[0] == x[0]);
        assert(s.skip(1) =~= x.skip(1) + seq![sep] + t);
        assert(forall|j: int| 0 <= j < x.skip(1).len() ==> #[trigger] x.skip(1)[j] == x[j + 1]);
        lemma_find_ix_concat(x.skip(1), t, sep);
    }
}

/// First occurrence of `x` in `s` at or after `from`.
pub fn find_byte_from(s: &[u8], from: usize, x: u8) -> (r: Option<usize>)
    requires
        from <= s@.len(),
    ensures
        match r {
            Some(i) => from <= i < s@.len() && s@[i as int] == x && forall|j: int|
                from <= j < i ==> s@[j] != x,
            None => forall|j: int| from <= j < s@.len() ==> s@[j] != x,
        },
{
    let mut i: usize = from;
    while i < s.len()
        invariant
            from <= i <= s@.len(),
            forall|j: int| from <= j < i ==> s@[j] != x,
        decreases s@.len() - i,
    {
        if s[i] == x {
            return Some(i);
        }
        i = i + 1;
    }
    None
}

/// First `i` at or after `from` with `s[i] == x && s[i + 1] == y`.
pub fn find_pat2_from(s: &[u8], from: usize, x: u8, y: u8) -> (r: Option<usize>)
    requires
        from <= s@.len(),
    ensures
        match r {
            Some(i) => from <= i && i + 2 <= s@.len() && s@[i as int] == x && s@[i + 1] == y
                && forall|j: int| from <= j < i ==> !(#[trigger] s@[j] == x && s@[j + 1] == y),
            None => forall|j: int|
                from <= j && j + 2 <= s@.len() ==> !(#[trigger] s@[j] == x && s@[j + 1] == y),
        },
{
    if s.len() < 2 {
        return None;
    }
    if from > s.len() - 2 {
        return None;
    }
    let mut i: usize = from;
    while i <= s.len() - 2
        invariant
            s@.len() >= 2,
            from <= i,
            i <= s@.len(),
            forall|j: int| from <= j < i ==> !(#[trigger] s@[j] == x && s@[j + 1] == y),
        decreases s@.len() - i,
    {
        if s[i] == x && s[i + 1] == y {
            return Some(i);
        }
        i = i + 1;
    }
    None
}

/// The segments of `s` between occurrences of `sep`; always at least one
/// segment, and no segment contains `sep`.
pub open spec fn split_at_sep(s: Seq<u8>, sep: u8) -> Seq<Seq<u8>>
    decreases s.len(),
{
    if s.len() == 0 {
        seq![Seq::<u8>::empty()]
    } else if s[0] == sep {
        seq![Seq::<u8>::empty()] + split_at_sep(s.skip(1), sep)
    } else {
        let rest = split_at_sep(s.skip(1), sep);
        seq![seq![s[0]] + rest[0]] + rest.skip(1)
    }
}

/// The segments joined back with `sep` between each pair.
pub open spec fn join_with_sep(segs: Seq<Seq<u8>>, sep: u8) -> Seq<u8>
    decreases segs.len(),
{
    if segs.len() == 0 {
        Seq::<u8>::empty()
    } else if segs.len() == 1 {
        segs[0]
    } else {
        segs[0] + seq![sep] + join_with_sep(segs.skip(1), sep)
    }
}

/// Whether no segment contains `sep`.
pub open spec fn segs_clean(segs: Seq<Seq<u8>>, sep: u8) -> bool {
    forall|k: int, j: int|
        0 <= k < segs.len() && 0 <= j < segs[k].len() ==> #[trigger] segs[k][j] != sep
}

pub proof fn lemma_split_shape(s: Seq<u8>, sep: u8)
    ensures
        split_at_sep(s, sep).len() >= 1,
        segs_clean(split_at_sep(s, sep), sep),
    decreases s.len(),
{
    if s.len() == 0 {
    } else if s[0] == sep {
        lemma_split_shape(s.skip(1), sep);
    } else {
        lemma_split_shape(s.skip(1), sep);
        let rest = split_at_sep(s.skip(1), sep);
        let r = split_at_sep(s, sep);
        assert(r[0] =~= seq![s[0]] + rest[0]);
        assert forall|k: int, j: int|
            0 <= k < r.len() && 0 <= j < r[k].len() implies #[trigger] r[k][j] != sep by {
            if k == 0 {
                if j == 0 {
                } else {
                    assert(r[0][j] == rest[0][j - 1]);
                }
            } else {
                assert(r[k] =~= rest[k]);
            }
        }
    }
}

/// Splitting a clean segment alone gives that segment back.
pub proof fn lemma_split_no_sep(x: Seq<u8>, sep: u8)
    requires
        forall|j: int| 0 <= j < x.len() ==> x[j] != sep,
    ensures
        split_at_sep(x, sep) =~~= seq![x],
    decreases x.len(),
{
    if x.len() > 0 {
        assert(forall|j: int| 0 <= j < x.skip(1).len() ==> #[trigger] x.skip(1)[j] == x[j + 1]);
        lemma_split_no_sep(x.skip(1), sep);
        assert(split_at_sep(x, sep)[0] =~= seq![x[0]] + x.skip(1));
        assert(seq![x[0]] + x.skip(1) =~= x);
    }
}

/// Splitting `x ++ [sep] ++ t` peels off the clean segment `x`.
pub proof fn lemma_split_prepend(x: Seq<u8>, t: Seq<u8>, sep: u8)
    requires
        forall|j: int| 0 <= j < x.len() ==> x[j] != sep,
    ensures
        split_at_sep(x + seq![sep] + t, sep) =~~= seq![x] + split_at_sep(t, sep),
    decreases x.len(),
{
    let s = x + seq![sep] + t;
    if x.len() == 0 {
        assert(s[0] == sep);
        assert(s.skip(1) =~= t);
        assert(split_at_sep(s, sep) =~~= seq![Seq::<u8>::empty()] + split_at_sep(t, sep));
        assert(seq![x] =~~= seq![Seq::<u8>::empty()]);
    } else {
        assert(s[0] == x[0]);
        assert(s[0] != sep);
        assert(s.skip(1) =~= x.skip(1) + seq![sep] + t);
        assert(forall|j: int| 0 <= j < x.skip(1).len() ==> #[trigger] x.skip(1)[j] == x[j + 1]);
        lemma_split_prepend(x.skip(1), t, sep);
        let rest = split_at_sep(s.skip(1), sep);
        assert(rest =~~= seq![x.skip(1)] + split_at_sep(t, sep));
        assert(rest[0] =~= x.skip(1));
        assert(seq![s[0]] + rest[0] =~= x);
        assert(rest.skip(1) =~~= split_at_sep(t, sep));
    }
}

/// Splitting the join of clean segments recovers the segments.
pub proof fn lemma_split_join(segs: Seq<Seq<u8>>, sep: u8)
    requires
        segs.len() >= 1,
        segs_clean(segs, sep),
    ensures
        split_at_sep(join_with_sep(segs, sep), sep) =~~= segs,
    decreases segs.len(),
{
    if segs.len() == 1 {
        lemma_split_no_sep(segs[0], sep);
        assert(seq![segs[0]] =~~= segs);
    } else {
        let rest = segs.skip(1);
        assert(segs_clean(rest, sep)) by {
            assert(forall|k: int|
                0 <= k < rest.len() ==> #[trigger] rest[k] =~= segs[k + 1]);
        }
        lemma_split_join(rest, sep);
        lemma_split_prepend(segs[0], join_with_sep(rest, sep), sep);
        assert(seq![segs[0]] + rest =~~= segs);
    }
}

/// Appending one segment to a non-empty join adds a separator and the segment.
pub proof fn lemma_join_push(segs: Seq<Seq<u8>>, t: Seq<u8>, sep: u8)
    requires
        segs.len() >= 1,
    ensures
        join_with_sep(segs.push(t), sep) =~= join_with_sep(segs, sep) + seq![sep] + t,
    decreases segs.len(),
{
    if segs.len() == 1 {
        let p = segs.push(t);
        assert(p.len() == 2);
        assert(p[0] =~= segs[0]);
        assert(p.skip(1) =~~= seq![t]);
        assert(join_with_sep(p.skip(1), sep) =~= t);
    } else {
        let p = segs.push(t);
        assert(p[0] =~= segs[0]);
        assert(p.skip(1) =~~= segs.skip(1).push(t));
        lemma_join_push(segs.skip(1), t, sep);
    }
}

/// Joining two non-empty runs of segments.
pub proof fn lemma_join_concat(a: Seq<Seq<u8>>, b: Seq<Seq<u8>>, sep: u8)
    requires
        a.len() >= 1,
        b.len() >= 1,
    ensures
        join_with_sep(a + b, sep) =~= join_with_sep(a, sep) + seq![sep] + join_with_sep(b, sep),
    decreases a.len(),
{
    if a.len() == 1 {
        assert((a + b).len() >= 2);
        assert((a + b)[0] =~= a[0]);
        assert((a + b).skip(1) =~~= b);
    } else {
        assert((a + b)[0] =~= a[0]);
        assert((a + b).skip(1) =~~= a.skip(1) + b);
        lemma_join_concat(a.skip(1), b, sep);
    }
}

/// Joining the segments of a split gives the source back.
pub proof fn lemma_join_split(s: Seq<u8>, sep: u8)
    ensures
        join_with_sep(split_at_sep(s, sep), sep) =~= s,
    decreases s.len(),
{
    if s.len() == 0 {
    } else if s[0] == sep {
        lemma_join_split(s.skip(1), sep);
        lemma_split_shape(s.skip(1), sep);
        let r = split_at_sep(s, sep);
        assert(r[0] =~= Seq::<u8>::empty());
        assert(r.skip(1) =~~= split_at_sep(s.skip(1), sep));
        assert(r.len() >= 2);
        assert(join_with_sep(r, sep) =~= Seq::<u8>::empty() + seq![sep] + join_with_sep(
            r.skip(1),
            sep,
        ));
        assert(Seq::<u8>::empty() + seq![sep] + s.skip(1) =~= s);
    } else {
        lemma_join_split(s.skip(1), sep);
        lemma_split_shape(s.skip(1), sep);
        let rest = split_at_sep(s.skip(1), sep);
        let r = split_at_sep(s, sep);
        assert(r[0] =~= seq![s[0]] + rest[0]);
        assert(r.skip(1) =~~= rest.skip(1));
        if rest.len() == 1 {
            assert(r.len() == 1);
            assert(join_with_sep(r, sep) =~= r[0]);
            assert(join_with_sep(rest, sep) =~= rest[0]);
            assert(seq![s[0]] + rest[0] =~= s);
        } else {
            assert(r.len() >= 2);
            assert(join_with_sep(r, sep) =~= r[0] + seq![sep] + join_with_sep(r.skip(1), sep));
            assert(join_with_sep(rest, sep) =~= rest[0] + seq![sep] + join_with_sep(
                rest.skip(1),
                sep,
            ));
            assert(seq![s[0]] + (rest[0] + seq![sep] + join_with_sep(rest.skip(1), sep)) =~= s);
            assert(r[0] + seq![sep] + join_with_sep(r.skip(1), sep) =~= seq![s[0]] + (rest[0]
                + seq![sep] + join_with_sep(rest.skip(1), sep)));
        }
    }
}

/// No segment is longer than the join it is part of.
pub proof fn lemma_seg_in_join(segs: Seq<Seq<u8>>, sep: u8, k: int)
    requires
        0 <= k < segs.len(),
    ensures
        segs[k].len() <= join_with_sep(segs, sep).len(),
    decreases segs.len(),
{
    if segs.len() > 1 {
        if k == 0 {
        } else {
            lemma_seg_in_join(segs.skip(1), sep, k - 1);
            assert(segs.skip(1)[k - 1] == segs[k]);
        }
    }
}

/// Splits `s` at every occurrence of `sep`.
pub fn split_on(s: &[u8], sep: u8) -> (r: Vec<Vec<u8>>)
    ensures
        r.deep_view() =~~= split_at_sep(s@, sep),
{
    let mut r: Vec<Vec<u8>> = Vec::new();
    let mut cur: Vec<u8> = Vec::new();
    let mut i: usize = 0;
    proof {
        lemma_split_shape(s@, sep);
        assert(s@.skip(0) =~= s@);
        assert(split_at_sep(s@, sep) =~~= seq![split_at_sep(s@, sep)[0]] + split_at_sep(
            s@,
            sep,
        ).skip(1));
    }
    while i < s.len()
        invariant
            0 <= i <= s@.len(),
            split_at_sep(s@, sep) =~~= r.deep_view() + seq![cur@ + split_at_sep(
                s@.skip(i as int),
                sep,
            )[0]] + split_at_sep(s@.skip(i as int), sep).skip(1),
        decreases s@.len() - i,
    {
        let ghost pre_r = r.deep_view();
        let ghost pre_cur = cur@;
        let ghost here = split_at_sep(s@.skip(i as int), sep);
        let ghost tail = split_at_sep(s@.skip(i as int + 1), sep);
        proof {
            assert(s@.skip(i as int).len() > 0);
            assert(s@.skip(i as int)[0] == s@[i as int]);
            assert(s@.skip(i as int).skip(1) =~= s@.skip(i as int + 1));
            lemma_split_shape(s@.skip(i as int + 1), sep);
        }
        if s[i] == sep {
            proof {
                assert(here =~~= seq![Seq::<u8>::empty()] + tail);
                assert(here[0] =~= Seq::<u8>::empty());
                assert(here.skip(1) =~~= tail);
            }
            let done = cur;
            cur = Vec::new();
            r.push(done);
            proof {
                assert(r.deep_view() =~~= pre_r.push(pre_cur));
                assert(pre_cur + here[0] =~= pre_cur);
                assert(tail =~~= seq![tail[0]] + tail.skip(1));
                assert(split_at_sep(s@, sep) =~~= pre_r.push(pre_cur) + seq![cur@ + tail[0]]
                    + tail.skip(1));
            }
        } else {
            let b: u8 = s[i];
            cur.push(b);
            proof {
                assert(here =~~= seq![seq![s@[i as int]] + tail[0]] + tail.skip(1));
                assert(here[0] =~= seq![s@[i as int]] + tail[0]);
                assert(here.skip(1) =~~= tail.skip(1));
                assert(cur@ =~= pre_cur.push(b));
                assert(pre_cur + here[0] =~= cur@ + tail[0]);
                assert(split_at_sep(s@, sep) =~~= pre_r + seq![cur@ + tail[0]] + tail.skip(1));
            }
        }
        i = i + 1;
    }
    let ghost pre_r = r.deep_view();
    let ghost pre_cur = cur@;
    proof {
        assert(s@.skip(i as int) =~= Seq::<u8>::empty());
        assert(split_at_sep(Seq::<u8>::empty(), sep) =~~= seq![Seq::<u8>::empty()]);
        assert(pre_cur + split_at_sep(s@.skip(i as int), sep)[0] =~= pre_cur);
        assert(split_at_sep(s@.skip(i as int), sep).skip(1) =~~= Seq::<Seq<u8>>::empty());
        assert(split_at_sep(s@, sep) =~~= pre_r + seq![pre_cur]);
    }
    r.push(cur);
    proof {
        assert(r.deep_view() =~~= pre_r.push(pre_cur));
        assert(pre_r.push(pre_cur) =~~= pre_r + seq![pre_cur]);
    }
    r
}

} // verus!
