use vstd::prelude::*;
use vstd::string::*;

verus! {

/// The pieces of `s` between dashes, in order. The empty text is one empty
/// piece, and two dashes in a row enclose an empty piece.
pub open spec fn split_dash(s: Seq<char>) -> Seq<Seq<char>>
    decreases s.len(),
{
    if s.len() == 0 {
        seq![Seq::empty()]
    } else {
        let p = split_dash(s.drop_last());
        if s.last() == '-' {
            p.push(Seq::empty())
        } else {
            p.update(p.len() - 1, p.last().push(s.last()))
        }
    }
}

/// The pieces up to, not including, the first empty one.
pub open spec fn leading_nonempty(ps: Seq<Seq<char>>) -> Seq<Seq<char>>
    decreases ps.len(),
{
    if ps.len() == 0 || ps[0].len() == 0 {
        Seq::empty()
    } else {
        seq![ps[0]] + leading_nonempty(ps.skip(1))
    }
}

/// The subtags of a dash-separated list, read up to the first empty one.
pub open spec fn subtag_list(s: Seq<char>) -> Seq<Seq<char>> {
    leading_nonempty(split_dash(s))
}

/// Each value of an extension list together with the singleton that last came
/// before it; `key` is the singleton in force. Reading stops at the first empty
/// subtag.
pub open spec fn extension_pairs(ps: Seq<Seq<char>>, key: Option<char>) -> Seq<(char, Seq<char>)>
    decreases ps.len(),
{
    if ps.len() == 0 || ps[0].len() == 0 {
        Seq::empty()
    } else if ps[0].len() == 1 {
        extension_pairs(ps.skip(1), Some(ps[0][0]))
    } else {
        match key {
            Some(k) => seq![(k, ps[0])] + extension_pairs(ps.skip(1), key),
            None => extension_pairs(ps.skip(1), None),
        }
    }
}

pub proof fn lemma_split_dash_len(s: Seq<char>)
    ensures
        split_dash(s).len() >= 1,
    decreases s.len(),
{
    if s.len() > 0 {
        lemma_split_dash_len(s.drop_last());
    }
}

/// One more character that is not a dash extends the last piece.
pub proof fn lemma_split_dash_extend(s: Seq<char>, i: int)
    requires
        0 <= i < s.len(),
    ensures
        s[i] != '-' ==> split_dash(s.take(i + 1)) == split_dash(s.take(i)).update(
            split_dash(s.take(i)).len() - 1,
            split_dash(s.take(i)).last().push(s[i]),
        ),
        s[i] == '-' ==> split_dash(s.take(i + 1)) == split_dash(s.take(i)).push(Seq::empty()),
{
    assert(s.take(i + 1).drop_last() == s.take(i));
}

pub open spec fn bounds_view(s: Seq<char>, r: Seq<(usize, usize)>) -> Seq<Seq<char>> {
    r.map_values(|p: (usize, usize)| s.subrange(p.0 as int, p.1 as int))
}

/// Bounds that follow one another with one character between them, from the
/// start of the text.
pub open spec fn contiguous(r: Seq<(usize, usize)>) -> bool {
    &&& r.len() > 0 ==> r[0].0 == 0
    &&& forall|k: int| 0 <= k < r.len() ==> r[k].0 <= #[trigger] r[k].1
    &&& forall|k: int| 0 <= k < r.len() - 1 ==> #[trigger] r[k + 1].0 == r[k].1 + 1
}

/// Every bound ends no later than the last one.
pub proof fn lemma_bounds_below(r: Seq<(usize, usize)>, k: int)
    requires
        contiguous(r),
        0 <= k < r.len(),
    ensures
        r[k].1 <= r.last().1,
    decreases r.len() - k,
{
    if k < r.len() - 1 {
        assert(r[k + 1].0 == r[k].1 + 1);
        assert(r[k + 1].0 <= r[k + 1].1);
        lemma_bounds_below(r, k + 1);
    }
}

/// The bounds of the pieces of `s` between dashes, each as (start, end).
pub(crate) fn split_bounds(s: &[char]) -> (r: Vec<(usize, usize)>)
    ensures
        bounds_view(s@, r@) == split_dash(s@),
        contiguous(r@),
        r@.len() > 0 && r@.last().1 == s@.len(),
{
    let n = s.len();
    let mut r: Vec<(usize, usize)> = Vec::new();
    let mut start: usize = 0;
    let mut i: usize = 0;
    proof {
        assert(s@.take(0) =~= Seq::<char>::empty());
    }
    while i < n
        invariant
            n == s@.len(),
            start <= i <= n,
            split_dash(s@.take(i as int)) == bounds_view(s@, r@).push(s@.subrange(start as int, i as int)),
            contiguous(r@.push((start, i))),
        decreases n - i,
    {
        let c = s[i];
        proof {
            lemma_split_dash_extend(s@, i as int);
        }
        if c == '-' {
            let ghost before = r@;
            r.push((start, i));
            start = i + 1;
            proof {
                assert(bounds_view(s@, r@) =~= bounds_view(s@, before).push(s@.subrange(r@.last().0 as int, i as int)));
                assert(s@.subrange(start as int, i + 1) =~= Seq::<char>::empty());
                let q = r@.push((start, (i + 1) as usize));
                let q0 = before.push((r@.last().0, i));
                assert(r@ == q0);
                assert forall|k: int| 0 <= k < q.len() - 1 implies #[trigger] q[k + 1].0 == q[k].1 + 1 by {
                    if k < q.len() - 2 {
                        assert(q[k + 1] == q0[k + 1] && q[k] == q0[k]);
                    }
                }
                assert forall|k: int| 0 <= k < q.len() implies q[k].0 <= #[trigger] q[k].1 by {
                    if k < q.len() - 1 {
                        assert(q[k] == q0[k]);
                    }
                }
            }
        } else {
            proof {
                assert(s@.subrange(start as int, i + 1) =~= s@.subrange(start as int, i as int).push(c));
                assert(bounds_view(s@, r@).push(s@.subrange(start as int, i + 1)) =~= bounds_view(s@, r@).push(
                    s@.subrange(start as int, i as int),
                ).update(bounds_view(s@, r@).len() as int, s@.subrange(start as int, i + 1)));
                let q = r@.push((start, (i + 1) as usize));
                let q0 = r@.push((start, i));
                assert forall|k: int| 0 <= k < q.len() - 1 implies #[trigger] q[k + 1].0 == q[k].1 + 1 by {
                    assert(q[k] == q0[k]);
                    assert(q[k + 1].0 == q0[k + 1].0);
                    assert(q0[k + 1].0 == q0[k].1 + 1);
                }
                assert forall|k: int| 0 <= k < q.len() implies q[k].0 <= #[trigger] q[k].1 by {
                    if k < q.len() - 1 {
                        assert(q[k] == q0[k]);
                    }
                }
            }
        }
        i += 1;
    }
    let ghost before = r@;
    r.push((start, n));
    proof {
        assert(s@.take(n as int) == s@);
        assert(bounds_view(s@, r@) =~= bounds_view(s@, before).push(s@.subrange(start as int, n as int)));
    }
    r
}

} // verus!
