use vstd::prelude::*;

verus! {

/// The pairs `(i, j)` with `from <= j < n`, in increasing `j`.
pub open spec fn row(n: int, i: int, from: int) -> Seq<(int, int)> {
    Seq::new(if from < n { (n - from) as nat } else { 0 }, |k: int| (i, from + k))
}

/// The pairs `(i, j)` with `first <= i < j < n`, row after row.
pub open spec fn rows_from(n: int, first: int) -> Seq<(int, int)>
    decreases n - first,
{
    if first >= n {
        Seq::empty()
    } else {
        row(n, first, first + 1) + rows_from(n, first + 1)
    }
}

/// Every unordered pair of positions below `n`, in lexicographic order.
pub open spec fn all_pairs(n: int) -> Seq<(int, int)> {
    rows_from(n, 0)
}

pub open spec fn lex_lt(p: (int, int), q: (int, int)) -> bool {
    p.0 < q.0 || (p.0 == q.0 && p.1 < q.1)
}

/// A single-pass generator of the pairs of elements of a slice, two cursors
/// sweeping the positions: `tortise` is the first element, `hare` the second.
pub struct Combinations<'a, T> {
    slice: &'a [T],
    tortise: usize,
    hare: usize,
}

pub fn combinations<'a, T>(slice: &'a [T]) -> (r: Combinations<'a, T>)
    ensures
        r.remaining() == all_pairs(slice@.len() as int),
        r.source() == slice@,
        r.wf(),
{
    let r = Combinations { slice, tortise: 0, hare: 1 };
    proof {
        let n = slice@.len() as int;
        if n > 0 {
            assert(r.remaining() =~= all_pairs(n));
        } else {
            assert(r.remaining() =~= all_pairs(n));
        }
    }
    r
}

proof fn lemma_rows_from_tail_empty(n: int, first: int)
    requires
        first + 1 >= n,
    ensures
        rows_from(n, first) == Seq::<(int, int)>::empty(),
{
    if first < n {
        assert(rows_from(n, first + 1) == Seq::<(int, int)>::empty());
        assert(rows_from(n, first) =~= Seq::<(int, int)>::empty());
    }
}

impl<'a, T> Combinations<'a, T> {
    /// The second cursor runs ahead of the first.
    pub closed spec fn wf(&self) -> bool {
        self.tortise < self.hare
    }

    pub closed spec fn source(&self) -> Seq<T> {
        self.slice@
    }

    /// The index pairs that this generator has yet to produce, in order.
    pub closed spec fn remaining(&self) -> Seq<(int, int)> {
        row(self.slice@.len() as int, self.tortise as int, self.hare as int) + rows_from(
            self.slice@.len() as int,
            self.tortise + 1,
        )
    }

    /// Produces the next pair of positions.
    pub fn next_index_pair(&mut self) -> (r: Option<(usize, usize)>)
        requires
            old(self).wf(),
        ensures
            final(self).wf(),
            final(self).source() == old(self).source(),
            old(self).remaining().len() == 0 ==> r is None && final(self).remaining().len() == 0,
            old(self).remaining().len() > 0 ==> {
                &&& r is Some
                &&& r.unwrap().0 == old(self).remaining()[0].0
                &&& r.unwrap().1 == old(self).remaining()[0].1
                &&& final(self).remaining() == old(self).remaining().drop_first()
            },
    {
        let n = self.slice.len();
        let ghost rem = self.remaining();
        if self.hare < n {
            let p = (self.tortise, self.hare);
            self.hare = self.hare + 1;
            proof {
                assert(row(n as int, p.0 as int, p.1 + 1) =~= row(
                    n as int,
                    p.0 as int,
                    p.1 as int,
                ).drop_first());
                assert(self.remaining() =~= rem.drop_first());
            }
            Some(p)
        } else if n >= 2 && self.tortise < n - 2 {
            let ghost h0 = self.hare;
            let t = self.tortise + 1;
            self.tortise = t;
            self.hare = t + 2;
            proof {
                assert(row(n as int, t - 1, h0 as int) =~= Seq::<(int, int)>::empty());
                assert(rem =~= rows_from(n as int, t as int));
                assert(rows_from(n as int, t as int) == row(n as int, t as int, t + 1) + rows_from(
                    n as int,
                    t + 1,
                ));
                assert(self.remaining() =~= rem.drop_first());
            }
            Some((t, t + 1))
        } else {
            proof {
                lemma_rows_from_tail_empty(n as int, self.tortise + 1);
                assert(rem =~= Seq::<(int, int)>::empty());
            }
            None
        }
    }

    /// Produces the next pair of elements.
    pub fn next(&mut self) -> (r: Option<(&'a T, &'a T)>)
        requires
            old(self).wf(),
        ensures
            final(self).wf(),
            final(self).source() == old(self).source(),
            old(self).remaining().len() == 0 ==> r is None && final(self).remaining().len() == 0,
            old(self).remaining().len() > 0 ==> {
                &&& r is Some
                &&& *r.unwrap().0 == old(self).source()[old(self).remaining()[0].0]
                &&& *r.unwrap().1 == old(self).source()[old(self).remaining()[0].1]
                &&& final(self).remaining() == old(self).remaining().drop_first()
            },
    {
        match self.next_index_pair() {
            None => None,
            Some((i, j)) => {
                proof {
                    lemma_remaining_in_range(*old(self));
                }
                Some((&self.slice[i], &self.slice[j]))
            },
        }
    }

    /// Drains the generator into the list of position pairs it has yet to produce.
    pub fn index_pairs(self) -> (r: Vec<(usize, usize)>)
        requires
            self.wf(),
        ensures
            r@.len() == self.remaining().len(),
            forall|k: int|
                0 <= k < r@.len() ==> r@[k].0 == self.remaining()[k].0 && r@[k].1
                    == self.remaining()[k].1,
    {
        let mut it = self;
        let mut out: Vec<(usize, usize)> = Vec::new();
        let ghost rem = self.remaining();
        loop
            invariant
                it.wf(),
                rem == self.remaining(),
                out@.len() + it.remaining().len() == rem.len(),
                it.remaining() == rem.subrange(out@.len() as int, rem.len() as int),
                forall|k: int|
                    0 <= k < out@.len() ==> out@[k].0 == rem[k].0 && out@[k].1 == rem[k].1,
            decreases it.remaining().len(),
        {
            let ghost before = it.remaining();
            match it.next_index_pair() {
                None => {
                    return out;
                },
                Some(p) => {
                    proof {
                        assert(before[0] == rem[out@.len() as int]);
                    }
                    out.push(p);
                    proof {
                        assert(it.remaining() =~= rem.subrange(out@.len() as int, rem.len() as int));
                    }
                },
            }
        }
    }

    /// Drains the generator into the list of element pairs it has yet to produce.
    pub fn collect(self) -> (r: Vec<(&'a T, &'a T)>)
        requires
            self.wf(),
        ensures
            r@.len() == self.remaining().len(),
            forall|k: int|
                0 <= k < r@.len() ==> *r@[k].0 == self.source()[self.remaining()[k].0] && *r@[k].1
                    == self.source()[self.remaining()[k].1],
    {
        let mut it = self;
        let mut out: Vec<(&'a T, &'a T)> = Vec::new();
        let ghost rem = self.remaining();
        loop
            invariant
                it.wf(),
                rem == self.remaining(),
                out@.len() + it.remaining().len() == rem.len(),
                it.source() == self.source(),
                it.remaining() == rem.subrange(out@.len() as int, rem.len() as int),
                forall|k: int|
                    0 <= k < out@.len() ==> *out@[k].0 == self.source()[rem[k].0] && *out@[k].1
                        == self.source()[rem[k].1],
            decreases it.remaining().len(),
        {
            let ghost before = it.remaining();
            match it.next() {
                None => {
                    return out;
                },
                Some(p) => {
                    proof {
                        assert(before[0] == rem[out@.len() as int]);
                    }
                    out.push(p);
                    proof {
                        assert(it.remaining() =~= rem.subrange(out@.len() as int, rem.len() as int));
                    }
                },
            }
        }
    }
}

proof fn lemma_row_in_range(n: int, i: int, from: int)
    requires
        0 <= i < from,
    ensures
        forall|k: int|
            0 <= k < row(n, i, from).len() ==> {
                &&& row(n, i, from)[k].0 == i
                &&& i < row(n, i, from)[k].1 < n
            },
{
}

proof fn lemma_rows_from_in_range(n: int, first: int)
    requires
        0 <= first,
    ensures
        forall|k: int|
            0 <= k < rows_from(n, first).len() ==> {
                &&& first <= rows_from(n, first)[k].0
                &&& rows_from(n, first)[k].0 < rows_from(n, first)[k].1 < n
            },
    decreases n - first,
{
    if first < n {
        lemma_rows_from_in_range(n, first + 1);
        lemma_row_in_range(n, first, first + 1);
        let r = row(n, first, first + 1);
        let s = rows_from(n, first + 1);
        assert forall|k: int| 0 <= k < rows_from(n, first).len() implies {
            &&& first <= rows_from(n, first)[k].0
            &&& rows_from(n, first)[k].0 < rows_from(n, first)[k].1 < n
        } by {
            if k >= r.len() {
                assert(rows_from(n, first)[k] == s[k - r.len()]);
            }
        }
    }
}

proof fn lemma_remaining_in_range<'a, T>(c: Combinations<'a, T>)
    requires
        c.tortise < c.hare,
    ensures
        forall|k: int|
            0 <= k < c.remaining().len() ==> {
                &&& 0 <= c.remaining()[k].0 < c.remaining()[k].1
                &&& c.remaining()[k].1 < c.source().len()
            },
{
    let n = c.slice@.len() as int;
    lemma_row_in_range(n, c.tortise as int, c.hare as int);
    lemma_rows_from_in_range(n, c.tortise + 1);
    let r = row(n, c.tortise as int, c.hare as int);
    let s = rows_from(n, c.tortise + 1);
    assert forall|k: int| 0 <= k < c.remaining().len() implies {
        &&& 0 <= c.remaining()[k].0 < c.remaining()[k].1
        &&& c.remaining()[k].1 < c.source().len()
    } by {
        if k >= r.len() {
            assert(c.remaining()[k] == s[k - r.len()]);
        }
    }
}

proof fn lemma_rows_from_len(n: int, first: int)
    requires
        0 <= first <= n,
    ensures
        2 * rows_from(n, first).len() == (n - first) * (n - first - 1),
    decreases n - first,
{
    if first < n {
        lemma_rows_from_len(n, first + 1);
        let m = n - first;
        assert(row(n, first, first + 1).len() == m - 1);
        assert(rows_from(n, first).len() == (m - 1) + rows_from(n, first + 1).len());
        let t = rows_from(n, first + 1).len() as int;
        assert(2 * t == (m - 1) * (m - 2)) by (nonlinear_arith)
            requires
                2 * t == (n - (first + 1)) * (n - (first + 1) - 1),
                m == n - first,
        ;
        let l = rows_from(n, first).len() as int;
        assert(2 * l == (n - first) * (n - first - 1)) by (nonlinear_arith)
            requires
                l == (m - 1) + t,
                2 * t == (m - 1) * (m - 2),
                m == n - first,
        ;
    } else {
        assert(rows_from(n, first).len() == 0);
        assert((n - first) * (n - first - 1) == 0) by (nonlinear_arith)
            requires
                n == first,
        ;
    }
}

/// Over `n` positions the generator has exactly `n(n-1)/2` pairs to produce.
pub proof fn lemma_pair_count(n: int)
    requires
        0 <= n,
    ensures
        all_pairs(n).len() == n * (n - 1) / 2,
{
    lemma_rows_from_len(n, 0);
}

proof fn lemma_rows_from_contains(n: int, first: int, i: int, j: int)
    requires
        0 <= first <= i < j < n,
    ensures
        rows_from(n, first).contains((i, j)),
    decreases i - first,
{
    let r = row(n, first, first + 1);
    if i == first {
        assert(rows_from(n, first)[j - first - 1] == (i, j));
    } else {
        lemma_rows_from_contains(n, first + 1, i, j);
        let s = rows_from(n, first + 1);
        let k = choose|k: int| 0 <= k < s.len() && s[k] == (i, j);
        assert(rows_from(n, first)[r.len() + k] == (i, j));
    }
}

proof fn lemma_rows_from_sorted(n: int, first: int)
    requires
        0 <= first,
    ensures
        forall|k1: int, k2: int|
            0 <= k1 < k2 < rows_from(n, first).len() ==> lex_lt(
                rows_from(n, first)[k1],
                rows_from(n, first)[k2],
            ),
    decreases n - first,
{
    if first < n {
        lemma_rows_from_sorted(n, first + 1);
        lemma_rows_from_in_range(n, first + 1);
        let r = row(n, first, first + 1);
        let s = rows_from(n, first + 1);
        let all = rows_from(n, first);
        assert forall|k1: int, k2: int| 0 <= k1 < k2 < all.len() implies lex_lt(
            all[k1],
            all[k2],
        ) by {
            if k2 < r.len() {
            } else if k1 < r.len() {
                assert(all[k2] == s[k2 - r.len()]);
            } else {
                assert(all[k1] == s[k1 - r.len()]);
                assert(all[k2] == s[k2 - r.len()]);
            }
        }
    }
}

/// The generator's sequence over `n` positions holds each pair `(i, j)` with
/// `i < j < n`, nothing else, and comes in strictly increasing lexicographic
/// order, so that no pair comes twice.
pub proof fn lemma_pairs_each_once_in_order(n: int)
    requires
        0 <= n,
    ensures
        forall|k: int|
            0 <= k < all_pairs(n).len() ==> 0 <= #[trigger] all_pairs(n)[k].0 < all_pairs(n)[k].1
                < n,
        forall|i: int, j: int| 0 <= i < j < n ==> all_pairs(n).contains((i, j)),
        forall|k1: int, k2: int|
            0 <= k1 < k2 < all_pairs(n).len() ==> lex_lt(all_pairs(n)[k1], all_pairs(n)[k2]),
{
    lemma_rows_from_in_range(n, 0);
    lemma_rows_from_sorted(n, 0);
    assert forall|i: int, j: int| 0 <= i < j < n implies all_pairs(n).contains((i, j)) by {
        lemma_rows_from_contains(n, 0, i, j);
    }
}

} // verus!
