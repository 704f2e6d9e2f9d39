//! Stable ordering of records by a rank (an integer, then a text), as
//! `sort_by_key` and `sort_by` order them: records of equal rank keep the
//! order in which they came.

use vstd::prelude::*;
use crate::text::{seq_lt, lemma_seq_lt_irreflexive, lemma_seq_lt_transitive, lemma_seq_lt_total};

verus! {

/// Strict order on ranks: by the integer, then by the text.
pub open spec fn rank_lt(a: (int, Seq<char>), b: (int, Seq<char>)) -> bool {
    a.0 < b.0 || (a.0 == b.0 && seq_lt(a.1, b.1))
}

pub proof fn lemma_rank_lt_irreflexive(a: (int, Seq<char>))
    ensures
        !rank_lt(a, a),
{
    lemma_seq_lt_irreflexive(a.1);
}

pub proof fn lemma_rank_lt_transitive(a: (int, Seq<char>), b: (int, Seq<char>), c: (int, Seq<char>))
    requires
        rank_lt(a, b),
        rank_lt(b, c),
    ensures
        rank_lt(a, c),
{
    if a.0 == b.0 && b.0 == c.0 {
        lemma_seq_lt_transitive(a.1, b.1, c.1);
    }
}

pub proof fn lemma_rank_lt_total(a: (int, Seq<char>), b: (int, Seq<char>))
    ensures
        a == b || rank_lt(a, b) || rank_lt(b, a),
{
    lemma_seq_lt_total(a.1, b.1);
}

/// Records that sort by the rank of their content.
pub trait Ranked: View + Sized {
    /// The rank of a record's content.
    spec fn rank(v: Self::V) -> (int, Seq<char>);

    /// Whether this record ranks strictly before `other`.
    fn ranks_before(&self, other: &Self) -> (r: bool)
        ensures
            r == rank_lt(Self::rank(self@), Self::rank(other@)),
    ;
}

/// The rank of a [`Ranked`] type's content, as a function.
pub open spec fn rank_fn<T: Ranked>() -> spec_fn(T::V) -> (int, Seq<char>) {
    |x: T::V| T::rank(x)
}

/// The contents of a sequence of records.
pub open spec fn views<T: View>(s: Seq<T>) -> Seq<T::V> {
    s.map_values(|x: T| x@)
}

/// No element ranks strictly before one that comes earlier.
pub open spec fn rank_sorted<V>(s: Seq<V>, rank: spec_fn(V) -> (int, Seq<char>)) -> bool {
    forall|i: int, j: int|
        0 <= i < j < s.len() ==> !rank_lt(rank(#[trigger] s[j]), rank(#[trigger] s[i]))
}

/// The elements of `s` of rank `k`, in order.
pub open spec fn of_rank<V>(s: Seq<V>, rank: spec_fn(V) -> (int, Seq<char>), k: (int, Seq<char>)) -> Seq<V> {
    s.filter(|x: V| rank(x) == k)
}

/// `r` is `s` ordered by rank, elements of equal rank in their order in `s`.
pub open spec fn stably_sorted<V>(r: Seq<V>, s: Seq<V>, rank: spec_fn(V) -> (int, Seq<char>)) -> bool {
    &&& r.len() == s.len()
    &&& rank_sorted(r, rank)
    &&& forall|k: (int, Seq<char>)| #[trigger] of_rank(r, rank, k) == of_rank(s, rank, k)
}

proof fn lemma_filter_one<V>(x: V, pred: spec_fn(V) -> bool)
    ensures
        seq![x].filter(pred) == if pred(x) {
            seq![x]
        } else {
            Seq::<V>::empty()
        },
{
    reveal(Seq::filter);
    let e = Seq::<V>::empty();
    assert(e.filter(pred) =~= e);
    assert(e.push(x) =~= seq![x]);
    e.lemma_filter_push(x, pred);
}

/// Inserting `x` after every element that it does not rank before, and before
/// the first that it does, extends a stable ordering of `s` to one of `s` with
/// `x` appended.
proof fn lemma_insert_stable<V>(
    r: Seq<V>,
    s: Seq<V>,
    rank: spec_fn(V) -> (int, Seq<char>),
    p: int,
    x: V,
)
    requires
        stably_sorted(r, s, rank),
        0 <= p <= r.len(),
        forall|j: int| 0 <= j < p ==> !rank_lt(rank(x), rank(#[trigger] r[j])),
        p < r.len() ==> rank_lt(rank(x), rank(r[p])),
    ensures
        stably_sorted(r.insert(p, x), s.push(x), rank),
{
    let r2 = r.insert(p, x);
    assert forall|j: int| p <= j < r.len() implies rank_lt(rank(x), rank(#[trigger] r[j])) by {
        if j > p {
            lemma_rank_lt_total(rank(r[p]), rank(r[j]));
            if rank_lt(rank(r[p]), rank(r[j])) {
                lemma_rank_lt_transitive(rank(x), rank(r[p]), rank(r[j]));
            }
        }
    }
    assert forall|i: int, j: int| 0 <= i < j < r2.len() implies !rank_lt(
        rank(#[trigger] r2[j]),
        rank(#[trigger] r2[i]),
    ) by {
        if j < p {
            assert(r2[i] == r[i] && r2[j] == r[j]);
        } else if j == p {
            assert(r2[i] == r[i] && r2[j] == x);
        } else if i < p {
            assert(r2[i] == r[i] && r2[j] == r[j - 1]);
        } else if i == p {
            assert(r2[i] == x && r2[j] == r[j - 1]);
            if rank_lt(rank(r[j - 1]), rank(x)) {
                lemma_rank_lt_transitive(rank(x), rank(r[j - 1]), rank(x));
                lemma_rank_lt_irreflexive(rank(x));
            }
        } else {
            assert(r2[i] == r[i - 1] && r2[j] == r[j - 1]);
        }
    }
    assert forall|k: (int, Seq<char>)| #[trigger] of_rank(r2, rank, k) == of_rank(s.push(x), rank, k) by {
        let pred = |y: V| rank(y) == k;
        let a = r.take(p);
        let b = r.skip(p);
        assert(r =~= a + b);
        assert(r2 =~= a + seq![x] + b);
        Seq::filter_distributes_over_add(a, b, pred);
        Seq::filter_distributes_over_add(a + seq![x], b, pred);
        Seq::filter_distributes_over_add(a, seq![x], pred);
        lemma_filter_one(x, pred);
        s.lemma_filter_push(x, pred);
        assert(of_rank(r, rank, k) == of_rank(s, rank, k));
        if rank(x) == k {
            assert forall|t: int| 0 <= t < b.len() implies !pred(#[trigger] b[t]) by {
                assert(b[t] == r[p + t]);
                lemma_rank_lt_irreflexive(k);
            }
            assert(b.all(|y: V| !pred(y)));
            b.lemma_all_neg_filter_empty(pred);
            assert(b.filter(pred) =~= Seq::<V>::empty());
            assert(a.filter(pred) + seq![x] + b.filter(pred) =~= (a.filter(pred) + b.filter(
                pred,
            )).push(x));
        } else {
            assert(a.filter(pred) + Seq::<V>::empty() + b.filter(pred) =~= a.filter(pred)
                + b.filter(pred));
        }
    }
}

/// The records ordered by rank; records of equal rank keep their order.
pub fn sort_by_rank<T: Ranked>(v: Vec<T>) -> (r: Vec<T>)
    ensures
        stably_sorted(views(r@), views(v@), rank_fn::<T>()),
{
    let ghost orig = views(v@);
    let ghost rank = rank_fn::<T>();
    let mut rest = v;
    let mut out: Vec<T> = Vec::new();
    proof {
        reveal(Seq::filter);
        assert forall|k: (int, Seq<char>)| #[trigger] of_rank(views(out@), rank, k) == of_rank(
            orig.take(0),
            rank,
            k,
        ) by {
            assert(views(out@) =~= Seq::<T::V>::empty());
            assert(orig.take(0) =~= Seq::<T::V>::empty());
        }
    }
    while rest.len() > 0
        invariant
            orig.len() == out.len() + rest.len(),
            views(rest@) == orig.skip(out.len() as int),
            rank == rank_fn::<T>(),
            stably_sorted(views(out@), orig.take(out.len() as int), rank),
        decreases rest.len(),
    {
        let ghost n = out.len() as int;
        let ghost before = views(out@);
        let ghost pending = rest@;
        let x = rest.remove(0);
        assert(x@ == orig[n]) by {
            assert(views(pending)[0] == orig.skip(n)[0]);
        }
        assert(views(rest@) =~= orig.skip(n + 1)) by {
            assert forall|t: int| 0 <= t < rest@.len() implies views(rest@)[t] == orig.skip(
                n + 1,
            )[t] by {
                assert(rest@[t] == pending[t + 1]);
                assert(views(pending)[t + 1] == orig.skip(n)[t + 1]);
            }
        }
        let mut p: usize = 0;
        while p < out.len() && !x.ranks_before(&out[p])
            invariant
                p <= out.len(),
                views(out@) == before,
                rank == rank_fn::<T>(),
                forall|j: int| 0 <= j < p ==> !rank_lt(rank(x@), rank(#[trigger] before[j])),
            decreases out.len() - p,
        {
            assert(before[p as int] == out@[p as int]@);
            p = p + 1;
        }
        proof {
            if p < out.len() {
                assert(before[p as int] == out@[p as int]@);
            }
            lemma_insert_stable(before, orig.take(n), rank, p as int, x@);
            assert(orig.take(n).push(x@) =~= orig.take(n + 1));
        }
        out.insert(p, x);
        assert(views(out@) =~= before.insert(p as int, x@));
    }
    assert(orig.take(out.len() as int) =~= orig);
    out
}

} // verus!
