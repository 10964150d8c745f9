use vstd::prelude::*;
use crate::key_order::{lemma_tree_cmp_order, tree_cmp, tree_cmp_exec};
use crate::value::{Tree, Value};

verus! {

/// Where an item goes in a canonical order: pinned positions first, in
/// order, then items by a value of theirs, then items without one.
pub enum Rank {
    Pinned(int),
    Key(Tree),
    Absent,
}

pub open spec fn rank_class(r: Rank) -> int {
    match r {
        Rank::Pinned(_) => 0,
        Rank::Key(_) => 1,
        Rank::Absent => 2,
    }
}

/// `a` may come before `b`.
pub open spec fn rank_le(a: Rank, b: Rank) -> bool {
    if rank_class(a) != rank_class(b) {
        rank_class(a) < rank_class(b)
    } else {
        match (a, b) {
            (Rank::Pinned(x), Rank::Pinned(y)) => x <= y,
            (Rank::Key(x), Rank::Key(y)) => tree_cmp(x, y) <= 0,
            _ => true,
        }
    }
}

pub proof fn lemma_rank_le_total(a: Rank, b: Rank)
    ensures
        rank_le(a, b) || rank_le(b, a),
{
    match (a, b) {
        (Rank::Key(x), Rank::Key(y)) => lemma_tree_cmp_order(x, y, y),
        _ => {},
    }
}

pub proof fn lemma_rank_le_transitive(a: Rank, b: Rank, c: Rank)
    requires
        rank_le(a, b),
        rank_le(b, c),
    ensures
        rank_le(a, c),
{
    match (a, b, c) {
        (Rank::Key(x), Rank::Key(y), Rank::Key(z)) => lemma_tree_cmp_order(x, y, z),
        _ => {},
    }
}

/// The executable form of a `Rank`.
pub enum SortRank {
    Pinned(usize),
    Key(Value),
    Absent,
}

impl SortRank {
    pub open spec fn view(self) -> Rank {
        match self {
            SortRank::Pinned(k) => Rank::Pinned(k as int),
            SortRank::Key(v) => Rank::Key(v@),
            SortRank::Absent => Rank::Absent,
        }
    }
}

/// Whether rank `a` may come before rank `b`.
pub fn rank_le_exec(a: &SortRank, b: &SortRank) -> (r: bool)
    ensures
        r == rank_le(a@, b@),
{
    match (a, b) {
        (SortRank::Pinned(x), SortRank::Pinned(y)) => *x <= *y,
        (SortRank::Pinned(_), _) => true,
        (SortRank::Key(_), SortRank::Pinned(_)) => false,
        (SortRank::Key(x), SortRank::Key(y)) => tree_cmp_exec(x, y) <= 0,
        (SortRank::Key(_), SortRank::Absent) => true,
        (SortRank::Absent, SortRank::Absent) => true,
        (SortRank::Absent, _) => false,
    }
}

/// `x` placed into `s` after every item that may come before it.
pub open spec fn insert_by<T>(s: Seq<T>, x: T, le: spec_fn(T, T) -> bool) -> Seq<T>
    decreases s.len(),
{
    if s.len() == 0 || le(s.last(), x) {
        s.push(x)
    } else {
        insert_by(s.drop_last(), x, le).push(s.last())
    }
}

/// Stable insertion sort of `s` by `le`.
pub open spec fn sort_by<T>(s: Seq<T>, le: spec_fn(T, T) -> bool) -> Seq<T>
    decreases s.len(),
{
    if s.len() == 0 {
        s
    } else {
        insert_by(sort_by(s.drop_last(), le), s.last(), le)
    }
}

pub open spec fn sorted_by<T>(s: Seq<T>, le: spec_fn(T, T) -> bool) -> bool {
    forall|i: int, j: int| 0 <= i < j < s.len() ==> le(#[trigger] s[i], #[trigger] s[j])
}

/// `le` is total and transitive.
pub open spec fn total_preorder<T>(le: spec_fn(T, T) -> bool) -> bool {
    &&& forall|a: T, b: T| #[trigger] le(a, b) || le(b, a)
    &&& forall|a: T, b: T, c: T| #[trigger] le(a, b) && #[trigger] le(b, c) ==> le(a, c)
}

pub proof fn lemma_insert_all<T>(s: Seq<T>, x: T, le: spec_fn(T, T) -> bool, p: spec_fn(T) -> bool)
    requires
        forall|i: int| 0 <= i < s.len() ==> p(#[trigger] s[i]),
        p(x),
    ensures
        insert_by(s, x, le).len() == s.len() + 1,
        forall|i: int| 0 <= i < s.len() + 1 ==> p(#[trigger] insert_by(s, x, le)[i]),
    decreases s.len(),
{
    if s.len() > 0 && !le(s.last(), x) {
        lemma_insert_all(s.drop_last(), x, le, p);
    }
}

pub proof fn lemma_sort_all<T>(s: Seq<T>, le: spec_fn(T, T) -> bool, p: spec_fn(T) -> bool)
    requires
        forall|i: int| 0 <= i < s.len() ==> p(#[trigger] s[i]),
    ensures
        sort_by(s, le).len() == s.len(),
        forall|i: int| 0 <= i < s.len() ==> p(#[trigger] sort_by(s, le)[i]),
    decreases s.len(),
{
    if s.len() > 0 {
        lemma_sort_all(s.drop_last(), le, p);
        lemma_insert_all(sort_by(s.drop_last(), le), s.last(), le, p);
    }
}

pub proof fn lemma_insert_sorted<T>(s: Seq<T>, x: T, le: spec_fn(T, T) -> bool)
    requires
        total_preorder(le),
        sorted_by(s, le),
    ensures
        sorted_by(insert_by(s, x, le), le),
    decreases s.len(),
{
    if s.len() == 0 {
    } else if le(s.last(), x) {
        let r = s.push(x);
        assert forall|i: int, j: int| 0 <= i < j < r.len() implies le(#[trigger] r[i], #[trigger] r[j]) by {
            if j == s.len() && i < s.len() - 1 {
                assert(le(s[i], s[s.len() - 1]));
            }
        }
    } else {
        let t = s.drop_last();
        let y = s.last();
        lemma_insert_sorted(t, x, le);
        let p = |z: T| le(z, y);
        assert(le(x, y));
        assert forall|i: int| 0 <= i < t.len() implies p(#[trigger] t[i]) by {
            assert(le(s[i], s[s.len() - 1]));
        }
        lemma_insert_all(t, x, le, p);
        let u = insert_by(t, x, le);
        let r = u.push(y);
        assert forall|i: int, j: int| 0 <= i < j < r.len() implies le(#[trigger] r[i], #[trigger] r[j]) by {
            if j == u.len() {
                assert(p(u[i]));
            }
        }
    }
}

pub proof fn lemma_sort_sorted<T>(s: Seq<T>, le: spec_fn(T, T) -> bool)
    requires
        total_preorder(le),
    ensures
        sorted_by(sort_by(s, le), le),
    decreases s.len(),
{
    if s.len() > 0 {
        lemma_sort_sorted(s.drop_last(), le);
        lemma_insert_sorted(sort_by(s.drop_last(), le), s.last(), le);
    }
}

pub proof fn lemma_sort_of_sorted<T>(s: Seq<T>, le: spec_fn(T, T) -> bool)
    requires
        sorted_by(s, le),
    ensures
        sort_by(s, le) == s,
    decreases s.len(),
{
    if s.len() > 0 {
        let t = s.drop_last();
        assert(sorted_by(t, le)) by {
            assert forall|i: int, j: int| 0 <= i < j < t.len() implies le(#[trigger] t[i], #[trigger] t[j]) by {
                assert(le(s[i], s[j]));
            }
        }
        lemma_sort_of_sorted(t, le);
        if t.len() > 0 {
            assert(le(s[t.len() - 1], s[s.len() - 1]));
        }
        assert(t.push(s.last()) =~= s);
    }
}

pub proof fn lemma_insert_map<A, B>(
    s: Seq<A>,
    x: A,
    f: spec_fn(A) -> B,
    le_a: spec_fn(A, A) -> bool,
    le_b: spec_fn(B, B) -> bool,
)
    requires
        forall|a1: A, a2: A| #[trigger] le_a(a1, a2) == le_b(f(a1), f(a2)),
    ensures
        insert_by(s.map_values(f), f(x), le_b) == insert_by(s, x, le_a).map_values(f),
    decreases s.len(),
{
    if s.len() > 0 {
        assert(s.map_values(f).drop_last() =~= s.drop_last().map_values(f));
        lemma_insert_map(s.drop_last(), x, f, le_a, le_b);
        assert(le_a(s.last(), x) == le_b(f(s.last()), f(x)));
        if le_a(s.last(), x) {
            assert(s.push(x).map_values(f) =~= s.map_values(f).push(f(x)));
        } else {
            let u = insert_by(s.drop_last(), x, le_a);
            assert(u.push(s.last()).map_values(f) =~= u.map_values(f).push(f(s.last())));
        }
    } else {
        assert(s.push(x).map_values(f) =~= s.map_values(f).push(f(x)));
    }
}

/// Items pairwise related at distinct positions.
pub open spec fn pairwise<T>(s: Seq<T>, rel: spec_fn(T, T) -> bool) -> bool {
    forall|i: int, j: int|
        0 <= i < s.len() && 0 <= j < s.len() && i != j ==> rel(#[trigger] s[i], #[trigger] s[j])
}

pub proof fn lemma_insert_pairwise<T>(
    s: Seq<T>,
    x: T,
    le: spec_fn(T, T) -> bool,
    rel: spec_fn(T, T) -> bool,
)
    requires
        pairwise(s, rel),
        forall|i: int| 0 <= i < s.len() ==> rel(#[trigger] s[i], x) && rel(x, s[i]),
    ensures
        pairwise(insert_by(s, x, le), rel),
    decreases s.len(),
{
    if s.len() == 0 || le(s.last(), x) {
        let r = s.push(x);
        assert forall|i: int, j: int|
            0 <= i < r.len() && 0 <= j < r.len() && i != j implies rel(#[trigger] r[i], #[trigger] r[j]) by {
            if i < s.len() && j < s.len() {
                assert(rel(s[i], s[j]));
            }
        }
    } else {
        let t = s.drop_last();
        let y = s.last();
        let n = t.len() as int;
        assert forall|i: int, j: int|
            0 <= i < t.len() && 0 <= j < t.len() && i != j implies rel(#[trigger] t[i], #[trigger] t[j]) by {
            assert(rel(s[i], s[j]));
        }
        assert forall|i: int| 0 <= i < t.len() implies rel(#[trigger] t[i], x) && rel(x, t[i]) by {
            assert(rel(s[i], x) && rel(x, s[i]));
        }
        lemma_insert_pairwise(t, x, le, rel);
        let p = |z: T| rel(z, y) && rel(y, z);
        assert forall|i: int| 0 <= i < t.len() implies p(#[trigger] t[i]) by {
            assert(rel(s[i], s[n]) && rel(s[n], s[i]));
        }
        assert(p(x)) by {
            assert(rel(s[n], x) && rel(x, s[n]));
        }
        lemma_insert_all(t, x, le, p);
        let u = insert_by(t, x, le);
        let r = u.push(y);
        assert forall|i: int, j: int|
            0 <= i < r.len() && 0 <= j < r.len() && i != j implies rel(#[trigger] r[i], #[trigger] r[j]) by {
            if i < u.len() && j < u.len() {
                assert(rel(u[i], u[j]));
            } else if i < u.len() {
                assert(p(u[i]));
            } else {
                assert(p(u[j]));
            }
        }
    }
}

pub proof fn lemma_sort_pairwise<T>(s: Seq<T>, le: spec_fn(T, T) -> bool, rel: spec_fn(T, T) -> bool)
    requires
        pairwise(s, rel),
    ensures
        pairwise(sort_by(s, le), rel),
    decreases s.len(),
{
    if s.len() > 0 {
        let t = s.drop_last();
        let y = s.last();
        let n = t.len() as int;
        assert forall|i: int, j: int|
            0 <= i < t.len() && 0 <= j < t.len() && i != j implies rel(#[trigger] t[i], #[trigger] t[j]) by {
            assert(rel(s[i], s[j]));
        }
        lemma_sort_pairwise(t, le, rel);
        let p = |z: T| rel(z, y) && rel(y, z);
        assert forall|i: int| 0 <= i < t.len() implies p(#[trigger] t[i]) by {
            assert(rel(s[i], s[n]) && rel(s[n], s[i]));
        }
        lemma_sort_all(t, le, p);
        let u = sort_by(t, le);
        assert forall|i: int| 0 <= i < u.len() implies rel(#[trigger] u[i], y) && rel(y, u[i]) by {
            assert(p(u[i]));
        }
        lemma_insert_pairwise(u, y, le, rel);
    }
}

/// Sorting commutes with a map that carries one order onto the other.
pub proof fn lemma_sort_map<A, B>(
    s: Seq<A>,
    f: spec_fn(A) -> B,
    le_a: spec_fn(A, A) -> bool,
    le_b: spec_fn(B, B) -> bool,
)
    requires
        forall|a1: A, a2: A| #[trigger] le_a(a1, a2) == le_b(f(a1), f(a2)),
    ensures
        sort_by(s.map_values(f), le_b) == sort_by(s, le_a).map_values(f),
    decreases s.len(),
{
    if s.len() > 0 {
        assert(s.map_values(f).drop_last() =~= s.drop_last().map_values(f));
        lemma_sort_map(s.drop_last(), f, le_a, le_b);
        lemma_insert_map(sort_by(s.drop_last(), le_a), s.last(), f, le_a, le_b);
    } else {
        assert(s.map_values(f) =~= Seq::<B>::empty());
    }
}

/// The positions `0..n`.
pub open spec fn positions(n: nat) -> Seq<usize> {
    Seq::new(n, |i: int| i as usize)
}

/// The positions of `ranks` in the stable order of their ranks.
pub fn sort_positions(ranks: &Vec<SortRank>, Ghost(le): Ghost<spec_fn(usize, usize) -> bool>) -> (r:
    Vec<usize>)
    requires
        forall|i: usize, j: usize|
            i < ranks@.len() && j < ranks@.len() ==> #[trigger] le(i, j) == rank_le(
                ranks@[i as int]@,
                ranks@[j as int]@,
            ),
    ensures
        r@ == sort_by(positions(ranks@.len()), le),
{
    let n = ranks.len();
    let ghost all = positions(n as nat);
    let mut out: Vec<usize> = Vec::new();
    let mut i: usize = 0;
    while i < n
        invariant
            n == ranks@.len(),
            i <= n,
            all == positions(n as nat),
            forall|i: usize, j: usize|
                i < ranks@.len() && j < ranks@.len() ==> #[trigger] le(i, j) == rank_le(
                    ranks@[i as int]@,
                    ranks@[j as int]@,
                ),
            out@ == sort_by(all.subrange(0, i as int), le),
            forall|k: int| 0 <= k < out@.len() ==> #[trigger] out@[k] < i,
            out@.len() == i,
        decreases n - i,
    {
        let ghost s = out@;
        proof {
            assert(all.subrange(0, i + 1).drop_last() =~= all.subrange(0, i as int));
            assert(all.subrange(0, i + 1).last() == i);
        }
        let mut pos: usize = out.len();
        assert(s.subrange(0, pos as int) =~= s);
        assert(insert_by(s, i, le) + s.subrange(pos as int, s.len() as int) =~= insert_by(s, i, le));
        while pos > 0 && !rank_le_exec(&ranks[out[pos - 1]], &ranks[i])
            invariant
                n == ranks@.len(),
                i < n,
                out@ == s,
                pos <= s.len(),
                s.len() == i,
                forall|k: int| 0 <= k < s.len() ==> #[trigger] s[k] < i,
                forall|i: usize, j: usize|
                    i < ranks@.len() && j < ranks@.len() ==> #[trigger] le(i, j) == rank_le(
                        ranks@[i as int]@,
                        ranks@[j as int]@,
                    ),
                insert_by(s, i, le) == insert_by(s.subrange(0, pos as int), i, le) + s.subrange(
                    pos as int,
                    s.len() as int,
                ),
            decreases pos,
        {
            let ghost t = s.subrange(0, pos as int);
            assert(!le(t.last(), i));
            assert(t.drop_last() =~= s.subrange(0, pos - 1));
            assert(insert_by(s.subrange(0, pos - 1), i, le).push(t.last()) + s.subrange(
                pos as int,
                s.len() as int,
            ) =~= insert_by(s.subrange(0, pos - 1), i, le) + s.subrange(pos - 1, s.len() as int));
            pos -= 1;
        }
        proof {
            let t = s.subrange(0, pos as int);
            if pos > 0 {
                assert(le(t.last(), i));
            }
            assert(insert_by(t, i, le) == t.push(i));
        }
        out.insert(pos, i);
        assert(out@ =~= s.subrange(0, pos as int).push(i) + s.subrange(pos as int, s.len() as int));
        proof {
            lemma_insert_all(s, i, le, |k: usize| k < i + 1);
        }
        i += 1;
    }
    assert(all.subrange(0, n as int) =~= all);
    out
}

} // verus!
