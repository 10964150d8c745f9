use vstd::prelude::*;
use crate::value::{group_views, Tree};

verus! {

broadcast use group_views;

/// Structural equality of two models: same variant, same scalar, sequences
/// equal position by position, mappings of the same size where every entry
/// of `a` has an equal entry in `b`.
pub open spec fn tree_eq(a: Tree, b: Tree) -> bool
    decreases a, 0nat,
{
    match a {
        Tree::Sequence(xs) => match b {
            Tree::Sequence(ys) => seq_eq(xs, ys),
            _ => false,
        },
        Tree::Mapping(xm) => match b {
            Tree::Mapping(ym) => xm.len() == ym.len() && entries_in(xm, ym),
            _ => false,
        },
        _ => a == b,
    }
}

/// Sequences of the same length, equal position by position.
pub open spec fn seq_eq(xs: Seq<Tree>, ys: Seq<Tree>) -> bool
    decreases xs, 0nat,
{
    if xs.len() != ys.len() {
        false
    } else if xs.len() == 0 {
        true
    } else {
        seq_eq(xs.subrange(0, xs.len() - 1), ys.subrange(0, ys.len() - 1)) && tree_eq(
            xs[xs.len() - 1],
            ys[ys.len() - 1],
        )
    }
}

/// Every entry of `xm` has an equal entry in `ym`.
pub open spec fn entries_in(xm: Seq<(Tree, Tree)>, ym: Seq<(Tree, Tree)>) -> bool
    decreases xm, 0nat,
{
    if xm.len() == 0 {
        true
    } else {
        entries_in(xm.subrange(0, xm.len() - 1), ym) && has_entry(ym, xm[xm.len() - 1])
    }
}

/// Whether `m` holds an entry whose key and value equal those of `e`.
pub open spec fn has_entry(m: Seq<(Tree, Tree)>, e: (Tree, Tree)) -> bool
    decreases e, m.len(),
{
    if m.len() == 0 {
        false
    } else {
        has_entry(m.subrange(0, m.len() - 1), e) || (tree_eq(e.0, m[m.len() - 1].0) && tree_eq(
            e.1,
            m[m.len() - 1].1,
        ))
    }
}

pub broadcast proof fn lemma_seq_eq(xs: Seq<Tree>, ys: Seq<Tree>)
    ensures
        #[trigger] seq_eq(xs, ys) <==> (xs.len() == ys.len() && forall|i: int|
            #![trigger xs[i]]
            0 <= i < xs.len() ==> tree_eq(xs[i], ys[i])),
    decreases xs.len(),
{
    if xs.len() == ys.len() && xs.len() > 0 {
        let n = xs.len() - 1;
        lemma_seq_eq(xs.subrange(0, n), ys.subrange(0, n));
        assert(forall|i: int| 0 <= i < n ==> xs.subrange(0, n)[i] == xs[i]);
        assert(forall|i: int| 0 <= i < n ==> ys.subrange(0, n)[i] == ys[i]);
    }
}

pub broadcast proof fn lemma_has_entry(m: Seq<(Tree, Tree)>, e: (Tree, Tree))
    ensures
        #[trigger] has_entry(m, e) <==> exists|j: int|
            #![trigger m[j]]
            0 <= j < m.len() && tree_eq(e.0, m[j].0) && tree_eq(e.1, m[j].1),
    decreases m.len(),
{
    if m.len() > 0 {
        let n = m.len() - 1;
        lemma_has_entry(m.subrange(0, n), e);
        assert(forall|i: int| 0 <= i < n ==> m.subrange(0, n)[i] == m[i]);
        if has_entry(m, e) {
            if has_entry(m.subrange(0, n), e) {
                let j = choose|j: int|
                    0 <= j < n && tree_eq(e.0, m.subrange(0, n)[j].0) && tree_eq(
                        e.1,
                        m.subrange(0, n)[j].1,
                    );
                assert(tree_eq(e.0, m[j].0));
            } else {
                assert(tree_eq(e.0, m[n].0));
            }
        }
    }
}

pub broadcast proof fn lemma_entries_in(xm: Seq<(Tree, Tree)>, ym: Seq<(Tree, Tree)>)
    ensures
        #[trigger] entries_in(xm, ym) <==> forall|i: int|
            #![trigger xm[i]]
            0 <= i < xm.len() ==> has_entry(ym, xm[i]),
    decreases xm.len(),
{
    if xm.len() > 0 {
        let n = xm.len() - 1;
        lemma_entries_in(xm.subrange(0, n), ym);
        assert(forall|i: int| 0 <= i < n ==> xm.subrange(0, n)[i] == xm[i]);
    }
}

pub broadcast group group_tree_eq {
    lemma_seq_eq,
    lemma_has_entry,
    lemma_entries_in,
}

/// Index of the first entry of `m` whose key equals `k`.
pub open spec fn key_index(m: Seq<(Tree, Tree)>, k: Tree) -> Option<int>
    decreases m.len(),
{
    if m.len() == 0 {
        None
    } else {
        match key_index(m.subrange(0, m.len() - 1), k) {
            Some(i) => Some(i),
            None => if tree_eq(m[m.len() - 1].0, k) {
                Some(m.len() - 1)
            } else {
                None
            },
        }
    }
}

/// The value stored under key `k` in `m`, from its first entry with that key.
pub open spec fn lookup(m: Seq<(Tree, Tree)>, k: Tree) -> Option<Tree> {
    match key_index(m, k) {
        Some(i) => Some(m[i].1),
        None => None,
    }
}

pub broadcast proof fn lemma_key_index(m: Seq<(Tree, Tree)>, k: Tree)
    ensures
        match #[trigger] key_index(m, k) {
            Some(i) => 0 <= i < m.len() && tree_eq(m[i].0, k) && forall|j: int|
                0 <= j < i ==> !tree_eq(m[j].0, k),
            None => forall|j: int| 0 <= j < m.len() ==> !tree_eq(m[j].0, k),
        },
    decreases m.len(),
{
    if m.len() > 0 {
        let n = m.len() - 1;
        lemma_key_index(m.subrange(0, n), k);
        assert(forall|j: int| 0 <= j < n ==> m.subrange(0, n)[j] == m[j]);
    }
}

/// Well-formed models: the keys of every mapping are pairwise unequal.
pub open spec fn well_formed(t: Tree) -> bool
    decreases t, 0nat,
{
    match t {
        Tree::Sequence(xs) => items_well_formed(xs),
        Tree::Mapping(m) => entries_well_formed_upto(m),
        _ => true,
    }
}

pub open spec fn items_well_formed(xs: Seq<Tree>) -> bool
    decreases xs, 0nat,
{
    xs.len() == 0 || (items_well_formed(xs.subrange(0, xs.len() - 1)) && well_formed(
        xs[xs.len() - 1],
    ))
}

pub open spec fn entries_well_formed_upto(m: Seq<(Tree, Tree)>) -> bool
    decreases m, 0nat,
{
    m.len() == 0 || {
        let n = m.len() - 1;
        &&& entries_well_formed_upto(m.subrange(0, n))
        &&& well_formed(m[n].0)
        &&& well_formed(m[n].1)
        &&& forall|j: int| 0 <= j < n ==> !tree_eq(#[trigger] m[j].0, m[n].0)
    }
}

/// The entries of a well-formed mapping: well-formed keys and values, keys
/// pairwise unequal.
pub open spec fn entries_well_formed(m: Seq<(Tree, Tree)>) -> bool {
    &&& forall|i: int|
        #![trigger m[i]]
        0 <= i < m.len() ==> well_formed(m[i].0) && well_formed(m[i].1)
    &&& forall|i: int, j: int|
        #![trigger m[i], m[j]]
        0 <= i < j < m.len() ==> !tree_eq(m[i].0, m[j].0)
}

proof fn lemma_items_well_formed(xs: Seq<Tree>)
    ensures
        items_well_formed(xs) == forall|i: int| #![trigger xs[i]] 0 <= i < xs.len() ==> well_formed(xs[i]),
    decreases xs.len(),
{
    if xs.len() > 0 {
        let n = xs.len() - 1;
        lemma_items_well_formed(xs.subrange(0, n));
        assert(forall|i: int| 0 <= i < n ==> xs.subrange(0, n)[i] == xs[i]);
    }
}

proof fn lemma_entries_well_formed(m: Seq<(Tree, Tree)>)
    ensures
        entries_well_formed_upto(m) == entries_well_formed(m),
    decreases m.len(),
{
    if m.len() > 0 {
        let n = m.len() - 1;
        let p = m.subrange(0, n);
        lemma_entries_well_formed(p);
        assert(forall|i: int| 0 <= i < n ==> p[i] == m[i]);
        if entries_well_formed(m) {
            assert(entries_well_formed(p));
            assert(forall|j: int| 0 <= j < n ==> !tree_eq(#[trigger] m[j].0, m[n].0));
        }
        if entries_well_formed_upto(m) {
            assert forall|i: int, j: int| #![trigger m[i], m[j]] 0 <= i < j < m.len() implies !tree_eq(
                m[i].0,
                m[j].0,
            ) by {
                if j < n {
                    assert(!tree_eq(p[i].0, p[j].0));
                }
            }
        }
    }
}

pub broadcast proof fn lemma_well_formed_mapping(m: Seq<(Tree, Tree)>)
    ensures
        #[trigger] well_formed(Tree::Mapping(m)) == entries_well_formed(m),
{
    lemma_entries_well_formed(m);
}

pub broadcast proof fn lemma_well_formed_sequence(xs: Seq<Tree>)
    ensures
        #[trigger] well_formed(Tree::Sequence(xs)) == forall|i: int|
            #![trigger xs[i]]
            0 <= i < xs.len() ==> well_formed(xs[i]),
{
    lemma_items_well_formed(xs);
}

pub broadcast group group_well_formed {
    lemma_well_formed_mapping,
    lemma_well_formed_sequence,
}

/// Once a prefix holds a matching key, the whole sequence has the same first match.
pub proof fn lemma_key_index_prefix(m: Seq<(Tree, Tree)>, k: Tree, n: int)
    requires
        0 <= n <= m.len(),
        key_index(m.subrange(0, n), k) is Some,
    ensures
        key_index(m, k) == key_index(m.subrange(0, n), k),
    decreases m.len() - n,
{
    if n < m.len() {
        assert(m.subrange(0, n + 1).subrange(0, n) =~= m.subrange(0, n));
        lemma_key_index_prefix(m, k, n + 1);
    } else {
        assert(m.subrange(0, n) =~= m);
    }
}

/// Every value is equal to itself.
pub proof fn lemma_tree_eq_reflexive(a: Tree)
    ensures
        tree_eq(a, a),
    decreases a,
{
    match a {
        Tree::Sequence(xs) => {
            assert forall|i: int| 0 <= i < xs.len() implies tree_eq(xs[i], xs[i]) by {
                lemma_tree_eq_reflexive(xs[i]);
            }
            lemma_seq_eq(xs, xs);
        },
        Tree::Mapping(xm) => {
            assert forall|i: int| 0 <= i < xm.len() implies has_entry(xm, xm[i]) by {
                lemma_tree_eq_reflexive(xm[i].0);
                lemma_tree_eq_reflexive(xm[i].1);
                lemma_has_entry(xm, xm[i]);
            }
            lemma_entries_in(xm, xm);
        },
        _ => {},
    }
}

} // verus!
