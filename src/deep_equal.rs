use vstd::prelude::*;
use vstd::set_lib::{lemma_int_range, lemma_map_size, lemma_subset_equality, set_int_range};
use crate::equality::{
    entries_in, group_tree_eq, group_well_formed, has_entry, key_index, lemma_key_index_prefix,
    lemma_tree_eq_reflexive, seq_eq, tree_eq, well_formed,
};
use crate::value::{entry_views, group_views, views, Tree, Value};

verus! {

broadcast use {group_views, group_tree_eq, group_well_formed};

/// Whether `a` and `b` are structurally equal.
pub fn deep_equal(a: &Value, b: &Value) -> (r: bool)
    ensures
        r == tree_eq(a@, b@),
    decreases a,
{
    match (a, b) {
        (Value::Null, Value::Null) => true,
        (Value::Boolean(x), Value::Boolean(y)) => *x == *y,
        (Value::Integer(x), Value::Integer(y)) => *x == *y,
        (Value::Real(x), Value::Real(y)) => *x == *y,
        (Value::String(x), Value::String(y)) => *x == *y,
        (Value::Sequence(xs), Value::Sequence(ys)) => items_equal(xs, ys),
        (Value::Mapping(xm), Value::Mapping(ym)) => {
            assert(a@ == Tree::Mapping(entry_views(xm@)));
            assert(b@ == Tree::Mapping(entry_views(ym@)));
            entries_equal(xm, ym)
        },
        _ => false,
    }
}

fn items_equal(xs: &Vec<Value>, ys: &Vec<Value>) -> (r: bool)
    ensures
        r == seq_eq(views(xs@), views(ys@)),
    decreases xs,
{
    if xs.len() != ys.len() {
        return false;
    }
    let mut i: usize = 0;
    while i < xs.len()
        invariant
            i <= xs.len() == ys.len(),
            forall|j: int| 0 <= j < i ==> tree_eq(xs@[j]@, ys@[j]@),
        decreases xs.len() - i,
    {
        if !deep_equal(&xs[i], &ys[i]) {
            assert(!tree_eq(views(xs@)[i as int], views(ys@)[i as int]));
            return false;
        }
        i += 1;
    }
    assert forall|j: int| 0 <= j < views(xs@).len() implies tree_eq(
        #[trigger] views(xs@)[j],
        views(ys@)[j],
    ) by {
        assert(tree_eq(xs@[j]@, ys@[j]@));
    }
    true
}

fn entries_equal(xm: &Vec<(Value, Value)>, ym: &Vec<(Value, Value)>) -> (r: bool)
    ensures
        r == (xm@.len() == ym@.len() && entries_in(entry_views(xm@), entry_views(ym@))),
    decreases xm,
{
    let ghost xv = entry_views(xm@);
    let ghost yv = entry_views(ym@);
    if xm.len() != ym.len() {
        return false;
    }
    let mut i: usize = 0;
    while i < xm.len()
        invariant
            i <= xm.len() == ym.len(),
            xv == entry_views(xm@),
            yv == entry_views(ym@),
            forall|k: int| 0 <= k < i ==> #[trigger] has_entry(yv, xv[k]),
        decreases xm.len() - i,
    {
        let mut found = false;
        let mut j: usize = 0;
        while j < ym.len() && !found
            invariant
                i < xm.len() == ym.len(),
                j <= ym.len(),
                xv == entry_views(xm@),
                yv == entry_views(ym@),
                found ==> has_entry(yv, xv[i as int]),
                !found ==> forall|j2: int|
                    #![trigger yv[j2]]
                    0 <= j2 < j ==> !(tree_eq(xv[i as int].0, yv[j2].0) && tree_eq(
                        xv[i as int].1,
                        yv[j2].1,
                    )),
            decreases ym.len() - j,
        {
            if deep_equal(&xm[i].0, &ym[j].0) && deep_equal(&xm[i].1, &ym[j].1) {
                assert(tree_eq(xv[i as int].0, yv[j as int].0) && tree_eq(
                    xv[i as int].1,
                    yv[j as int].1,
                ));
                found = true;
            }
            j += 1;
        }
        if !found {
            assert(!has_entry(yv, xv[i as int]));
            return false;
        }
        i += 1;
    }
    true
}

/// Index of the first entry of `m` whose key equals `k`.
pub fn find_key(m: &Vec<(Value, Value)>, k: &Value) -> (r: Option<usize>)
    ensures
        match r {
            Some(i) => key_index(entry_views(m@), k@) == Some(i as int),
            None => key_index(entry_views(m@), k@) is None,
        },
{
    let ghost mv = entry_views(m@);
    let mut i: usize = 0;
    while i < m.len()
        invariant
            i <= m.len(),
            mv == entry_views(m@),
            key_index(mv.subrange(0, i as int), k@) is None,
        decreases m.len() - i,
    {
        assert(mv.subrange(0, i + 1).subrange(0, i as int) =~= mv.subrange(0, i as int));
        if deep_equal(&m[i].0, k) {
            assert(mv.subrange(0, i + 1)[i as int] == mv[i as int]);
            assert(key_index(mv.subrange(0, i + 1), k@) == Some(i as int));
            proof {
                lemma_key_index_prefix(mv, k@, i + 1);
            }
            return Some(i);
        }
        assert(mv.subrange(0, i + 1)[i as int] == mv[i as int]);
        i += 1;
    }
    assert(mv.subrange(0, i as int) =~= mv);
    None
}

/// Equality is transitive.
pub proof fn lemma_tree_eq_transitive(a: Tree, b: Tree, c: Tree)
    requires
        tree_eq(a, b),
        tree_eq(b, c),
    ensures
        tree_eq(a, c),
    decreases a,
{
    match a {
        Tree::Sequence(xs) => {
            let ys = b->Sequence_0;
            let zs = c->Sequence_0;
            assert(seq_eq(xs, ys));
            assert(seq_eq(ys, zs));
            assert forall|i: int| 0 <= i < xs.len() implies tree_eq(#[trigger] xs[i], zs[i]) by {
                lemma_tree_eq_transitive(xs[i], ys[i], zs[i]);
            }
            assert(seq_eq(xs, zs));
        },
        Tree::Mapping(xm) => {
            let ym = b->Mapping_0;
            let zm = c->Mapping_0;
            assert(xm.len() == ym.len() && entries_in(xm, ym));
            assert(ym.len() == zm.len() && entries_in(ym, zm));
            assert forall|i: int| 0 <= i < xm.len() implies has_entry(zm, #[trigger] xm[i]) by {
                assert(has_entry(ym, xm[i]));
                let j = choose|j: int|
                    0 <= j < ym.len() && tree_eq(xm[i].0, ym[j].0) && tree_eq(xm[i].1, ym[j].1);
                assert(has_entry(zm, ym[j]));
                let k = choose|k: int|
                    0 <= k < zm.len() && tree_eq(ym[j].0, zm[k].0) && tree_eq(ym[j].1, zm[k].1);
                lemma_tree_eq_transitive(xm[i].0, ym[j].0, zm[k].0);
                lemma_tree_eq_transitive(xm[i].1, ym[j].1, zm[k].1);
                assert(tree_eq(xm[i].0, zm[k].0) && tree_eq(xm[i].1, zm[k].1));
            }
            assert(entries_in(xm, zm));
        },
        _ => {},
    }
}

/// Entry `i` of `xm` equals entry `j` of `ym`.
pub open spec fn entry_match(xm: Seq<(Tree, Tree)>, ym: Seq<(Tree, Tree)>, i: int, j: int) -> bool {
    0 <= j < ym.len() && tree_eq(xm[i].0, ym[j].0) && tree_eq(xm[i].1, ym[j].1)
}

/// Some position of `0..n` is mapped to `j`.
pub open spec fn reached(f: spec_fn(int) -> int, n: int, j: int) -> bool {
    exists|i: int| 0 <= i < n && #[trigger] f(i) == j
}

/// An injective map of `0..n` into itself reaches every position.
proof fn lemma_injective_onto(n: int, f: spec_fn(int) -> int)
    requires
        n >= 0,
        forall|i: int| 0 <= i < n ==> 0 <= #[trigger] f(i) < n,
        forall|i1: int, i2: int|
            0 <= i1 < n && 0 <= i2 < n && #[trigger] f(i1) == #[trigger] f(i2) ==> i1 == i2,
    ensures
        forall|j: int| 0 <= j < n ==> #[trigger] reached(f, n, j),
{
    let x = set_int_range(0, n);
    let y = x.map(f);
    lemma_int_range(0, n);
    lemma_map_size(x, y, f);
    assert(y.subset_of(x));
    lemma_subset_equality(y, x);
    assert forall|j: int| 0 <= j < n implies #[trigger] reached(f, n, j) by {
        assert(x.contains(j));
        assert(y.contains(j));
    }
}

/// Equality of well-formed models is symmetric.
pub proof fn lemma_tree_eq_symmetric(a: Tree, b: Tree)
    requires
        well_formed(a),
        well_formed(b),
        tree_eq(a, b),
    ensures
        tree_eq(b, a),
    decreases a,
{
    match a {
        Tree::Sequence(xs) => {
            let ys = b->Sequence_0;
            assert(seq_eq(xs, ys));
            assert forall|i: int| 0 <= i < ys.len() implies tree_eq(#[trigger] ys[i], xs[i]) by {
                assert(well_formed(xs[i]));
                assert(well_formed(ys[i]));
                lemma_tree_eq_symmetric(xs[i], ys[i]);
            }
            assert(seq_eq(ys, xs));
        },
        Tree::Mapping(xm) => {
            let ym = b->Mapping_0;
            let n = xm.len() as int;
            assert(xm.len() == ym.len() && entries_in(xm, ym));
            let f = |i: int| choose|j: int| #[trigger] entry_match(xm, ym, i, j);
            assert forall|i: int| 0 <= i < n implies #[trigger] entry_match(xm, ym, i, f(i)) by {
                assert(has_entry(ym, xm[i]));
                let j = choose|j: int|
                    0 <= j < ym.len() && tree_eq(xm[i].0, ym[j].0) && tree_eq(xm[i].1, ym[j].1);
                assert(entry_match(xm, ym, i, j));
            }
            assert forall|i1: int, i2: int|
                0 <= i1 < n && 0 <= i2 < n && #[trigger] f(i1) == #[trigger] f(i2) implies i1 == i2 by {
                let j = f(i1);
                assert(entry_match(xm, ym, i1, j) && entry_match(xm, ym, i2, j));
                assert(well_formed(xm[i1].0) && well_formed(xm[i2].0));
                assert(well_formed(ym[j].0));
                lemma_tree_eq_symmetric(xm[i2].0, ym[j].0);
                lemma_tree_eq_symmetric(xm[i1].0, ym[j].0);
                lemma_tree_eq_transitive(xm[i1].0, ym[j].0, xm[i2].0);
                lemma_tree_eq_transitive(xm[i2].0, ym[j].0, xm[i1].0);
                if i1 < i2 {
                    assert(!tree_eq(xm[i1].0, xm[i2].0));
                } else if i2 < i1 {
                    assert(!tree_eq(xm[i2].0, xm[i1].0));
                }
            }
            assert forall|i: int| 0 <= i < n implies 0 <= #[trigger] f(i) < n by {
                assert(entry_match(xm, ym, i, f(i)));
            }
            lemma_injective_onto(n, f);
            assert forall|j: int| 0 <= j < ym.len() implies has_entry(xm, #[trigger] ym[j]) by {
                assert(reached(f, n, j));
                let i = choose|i: int| 0 <= i < n && #[trigger] f(i) == j;
                assert(entry_match(xm, ym, i, j));
                assert(well_formed(xm[i].0) && well_formed(xm[i].1));
                assert(well_formed(ym[j].0) && well_formed(ym[j].1));
                lemma_tree_eq_symmetric(xm[i].0, ym[j].0);
                lemma_tree_eq_symmetric(xm[i].1, ym[j].1);
                assert(tree_eq(ym[j].0, xm[i].0) && tree_eq(ym[j].1, xm[i].1));
            }
            assert(entries_in(ym, xm));
        },
        _ => {},
    }
}

/// Deep equality is reflexive and, on well-formed values, symmetric.
pub proof fn lemma_deep_equal_reflexive_symmetric(a: Tree, b: Tree)
    requires
        well_formed(a),
        well_formed(b),
    ensures
        tree_eq(a, a),
        tree_eq(a, b) == tree_eq(b, a),
{
    lemma_tree_eq_reflexive(a);
    if tree_eq(a, b) {
        lemma_tree_eq_symmetric(a, b);
    }
    if tree_eq(b, a) {
        lemma_tree_eq_symmetric(b, a);
    }
}

} // verus!
