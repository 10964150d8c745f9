use vstd::prelude::*;
use crate::deep_equal::{deep_equal, find_key};
use crate::equality::{
    entries_well_formed, group_tree_eq, group_well_formed, key_index, lemma_key_index,
    lemma_tree_eq_reflexive, lookup, tree_eq, well_formed,
};
pub use crate::consensus::diff_and_common_multiple;
use crate::value::{entry_views, group_views, opt_view, views, Tree, Value};

verus! {

broadcast use {group_views, group_tree_eq, group_well_formed, lemma_key_index};

/// What `c` adds to or changes in `r`, or `None` when the two are equal.
/// Mappings are compared key by key over the keys of `c`; sequences of the
/// same length position by position, unchanged positions becoming `Null`;
/// anything else is reported whole.
pub open spec fn diff_of(c: Tree, r: Tree) -> Option<Tree>
    decreases c, 0nat,
{
    if tree_eq(c, r) {
        None
    } else {
        match c {
            Tree::Mapping(cm) => match r {
                Tree::Mapping(rm) => {
                    let d = diff_entries(cm, rm);
                    if d.len() == 0 {
                        None
                    } else {
                        Some(Tree::Mapping(d))
                    }
                },
                _ => Some(c),
            },
            Tree::Sequence(cs) => match r {
                Tree::Sequence(rs) => if cs.len() != rs.len() {
                    Some(c)
                } else {
                    let d = diff_items(cs, rs);
                    if any_some(d) {
                        Some(Tree::Sequence(placeholders(d)))
                    } else {
                        None
                    }
                },
                _ => Some(c),
            },
            _ => Some(c),
        }
    }
}

/// Position-wise diffs of two sequences.
pub open spec fn diff_items(cs: Seq<Tree>, rs: Seq<Tree>) -> Seq<Option<Tree>>
    decreases cs, 0nat,
{
    if cs.len() == 0 {
        Seq::empty()
    } else {
        let n = cs.len() - 1;
        diff_items(cs.subrange(0, n), rs.subrange(0, n)).push(diff_of(cs[n], rs[n]))
    }
}

/// The entries of `cm` that differ from `rm`, each with its diff; a key
/// missing from `rm` is compared against `Null`.
pub open spec fn diff_entries(cm: Seq<(Tree, Tree)>, rm: Seq<(Tree, Tree)>) -> Seq<(Tree, Tree)>
    decreases cm, 0nat,
{
    if cm.len() == 0 {
        Seq::empty()
    } else {
        let n = cm.len() - 1;
        let rest = diff_entries(cm.subrange(0, n), rm);
        let refv = match lookup(rm, cm[n].0) {
            Some(v) => v,
            None => Tree::Null,
        };
        match diff_of(cm[n].1, refv) {
            Some(d) => rest.push((cm[n].0, d)),
            None => rest,
        }
    }
}

pub open spec fn any_some(d: Seq<Option<Tree>>) -> bool {
    exists|i: int| 0 <= i < d.len() && #[trigger] d[i] is Some
}

/// The diffs with `Null` at the positions that did not change.
pub open spec fn placeholders(d: Seq<Option<Tree>>) -> Seq<Tree> {
    Seq::new(
        d.len(),
        |i: int|
            match d[i] {
                Some(x) => x,
                None => Tree::Null,
            },
    )
}

/// Computes the diff of `obj` against the reference `helm`: `None` when the
/// two are equal, else what `obj` adds or changes.
pub fn compute_diff(obj: &Value, helm: &Value) -> (r: Option<Value>)
    ensures
        opt_view(r) == diff_of(obj@, helm@),
        well_formed(obj@) && well_formed(helm@) ==> opt_well_formed(opt_view(r)),
    decreases obj,
{
    proof {
        if well_formed(obj@) && well_formed(helm@) {
            lemma_diff_well_formed(obj@, helm@);
        }
    }
    if deep_equal(obj, helm) {
        return None;
    }
    match (obj, helm) {
        (Value::Mapping(cm), Value::Mapping(rm)) => {
            let d = diff_mappings(cm, rm);
            assert(obj@ == Tree::Mapping(entry_views(cm@)));
            assert(helm@ == Tree::Mapping(entry_views(rm@)));
            if d.len() == 0 {
                None
            } else {
                Some(Value::Mapping(d))
            }
        },
        (Value::Sequence(cs), Value::Sequence(rs)) => {
            assert(obj@ == Tree::Sequence(views(cs@)));
            assert(helm@ == Tree::Sequence(views(rs@)));
            if cs.len() != rs.len() {
                Some(obj.deep_copy())
            } else {
                diff_sequences(cs, rs)
            }
        },
        _ => Some(obj.deep_copy()),
    }
}

fn diff_sequences(cs: &Vec<Value>, rs: &Vec<Value>) -> (r: Option<Value>)
    requires
        cs.len() == rs.len(),
    ensures
        ({
            let d = diff_items(views(cs@), views(rs@));
            opt_view(r) == if any_some(d) {
                Some(Tree::Sequence(placeholders(d)))
            } else {
                None
            }
        }),
    decreases cs,
{
    let ghost cv = views(cs@);
    let ghost rv = views(rs@);
    let mut out: Vec<Value> = Vec::new();
    let mut has_diff = false;
    let mut i: usize = 0;
    while i < cs.len()
        invariant
            i <= cs.len() == rs.len(),
            cv == views(cs@),
            rv == views(rs@),
            out.len() == i,
            diff_items(cv.subrange(0, i as int), rv.subrange(0, i as int)).len() == i,
            views(out@) == placeholders(
                diff_items(cv.subrange(0, i as int), rv.subrange(0, i as int)),
            ),
            has_diff == any_some(diff_items(cv.subrange(0, i as int), rv.subrange(0, i as int))),
        decreases cs.len() - i,
    {
        let ghost before = diff_items(cv.subrange(0, i as int), rv.subrange(0, i as int));
        let d = compute_diff(&cs[i], &rs[i]);
        proof {
            assert(cv.subrange(0, i + 1).subrange(0, i as int) =~= cv.subrange(0, i as int));
            assert(rv.subrange(0, i + 1).subrange(0, i as int) =~= rv.subrange(0, i as int));
        }
        let ghost after = diff_items(cv.subrange(0, i + 1), rv.subrange(0, i + 1));
        assert(after == before.push(opt_view(d)));
        match d {
            Some(x) => {
                out.push(x);
                has_diff = true;
                assert(after[i as int] is Some);
                assert(any_some(after));
            },
            None => {
                out.push(Value::Null);
                assert forall|j: int| 0 <= j < after.len() && #[trigger] after[j] is Some implies
                    before[j] is Some by {}
                assert forall|j: int| 0 <= j < before.len() && #[trigger] before[j] is Some implies
                    after[j] is Some by {
                    assert(after[j] == before[j]);
                }
                assert(any_some(after) == any_some(before));
            },
        }
        assert(views(out@) =~= placeholders(after));
        i += 1;
    }
    assert(cv.subrange(0, i as int) =~= cv);
    assert(rv.subrange(0, i as int) =~= rv);
    if has_diff {
        Some(Value::Sequence(out))
    } else {
        None
    }
}

fn diff_mappings(cm: &Vec<(Value, Value)>, rm: &Vec<(Value, Value)>) -> (r: Vec<(Value, Value)>)
    ensures
        entry_views(r@) == diff_entries(entry_views(cm@), entry_views(rm@)),
    decreases cm,
{
    let ghost cv = entry_views(cm@);
    let ghost rv = entry_views(rm@);
    let null = Value::Null;
    let mut out: Vec<(Value, Value)> = Vec::new();
    let mut i: usize = 0;
    while i < cm.len()
        invariant
            i <= cm.len(),
            cv == entry_views(cm@),
            rv == entry_views(rm@),
            null@ == Tree::Null,
            entry_views(out@) == diff_entries(cv.subrange(0, i as int), rv),
        decreases cm.len() - i,
    {
        let found = find_key(rm, &cm[i].0);
        assert(cm@[i as int].0@ == cv[i as int].0);
        let refv: &Value = match found {
            Some(j) => {
                assert(rm@[j as int].1@ == rv[j as int].1);
                &rm[j].1
            },
            None => &null,
        };
        assert(refv@ == match lookup(rv, cv[i as int].0) {
            Some(v) => v,
            None => Tree::Null,
        });
        let d = compute_diff(&cm[i].1, refv);
        proof {
            assert(cv.subrange(0, i + 1).subrange(0, i as int) =~= cv.subrange(0, i as int));
        }
        match d {
            Some(x) => {
                let k = cm[i].0.deep_copy();
                out.push((k, x));
            },
            None => {},
        }
        i += 1;
    }
    assert(cv.subrange(0, i as int) =~= cv);
    out
}

/// An absent value, or a well-formed one.
pub open spec fn opt_well_formed(o: Option<Tree>) -> bool {
    match o {
        Some(t) => well_formed(t),
        None => true,
    }
}

/// `k` is the key of an entry of `m`.
pub open spec fn is_key_of(m: Seq<(Tree, Tree)>, k: Tree) -> bool {
    exists|j: int| 0 <= j < m.len() && #[trigger] m[j].0 == k
}

/// The diff of well-formed values is well formed.
pub proof fn lemma_diff_well_formed(c: Tree, r: Tree)
    requires
        well_formed(c),
        well_formed(r),
    ensures
        opt_well_formed(diff_of(c, r)),
    decreases c, 0nat,
{
    if !tree_eq(c, r) {
        match c {
            Tree::Mapping(cm) => match r {
                Tree::Mapping(rm) => lemma_diff_entries_well_formed(cm, rm),
                _ => {},
            },
            Tree::Sequence(cs) => match r {
                Tree::Sequence(rs) => if cs.len() == rs.len() {
                    lemma_diff_items_well_formed(cs, rs);
                    let d = diff_items(cs, rs);
                    let p = placeholders(d);
                    assert forall|i: int| #![trigger p[i]] 0 <= i < p.len() implies well_formed(p[i]) by {
                        assert(opt_well_formed(d[i]));
                    }
                },
                _ => {},
            },
            _ => {},
        }
    }
}

proof fn lemma_diff_items_well_formed(cs: Seq<Tree>, rs: Seq<Tree>)
    requires
        cs.len() == rs.len(),
        forall|i: int| #![trigger cs[i]] 0 <= i < cs.len() ==> well_formed(cs[i]),
        forall|i: int| #![trigger rs[i]] 0 <= i < rs.len() ==> well_formed(rs[i]),
    ensures
        diff_items(cs, rs).len() == cs.len(),
        forall|i: int|
            0 <= i < cs.len() ==> opt_well_formed(#[trigger] diff_items(cs, rs)[i]),
    decreases cs, 0nat,
{
    if cs.len() > 0 {
        let n = cs.len() - 1;
        let (pc, pr) = (cs.subrange(0, n), rs.subrange(0, n));
        assert(forall|i: int| 0 <= i < n ==> pc[i] == cs[i] && pr[i] == rs[i]);
        lemma_diff_items_well_formed(pc, pr);
        lemma_diff_well_formed(cs[n], rs[n]);
    }
}

proof fn lemma_diff_entries_well_formed(cm: Seq<(Tree, Tree)>, rm: Seq<(Tree, Tree)>)
    requires
        entries_well_formed(cm),
        entries_well_formed(rm),
    ensures
        entries_well_formed(diff_entries(cm, rm)),
        forall|k: int|
            0 <= k < diff_entries(cm, rm).len() ==> is_key_of(cm, #[trigger] diff_entries(cm, rm)[k].0),
    decreases cm, 0nat,
{
    if cm.len() > 0 {
        let n = cm.len() - 1;
        let p = cm.subrange(0, n);
        assert(forall|i: int| 0 <= i < n ==> p[i] == cm[i]);
        lemma_diff_entries_well_formed(p, rm);
        let rest = diff_entries(p, rm);
        let refv = match lookup(rm, cm[n].0) {
            Some(v) => v,
            None => Tree::Null,
        };
        match key_index(rm, cm[n].0) {
            Some(j) => assert(well_formed(rm[j].1)),
            None => {},
        }
        assert(well_formed(cm[n].0) && well_formed(cm[n].1));
        lemma_diff_well_formed(cm[n].1, refv);
        assert forall|k: int| 0 <= k < rest.len() implies is_key_of(cm, #[trigger] rest[k].0) by {
            assert(is_key_of(p, rest[k].0));
            let j = choose|j: int| 0 <= j < p.len() && #[trigger] p[j].0 == rest[k].0;
            assert(cm[j].0 == rest[k].0);
        }
        match diff_of(cm[n].1, refv) {
            Some(d) => {
                let r = rest.push((cm[n].0, d));
                assert(cm[n].0 == r[rest.len() as int].0);
                assert forall|k: int| 0 <= k < r.len() implies is_key_of(cm, #[trigger] r[k].0) by {
                    if k < rest.len() {
                        assert(r[k] == rest[k]);
                    }
                }
                assert forall|k: int, l: int| #![trigger r[k], r[l]] 0 <= k < l < r.len() implies !tree_eq(
                    r[k].0,
                    r[l].0,
                ) by {
                    if l < rest.len() {
                        assert(!tree_eq(rest[k].0, rest[l].0));
                    } else {
                        assert(is_key_of(p, rest[k].0));
                        let j = choose|j: int| 0 <= j < p.len() && #[trigger] p[j].0 == rest[k].0;
                        assert(!tree_eq(cm[j].0, cm[n].0));
                    }
                }
                assert forall|k: int| #![trigger r[k]] 0 <= k < r.len() implies well_formed(r[k].0)
                    && well_formed(r[k].1) by {
                    if k < rest.len() {
                        assert(r[k] == rest[k]);
                    }
                }
            },
            None => {},
        }
    }
}

/// Comparing a value with itself yields no diff.
pub proof fn lemma_diff_of_self(a: Tree)
    ensures
        diff_of(a, a) is None,
{
    lemma_tree_eq_reflexive(a);
}

/// Sequences of different lengths are reported whole, never position by position.
pub proof fn lemma_diff_of_unequal_lengths(cs: Seq<Tree>, rs: Seq<Tree>)
    requires
        cs.len() != rs.len(),
    ensures
        diff_of(Tree::Sequence(cs), Tree::Sequence(rs)) == Some(Tree::Sequence(cs)),
{
    crate::equality::lemma_seq_eq(cs, rs);
}

} // verus!
