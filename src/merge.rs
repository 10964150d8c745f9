use vstd::prelude::*;
use crate::deep_equal::find_key;
use crate::equality::{group_well_formed, key_index, lemma_key_index, tree_eq, well_formed};
use crate::value::{copy_entries, entry_views, group_views, Tree, Value};

verus! {

broadcast use {group_views, group_well_formed, lemma_key_index};

/// `o` laid over `b`: two mappings merge key by key, anything else is `o`.
pub open spec fn merged(b: Tree, o: Tree) -> Tree
    decreases o, 0nat,
{
    match o {
        Tree::Mapping(om) => match b {
            Tree::Mapping(bm) => Tree::Mapping(merge_entries(bm, om)),
            _ => o,
        },
        _ => o,
    }
}

/// The entries of `bm` with those of `om` laid over them in order: a key
/// already present is merged in place and keeps its position, a new key is
/// appended.
pub open spec fn merge_entries(bm: Seq<(Tree, Tree)>, om: Seq<(Tree, Tree)>) -> Seq<(Tree, Tree)>
    decreases om, 0nat,
{
    if om.len() == 0 {
        bm
    } else {
        let n = om.len() - 1;
        let acc = merge_entries(bm, om.subrange(0, n));
        match key_index(acc, om[n].0) {
            Some(i) => acc.update(i, (acc[i].0, merged(acc[i].1, om[n].1))),
            None => acc.push(om[n]),
        }
    }
}

/// Lays `override_yaml` over `base`.
pub fn merge_yaml(base: &Value, override_yaml: &Value) -> (r: Value)
    ensures
        r@ == merged(base@, override_yaml@),
        well_formed(base@) && well_formed(override_yaml@) ==> well_formed(r@),
    decreases override_yaml,
{
    proof {
        if well_formed(base@) && well_formed(override_yaml@) {
            lemma_merged_well_formed(base@, override_yaml@);
        }
    }
    match (base, override_yaml) {
        (Value::Mapping(bm), Value::Mapping(om)) => Value::Mapping(merge_mappings(bm, om)),
        _ => override_yaml.deep_copy(),
    }
}

fn merge_mappings(bm: &Vec<(Value, Value)>, om: &Vec<(Value, Value)>) -> (r: Vec<(Value, Value)>)
    ensures
        entry_views(r@) == merge_entries(entry_views(bm@), entry_views(om@)),
    decreases om,
{
    let ghost ov = entry_views(om@);
    let mut out = copy_entries(bm);
    let mut i: usize = 0;
    while i < om.len()
        invariant
            i <= om.len(),
            ov == entry_views(om@),
            entry_views(out@) == merge_entries(entry_views(bm@), ov.subrange(0, i as int)),
        decreases om.len() - i,
    {
        proof {
            assert(ov.subrange(0, i + 1).subrange(0, i as int) =~= ov.subrange(0, i as int));
        }
        let ghost acc = entry_views(out@);
        match find_key(&out, &om[i].0) {
            Some(j) => {
                let v = merge_yaml(&out[j].1, &om[i].1);
                let k = out[j].0.deep_copy();
                out.set(j, (k, v));
                assert(entry_views(out@) =~= acc.update(
                    j as int,
                    (acc[j as int].0, merged(acc[j as int].1, ov[i as int].1)),
                ));
            },
            None => {
                let k = om[i].0.deep_copy();
                let v = om[i].1.deep_copy();
                out.push((k, v));
            },
        }
        i += 1;
    }
    assert(ov.subrange(0, i as int) =~= ov);
    out
}

/// Merging well-formed values gives a well-formed value.
pub proof fn lemma_merged_well_formed(b: Tree, o: Tree)
    requires
        well_formed(b),
        well_formed(o),
    ensures
        well_formed(merged(b, o)),
    decreases o, 0nat,
{
    match o {
        Tree::Mapping(om) => match b {
            Tree::Mapping(bm) => lemma_merge_entries_well_formed(bm, om),
            _ => {},
        },
        _ => {},
    }
}

proof fn lemma_merge_entries_well_formed(bm: Seq<(Tree, Tree)>, om: Seq<(Tree, Tree)>)
    requires
        well_formed(Tree::Mapping(bm)),
        well_formed(Tree::Mapping(om)),
    ensures
        well_formed(Tree::Mapping(merge_entries(bm, om))),
    decreases om, 0nat,
{
    if om.len() > 0 {
        let n = om.len() - 1;
        let p = om.subrange(0, n);
        assert(forall|i: int| 0 <= i < n ==> p[i] == om[i]);
        assert(well_formed(Tree::Mapping(p))) by {
            assert forall|i: int| #![trigger p[i]] 0 <= i < p.len() implies well_formed(p[i].0)
                && well_formed(p[i].1) by {
                assert(om[i] == p[i]);
            }
            assert forall|i: int, j: int| #![trigger p[i], p[j]] 0 <= i < j < p.len() implies !tree_eq(
                p[i].0,
                p[j].0,
            ) by {
                assert(om[i] == p[i] && om[j] == p[j]);
            }
        }
        lemma_merge_entries_well_formed(bm, p);
        let acc = merge_entries(bm, p);
        assert(well_formed(om[n].0) && well_formed(om[n].1));
        match key_index(acc, om[n].0) {
            Some(i) => {
                assert(well_formed(acc[i].1));
                lemma_merged_well_formed(acc[i].1, om[n].1);
                let r = acc.update(i, (acc[i].0, merged(acc[i].1, om[n].1)));
                assert forall|k: int| #![trigger r[k]] 0 <= k < r.len() implies well_formed(r[k].0)
                    && well_formed(r[k].1) by {
                    assert(well_formed(acc[k].0) && well_formed(acc[k].1));
                }
                assert forall|k: int, l: int| #![trigger r[k], r[l]] 0 <= k < l < r.len() implies !tree_eq(
                    r[k].0,
                    r[l].0,
                ) by {
                    assert(!tree_eq(acc[k].0, acc[l].0));
                }
            },
            None => {
                let r = acc.push(om[n]);
                assert forall|k: int| #![trigger r[k]] 0 <= k < r.len() implies well_formed(r[k].0)
                    && well_formed(r[k].1) by {
                    if k < acc.len() {
                        assert(well_formed(acc[k].0) && well_formed(acc[k].1));
                    }
                }
                assert forall|k: int, l: int| #![trigger r[k], r[l]] 0 <= k < l < r.len() implies !tree_eq(
                    r[k].0,
                    r[l].0,
                ) by {
                    if l < acc.len() {
                        assert(!tree_eq(acc[k].0, acc[l].0));
                    } else {
                        assert(!tree_eq(acc[k].0, om[n].0));
                    }
                }
            },
        }
    }
}

/// When the override is not a mapping, the merge is the override itself,
/// whatever the base.
pub proof fn lemma_merge_non_mapping_override(b: Tree, o: Tree)
    requires
        !(o is Mapping),
    ensures
        merged(b, o) == o,
{
}

} // verus!
