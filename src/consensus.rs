use vstd::prelude::*;
use crate::deep_equal::{deep_equal, find_key};
use crate::diff::opt_well_formed;
use crate::equality::{
    entries_well_formed, group_well_formed, key_index, lemma_key_index, lemma_tree_eq_reflexive,
    lookup, tree_eq, well_formed,
};
use crate::value::{entry_views, group_views, opt_view, Tree, Value};

verus! {

broadcast use {group_views, group_well_formed, lemma_key_index};

/// The variant of a model, as a number.
pub open spec fn tag(t: Tree) -> int {
    match t {
        Tree::Null => 0,
        Tree::Boolean(_) => 1,
        Tree::Integer(_) => 2,
        Tree::Real(_) => 3,
        Tree::String(_) => 4,
        Tree::Sequence(_) => 5,
        Tree::Mapping(_) => 6,
    }
}

/// All values are of one variant.
pub open spec fn same_tag(vals: Seq<Tree>) -> bool {
    forall|i: int| 0 <= i < vals.len() ==> tag(#[trigger] vals[i]) == tag(vals[0])
}

/// How many of `vals` equal `x`.
pub open spec fn count_eq(vals: Seq<Tree>, x: Tree) -> nat
    decreases vals.len(),
{
    if vals.len() == 0 {
        0
    } else {
        let n = vals.len() - 1;
        count_eq(vals.subrange(0, n), x) + if tree_eq(vals[n], x) {
            1nat
        } else {
            0nat
        }
    }
}

/// `count` out of `n` reaches the ratio `num / den`: `count * den >= num * n`,
/// which for `den > 0` is `count >= ceil(n * num / den)`. With `den == 0`
/// the quorum is never reached when `num > 0`, and always when `num == 0`.
pub open spec fn meets_quorum(count: nat, n: nat, num: nat, den: nat) -> bool {
    count * den >= num * n
}

/// The first index among the first `k` whose value reaches the quorum.
pub open spec fn quorum_index_upto(vals: Seq<Tree>, k: nat, num: nat, den: nat) -> Option<int>
    decreases k,
{
    if k == 0 {
        None
    } else {
        match quorum_index_upto(vals, (k - 1) as nat, num, den) {
            Some(i) => Some(i),
            None => if meets_quorum(count_eq(vals, vals[k - 1]), vals.len(), num, den) {
                Some(k - 1)
            } else {
                None
            },
        }
    }
}

/// The first index whose value reaches the quorum.
pub open spec fn quorum_index(vals: Seq<Tree>, num: nat, den: nat) -> Option<int> {
    quorum_index_upto(vals, vals.len(), num, den)
}

/// Every value reported whole.
pub open spec fn all_whole(vals: Seq<Tree>) -> Seq<Option<Tree>> {
    Seq::new(vals.len(), |i: int| Some(vals[i]))
}

/// Consensus over values taken as indivisible units.
pub open spec fn atomic_consensus(vals: Seq<Tree>, num: nat, den: nat) -> (
    Option<Tree>,
    Seq<Option<Tree>>,
) {
    match quorum_index(vals, num, den) {
        Some(b) => (
            Some(vals[b]),
            Seq::new(
                vals.len(),
                |i: int|
                    if tree_eq(vals[i], vals[b]) {
                        None
                    } else {
                        Some(vals[i])
                    },
            ),
        ),
        None => (None, all_whole(vals)),
    }
}

/// The entries of a mapping; nothing for any other value.
pub open spec fn entries_of(t: Tree) -> Seq<(Tree, Tree)> {
    match t {
        Tree::Mapping(m) => m,
        _ => Seq::empty(),
    }
}

/// Whether `ks` holds a key equal to `k`.
pub open spec fn contains_key(ks: Seq<Tree>, k: Tree) -> bool {
    exists|j: int| 0 <= j < ks.len() && tree_eq(#[trigger] ks[j], k)
}

/// `acc` followed by the keys of `m` that are not in it yet, in order.
pub open spec fn add_keys(acc: Seq<Tree>, m: Seq<(Tree, Tree)>) -> Seq<Tree>
    decreases m.len(),
{
    if m.len() == 0 {
        acc
    } else {
        let n = m.len() - 1;
        let a = add_keys(acc, m.subrange(0, n));
        if contains_key(a, m[n].0) {
            a
        } else {
            a.push(m[n].0)
        }
    }
}

/// The keys of all mappings among `vals`, each once, in order of first appearance.
pub open spec fn key_union(vals: Seq<Tree>) -> Seq<Tree>
    decreases vals.len(),
{
    if vals.len() == 0 {
        Seq::empty()
    } else {
        let n = vals.len() - 1;
        add_keys(key_union(vals.subrange(0, n)), entries_of(vals[n]))
    }
}

/// The value each of `vals` holds under `k`, `Null` where it holds none.
pub open spec fn values_at(vals: Seq<Tree>, k: Tree) -> Seq<Tree> {
    Seq::new(
        vals.len(),
        |i: int|
            match lookup(entries_of(vals[i]), k) {
                Some(v) => v,
                None => Tree::Null,
            },
    )
}

/// Nesting depth of mappings.
pub open spec fn depth(t: Tree) -> nat
    decreases t,
{
    match t {
        Tree::Mapping(m) => 1 + depth_entries(m),
        _ => 0,
    }
}

/// Largest depth among the values of `m`.
pub open spec fn depth_entries(m: Seq<(Tree, Tree)>) -> nat
    decreases m,
{
    if m.len() == 0 {
        0
    } else {
        let n = m.len() - 1;
        let a = depth_entries(m.subrange(0, n));
        let b = depth(m[n].1);
        if a >= b {
            a
        } else {
            b
        }
    }
}

/// Largest depth among `vals`.
pub open spec fn depth_all(vals: Seq<Tree>) -> nat
    decreases vals.len(),
{
    if vals.len() == 0 {
        0
    } else {
        let n = vals.len() - 1;
        let a = depth_all(vals.subrange(0, n));
        let b = depth(vals[n]);
        if a >= b {
            a
        } else {
            b
        }
    }
}

pub proof fn lemma_depth_entries(m: Seq<(Tree, Tree)>, i: int)
    requires
        0 <= i < m.len(),
    ensures
        depth(m[i].1) <= depth_entries(m),
    decreases m.len(),
{
    let n = m.len() - 1;
    if i < n {
        lemma_depth_entries(m.subrange(0, n), i);
    }
}

pub proof fn lemma_depth_all_bound(vals: Seq<Tree>, d: nat)
    requires
        forall|i: int| 0 <= i < vals.len() ==> depth(#[trigger] vals[i]) <= d,
    ensures
        depth_all(vals) <= d,
    decreases vals.len(),
{
    if vals.len() > 0 {
        let n = vals.len() - 1;
        assert forall|i: int| 0 <= i < n implies depth(#[trigger] vals.subrange(0, n)[i]) <= d by {
            assert(vals.subrange(0, n)[i] == vals[i]);
        }
        lemma_depth_all_bound(vals.subrange(0, n), d);
    }
}

pub proof fn lemma_depth_all(vals: Seq<Tree>, i: int)
    requires
        0 <= i < vals.len(),
    ensures
        depth(vals[i]) <= depth_all(vals),
    decreases vals.len(),
{
    let n = vals.len() - 1;
    if i < n {
        lemma_depth_all(vals.subrange(0, n), i);
    }
}

/// The values found under any key of mappings lie deeper than the mappings.
pub proof fn lemma_values_at_depth(vals: Seq<Tree>)
    requires
        vals.len() > 0,
        same_tag(vals),
        vals[0] is Mapping,
    ensures
        forall|k: Tree| #[trigger] depth_all(values_at(vals, k)) < depth_all(vals),
{
    assert forall|k: Tree| #[trigger] depth_all(values_at(vals, k)) < depth_all(vals) by {
        let d = depth_all(vals);
        lemma_depth_all(vals, 0);
        let va = values_at(vals, k);
        assert forall|i: int| 0 <= i < va.len() implies depth(#[trigger] va[i]) <= (d - 1) as nat by {
            assert(tag(vals[i]) == tag(vals[0]));
            lemma_depth_all(vals, i);
            let m = entries_of(vals[i]);
            match key_index(m, k) {
                Some(j) => lemma_depth_entries(m, j),
                None => {},
            }
        }
        lemma_depth_all_bound(va, (d - 1) as nat);
    }
}

/// Results of the consensus under each key.
pub type KeyResults = Seq<(Option<Tree>, Seq<Option<Tree>>)>;

/// Base entries: each key whose consensus found a base, with that base.
pub open spec fn base_entries(keys: Seq<Tree>, subs: KeyResults) -> Seq<(Tree, Tree)>
    decreases keys.len(),
{
    if keys.len() == 0 {
        Seq::empty()
    } else {
        let n = keys.len() - 1;
        let rest = base_entries(keys.subrange(0, n), subs.subrange(0, n));
        match subs[n].0 {
            Some(b) => rest.push((keys[n], b)),
            None => rest,
        }
    }
}

/// Diff entries of document `i`: each key where it deviates, except a `Null`
/// deviation under a key without base.
pub open spec fn doc_entries(keys: Seq<Tree>, subs: KeyResults, i: int) -> Seq<(Tree, Tree)>
    decreases keys.len(),
{
    if keys.len() == 0 {
        Seq::empty()
    } else {
        let n = keys.len() - 1;
        let rest = doc_entries(keys.subrange(0, n), subs.subrange(0, n), i);
        match subs[n].1[i] {
            Some(d) => if d != Tree::Null || subs[n].0 is Some {
                rest.push((keys[n], d))
            } else {
                rest
            },
            None => rest,
        }
    }
}

/// A mapping of the entries, or `None` where there are none.
pub open spec fn nonempty_mapping(m: Seq<(Tree, Tree)>) -> Option<Tree> {
    if m.len() == 0 {
        None
    } else {
        Some(Tree::Mapping(m))
    }
}

/// Whether `vals` are mappings, at least one.
pub open spec fn all_mappings(vals: Seq<Tree>) -> bool {
    vals.len() > 0 && same_tag(vals) && vals[0] is Mapping
}

/// Base and per-document diffs of `vals` under the quorum `num / den`.
pub open spec fn consensus(vals: Seq<Tree>, num: nat, den: nat) -> (
    Option<Tree>,
    Seq<Option<Tree>>,
)
    decreases depth_all(vals), key_union(vals).len() + 1,
{
    if vals.len() == 0 {
        (None, Seq::empty())
    } else if !same_tag(vals) {
        (None, all_whole(vals))
    } else if !(vals[0] is Mapping) {
        atomic_consensus(vals, num, den)
    } else {
        let keys = key_union(vals);
        let subs = key_results(vals, keys, num, den);
        (
            nonempty_mapping(base_entries(keys, subs)),
            Seq::new(vals.len(), |i: int| nonempty_mapping(doc_entries(keys, subs, i))),
        )
    }
}

/// Consensus over the values under each of `keys`.
pub open spec fn key_results(vals: Seq<Tree>, keys: Seq<Tree>, num: nat, den: nat) -> KeyResults
    decreases depth_all(vals), keys.len(),
{
    if keys.len() == 0 || !all_mappings(vals) {
        Seq::empty()
    } else {
        proof {
            lemma_values_at_depth(vals);
        }
        let n = keys.len() - 1;
        key_results(vals, keys.subrange(0, n), num, den).push(
            consensus(values_at(vals, keys[n]), num, den),
        )
    }
}

pub proof fn lemma_key_results(vals: Seq<Tree>, keys: Seq<Tree>, num: nat, den: nat)
    requires
        all_mappings(vals),
    ensures
        key_results(vals, keys, num, den).len() == keys.len(),
        forall|j: int|
            0 <= j < keys.len() ==> #[trigger] key_results(vals, keys, num, den)[j] == consensus(
                values_at(vals, keys[j]),
                num,
                den,
            ),
    decreases keys.len(),
{
    if keys.len() > 0 {
        let n = keys.len() - 1;
        lemma_key_results(vals, keys.subrange(0, n), num, den);
    }
}

/// Consensus yields one diff slot per input.
pub proof fn lemma_consensus_len(vals: Seq<Tree>, num: nat, den: nat)
    ensures
        consensus(vals, num, den).1.len() == vals.len(),
{
}

proof fn lemma_count_all(vals: Seq<Tree>, x: Tree)
    requires
        forall|i: int| 0 <= i < vals.len() ==> tree_eq(#[trigger] vals[i], x),
    ensures
        count_eq(vals, x) == vals.len(),
    decreases vals.len(),
{
    if vals.len() > 0 {
        let n = vals.len() - 1;
        assert(forall|i: int| 0 <= i < n ==> vals.subrange(0, n)[i] == vals[i]);
        lemma_count_all(vals.subrange(0, n), x);
    }
}

/// With a quorum of one (`num == den`), copies of one value that is not a
/// mapping agree on it as the base, and no document keeps a diff.
pub proof fn lemma_unanimous_copies(vals: Seq<Tree>, x: Tree, num: nat, den: nat)
    requires
        vals.len() > 0,
        forall|i: int| 0 <= i < vals.len() ==> #[trigger] vals[i] == x,
        !(x is Mapping),
        num == den,
    ensures
        consensus(vals, num, den).0 == Some(x),
        consensus(vals, num, den).1 == Seq::new(vals.len(), |i: int| None::<Tree>),
{
    lemma_tree_eq_reflexive(x);
    lemma_count_all(vals, x);
    assert(meets_quorum(count_eq(vals, vals[0]), vals.len(), num, den)) by (nonlinear_arith)
        requires
            count_eq(vals, vals[0]) == vals.len(),
            num == den,
    ;
    assert(quorum_index_upto(vals, 0, num, den) is None);
    assert(quorum_index_upto(vals, 1, num, den) == Some(0int));
    lemma_quorum_index_stable(vals, 1, num, den);
    assert(consensus(vals, num, den).1 =~= Seq::new(vals.len(), |i: int| None::<Tree>));
}

/// With a quorum of zero, distinct values of one variant other than a
/// mapping: the first becomes the base, every other one is its own diff.
pub proof fn lemma_zero_quorum_distinct(vals: Seq<Tree>, den: nat)
    requires
        vals.len() > 0,
        same_tag(vals),
        !(vals[0] is Mapping),
        forall|i: int, j: int|
            0 <= i < vals.len() && 0 <= j < vals.len() && i != j ==> !tree_eq(
                #[trigger] vals[i],
                #[trigger] vals[j],
            ),
    ensures
        consensus(vals, 0, den).0 == Some(vals[0]),
        consensus(vals, 0, den).1.len() == vals.len(),
        consensus(vals, 0, den).1[0] is None,
        forall|i: int| 0 < i < vals.len() ==> #[trigger] consensus(vals, 0, den).1[i] == Some(vals[i]),
{
    lemma_tree_eq_reflexive(vals[0]);
    assert(meets_quorum(count_eq(vals, vals[0]), vals.len(), 0, den));
    assert(quorum_index_upto(vals, 0, 0, den) is None);
    assert(quorum_index_upto(vals, 1, 0, den) == Some(0int));
    lemma_quorum_index_stable(vals, 1, 0, den);
}

/// Keys pairwise unequal and well formed.
pub open spec fn keys_well_formed(ks: Seq<Tree>) -> bool {
    &&& forall|i: int| #![trigger ks[i]] 0 <= i < ks.len() ==> well_formed(ks[i])
    &&& forall|i: int, j: int| #![trigger ks[i], ks[j]] 0 <= i < j < ks.len() ==> !tree_eq(ks[i], ks[j])
}

/// `k` is one of `ks`.
pub open spec fn listed(ks: Seq<Tree>, k: Tree) -> bool {
    exists|j: int| 0 <= j < ks.len() && #[trigger] ks[j] == k
}

proof fn lemma_add_keys_well_formed(acc: Seq<Tree>, m: Seq<(Tree, Tree)>)
    requires
        keys_well_formed(acc),
        entries_well_formed(m),
    ensures
        keys_well_formed(add_keys(acc, m)),
    decreases m.len(),
{
    if m.len() > 0 {
        let n = m.len() - 1;
        let p = m.subrange(0, n);
        assert(forall|i: int| 0 <= i < n ==> p[i] == m[i]);
        assert(entries_well_formed(p)) by {
            assert forall|i: int, j: int| #![trigger p[i], p[j]] 0 <= i < j < p.len() implies !tree_eq(
                p[i].0,
                p[j].0,
            ) by {
                assert(!tree_eq(m[i].0, m[j].0));
            }
        }
        lemma_add_keys_well_formed(acc, p);
        let a = add_keys(acc, p);
        if !contains_key(a, m[n].0) {
            let r = a.push(m[n].0);
            assert(well_formed(m[n].0));
            assert forall|i: int, j: int| #![trigger r[i], r[j]] 0 <= i < j < r.len() implies !tree_eq(
                r[i],
                r[j],
            ) by {
                if j < a.len() {
                    assert(!tree_eq(a[i], a[j]));
                } else {
                    assert(!tree_eq(a[i], m[n].0));
                }
            }
            assert forall|i: int| #![trigger r[i]] 0 <= i < r.len() implies well_formed(r[i]) by {
                if i < a.len() {
                    assert(well_formed(a[i]));
                }
            }
        }
    }
}

proof fn lemma_key_union_well_formed(vals: Seq<Tree>)
    requires
        forall|i: int| #![trigger vals[i]] 0 <= i < vals.len() ==> well_formed(vals[i]),
    ensures
        keys_well_formed(key_union(vals)),
    decreases vals.len(),
{
    if vals.len() > 0 {
        let n = vals.len() - 1;
        let p = vals.subrange(0, n);
        assert(forall|i: int| 0 <= i < n ==> p[i] == vals[i]);
        lemma_key_union_well_formed(p);
        assert(well_formed(vals[n]));
        assert(entries_well_formed(entries_of(vals[n])));
        lemma_add_keys_well_formed(key_union(p), entries_of(vals[n]));
    }
}

proof fn lemma_base_entries_well_formed(keys: Seq<Tree>, subs: KeyResults)
    requires
        keys_well_formed(keys),
        subs.len() == keys.len(),
        forall|j: int| 0 <= j < subs.len() ==> opt_well_formed(#[trigger] subs[j].0),
    ensures
        entries_well_formed(base_entries(keys, subs)),
        forall|k: int|
            0 <= k < base_entries(keys, subs).len() ==> listed(
                keys,
                #[trigger] base_entries(keys, subs)[k].0,
            ),
    decreases keys.len(),
{
    if keys.len() > 0 {
        let n = keys.len() - 1;
        let (pk, ps) = (keys.subrange(0, n), subs.subrange(0, n));
        assert(forall|i: int| 0 <= i < n ==> pk[i] == keys[i] && ps[i] == subs[i]);
        assert(keys_well_formed(pk)) by {
            assert forall|i: int, j: int| #![trigger pk[i], pk[j]] 0 <= i < j < pk.len() implies !tree_eq(
                pk[i],
                pk[j],
            ) by {
                assert(!tree_eq(keys[i], keys[j]));
            }
        }
        lemma_base_entries_well_formed(pk, ps);
        let rest = base_entries(pk, ps);
        assert forall|k: int| 0 <= k < rest.len() implies listed(keys, #[trigger] rest[k].0) by {
            assert(listed(pk, rest[k].0));
            let j = choose|j: int| 0 <= j < pk.len() && #[trigger] pk[j] == rest[k].0;
            assert(keys[j] == rest[k].0);
        }
        assert(opt_well_formed(subs[n].0));
        match subs[n].0 {
            Some(b) => {
                let r = rest.push((keys[n], b));
                assert(keys[n] == r[rest.len() as int].0);
                assert(well_formed(keys[n]));
                assert forall|k: int| 0 <= k < r.len() implies listed(keys, #[trigger] r[k].0) by {
                    if k < rest.len() {
                        assert(r[k] == rest[k]);
                    }
                }
                assert forall|k: int, l: int| #![trigger r[k], r[l]] 0 <= k < l < r.len() implies !tree_eq(
                    r[k].0,
                    r[l].0,
                ) by {
                    if l < rest.len() {
                        assert(!tree_eq(rest[k].0, rest[l].0));
                    } else {
                        assert(listed(pk, rest[k].0));
                        let j = choose|j: int| 0 <= j < pk.len() && #[trigger] pk[j] == rest[k].0;
                        assert(!tree_eq(keys[j], keys[n]));
                    }
                }
                assert forall|k: int| #![trigger r[k]] 0 <= k < r.len() implies well_formed(r[k].0)
                    && well_formed(r[k].1) by {
                    if k < rest.len() {
                        assert(r[k] == rest[k]);
                    }
                }
            },
            None => {},
        }
    }
}

proof fn lemma_doc_entries_well_formed(keys: Seq<Tree>, subs: KeyResults, i: int)
    requires
        keys_well_formed(keys),
        subs.len() == keys.len(),
        forall|j: int| 0 <= j < subs.len() ==> opt_well_formed(#[trigger] subs[j].1[i]),
    ensures
        entries_well_formed(doc_entries(keys, subs, i)),
        forall|k: int|
            0 <= k < doc_entries(keys, subs, i).len() ==> listed(
                keys,
                #[trigger] doc_entries(keys, subs, i)[k].0,
            ),
    decreases keys.len(),
{
    if keys.len() > 0 {
        let n = keys.len() - 1;
        let (pk, ps) = (keys.subrange(0, n), subs.subrange(0, n));
        assert(forall|j: int| 0 <= j < n ==> pk[j] == keys[j] && ps[j] == subs[j]);
        assert(keys_well_formed(pk)) by {
            assert forall|a: int, b: int| #![trigger pk[a], pk[b]] 0 <= a < b < pk.len() implies !tree_eq(
                pk[a],
                pk[b],
            ) by {
                assert(!tree_eq(keys[a], keys[b]));
            }
        }
        lemma_doc_entries_well_formed(pk, ps, i);
        let rest = doc_entries(pk, ps, i);
        assert forall|k: int| 0 <= k < rest.len() implies listed(keys, #[trigger] rest[k].0) by {
            assert(listed(pk, rest[k].0));
            let j = choose|j: int| 0 <= j < pk.len() && #[trigger] pk[j] == rest[k].0;
            assert(keys[j] == rest[k].0);
        }
        assert(opt_well_formed(subs[n].1[i]));
        if doc_entries(keys, subs, i) != rest {
            let d = subs[n].1[i]->Some_0;
            let r = rest.push((keys[n], d));
            assert(doc_entries(keys, subs, i) == r);
            assert(keys[n] == r[rest.len() as int].0);
            assert(well_formed(keys[n]));
            assert forall|k: int| 0 <= k < r.len() implies listed(keys, #[trigger] r[k].0) by {
                if k < rest.len() {
                    assert(r[k] == rest[k]);
                }
            }
            assert forall|k: int, l: int| #![trigger r[k], r[l]] 0 <= k < l < r.len() implies !tree_eq(
                r[k].0,
                r[l].0,
            ) by {
                if l < rest.len() {
                    assert(!tree_eq(rest[k].0, rest[l].0));
                } else {
                    assert(listed(pk, rest[k].0));
                    let j = choose|j: int| 0 <= j < pk.len() && #[trigger] pk[j] == rest[k].0;
                    assert(!tree_eq(keys[j], keys[n]));
                }
            }
            assert forall|k: int| #![trigger r[k]] 0 <= k < r.len() implies well_formed(r[k].0)
                && well_formed(r[k].1) by {
                if k < rest.len() {
                    assert(r[k] == rest[k]);
                }
            }
        }
    }
}

/// Consensus over well-formed values yields a well-formed base and
/// well-formed diffs.
pub proof fn lemma_consensus_well_formed(vals: Seq<Tree>, num: nat, den: nat)
    requires
        forall|i: int| #![trigger vals[i]] 0 <= i < vals.len() ==> well_formed(vals[i]),
    ensures
        opt_well_formed(consensus(vals, num, den).0),
        forall|i: int|
            0 <= i < vals.len() ==> opt_well_formed(#[trigger] consensus(vals, num, den).1[i]),
    decreases depth_all(vals),
{
    if vals.len() == 0 {
    } else if !same_tag(vals) {
        assert forall|i: int| 0 <= i < vals.len() implies opt_well_formed(
            #[trigger] consensus(vals, num, den).1[i],
        ) by {
            assert(well_formed(vals[i]));
        }
    } else if !(vals[0] is Mapping) {
        lemma_quorum_index_range(vals, vals.len(), num, den);
        match quorum_index(vals, num, den) {
            Some(b) => assert(well_formed(vals[b])),
            None => {},
        }
        assert forall|i: int| 0 <= i < vals.len() implies opt_well_formed(
            #[trigger] consensus(vals, num, den).1[i],
        ) by {
            assert(well_formed(vals[i]));
        }
    } else {
        let keys = key_union(vals);
        let subs = key_results(vals, keys, num, den);
        lemma_key_union_well_formed(vals);
        lemma_key_results(vals, keys, num, den);
        lemma_values_at_depth(vals);
        assert forall|j: int| 0 <= j < subs.len() implies opt_well_formed(#[trigger] subs[j].0)
            && forall|i: int| 0 <= i < vals.len() ==> opt_well_formed(#[trigger] subs[j].1[i]) by {
            let va = values_at(vals, keys[j]);
            assert forall|i: int| #![trigger va[i]] 0 <= i < va.len() implies well_formed(va[i]) by {
                assert(well_formed(vals[i]));
                let m = entries_of(vals[i]);
                assert(tag(vals[i]) == tag(vals[0]));
                assert(entries_well_formed(m));
                match key_index(m, keys[j]) {
                    Some(x) => assert(well_formed(m[x].1)),
                    None => {},
                }
            }
            lemma_consensus_well_formed(va, num, den);
        }
        lemma_base_entries_well_formed(keys, subs);
        assert forall|i: int| 0 <= i < vals.len() implies opt_well_formed(
            #[trigger] consensus(vals, num, den).1[i],
        ) by {
            assert forall|j: int| 0 <= j < subs.len() implies opt_well_formed(#[trigger] subs[j].1[i]) by {
                assert(opt_well_formed(subs[j].0));
            }
            lemma_doc_entries_well_formed(keys, subs, i);
        }
    }
}

proof fn lemma_result_well_formed(
    objs: Seq<&Value>,
    num: nat,
    den: nat,
    r: (Option<Value>, Vec<Option<Value>>),
)
    requires
        opt_view(r.0) == consensus(ref_views(objs), num, den).0,
        opt_views(r.1@) == consensus(ref_views(objs), num, den).1,
    ensures
        (forall|i: int| 0 <= i < objs.len() ==> well_formed(#[trigger] objs[i]@)) ==> {
            &&& opt_well_formed(opt_view(r.0))
            &&& forall|i: int| 0 <= i < r.1@.len() ==> opt_well_formed(#[trigger] opt_view(r.1@[i]))
        },
{
    let rv = ref_views(objs);
    if forall|i: int| 0 <= i < objs.len() ==> well_formed(#[trigger] objs[i]@) {
        assert forall|i: int| #![trigger rv[i]] 0 <= i < rv.len() implies well_formed(rv[i]) by {
            assert(well_formed(objs[i]@));
        }
        lemma_consensus_well_formed(rv, num, den);
        lemma_consensus_len(rv, num, den);
        assert forall|i: int| 0 <= i < r.1@.len() implies opt_well_formed(
            #[trigger] opt_view(r.1@[i]),
        ) by {
            assert(opt_views(r.1@)[i] == opt_view(r.1@[i]));
        }
    }
}

/// The models of a sequence of references.
pub open spec fn ref_views(s: Seq<&Value>) -> Seq<Tree> {
    Seq::new(s.len(), |i: int| s[i]@)
}

/// The models of a sequence of optional values.
pub open spec fn opt_views(s: Seq<Option<Value>>) -> Seq<Option<Tree>> {
    Seq::new(s.len(), |i: int| opt_view(s[i]))
}

fn count_equal(objs: &[&Value], x: &Value) -> (c: usize)
    ensures
        c == count_eq(ref_views(objs@), x@),
        c <= objs@.len(),
{
    let ghost rv = ref_views(objs@);
    let mut c: usize = 0;
    let mut i: usize = 0;
    while i < objs.len()
        invariant
            i <= objs@.len(),
            rv == ref_views(objs@),
            c == count_eq(rv.subrange(0, i as int), x@),
            c <= i,
        decreases objs@.len() - i,
    {
        assert(rv.subrange(0, i + 1).subrange(0, i as int) =~= rv.subrange(0, i as int));
        if deep_equal(objs[i], x) {
            c += 1;
        }
        i += 1;
    }
    assert(rv.subrange(0, i as int) =~= rv);
    c
}

proof fn lemma_quorum_index_stable(vals: Seq<Tree>, k: nat, num: nat, den: nat)
    requires
        k <= vals.len(),
        quorum_index_upto(vals, k, num, den) is Some,
    ensures
        quorum_index(vals, num, den) == quorum_index_upto(vals, k, num, den),
    decreases vals.len() - k,
{
    if k < vals.len() {
        lemma_quorum_index_stable(vals, k + 1, num, den);
    }
}

proof fn lemma_quorum_index_range(vals: Seq<Tree>, k: nat, num: nat, den: nat)
    ensures
        match quorum_index_upto(vals, k, num, den) {
            Some(i) => 0 <= i < k,
            None => true,
        },
    decreases k,
{
    if k > 0 {
        lemma_quorum_index_range(vals, (k - 1) as nat, num, den);
    }
}

fn atomic_exec(objs: &[&Value], num: u64, den: u64) -> (r: (Option<Value>, Vec<Option<Value>>))
    ensures
        opt_view(r.0) == atomic_consensus(ref_views(objs@), num as nat, den as nat).0,
        opt_views(r.1@) == atomic_consensus(ref_views(objs@), num as nat, den as nat).1,
{
    let ghost rv = ref_views(objs@);
    let n = objs.len();
    let mut base: Option<usize> = None;
    let mut i: usize = 0;
    while i < n
        invariant_except_break
            base is None,
            quorum_index_upto(rv, i as nat, num as nat, den as nat) is None,
        invariant
            n == objs@.len(),
            i <= n,
            rv == ref_views(objs@),
        ensures
            match base {
                Some(b) => b < n && quorum_index(rv, num as nat, den as nat) == Some(b as int),
                None => quorum_index(rv, num as nat, den as nat) is None,
            },
        decreases n - i,
    {
        let c = count_equal(objs, objs[i]);
        assert((c as u128) * (den as u128) <= 0xffff_ffff_ffff_ffff_u128 * 0xffff_ffff_ffff_ffff_u128)
            by (nonlinear_arith)
            requires
                c <= 0xffff_ffff_ffff_ffff_u128,
                den <= 0xffff_ffff_ffff_ffff_u128,
        ;
        assert((num as u128) * (n as u128) <= 0xffff_ffff_ffff_ffff_u128 * 0xffff_ffff_ffff_ffff_u128)
            by (nonlinear_arith)
            requires
                num <= 0xffff_ffff_ffff_ffff_u128,
                n <= 0xffff_ffff_ffff_ffff_u128,
        ;
        let lhs = (c as u128) * (den as u128);
        let rhs = (num as u128) * (n as u128);
        if lhs >= rhs {
            base = Some(i);
            assert(quorum_index_upto(rv, (i + 1) as nat, num as nat, den as nat) == Some(i as int));
            proof {
                lemma_quorum_index_stable(rv, (i + 1) as nat, num as nat, den as nat);
            }
            break;
        }
        i += 1;
    }
    match base {
        Some(b) => {
            let ghost bv = rv[b as int];
            let mut diffs: Vec<Option<Value>> = Vec::new();
            let mut j: usize = 0;
            while j < n
                invariant
                    n == objs@.len(),
                    b < n,
                    j <= n,
                    rv == ref_views(objs@),
                    bv == objs@[b as int]@,
                    diffs.len() == j,
                    forall|k: int|
                        0 <= k < j ==> opt_view(#[trigger] diffs@[k]) == if tree_eq(rv[k], bv) {
                            None
                        } else {
                            Some(rv[k])
                        },
                decreases n - j,
            {
                if deep_equal(objs[j], objs[b]) {
                    diffs.push(None);
                } else {
                    diffs.push(Some(objs[j].deep_copy()));
                }
                j += 1;
            }
            let r = (Some(objs[b].deep_copy()), diffs);
            assert(opt_views(r.1@) =~= atomic_consensus(rv, num as nat, den as nat).1);
            r
        },
        None => {
            let mut diffs: Vec<Option<Value>> = Vec::new();
            let mut j: usize = 0;
            while j < n
                invariant
                    n == objs@.len(),
                    j <= n,
                    rv == ref_views(objs@),
                    diffs.len() == j,
                    forall|k: int| 0 <= k < j ==> opt_view(#[trigger] diffs@[k]) == Some(rv[k]),
                decreases n - j,
            {
                diffs.push(Some(objs[j].deep_copy()));
                j += 1;
            }
            assert(opt_views(diffs@) =~= all_whole(rv));
            (None, diffs)
        },
    }
}

/// The models of the results computed under each key.
pub open spec fn sub_views(s: Seq<(Option<Value>, Vec<Option<Value>>)>) -> KeyResults {
    Seq::new(s.len(), |j: int| (opt_view(s[j].0), opt_views(s[j].1@)))
}

fn tag_of(v: &Value) -> (t: u8)
    ensures
        t as int == tag(v@),
{
    match v {
        Value::Null => 0,
        Value::Boolean(_) => 1,
        Value::Integer(_) => 2,
        Value::Real(_) => 3,
        Value::String(_) => 4,
        Value::Sequence(_) => 5,
        Value::Mapping(_) => 6,
    }
}

fn contains_key_exec(ks: &Vec<&Value>, k: &Value) -> (r: bool)
    ensures
        r == contains_key(ref_views(ks@), k@),
{
    let ghost kv = ref_views(ks@);
    let mut j: usize = 0;
    while j < ks.len()
        invariant
            j <= ks@.len(),
            kv == ref_views(ks@),
            forall|j2: int| 0 <= j2 < j ==> !tree_eq(#[trigger] kv[j2], k@),
        decreases ks@.len() - j,
    {
        if deep_equal(ks[j], k) {
            assert(tree_eq(kv[j as int], k@));
            return true;
        }
        j += 1;
    }
    false
}

fn collect_keys<'a>(objs: &[&'a Value]) -> (r: Vec<&'a Value>)
    ensures
        ref_views(r@) == key_union(ref_views(objs@)),
{
    let ghost rv = ref_views(objs@);
    let mut keys: Vec<&'a Value> = Vec::new();
    let mut i: usize = 0;
    while i < objs.len()
        invariant
            i <= objs@.len(),
            rv == ref_views(objs@),
            ref_views(keys@) == key_union(rv.subrange(0, i as int)),
        decreases objs@.len() - i,
    {
        assert(rv.subrange(0, i + 1).subrange(0, i as int) =~= rv.subrange(0, i as int));
        let ghost acc = ref_views(keys@);
        match objs[i] {
            Value::Mapping(m) => {
                let ghost mv = entry_views(m@);
                assert(entries_of(rv[i as int]) == mv);
                let mut j: usize = 0;
                while j < m.len()
                    invariant
                        j <= m@.len(),
                        mv == entry_views(m@),
                        ref_views(keys@) == add_keys(acc, mv.subrange(0, j as int)),
                    decreases m@.len() - j,
                {
                    assert(mv.subrange(0, j + 1).subrange(0, j as int) =~= mv.subrange(
                        0,
                        j as int,
                    ));
                    if !contains_key_exec(&keys, &m[j].0) {
                        let ghost before = keys@;
                        keys.push(&m[j].0);
                        assert(ref_views(keys@) =~= ref_views(before).push(mv[j as int].0));
                    }
                    j += 1;
                }
                assert(mv.subrange(0, j as int) =~= mv);
            },
            _ => {
                assert(entries_of(rv[i as int]) =~= Seq::empty());
            },
        }
        i += 1;
    }
    assert(rv.subrange(0, i as int) =~= rv);
    keys
}

fn values_under<'a>(objs: &[&'a Value], k: &Value, null: &'a Value) -> (r: Vec<&'a Value>)
    requires
        null@ == Tree::Null,
    ensures
        ref_views(r@) == values_at(ref_views(objs@), k@),
{
    let ghost rv = ref_views(objs@);
    let mut out: Vec<&'a Value> = Vec::new();
    let mut i: usize = 0;
    while i < objs.len()
        invariant
            i <= objs@.len(),
            rv == ref_views(objs@),
            null@ == Tree::Null,
            out@.len() == i,
            forall|i2: int| 0 <= i2 < i ==> (#[trigger] out@[i2])@ == values_at(rv, k@)[i2],
        decreases objs@.len() - i,
    {
        let v: &'a Value = match objs[i] {
            Value::Mapping(m) => match find_key(m, k) {
                Some(j) => {
                    assert(entry_views(m@)[j as int].1 == m@[j as int].1@);
                    &m[j].1
                },
                None => null,
            },
            _ => null,
        };
        out.push(v);
        i += 1;
    }
    assert(ref_views(out@) =~= values_at(rv, k@));
    out
}

fn assemble_base(keys: &Vec<&Value>, subs: &Vec<(Option<Value>, Vec<Option<Value>>)>) -> (r:
    Option<Value>)
    requires
        keys@.len() == subs@.len(),
    ensures
        opt_view(r) == nonempty_mapping(base_entries(ref_views(keys@), sub_views(subs@))),
{
    let ghost kv = ref_views(keys@);
    let ghost sv = sub_views(subs@);
    let mut out: Vec<(Value, Value)> = Vec::new();
    let mut j: usize = 0;
    while j < keys.len()
        invariant
            j <= keys@.len() == subs@.len(),
            kv == ref_views(keys@),
            sv == sub_views(subs@),
            entry_views(out@) == base_entries(kv.subrange(0, j as int), sv.subrange(0, j as int)),
        decreases keys@.len() - j,
    {
        assert(kv.subrange(0, j + 1).subrange(0, j as int) =~= kv.subrange(0, j as int));
        assert(sv.subrange(0, j + 1).subrange(0, j as int) =~= sv.subrange(0, j as int));
        match &subs[j].0 {
            Some(b) => {
                let k = keys[j].deep_copy();
                let v = b.deep_copy();
                out.push((k, v));
            },
            None => {},
        }
        j += 1;
    }
    assert(kv.subrange(0, j as int) =~= kv);
    assert(sv.subrange(0, j as int) =~= sv);
    if out.len() == 0 {
        None
    } else {
        Some(Value::Mapping(out))
    }
}

fn assemble_doc(keys: &Vec<&Value>, subs: &Vec<(Option<Value>, Vec<Option<Value>>)>, i: usize) -> (r:
    Option<Value>)
    requires
        keys@.len() == subs@.len(),
        forall|j: int| 0 <= j < subs@.len() ==> i < (#[trigger] subs@[j]).1@.len(),
    ensures
        opt_view(r) == nonempty_mapping(doc_entries(ref_views(keys@), sub_views(subs@), i as int)),
{
    let ghost kv = ref_views(keys@);
    let ghost sv = sub_views(subs@);
    let mut out: Vec<(Value, Value)> = Vec::new();
    let mut j: usize = 0;
    while j < keys.len()
        invariant
            j <= keys@.len() == subs@.len(),
            forall|j: int| 0 <= j < subs@.len() ==> i < (#[trigger] subs@[j]).1@.len(),
            kv == ref_views(keys@),
            sv == sub_views(subs@),
            entry_views(out@) == doc_entries(
                kv.subrange(0, j as int),
                sv.subrange(0, j as int),
                i as int,
            ),
        decreases keys@.len() - j,
    {
        assert(kv.subrange(0, j + 1).subrange(0, j as int) =~= kv.subrange(0, j as int));
        assert(sv.subrange(0, j + 1).subrange(0, j as int) =~= sv.subrange(0, j as int));
        let has_base = subs[j].0.is_some();
        let di = &subs[j].1[i];
        assert(sv[j as int].1[i as int] == opt_view(*di));
        match di {
            Some(d) => {
                let is_null = match d {
                    Value::Null => true,
                    _ => false,
                };
                if !is_null || has_base {
                    let k = keys[j].deep_copy();
                    let v = d.deep_copy();
                    out.push((k, v));
                }
            },
            None => {},
        }
        j += 1;
    }
    assert(kv.subrange(0, j as int) =~= kv);
    assert(sv.subrange(0, j as int) =~= sv);
    if out.len() == 0 {
        None
    } else {
        Some(Value::Mapping(out))
    }
}

/// Splits `objs` into a common base and one diff per document. A value is
/// the base where enough of the `n` documents agree on it that
/// `count * quorum_den >= quorum_num * n` (for a ratio with `quorum_den > 0`,
/// at least `ceil(n * quorum_num / quorum_den)` of them); mappings are
/// reconciled key by key, every other value as a whole; documents of
/// different variants share no base. With `quorum_den == 0` no value is the
/// base unless `quorum_num == 0`, when the first one is. When mappings come
/// in well formed, the base and the diffs are well formed.
pub fn diff_and_common_multiple(objs: &[&Value], quorum_num: u64, quorum_den: u64) -> (r: (
    Option<Value>,
    Vec<Option<Value>>,
))
    ensures
        opt_view(r.0) == consensus(ref_views(objs@), quorum_num as nat, quorum_den as nat).0,
        opt_views(r.1@) == consensus(ref_views(objs@), quorum_num as nat, quorum_den as nat).1,
        (forall|i: int| 0 <= i < objs@.len() ==> well_formed(#[trigger] objs@[i]@)) ==> {
            &&& opt_well_formed(opt_view(r.0))
            &&& forall|i: int| 0 <= i < r.1@.len() ==> opt_well_formed(#[trigger] opt_view(r.1@[i]))
        },
    decreases depth_all(ref_views(objs@)),
{
    let ghost rv = ref_views(objs@);
    let ghost num = quorum_num as nat;
    let ghost den = quorum_den as nat;
    let n = objs.len();
    if n == 0 {
        let r = (None, Vec::new());
        assert(opt_views(r.1@) =~= Seq::empty());
        return r;
    }
    let t0 = tag_of(objs[0]);
    let mut same = true;
    let mut i: usize = 0;
    while i < n
        invariant
            n == objs@.len(),
            i <= n,
            rv == ref_views(objs@),
            t0 as int == tag(rv[0]),
            same == forall|i2: int| 0 <= i2 < i ==> tag(#[trigger] rv[i2]) == tag(rv[0]),
        decreases n - i,
    {
        assert(rv[i as int] == objs@[i as int]@);
        if tag_of(objs[i]) != t0 {
            same = false;
        }
        i += 1;
    }
    if !same {
        let mut diffs: Vec<Option<Value>> = Vec::new();
        let mut j: usize = 0;
        while j < n
            invariant
                n == objs@.len(),
                j <= n,
                rv == ref_views(objs@),
                diffs.len() == j,
                forall|k: int| 0 <= k < j ==> opt_view(#[trigger] diffs@[k]) == Some(rv[k]),
            decreases n - j,
        {
            diffs.push(Some(objs[j].deep_copy()));
            j += 1;
        }
        assert(opt_views(diffs@) =~= all_whole(rv));
        return (None, diffs);
    }
    if t0 != 6 {
        let r = atomic_exec(objs, quorum_num, quorum_den);
        proof {
            lemma_result_well_formed(objs@, quorum_num as nat, quorum_den as nat, r);
        }
        return r;
    }
    let keys = collect_keys(objs);
    let ghost kv = ref_views(keys@);
    let null = Value::Null;
    let mut subs: Vec<(Option<Value>, Vec<Option<Value>>)> = Vec::new();
    let mut j: usize = 0;
    proof {
        lemma_values_at_depth(rv);
    }
    while j < keys.len()
        invariant
            n == objs@.len(),
            j <= keys@.len(),
            rv == ref_views(objs@),
            kv == ref_views(keys@),
            kv == key_union(rv),
            all_mappings(rv),
            num == quorum_num as nat,
            den == quorum_den as nat,
            null@ == Tree::Null,
            forall|k: Tree| #[trigger] depth_all(values_at(rv, k)) < depth_all(rv),
            subs@.len() == j,
            forall|j2: int|
                0 <= j2 < j ==> #[trigger] sub_views(subs@)[j2] == consensus(
                    values_at(rv, kv[j2]),
                    num,
                    den,
                ),
        decreases keys@.len() - j,
    {
        let children = values_under(objs, keys[j], &null);
        let slice = children.as_slice();
        assert(ref_views(slice@) == values_at(rv, kv[j as int]));
        let sub = diff_and_common_multiple(slice, quorum_num, quorum_den);
        let ghost before = subs@;
        subs.push(sub);
        assert forall|j2: int| 0 <= j2 < j + 1 implies #[trigger] sub_views(subs@)[j2] == consensus(
            values_at(rv, kv[j2]),
            num,
            den,
        ) by {
            if j2 < j {
                assert(sub_views(subs@)[j2] == sub_views(before)[j2]);
            } else {
                assert(subs@[j2] == sub);
            }
        }
        j += 1;
    }
    proof {
        lemma_key_results(rv, kv, num, den);
        assert(sub_views(subs@) =~= key_results(rv, kv, num, den));
    }
    let base = assemble_base(&keys, &subs);
    let mut diffs: Vec<Option<Value>> = Vec::new();
    let mut i: usize = 0;
    while i < n
        invariant
            n == objs@.len(),
            i <= n,
            rv == ref_views(objs@),
            kv == ref_views(keys@),
            kv == key_union(rv),
            all_mappings(rv),
            num == quorum_num as nat,
            den == quorum_den as nat,
            keys@.len() == subs@.len(),
            sub_views(subs@) == key_results(rv, kv, num, den),
            diffs.len() == i,
            forall|i2: int|
                0 <= i2 < i ==> opt_view(#[trigger] diffs@[i2]) == nonempty_mapping(
                    doc_entries(kv, sub_views(subs@), i2),
                ),
        decreases n - i,
    {
        assert forall|j: int| 0 <= j < subs@.len() implies i < (#[trigger] subs@[j]).1@.len() by {
            lemma_key_results(rv, kv, num, den);
            assert(sub_views(subs@)[j] == consensus(values_at(rv, kv[j]), num, den));
            lemma_consensus_len(values_at(rv, kv[j]), num, den);
        }
        let d = assemble_doc(&keys, &subs, i);
        diffs.push(d);
        i += 1;
    }
    let r = (base, diffs);
    assert(opt_views(r.1@) =~= consensus(rv, num, den).1);
    proof {
        lemma_result_well_formed(objs@, num, den, r);
    }
    r
}

} // verus!
