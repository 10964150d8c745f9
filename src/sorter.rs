use vstd::prelude::*;
use crate::deep_equal::find_key;
use crate::deep_equal::lemma_tree_eq_symmetric;
use crate::equality::{
    entries_well_formed, group_well_formed, lemma_key_index, lookup, tree_eq, well_formed,
};
use crate::order::{
    lemma_rank_le_total, lemma_rank_le_transitive, lemma_sort_all, lemma_sort_map,
    lemma_sort_pairwise, pairwise,
    lemma_sort_of_sorted, lemma_sort_sorted, positions, rank_le, sort_by, sort_positions,
    total_preorder, Rank, SortRank,
};
use crate::value::{entry_views, group_views, views, Tree, Value};

verus! {

broadcast use {group_views, group_well_formed, lemma_key_index};

/// Position of the first occurrence of `s` in `pre`.
pub open spec fn first_index(pre: Seq<Seq<char>>, s: Seq<char>) -> Option<int>
    decreases pre.len(),
{
    if pre.len() == 0 {
        None
    } else {
        let n = pre.len() - 1;
        match first_index(pre.subrange(0, n), s) {
            Some(i) => Some(i),
            None => if pre[n] == s {
                Some(n)
            } else {
                None
            },
        }
    }
}

/// The rank of an entry: its position in `pre` when its key is a string
/// listed there, else its key.
pub open spec fn entry_rank(e: (Tree, Tree), pre: Seq<Seq<char>>) -> Rank {
    match e.0 {
        Tree::String(s) => match first_index(pre, s) {
            Some(i) => Rank::Pinned(i),
            None => Rank::Key(e.0),
        },
        _ => Rank::Key(e.0),
    }
}

/// The rank of a sequence element: the string it holds under `key`, or
/// absent when it holds none.
pub open spec fn elem_rank(e: Tree, key: Seq<char>) -> Rank {
    match e {
        Tree::Mapping(m) => match lookup(m, Tree::String(key)) {
            Some(Tree::String(s)) => Rank::Key(Tree::String(s)),
            _ => Rank::Absent,
        },
        _ => Rank::Absent,
    }
}

pub open spec fn entry_le(pre: Seq<Seq<char>>) -> spec_fn((Tree, Tree), (Tree, Tree)) -> bool {
    |a: (Tree, Tree), b: (Tree, Tree)| rank_le(entry_rank(a, pre), entry_rank(b, pre))
}

pub open spec fn elem_le(key: Seq<char>) -> spec_fn(Tree, Tree) -> bool {
    |a: Tree, b: Tree| rank_le(elem_rank(a, key), elem_rank(b, key))
}

/// `t` in canonical order: every sequence and mapping sorted inside, then
/// sequence elements ordered by their string under `key` and mapping entries
/// by `pre` and their keys, where those are given.
pub open spec fn sorted(t: Tree, key: Option<Seq<char>>, pre: Option<Seq<Seq<char>>>) -> Tree
    decreases t, 0nat,
{
    match t {
        Tree::Sequence(items) => {
            let xs = sorted_items(items, key, pre);
            Tree::Sequence(
                match key {
                    Some(k) => sort_by(xs, elem_le(k)),
                    None => xs,
                },
            )
        },
        Tree::Mapping(m) => {
            let es = sorted_values(m, key, pre);
            Tree::Mapping(
                match pre {
                    Some(p) => sort_by(es, entry_le(p)),
                    None => es,
                },
            )
        },
        _ => t,
    }
}

/// Each item sorted inside.
pub open spec fn sorted_items(items: Seq<Tree>, key: Option<Seq<char>>, pre: Option<Seq<Seq<char>>>) -> Seq<Tree>
    decreases items, 0nat,
{
    if items.len() == 0 {
        Seq::empty()
    } else {
        let n = items.len() - 1;
        sorted_items(items.subrange(0, n), key, pre).push(sorted(items[n], key, pre))
    }
}

/// Each value sorted inside, keys kept.
pub open spec fn sorted_values(
    m: Seq<(Tree, Tree)>,
    key: Option<Seq<char>>,
    pre: Option<Seq<Seq<char>>>,
) -> Seq<(Tree, Tree)>
    decreases m, 0nat,
{
    if m.len() == 0 {
        Seq::empty()
    } else {
        let n = m.len() - 1;
        sorted_values(m.subrange(0, n), key, pre).push((m[n].0, sorted(m[n].1, key, pre)))
    }
}

pub proof fn lemma_sorted_items(items: Seq<Tree>, key: Option<Seq<char>>, pre: Option<Seq<Seq<char>>>)
    ensures
        sorted_items(items, key, pre).len() == items.len(),
        forall|i: int|
            0 <= i < items.len() ==> #[trigger] sorted_items(items, key, pre)[i] == sorted(
                items[i],
                key,
                pre,
            ),
    decreases items.len(),
{
    if items.len() > 0 {
        lemma_sorted_items(items.subrange(0, items.len() - 1), key, pre);
    }
}

pub proof fn lemma_sorted_values(m: Seq<(Tree, Tree)>, key: Option<Seq<char>>, pre: Option<Seq<Seq<char>>>)
    ensures
        sorted_values(m, key, pre).len() == m.len(),
        forall|i: int|
            0 <= i < m.len() ==> #[trigger] sorted_values(m, key, pre)[i] == (
                m[i].0,
                sorted(m[i].1, key, pre),
            ),
    decreases m.len(),
{
    if m.len() > 0 {
        lemma_sorted_values(m.subrange(0, m.len() - 1), key, pre);
    }
}

pub proof fn lemma_elem_le_total_preorder(key: Seq<char>)
    ensures
        total_preorder(elem_le(key)),
{
    let le = elem_le(key);
    assert forall|a: Tree, b: Tree| #[trigger] le(a, b) || le(b, a) by {
        lemma_rank_le_total(elem_rank(a, key), elem_rank(b, key));
    }
    assert forall|a: Tree, b: Tree, c: Tree| #[trigger] le(a, b) && #[trigger] le(b, c) implies le(a, c) by {
        lemma_rank_le_transitive(elem_rank(a, key), elem_rank(b, key), elem_rank(c, key));
    }
}

pub proof fn lemma_entry_le_total_preorder(pre: Seq<Seq<char>>)
    ensures
        total_preorder(entry_le(pre)),
{
    let le = entry_le(pre);
    assert forall|a: (Tree, Tree), b: (Tree, Tree)| #[trigger] le(a, b) || le(b, a) by {
        lemma_rank_le_total(entry_rank(a, pre), entry_rank(b, pre));
    }
    assert forall|a: (Tree, Tree), b: (Tree, Tree), c: (Tree, Tree)|
        #[trigger] le(a, b) && #[trigger] le(b, c) implies le(a, c) by {
        lemma_rank_le_transitive(entry_rank(a, pre), entry_rank(b, pre), entry_rank(c, pre));
    }
}

/// Sorting keeps values well formed.
pub proof fn lemma_sorted_well_formed(t: Tree, key: Option<Seq<char>>, pre: Option<Seq<Seq<char>>>)
    requires
        well_formed(t),
    ensures
        well_formed(sorted(t, key, pre)),
    decreases t,
{
    match t {
        Tree::Sequence(items) => {
            let w = sorted_items(items, key, pre);
            lemma_sorted_items(items, key, pre);
            let p = |y: Tree| well_formed(y);
            assert forall|j: int| 0 <= j < w.len() implies p(#[trigger] w[j]) by {
                assert(well_formed(items[j]));
                lemma_sorted_well_formed(items[j], key, pre);
            }
            match key {
                Some(k) => {
                    lemma_sort_all(w, elem_le(k), p);
                    let u = sort_by(w, elem_le(k));
                    assert forall|i: int| #![trigger u[i]] 0 <= i < u.len() implies well_formed(u[i]) by {
                        assert(p(u[i]));
                    }
                },
                None => {
                    assert forall|i: int| #![trigger w[i]] 0 <= i < w.len() implies well_formed(w[i]) by {
                        assert(p(w[i]));
                    }
                },
            }
        },
        Tree::Mapping(m) => {
            let w = sorted_values(m, key, pre);
            lemma_sorted_values(m, key, pre);
            assert(entries_well_formed(m));
            let p = |e: (Tree, Tree)| well_formed(e.0) && well_formed(e.1);
            assert forall|j: int| 0 <= j < w.len() implies p(#[trigger] w[j]) by {
                assert(well_formed(m[j].0) && well_formed(m[j].1));
                lemma_sorted_well_formed(m[j].1, key, pre);
            }
            let rel = |x: (Tree, Tree), y: (Tree, Tree)| !tree_eq(x.0, y.0);
            assert forall|i: int, j: int|
                0 <= i < w.len() && 0 <= j < w.len() && i != j implies rel(#[trigger] w[i], #[trigger] w[j]) by {
                assert(w[i].0 == m[i].0 && w[j].0 == m[j].0);
                if i < j {
                    assert(!tree_eq(m[i].0, m[j].0));
                } else {
                    assert(!tree_eq(m[j].0, m[i].0));
                    assert(well_formed(m[i].0) && well_formed(m[j].0));
                    if tree_eq(m[i].0, m[j].0) {
                        lemma_tree_eq_symmetric(m[i].0, m[j].0);
                    }
                }
            }
            let u = match pre {
                Some(q) => sort_by(w, entry_le(q)),
                None => w,
            };
            match pre {
                Some(q) => {
                    lemma_sort_all(w, entry_le(q), p);
                    lemma_sort_pairwise(w, entry_le(q), rel);
                },
                None => {},
            }
            assert(pairwise(u, rel));
            assert forall|i: int| #![trigger u[i]] 0 <= i < u.len() implies well_formed(u[i].0)
                && well_formed(u[i].1) by {
                assert(p(u[i]));
            }
            assert forall|i: int, j: int| #![trigger u[i], u[j]] 0 <= i < j < u.len() implies !tree_eq(
                u[i].0,
                u[j].0,
            ) by {
                assert(rel(u[i], u[j]));
            }
            assert(entries_well_formed(u));
        },
        _ => {},
    }
}

/// Sorting is idempotent: sorting a sorted value changes nothing.
pub proof fn lemma_sort_idempotent(t: Tree, key: Option<Seq<char>>, pre: Option<Seq<Seq<char>>>)
    ensures
        sorted(sorted(t, key, pre), key, pre) == sorted(t, key, pre),
    decreases t,
{
    match t {
        Tree::Sequence(items) => {
            let w = sorted_items(items, key, pre);
            lemma_sorted_items(items, key, pre);
            let p = |y: Tree| sorted(y, key, pre) == y;
            assert forall|j: int| 0 <= j < w.len() implies p(#[trigger] w[j]) by {
                lemma_sort_idempotent(items[j], key, pre);
            }
            let u = match key {
                Some(k) => sort_by(w, elem_le(k)),
                None => w,
            };
            match key {
                Some(k) => lemma_sort_all(w, elem_le(k), p),
                None => {},
            }
            lemma_sorted_items(u, key, pre);
            assert(sorted_items(u, key, pre) =~= u) by {
                assert forall|i: int| 0 <= i < u.len() implies #[trigger] sorted_items(u, key, pre)[i] == u[i] by {
                    assert(p(u[i]));
                }
            }
            match key {
                Some(k) => {
                    lemma_elem_le_total_preorder(k);
                    lemma_sort_sorted(w, elem_le(k));
                    lemma_sort_of_sorted(u, elem_le(k));
                },
                None => {},
            }
        },
        Tree::Mapping(m) => {
            let w = sorted_values(m, key, pre);
            lemma_sorted_values(m, key, pre);
            let p = |e: (Tree, Tree)| sorted(e.1, key, pre) == e.1;
            assert forall|j: int| 0 <= j < w.len() implies p(#[trigger] w[j]) by {
                lemma_sort_idempotent(m[j].1, key, pre);
            }
            let u = match pre {
                Some(q) => sort_by(w, entry_le(q)),
                None => w,
            };
            match pre {
                Some(q) => lemma_sort_all(w, entry_le(q), p),
                None => {},
            }
            lemma_sorted_values(u, key, pre);
            assert(sorted_values(u, key, pre) =~= u) by {
                assert forall|i: int| 0 <= i < u.len() implies #[trigger] sorted_values(u, key, pre)[i] == u[i] by {
                    assert(p(u[i]));
                }
            }
            match pre {
                Some(q) => {
                    lemma_entry_le_total_preorder(q);
                    lemma_sort_sorted(w, entry_le(q));
                    lemma_sort_of_sorted(u, entry_le(q));
                },
                None => {},
            }
        },
        _ => {},
    }
}

/// The texts of a list of strings.
pub open spec fn texts(v: Seq<String>) -> Seq<Seq<char>> {
    Seq::new(v.len(), |i: int| v[i]@)
}

fn elem_rank_exec(e: &Value, key: &str) -> (r: SortRank)
    ensures
        r@ == elem_rank(e@, key@),
{
    match e {
        Value::Mapping(m) => {
            let k = Value::String(String::from_str(key));
            match find_key(m, &k) {
                Some(j) => match &m[j].1 {
                    Value::String(s) => SortRank::Key(Value::String(s.clone())),
                    _ => SortRank::Absent,
                },
                None => SortRank::Absent,
            }
        },
        _ => SortRank::Absent,
    }
}

fn entry_rank_exec(e: &(Value, Value), pre: &Vec<String>) -> (r: SortRank)
    ensures
        r@ == entry_rank((e.0@, e.1@), texts(pre@)),
{
    let ghost tp = texts(pre@);
    match &e.0 {
        Value::String(s) => {
            let mut i: usize = 0;
            while i < pre.len()
                invariant
                    i <= pre@.len(),
                    tp == texts(pre@),
                    first_index(tp.subrange(0, i as int), s@) is None,
                    e.0@ == Tree::String(s@),
                decreases pre@.len() - i,
            {
                assert(tp.subrange(0, i + 1).subrange(0, i as int) =~= tp.subrange(0, i as int));
                if pre[i] == *s {
                    assert(tp.subrange(0, i + 1)[i as int] == s@);
                    assert(first_index(tp.subrange(0, i + 1), s@) == Some(i as int));
                    proof {
                        lemma_first_index_prefix(tp, s@, i + 1);
                    }
                    return SortRank::Pinned(i);
                }
                i += 1;
            }
            assert(tp.subrange(0, i as int) =~= tp);
            SortRank::Key(e.0.deep_copy())
        },
        _ => SortRank::Key(e.0.deep_copy()),
    }
}

proof fn lemma_first_index_prefix(pre: Seq<Seq<char>>, s: Seq<char>, n: int)
    requires
        0 <= n <= pre.len(),
        first_index(pre.subrange(0, n), s) is Some,
    ensures
        first_index(pre, s) == first_index(pre.subrange(0, n), s),
    decreases pre.len() - n,
{
    if n < pre.len() {
        assert(pre.subrange(0, n + 1).subrange(0, n) =~= pre.subrange(0, n));
        lemma_first_index_prefix(pre, s, n + 1);
    } else {
        assert(pre.subrange(0, n) =~= pre);
    }
}

/// Orders `array` stably by the string each element holds under
/// `sort_key`; elements without one go last.
pub fn array_sorter(array: &mut Vec<Value>, sort_key: &str)
    ensures
        views(final(array)@) == sort_by(views(old(array)@), elem_le(sort_key@)),
{
    let ghost xs = views(array@);
    let ghost le = elem_le(sort_key@);
    let n = array.len();
    let mut ranks: Vec<SortRank> = Vec::new();
    let mut i: usize = 0;
    while i < n
        invariant
            n == array@.len(),
            xs == views(array@),
            i <= n,
            ranks@.len() == i,
            forall|k: int| 0 <= k < i ==> (#[trigger] ranks@[k])@ == elem_rank(xs[k], sort_key@),
        decreases n - i,
    {
        ranks.push(elem_rank_exec(&array[i], sort_key));
        i += 1;
    }
    let ghost le_pos = |a: usize, b: usize| le(xs[a as int], xs[b as int]);
    let order = sort_positions(&ranks, Ghost(le_pos));
    let ghost f = |a: usize| xs[a as int];
    proof {
        lemma_sort_all(positions(n as nat), le_pos, |a: usize| a < n);
        lemma_sort_map(positions(n as nat), f, le_pos, le);
        assert(positions(n as nat).map_values(f) =~= xs);
    }
    let mut out: Vec<Value> = Vec::new();
    let mut j: usize = 0;
    while j < n
        invariant
            n == array@.len(),
            xs == views(array@),
            order@.len() == n,
            forall|k: int| 0 <= k < n ==> #[trigger] order@[k] < n,
            j <= n,
            out@.len() == j,
            forall|k: int| 0 <= k < j ==> (#[trigger] out@[k])@ == xs[order@[k] as int],
        decreases n - j,
    {
        out.push(array[order[j]].deep_copy());
        j += 1;
    }
    assert(views(out@) =~= order@.map_values(f));
    *array = out;
}

/// Orders `hash`: first the entries whose keys are listed in `pre_order`,
/// in that order, then the others by key.
pub fn hash_sorter(hash: &mut Vec<(Value, Value)>, pre_order: &Vec<String>)
    ensures
        entry_views(final(hash)@) == sort_by(entry_views(old(hash)@), entry_le(texts(pre_order@))),
{
    let ghost xs = entry_views(hash@);
    let ghost le = entry_le(texts(pre_order@));
    let n = hash.len();
    let mut ranks: Vec<SortRank> = Vec::new();
    let mut i: usize = 0;
    while i < n
        invariant
            n == hash@.len(),
            xs == entry_views(hash@),
            i <= n,
            ranks@.len() == i,
            forall|k: int|
                0 <= k < i ==> (#[trigger] ranks@[k])@ == entry_rank(xs[k], texts(pre_order@)),
        decreases n - i,
    {
        ranks.push(entry_rank_exec(&hash[i], pre_order));
        i += 1;
    }
    let ghost le_pos = |a: usize, b: usize| le(xs[a as int], xs[b as int]);
    let order = sort_positions(&ranks, Ghost(le_pos));
    let ghost f = |a: usize| xs[a as int];
    proof {
        lemma_sort_all(positions(n as nat), le_pos, |a: usize| a < n);
        lemma_sort_map(positions(n as nat), f, le_pos, le);
        assert(positions(n as nat).map_values(f) =~= xs);
    }
    let mut out: Vec<(Value, Value)> = Vec::new();
    let mut j: usize = 0;
    while j < n
        invariant
            n == hash@.len(),
            xs == entry_views(hash@),
            order@.len() == n,
            forall|k: int| 0 <= k < n ==> #[trigger] order@[k] < n,
            j <= n,
            out@.len() == j,
            forall|k: int|
                0 <= k < j ==> ((#[trigger] out@[k]).0@, out@[k].1@) == xs[order@[k] as int],
        decreases n - j,
    {
        let k = hash[order[j]].0.deep_copy();
        let v = hash[order[j]].1.deep_copy();
        out.push((k, v));
        j += 1;
    }
    assert(entry_views(out@) =~= order@.map_values(f));
    *hash = out;
}

/// The model of an optional text.
pub open spec fn opt_text(o: Option<String>) -> Option<Seq<char>> {
    match o {
        Some(s) => Some(s@),
        None => None,
    }
}

/// The model of an optional list of texts.
pub open spec fn opt_texts(o: Option<Vec<String>>) -> Option<Seq<Seq<char>>> {
    match o {
        Some(v) => Some(texts(v@)),
        None => None,
    }
}

/// The strings among `xs`, in order.
pub open spec fn strings_in(xs: Seq<Tree>) -> Seq<Seq<char>>
    decreases xs.len(),
{
    if xs.len() == 0 {
        Seq::empty()
    } else {
        let n = xs.len() - 1;
        let rest = strings_in(xs.subrange(0, n));
        match xs[n] {
            Tree::String(s) => rest.push(s),
            _ => rest,
        }
    }
}

/// The field by which sequence elements are ordered: the string under
/// `sortKey` of a configuration mapping.
pub open spec fn sort_key_of(cfg: Tree) -> Option<Seq<char>> {
    match cfg {
        Tree::Mapping(m) => match lookup(m, Tree::String("sortKey"@)) {
            Some(Tree::String(s)) => Some(s),
            _ => None,
        },
        _ => None,
    }
}

/// The keys placed first in mappings: the strings of the sequence under
/// `preOrder` of a configuration mapping.
pub open spec fn pre_order_of(cfg: Tree) -> Option<Seq<Seq<char>>> {
    match cfg {
        Tree::Mapping(m) => match lookup(m, Tree::String("preOrder"@)) {
            Some(Tree::Sequence(xs)) => Some(strings_in(xs)),
            _ => None,
        },
        _ => None,
    }
}

/// Settings of the canonical order; an absent one leaves that kind of
/// node in its order.
pub struct SortConfig {
    pub sort_key: Option<String>,
    pub pre_order: Option<Vec<String>>,
}

impl SortConfig {
    /// Reads the settings from a configuration value; a missing or
    /// ill-typed setting counts as absent.
    pub fn from_value(config: &Value) -> (r: SortConfig)
        ensures
            opt_text(r.sort_key) == sort_key_of(config@),
            opt_texts(r.pre_order) == pre_order_of(config@),
    {
        match config {
            Value::Mapping(m) => {
                let sk = Value::String(String::from_str("sortKey"));
                let sort_key = match find_key(m, &sk) {
                    Some(j) => match &m[j].1 {
                        Value::String(s) => Some(s.clone()),
                        _ => None,
                    },
                    None => None,
                };
                let pk = Value::String(String::from_str("preOrder"));
                let pre_order = match find_key(m, &pk) {
                    Some(j) => match &m[j].1 {
                        Value::Sequence(xs) => Some(strings_of(xs)),
                        _ => None,
                    },
                    None => None,
                };
                SortConfig { sort_key, pre_order }
            },
            _ => SortConfig { sort_key: None, pre_order: None },
        }
    }
}

fn strings_of(xs: &Vec<Value>) -> (r: Vec<String>)
    ensures
        texts(r@) == strings_in(views(xs@)),
{
    let ghost xv = views(xs@);
    let mut out: Vec<String> = Vec::new();
    let mut i: usize = 0;
    while i < xs.len()
        invariant
            i <= xs@.len(),
            xv == views(xs@),
            texts(out@) == strings_in(xv.subrange(0, i as int)),
        decreases xs@.len() - i,
    {
        assert(xv.subrange(0, i + 1).subrange(0, i as int) =~= xv.subrange(0, i as int));
        match &xs[i] {
            Value::String(s) => {
                let ghost before = out@;
                out.push(s.clone());
                assert(texts(out@) =~= texts(before).push(s@));
            },
            _ => {},
        }
        i += 1;
    }
    assert(xv.subrange(0, i as int) =~= xv);
    out
}

fn sort_value(v: &Value, key: &Option<String>, pre: &Option<Vec<String>>) -> (r: Value)
    ensures
        r@ == sorted(v@, opt_text(*key), opt_texts(*pre)),
    decreases v,
{
    match v {
        Value::Sequence(items) => Value::Sequence(sort_items(items, key, pre)),
        Value::Mapping(m) => Value::Mapping(sort_entries(m, key, pre)),
        _ => v.deep_copy(),
    }
}

fn sort_items(items: &Vec<Value>, key: &Option<String>, pre: &Option<Vec<String>>) -> (r: Vec<Value>)
    ensures
        ({
            let xs = sorted_items(views(items@), opt_text(*key), opt_texts(*pre));
            views(r@) == match opt_text(*key) {
                Some(k) => sort_by(xs, elem_le(k)),
                None => xs,
            }
        }),
    decreases items,
{
    let ghost xv = views(items@);
    let mut out: Vec<Value> = Vec::new();
    let mut i: usize = 0;
    while i < items.len()
        invariant
            i <= items@.len(),
            xv == views(items@),
            views(out@) == sorted_items(xv.subrange(0, i as int), opt_text(*key), opt_texts(*pre)),
        decreases items@.len() - i,
    {
        assert(xv.subrange(0, i + 1).subrange(0, i as int) =~= xv.subrange(0, i as int));
        out.push(sort_value(&items[i], key, pre));
        i += 1;
    }
    assert(xv.subrange(0, i as int) =~= xv);
    match key {
        Some(k) => array_sorter(&mut out, k.as_str()),
        None => {},
    }
    out
}

fn sort_entries(m: &Vec<(Value, Value)>, key: &Option<String>, pre: &Option<Vec<String>>) -> (r: Vec<
    (Value, Value),
>)
    ensures
        ({
            let es = sorted_values(entry_views(m@), opt_text(*key), opt_texts(*pre));
            entry_views(r@) == match opt_texts(*pre) {
                Some(p) => sort_by(es, entry_le(p)),
                None => es,
            }
        }),
    decreases m,
{
    let ghost mv = entry_views(m@);
    let mut out: Vec<(Value, Value)> = Vec::new();
    let mut i: usize = 0;
    while i < m.len()
        invariant
            i <= m@.len(),
            mv == entry_views(m@),
            entry_views(out@) == sorted_values(
                mv.subrange(0, i as int),
                opt_text(*key),
                opt_texts(*pre),
            ),
        decreases m@.len() - i,
    {
        assert(mv.subrange(0, i + 1).subrange(0, i as int) =~= mv.subrange(0, i as int));
        let k = m[i].0.deep_copy();
        let v = sort_value(&m[i].1, key, pre);
        out.push((k, v));
        i += 1;
    }
    assert(mv.subrange(0, i as int) =~= mv);
    match pre {
        Some(p) => hash_sorter(&mut out, p),
        None => {},
    }
    out
}

/// `doc` in the canonical order that `config` describes.
pub fn sort_yaml(doc: &Value, config: &Value) -> (r: Value)
    ensures
        r@ == sorted(doc@, sort_key_of(config@), pre_order_of(config@)),
        well_formed(doc@) ==> well_formed(r@),
{
    proof {
        if well_formed(doc@) {
            lemma_sorted_well_formed(doc@, sort_key_of(config@), pre_order_of(config@));
        }
    }
    let cfg = SortConfig::from_value(config);
    sort_value(doc, &cfg.sort_key, &cfg.pre_order)
}

} // verus!
