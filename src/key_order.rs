use vstd::prelude::*;
use crate::value::{entry_views, group_views, views, Tree, Value};

verus! {

broadcast use group_views;

/// Three-way lexicographic comparison of texts by code point, which is also
/// the order of their UTF-8 bytes: negative, zero or positive.
pub open spec fn text_cmp(a: Seq<char>, b: Seq<char>) -> int
    decreases a.len(),
{
    if a.len() == 0 {
        if b.len() == 0 {
            0
        } else {
            -1
        }
    } else if b.len() == 0 {
        1
    } else if a[0] != b[0] {
        if (a[0] as u32) < (b[0] as u32) {
            -1
        } else {
            1
        }
    } else {
        text_cmp(a.subrange(1, a.len() as int), b.subrange(1, b.len() as int))
    }
}

/// The position of a value's variant in the order of values: reals,
/// integers, strings, booleans, sequences, mappings, null.
pub open spec fn tree_class(t: Tree) -> int {
    match t {
        Tree::Real(_) => 0,
        Tree::Integer(_) => 1,
        Tree::String(_) => 2,
        Tree::Boolean(_) => 3,
        Tree::Sequence(_) => 4,
        Tree::Mapping(_) => 5,
        Tree::Null => 7,
    }
}

/// Three-way comparison of values: by variant, then by value; sequences
/// element by element, mappings entry by entry (key, then value), a proper
/// prefix first.
pub open spec fn tree_cmp(a: Tree, b: Tree) -> int
    decreases a,
{
    if tree_class(a) != tree_class(b) {
        if tree_class(a) < tree_class(b) {
            -1
        } else {
            1
        }
    } else {
        match a {
            Tree::Real(x) => text_cmp(x, b->Real_0),
            Tree::Integer(x) => {
                let y = b->Integer_0;
                if x < y {
                    -1
                } else if x > y {
                    1
                } else {
                    0
                }
            },
            Tree::String(x) => text_cmp(x, b->String_0),
            Tree::Boolean(x) => {
                let y = b->Boolean_0;
                if x == y {
                    0
                } else if !x {
                    -1
                } else {
                    1
                }
            },
            Tree::Sequence(xs) => seq_cmp(xs, b->Sequence_0),
            Tree::Mapping(xm) => entries_cmp(xm, b->Mapping_0),
            Tree::Null => 0,
        }
    }
}

/// Lexicographic comparison of sequences of values.
pub open spec fn seq_cmp(xs: Seq<Tree>, ys: Seq<Tree>) -> int
    decreases xs,
{
    if xs.len() == 0 {
        if ys.len() == 0 {
            0
        } else {
            -1
        }
    } else if ys.len() == 0 {
        1
    } else {
        let c = tree_cmp(xs[0], ys[0]);
        if c != 0 {
            c
        } else {
            seq_cmp(xs.subrange(1, xs.len() as int), ys.subrange(1, ys.len() as int))
        }
    }
}

/// Comparison of two entries: by key, then by value.
pub open spec fn pair_cmp(x: (Tree, Tree), y: (Tree, Tree)) -> int
    decreases x,
{
    let c = tree_cmp(x.0, y.0);
    if c != 0 {
        c
    } else {
        tree_cmp(x.1, y.1)
    }
}

/// Lexicographic comparison of sequences of entries.
pub open spec fn entries_cmp(xm: Seq<(Tree, Tree)>, ym: Seq<(Tree, Tree)>) -> int
    decreases xm,
{
    if xm.len() == 0 {
        if ym.len() == 0 {
            0
        } else {
            -1
        }
    } else if ym.len() == 0 {
        1
    } else {
        let c = pair_cmp(xm[0], ym[0]);
        if c != 0 {
            c
        } else {
            entries_cmp(xm.subrange(1, xm.len() as int), ym.subrange(1, ym.len() as int))
        }
    }
}

proof fn lemma_char_order(a: char, b: char)
    requires
        a != b,
    ensures
        (a as u32) != (b as u32),
{
    vstd::utf8::char_u32_cast(a, a as u32);
    vstd::utf8::char_u32_cast(b, b as u32);
}

pub proof fn lemma_text_cmp_antisymmetric(a: Seq<char>, b: Seq<char>)
    ensures
        text_cmp(a, b) == -text_cmp(b, a),
    decreases a.len(),
{
    if a.len() > 0 && b.len() > 0 {
        if a[0] != b[0] {
            lemma_char_order(a[0], b[0]);
        } else {
            lemma_text_cmp_antisymmetric(a.subrange(1, a.len() as int), b.subrange(1, b.len() as int));
        }
    }
}

pub proof fn lemma_text_cmp_zero(a: Seq<char>, b: Seq<char>)
    requires
        text_cmp(a, b) == 0,
    ensures
        a == b,
    decreases a.len(),
{
    if a.len() > 0 && b.len() > 0 {
        let (ta, tb) = (a.subrange(1, a.len() as int), b.subrange(1, b.len() as int));
        lemma_text_cmp_zero(ta, tb);
        assert(a =~= seq![a[0]] + ta);
        assert(b =~= seq![b[0]] + tb);
    } else {
        assert(a =~= b);
    }
}

pub proof fn lemma_text_cmp_lt_transitive(a: Seq<char>, b: Seq<char>, c: Seq<char>)
    requires
        text_cmp(a, b) < 0,
        text_cmp(b, c) < 0,
    ensures
        text_cmp(a, c) < 0,
    decreases a.len(),
{
    if a.len() > 0 && b.len() > 0 && c.len() > 0 {
        if a[0] == b[0] && b[0] == c[0] {
            lemma_text_cmp_lt_transitive(
                a.subrange(1, a.len() as int),
                b.subrange(1, b.len() as int),
                c.subrange(1, c.len() as int),
            );
        } else if a[0] == c[0] {
            lemma_char_order(a[0], b[0]);
            lemma_char_order(b[0], c[0]);
        }
    }
}

pub proof fn lemma_tree_cmp_antisymmetric(a: Tree, b: Tree)
    ensures
        tree_cmp(a, b) == -tree_cmp(b, a),
    decreases a,
{
    if tree_class(a) == tree_class(b) {
        match a {
            Tree::Real(x) => lemma_text_cmp_antisymmetric(x, b->Real_0),
            Tree::String(x) => lemma_text_cmp_antisymmetric(x, b->String_0),
            Tree::Sequence(xs) => lemma_seq_cmp_antisymmetric(xs, b->Sequence_0),
            Tree::Mapping(xm) => lemma_entries_cmp_antisymmetric(xm, b->Mapping_0),
            _ => {},
        }
    }
}

pub proof fn lemma_seq_cmp_antisymmetric(xs: Seq<Tree>, ys: Seq<Tree>)
    ensures
        seq_cmp(xs, ys) == -seq_cmp(ys, xs),
    decreases xs,
{
    if xs.len() > 0 && ys.len() > 0 {
        lemma_tree_cmp_antisymmetric(xs[0], ys[0]);
        lemma_seq_cmp_antisymmetric(xs.subrange(1, xs.len() as int), ys.subrange(1, ys.len() as int));
    }
}

pub proof fn lemma_pair_cmp_antisymmetric(x: (Tree, Tree), y: (Tree, Tree))
    ensures
        pair_cmp(x, y) == -pair_cmp(y, x),
    decreases x,
{
    lemma_tree_cmp_antisymmetric(x.0, y.0);
    lemma_tree_cmp_antisymmetric(x.1, y.1);
}

pub proof fn lemma_entries_cmp_antisymmetric(xm: Seq<(Tree, Tree)>, ym: Seq<(Tree, Tree)>)
    ensures
        entries_cmp(xm, ym) == -entries_cmp(ym, xm),
    decreases xm,
{
    if xm.len() > 0 && ym.len() > 0 {
        lemma_pair_cmp_antisymmetric(xm[0], ym[0]);
        lemma_entries_cmp_antisymmetric(
            xm.subrange(1, xm.len() as int),
            ym.subrange(1, ym.len() as int),
        );
    }
}

pub proof fn lemma_tree_cmp_zero(a: Tree, b: Tree)
    requires
        tree_cmp(a, b) == 0,
    ensures
        a == b,
    decreases a,
{
    match a {
        Tree::Real(x) => lemma_text_cmp_zero(x, b->Real_0),
        Tree::String(x) => lemma_text_cmp_zero(x, b->String_0),
        Tree::Sequence(xs) => lemma_seq_cmp_zero(xs, b->Sequence_0),
        Tree::Mapping(xm) => lemma_entries_cmp_zero(xm, b->Mapping_0),
        _ => {},
    }
}

pub proof fn lemma_seq_cmp_zero(xs: Seq<Tree>, ys: Seq<Tree>)
    requires
        seq_cmp(xs, ys) == 0,
    ensures
        xs == ys,
    decreases xs,
{
    if xs.len() > 0 && ys.len() > 0 {
        let (tx, ty) = (xs.subrange(1, xs.len() as int), ys.subrange(1, ys.len() as int));
        lemma_tree_cmp_zero(xs[0], ys[0]);
        lemma_seq_cmp_zero(tx, ty);
        assert(xs =~= seq![xs[0]] + tx);
        assert(ys =~= seq![ys[0]] + ty);
    } else {
        assert(xs =~= ys);
    }
}

pub proof fn lemma_pair_cmp_zero(x: (Tree, Tree), y: (Tree, Tree))
    requires
        pair_cmp(x, y) == 0,
    ensures
        x == y,
    decreases x,
{
    lemma_tree_cmp_zero(x.0, y.0);
    lemma_tree_cmp_zero(x.1, y.1);
}

pub proof fn lemma_entries_cmp_zero(xm: Seq<(Tree, Tree)>, ym: Seq<(Tree, Tree)>)
    requires
        entries_cmp(xm, ym) == 0,
    ensures
        xm == ym,
    decreases xm,
{
    if xm.len() > 0 && ym.len() > 0 {
        let (tx, ty) = (xm.subrange(1, xm.len() as int), ym.subrange(1, ym.len() as int));
        lemma_pair_cmp_zero(xm[0], ym[0]);
        lemma_entries_cmp_zero(tx, ty);
        assert(xm =~= seq![xm[0]] + tx);
        assert(ym =~= seq![ym[0]] + ty);
    } else {
        assert(xm =~= ym);
    }
}

pub proof fn lemma_tree_cmp_lt_transitive(a: Tree, b: Tree, c: Tree)
    requires
        tree_cmp(a, b) < 0,
        tree_cmp(b, c) < 0,
    ensures
        tree_cmp(a, c) < 0,
    decreases a,
{
    if tree_class(a) == tree_class(b) && tree_class(b) == tree_class(c) {
        match a {
            Tree::Real(x) => lemma_text_cmp_lt_transitive(x, b->Real_0, c->Real_0),
            Tree::String(x) => lemma_text_cmp_lt_transitive(x, b->String_0, c->String_0),
            Tree::Sequence(xs) => lemma_seq_cmp_lt_transitive(xs, b->Sequence_0, c->Sequence_0),
            Tree::Mapping(xm) => lemma_entries_cmp_lt_transitive(xm, b->Mapping_0, c->Mapping_0),
            _ => {},
        }
    }
}

pub proof fn lemma_seq_cmp_lt_transitive(xs: Seq<Tree>, ys: Seq<Tree>, zs: Seq<Tree>)
    requires
        seq_cmp(xs, ys) < 0,
        seq_cmp(ys, zs) < 0,
    ensures
        seq_cmp(xs, zs) < 0,
    decreases xs,
{
    if xs.len() > 0 && ys.len() > 0 && zs.len() > 0 {
        let c1 = tree_cmp(xs[0], ys[0]);
        let c2 = tree_cmp(ys[0], zs[0]);
        if c1 == 0 {
            lemma_tree_cmp_zero(xs[0], ys[0]);
        }
        if c2 == 0 {
            lemma_tree_cmp_zero(ys[0], zs[0]);
        }
        if c1 < 0 && c2 < 0 {
            lemma_tree_cmp_lt_transitive(xs[0], ys[0], zs[0]);
        }
        if c1 == 0 && c2 == 0 {
            lemma_tree_cmp_antisymmetric(xs[0], xs[0]);
            lemma_seq_cmp_lt_transitive(
                xs.subrange(1, xs.len() as int),
                ys.subrange(1, ys.len() as int),
                zs.subrange(1, zs.len() as int),
            );
        }
    }
}

pub proof fn lemma_pair_cmp_lt_transitive(x: (Tree, Tree), y: (Tree, Tree), z: (Tree, Tree))
    requires
        pair_cmp(x, y) < 0,
        pair_cmp(y, z) < 0,
    ensures
        pair_cmp(x, z) < 0,
    decreases x,
{
    let c1 = tree_cmp(x.0, y.0);
    let c2 = tree_cmp(y.0, z.0);
    if c1 == 0 {
        lemma_tree_cmp_zero(x.0, y.0);
    }
    if c2 == 0 {
        lemma_tree_cmp_zero(y.0, z.0);
    }
    if c1 < 0 && c2 < 0 {
        lemma_tree_cmp_lt_transitive(x.0, y.0, z.0);
    }
    if c1 == 0 && c2 == 0 {
        lemma_tree_cmp_antisymmetric(x.0, x.0);
        lemma_tree_cmp_lt_transitive(x.1, y.1, z.1);
    }
}

pub proof fn lemma_entries_cmp_lt_transitive(
    xm: Seq<(Tree, Tree)>,
    ym: Seq<(Tree, Tree)>,
    zm: Seq<(Tree, Tree)>,
)
    requires
        entries_cmp(xm, ym) < 0,
        entries_cmp(ym, zm) < 0,
    ensures
        entries_cmp(xm, zm) < 0,
    decreases xm,
{
    if xm.len() > 0 && ym.len() > 0 && zm.len() > 0 {
        let c1 = pair_cmp(xm[0], ym[0]);
        let c2 = pair_cmp(ym[0], zm[0]);
        if c1 == 0 {
            lemma_pair_cmp_zero(xm[0], ym[0]);
        }
        if c2 == 0 {
            lemma_pair_cmp_zero(ym[0], zm[0]);
        }
        if c1 < 0 && c2 < 0 {
            lemma_pair_cmp_lt_transitive(xm[0], ym[0], zm[0]);
        }
        if c1 == 0 && c2 == 0 {
            lemma_pair_cmp_antisymmetric(xm[0], xm[0]);
            lemma_entries_cmp_lt_transitive(
                xm.subrange(1, xm.len() as int),
                ym.subrange(1, ym.len() as int),
                zm.subrange(1, zm.len() as int),
            );
        }
    }
}

/// The comparison orders values totally: it is antisymmetric and transitive.
pub proof fn lemma_tree_cmp_order(a: Tree, b: Tree, c: Tree)
    ensures
        tree_cmp(a, b) == -tree_cmp(b, a),
        tree_cmp(a, b) <= 0 && tree_cmp(b, c) <= 0 ==> tree_cmp(a, c) <= 0,
{
    lemma_tree_cmp_antisymmetric(a, b);
    if tree_cmp(a, b) <= 0 && tree_cmp(b, c) <= 0 {
        if tree_cmp(a, b) == 0 {
            lemma_tree_cmp_zero(a, b);
        } else if tree_cmp(b, c) == 0 {
            lemma_tree_cmp_zero(b, c);
        } else {
            lemma_tree_cmp_lt_transitive(a, b, c);
        }
    }
}

/// Compares two texts lexicographically: negative, zero or positive.
pub fn text_cmp_exec(a: &str, b: &str) -> (r: i8)
    ensures
        r as int == text_cmp(a@, b@),
{
    let la = a.unicode_len();
    let lb = b.unicode_len();
    let mut i: usize = 0;
    assert(a@.subrange(0, la as int) =~= a@);
    assert(b@.subrange(0, lb as int) =~= b@);
    while i < la && i < lb
        invariant
            la == a@.len(),
            lb == b@.len(),
            i <= la,
            i <= lb,
            text_cmp(a@, b@) == text_cmp(
                a@.subrange(i as int, la as int),
                b@.subrange(i as int, lb as int),
            ),
        decreases la - i,
    {
        let ca = a.get_char(i);
        let cb = b.get_char(i);
        let ghost sa = a@.subrange(i as int, la as int);
        let ghost sb = b@.subrange(i as int, lb as int);
        assert(sa[0] == ca && sb[0] == cb);
        if ca != cb {
            return if (ca as u32) < (cb as u32) {
                -1
            } else {
                1
            };
        }
        assert(sa.subrange(1, sa.len() as int) =~= a@.subrange(i + 1, la as int));
        assert(sb.subrange(1, sb.len() as int) =~= b@.subrange(i + 1, lb as int));
        i += 1;
    }
    if i == la && i == lb {
        0
    } else if i == la {
        -1
    } else {
        1
    }
}

fn tree_class_exec(v: &Value) -> (c: u8)
    ensures
        c as int == tree_class(v@),
{
    match v {
        Value::Real(_) => 0,
        Value::Integer(_) => 1,
        Value::String(_) => 2,
        Value::Boolean(_) => 3,
        Value::Sequence(_) => 4,
        Value::Mapping(_) => 5,
        Value::Null => 7,
    }
}

/// Compares two values: negative, zero or positive.
pub fn tree_cmp_exec(a: &Value, b: &Value) -> (r: i8)
    ensures
        r as int == tree_cmp(a@, b@),
    decreases a,
{
    let ca = tree_class_exec(a);
    let cb = tree_class_exec(b);
    if ca != cb {
        return if ca < cb {
            -1
        } else {
            1
        };
    }
    match (a, b) {
        (Value::Real(x), Value::Real(y)) => text_cmp_exec(x.as_str(), y.as_str()),
        (Value::Integer(x), Value::Integer(y)) => if *x < *y {
            -1
        } else if *x > *y {
            1
        } else {
            0
        },
        (Value::String(x), Value::String(y)) => text_cmp_exec(x.as_str(), y.as_str()),
        (Value::Boolean(x), Value::Boolean(y)) => if *x == *y {
            0
        } else if !*x {
            -1
        } else {
            1
        },
        (Value::Sequence(xs), Value::Sequence(ys)) => items_cmp(xs, ys),
        (Value::Mapping(xm), Value::Mapping(ym)) => {
            assert(a@ == Tree::Mapping(entry_views(xm@)));
            assert(b@ == Tree::Mapping(entry_views(ym@)));
            entries_cmp_exec(xm, ym)
        },
        _ => 0,
    }
}

fn items_cmp(xs: &Vec<Value>, ys: &Vec<Value>) -> (r: i8)
    ensures
        r as int == seq_cmp(views(xs@), views(ys@)),
    decreases xs,
{
    let ghost xv = views(xs@);
    let ghost yv = views(ys@);
    let (lx, ly) = (xs.len(), ys.len());
    let mut i: usize = 0;
    assert(xv.subrange(0, lx as int) =~= xv);
    assert(yv.subrange(0, ly as int) =~= yv);
    while i < lx && i < ly
        invariant
            lx == xs@.len() == xv.len(),
            ly == ys@.len() == yv.len(),
            xv == views(xs@),
            yv == views(ys@),
            i <= lx,
            i <= ly,
            seq_cmp(xv, yv) == seq_cmp(
                xv.subrange(i as int, lx as int),
                yv.subrange(i as int, ly as int),
            ),
        decreases lx - i,
    {
        let ghost sx = xv.subrange(i as int, lx as int);
        let ghost sy = yv.subrange(i as int, ly as int);
        let c = tree_cmp_exec(&xs[i], &ys[i]);
        assert(sx[0] == xs@[i as int]@ && sy[0] == ys@[i as int]@);
        if c != 0 {
            return c;
        }
        assert(sx.subrange(1, sx.len() as int) =~= xv.subrange(i + 1, lx as int));
        assert(sy.subrange(1, sy.len() as int) =~= yv.subrange(i + 1, ly as int));
        i += 1;
    }
    if i == lx && i == ly {
        0
    } else if i == lx {
        -1
    } else {
        1
    }
}

fn entries_cmp_exec(xm: &Vec<(Value, Value)>, ym: &Vec<(Value, Value)>) -> (r: i8)
    ensures
        r as int == entries_cmp(entry_views(xm@), entry_views(ym@)),
    decreases xm,
{
    let ghost xv = entry_views(xm@);
    let ghost yv = entry_views(ym@);
    let (lx, ly) = (xm.len(), ym.len());
    let mut i: usize = 0;
    assert(xv.subrange(0, lx as int) =~= xv);
    assert(yv.subrange(0, ly as int) =~= yv);
    while i < lx && i < ly
        invariant
            lx == xm@.len() == xv.len(),
            ly == ym@.len() == yv.len(),
            xv == entry_views(xm@),
            yv == entry_views(ym@),
            i <= lx,
            i <= ly,
            entries_cmp(xv, yv) == entries_cmp(
                xv.subrange(i as int, lx as int),
                yv.subrange(i as int, ly as int),
            ),
        decreases lx - i,
    {
        let ghost sx = xv.subrange(i as int, lx as int);
        let ghost sy = yv.subrange(i as int, ly as int);
        assert(sx[0] == (xm@[i as int].0@, xm@[i as int].1@));
        assert(sy[0] == (ym@[i as int].0@, ym@[i as int].1@));
        let c = tree_cmp_exec(&xm[i].0, &ym[i].0);
        if c != 0 {
            assert(pair_cmp(sx[0], sy[0]) == c as int);
            return c;
        }
        let d = tree_cmp_exec(&xm[i].1, &ym[i].1);
        assert(pair_cmp(sx[0], sy[0]) == d as int);
        if d != 0 {
            return d;
        }
        assert(sx.subrange(1, sx.len() as int) =~= xv.subrange(i + 1, lx as int));
        assert(sy.subrange(1, sy.len() as int) =~= yv.subrange(i + 1, ly as int));
        i += 1;
    }
    if i == lx && i == ly {
        0
    } else if i == lx {
        -1
    } else {
        1
    }
}

} // verus!
