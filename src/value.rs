use vstd::prelude::*;

verus! {

/// A node of a configuration document.
#[derive(Debug)]
pub enum Value {
    Null,
    Boolean(bool),
    Integer(i64),
    /// A real number, kept as the text it was written with.
    Real(String),
    String(String),
    Sequence(Vec<Value>),
    /// Key/value entries. In a well-formed value (`equality::well_formed`)
    /// no two keys are equal; diff, consensus, merge and sort keep
    /// well-formed values well formed.
    Mapping(Vec<(Value, Value)>),
}

/// The mathematical model of a `Value`.
pub enum Tree {
    Null,
    Boolean(bool),
    Integer(int),
    Real(Seq<char>),
    String(Seq<char>),
    Sequence(Seq<Tree>),
    Mapping(Seq<(Tree, Tree)>),
}

impl Value {
    pub open spec fn view(self) -> Tree
        decreases self,
    {
        match self {
            Value::Null => Tree::Null,
            Value::Boolean(b) => Tree::Boolean(b),
            Value::Integer(i) => Tree::Integer(i as int),
            Value::Real(s) => Tree::Real(s@),
            Value::String(s) => Tree::String(s@),
            Value::Sequence(items) => Tree::Sequence(views(items@)),
            Value::Mapping(entries) => Tree::Mapping(entry_views(entries@)),
        }
    }
}

/// The models of a sequence of values.
pub open spec fn views(s: Seq<Value>) -> Seq<Tree>
    decreases s,
{
    if s.len() == 0 {
        Seq::empty()
    } else {
        views(s.subrange(0, s.len() - 1)).push(s[s.len() - 1].view())
    }
}

/// The models of a sequence of key/value entries.
pub open spec fn entry_views(s: Seq<(Value, Value)>) -> Seq<(Tree, Tree)>
    decreases s,
{
    if s.len() == 0 {
        Seq::empty()
    } else {
        let e = s[s.len() - 1];
        entry_views(s.subrange(0, s.len() - 1)).push((e.0.view(), e.1.view()))
    }
}

pub broadcast proof fn lemma_views(s: Seq<Value>)
    ensures
        (#[trigger] views(s)).len() == s.len(),
        forall|i: int| 0 <= i < s.len() ==> views(s)[i] == s[i].view(),
    decreases s.len(),
{
    if s.len() > 0 {
        lemma_views(s.subrange(0, s.len() - 1));
    }
}

pub broadcast proof fn lemma_entry_views(s: Seq<(Value, Value)>)
    ensures
        (#[trigger] entry_views(s)).len() == s.len(),
        forall|i: int|
            0 <= i < s.len() ==> entry_views(s)[i] == (s[i].0.view(), s[i].1.view()),
    decreases s.len(),
{
    if s.len() > 0 {
        lemma_entry_views(s.subrange(0, s.len() - 1));
    }
}

pub broadcast proof fn lemma_views_push(s: Seq<Value>, x: Value)
    ensures
        #[trigger] views(s.push(x)) == views(s).push(x.view()),
{
    assert(s.push(x).subrange(0, s.len() as int) =~= s);
}

pub broadcast proof fn lemma_entry_views_push(s: Seq<(Value, Value)>, x: (Value, Value))
    ensures
        #[trigger] entry_views(s.push(x)) == entry_views(s).push((x.0.view(), x.1.view())),
{
    assert(s.push(x).subrange(0, s.len() as int) =~= s);
}

pub broadcast group group_views {
    lemma_views_push,
    lemma_entry_views_push,
    lemma_views,
    lemma_entry_views,
}

/// The model of an optional value.
pub open spec fn opt_view(o: Option<Value>) -> Option<Tree> {
    match o {
        Some(v) => Some(v.view()),
        None => None,
    }
}

impl Value {
    /// A copy of this value, node for node.
    pub fn deep_copy(&self) -> (r: Value)
        ensures
            r@ == self@,
        decreases self,
    {
        broadcast use group_views;

        match self {
            Value::Null => Value::Null,
            Value::Boolean(b) => Value::Boolean(*b),
            Value::Integer(i) => Value::Integer(*i),
            Value::Real(s) => Value::Real(s.clone()),
            Value::String(s) => Value::String(s.clone()),
            Value::Sequence(items) => Value::Sequence(copy_items(items)),
            Value::Mapping(entries) => Value::Mapping(copy_entries(entries)),
        }
    }
}

/// Whether `a` and `b` are the same value, node for node and in the same order.
pub fn same_value(a: &Value, b: &Value) -> (r: bool)
    ensures
        r == (a@ == b@),
    decreases a,
{
    match (a, b) {
        (Value::Null, Value::Null) => true,
        (Value::Boolean(x), Value::Boolean(y)) => *x == *y,
        (Value::Integer(x), Value::Integer(y)) => *x == *y,
        (Value::Real(x), Value::Real(y)) => *x == *y,
        (Value::String(x), Value::String(y)) => *x == *y,
        (Value::Sequence(xs), Value::Sequence(ys)) => same_items(xs, ys),
        (Value::Mapping(xm), Value::Mapping(ym)) => same_entries(xm, ym),
        _ => false,
    }
}

fn same_items(xs: &Vec<Value>, ys: &Vec<Value>) -> (r: bool)
    ensures
        r == (views(xs@) == views(ys@)),
    decreases xs,
{
    proof {
        lemma_views(xs@);
        lemma_views(ys@);
    }
    if xs.len() != ys.len() {
        assert(views(xs@).len() != views(ys@).len());
        return false;
    }
    let mut i: usize = 0;
    while i < xs.len()
        invariant
            i <= xs@.len() == ys@.len(),
            forall|j: int| 0 <= j < i ==> (#[trigger] xs@[j])@ == ys@[j]@,
        decreases xs@.len() - i,
    {
        if !same_value(&xs[i], &ys[i]) {
            proof {
                lemma_views(xs@);
                lemma_views(ys@);
            }
            assert(views(xs@)[i as int] != views(ys@)[i as int]);
            return false;
        }
        i += 1;
    }
    assert(views(xs@) =~= views(ys@));
    true
}

fn same_entries(xm: &Vec<(Value, Value)>, ym: &Vec<(Value, Value)>) -> (r: bool)
    ensures
        r == (entry_views(xm@) == entry_views(ym@)),
    decreases xm,
{
    proof {
        lemma_entry_views(xm@);
        lemma_entry_views(ym@);
    }
    if xm.len() != ym.len() {
        assert(entry_views(xm@).len() != entry_views(ym@).len());
        return false;
    }
    let mut i: usize = 0;
    while i < xm.len()
        invariant
            i <= xm@.len() == ym@.len(),
            forall|j: int|
                0 <= j < i ==> (#[trigger] xm@[j]).0@ == ym@[j].0@ && xm@[j].1@ == ym@[j].1@,
        decreases xm@.len() - i,
    {
        if !same_value(&xm[i].0, &ym[i].0) || !same_value(&xm[i].1, &ym[i].1) {
            proof {
                lemma_entry_views(xm@);
                lemma_entry_views(ym@);
            }
            assert(entry_views(xm@)[i as int] != entry_views(ym@)[i as int]);
            return false;
        }
        i += 1;
    }
    assert(entry_views(xm@) =~= entry_views(ym@));
    true
}

impl PartialEq for Value {
    fn eq(&self, other: &Value) -> (r: bool) {
        same_value(self, other)
    }
}

impl vstd::std_specs::cmp::PartialEqSpecImpl for Value {
    open spec fn obeys_eq_spec() -> bool {
        true
    }

    open spec fn eq_spec(&self, other: &Value) -> bool {
        self@ == other@
    }
}

/// A copy of a list of values, item for item.
pub fn copy_items(items: &Vec<Value>) -> (r: Vec<Value>)
    ensures
        views(r@) == views(items@),
    decreases items,
{
    broadcast use group_views;

    let mut out: Vec<Value> = Vec::new();
    let mut i: usize = 0;
    while i < items.len()
        invariant
            i <= items.len(),
            out.len() == i,
            forall|j: int| 0 <= j < i ==> out@[j]@ == items@[j]@,
        decreases items.len() - i,
    {
        out.push(items[i].deep_copy());
        i += 1;
    }
    assert(views(out@) =~= views(items@));
    out
}

/// A copy of a list of entries, entry for entry.
pub fn copy_entries(entries: &Vec<(Value, Value)>) -> (r: Vec<(Value, Value)>)
    ensures
        entry_views(r@) == entry_views(entries@),
    decreases entries,
{
    broadcast use group_views;

    let mut out: Vec<(Value, Value)> = Vec::new();
    let mut i: usize = 0;
    while i < entries.len()
        invariant
            i <= entries.len(),
            out.len() == i,
            forall|j: int|
                0 <= j < i ==> out@[j].0@ == entries@[j].0@ && out@[j].1@ == entries@[j].1@,
        decreases entries.len() - i,
    {
        let k = entries[i].0.deep_copy();
        let v = entries[i].1.deep_copy();
        out.push((k, v));
        i += 1;
    }
    assert(entry_views(out@) =~= entry_views(entries@));
    out
}

} // verus!
