//! Inventory values: JSON-shaped data with insertion-ordered maps.

use vstd::prelude::*;
use crate::assoc::{cut, distinct, get, holds, lemma_cut_get, lemma_pos, lemma_pos_unique, lemma_put_distinct, overlay, pos, put, Name};
use crate::documents::{compact_json, json_compact};
use crate::text::{dec, dec_i64, dec_u64, same};

verus! {

/// What a value is. A float stands as its canonical decimal text (`1.5`, `1e+16`).
#[verifier::ext_equal]
pub enum ValueView {
    Null,
    Bool(bool),
    Int(int),
    Float(Seq<char>),
    Text(Seq<char>),
    List(Seq<ValueView>),
    Dict(Seq<(Name, ValueView)>),
}

/// What a variable map holds, in insertion order.
pub type VarsView = Seq<(Name, ValueView)>;

/// A number: an integer of at most 64 bits, or a finite float as its canonical decimal text.
#[derive(Debug)]
pub enum Number {
    PosInt(u64),
    NegInt(i64),
    Float(String),
}

/// A JSON-shaped value.
#[derive(Debug)]
pub enum Value {
    Null,
    Bool(bool),
    Number(Number),
    Text(String),
    List(Vec<Value>),
    Dict(VarMap),
}

/// An insertion-ordered map from names to values; no name stands twice.
#[derive(Debug)]
pub struct VarMap {
    entries: Vec<(String, Value)>,
}

impl View for Value {
    type V = ValueView;

    open spec fn view(&self) -> ValueView
        decreases self,
    {
        match self {
            Value::Null => ValueView::Null,
            Value::Bool(b) => ValueView::Bool(*b),
            Value::Number(Number::PosInt(n)) => ValueView::Int(*n as int),
            Value::Number(Number::NegInt(n)) => ValueView::Int(*n as int),
            Value::Number(Number::Float(t)) => ValueView::Float(t@),
            Value::Text(s) => ValueView::Text(s@),
            Value::List(a) => ValueView::List(
                Seq::new(
                    a@.len(),
                    |i: int|
                        if 0 <= i < a@.len() {
                            a@[i]@
                        } else {
                            ValueView::Null
                        },
                ),
            ),
            Value::Dict(o) => ValueView::Dict(o@),
        }
    }
}

impl View for VarMap {
    type V = VarsView;

    closed spec fn view(&self) -> VarsView
        decreases self,
    {
        Seq::new(
            self.entries@.len(),
            |i: int|
                if 0 <= i < self.entries@.len() {
                    (self.entries@[i].0@, self.entries@[i].1@)
                } else {
                    (Seq::empty(), ValueView::Null)
                },
        )
    }
}

/// The views of a sequence of values.
pub open spec fn values(s: Seq<Value>) -> Seq<ValueView> {
    Seq::new(s.len(), |i: int| s[i]@)
}

/// What a list of named values is.
pub open spec fn var_list(v: Seq<(String, Value)>) -> VarsView {
    Seq::new(v.len(), |i: int| (v[i].0@, v[i].1@))
}

/// What a lookup found.
pub open spec fn found(r: Option<&Value>) -> Option<ValueView> {
    match r {
        Some(v) => Some(v@),
        None => None,
    }
}

/// The `i64` that a value is, where it is one.
pub open spec fn as_i64(v: ValueView) -> Option<i64> {
    match v {
        ValueView::Int(i) if i64::MIN <= i <= i64::MAX => Some(i as i64),
        _ => None,
    }
}

/// A list's view holds its items' views.
pub proof fn lemma_list_view(a: Vec<Value>)
    ensures
        Value::List(a)@ == ValueView::List(values(a@)),
{
    assert(Value::List(a)@->List_0 =~= values(a@));
}

impl VarMap {
    /// No name stands twice in a map.
    #[verifier::type_invariant]
    pub open spec fn inv(self) -> bool {
        distinct(self@)
    }

    /// An empty map.
    pub fn new() -> (r: VarMap)
        ensures
            r@ == VarsView::empty(),
    {
        let entries: Vec<(String, Value)> = Vec::new();
        assert(VarMap { entries }@ =~= VarsView::empty());
        VarMap { entries }
    }

    /// A map of some entries: of two under one name the later wins.
    pub fn of(entries: Vec<(String, Value)>) -> (r: VarMap)
        ensures
            r@ == overlay(VarsView::empty(), var_list(entries@)),
    {
        let mut rest = entries;
        let mut out = VarMap::new();
        let ghost all = var_list(entries@);
        assert(all.take(0) =~= VarsView::empty());
        while rest.len() > 0
            invariant
                rest.len() <= all.len(),
                var_list(rest@) == all.skip(all.len() - rest.len()),
                out@ == overlay(VarsView::empty(), all.take(all.len() - rest.len())),
            decreases rest.len(),
        {
            let ghost n = all.len() - rest.len();
            let ghost before = rest@;
            let (k, v) = rest.remove(0);
            proof {
                assert(var_list(before)[0] == all[n]);
                assert(all.take(n + 1).drop_last() =~= all.take(n));
                assert(var_list(rest@) =~= all.skip(n + 1)) by {
                    assert forall|j: int| 0 <= j < rest@.len() implies var_list(rest@)[j]
                        == #[trigger] all.skip(n + 1)[j] by {
                        assert(var_list(before)[j + 1] == all.skip(n)[j + 1]);
                    }
                }
            }
            out.insert(k, v);
        }
        assert(all.take(all.len() as int) =~= all);
        out
    }

    /// The number of entries.
    pub fn len(&self) -> (r: usize)
        ensures
            r == self@.len(),
    {
        self.entries.len()
    }

    /// Whether there are no entries.
    pub fn is_empty(&self) -> (r: bool)
        ensures
            r == (self@.len() == 0),
    {
        self.entries.len() == 0
    }

    /// The name of the entry at a position.
    pub fn name_at(&self, i: usize) -> (r: &String)
        requires
            i < self@.len(),
        ensures
            r@ == self@[i as int].0,
    {
        &self.entries[i].0
    }

    /// The value of the entry at a position.
    pub fn value_at(&self, i: usize) -> (r: &Value)
        requires
            i < self@.len(),
        ensures
            r@ == self@[i as int].1,
            decreases_to!(self => r),
    {
        assert(decreases_to!(self => self.entries));
        assert(decreases_to!(self.entries => self.entries@[i as int]));
        assert(decreases_to!(self.entries@[i as int] => self.entries@[i as int].1));
        &self.entries[i].1
    }

    /// The position of a name; the number of entries where it is not there.
    fn find(&self, k: &str) -> (r: usize)
        ensures
            r == pos(self@, k@),
            r <= self@.len(),
    {
        let mut i: usize = 0;
        while i < self.entries.len()
            invariant
                i <= self@.len(),
                self@.len() == self.entries@.len(),
                forall|j: int| 0 <= j < i ==> (#[trigger] self@[j]).0 != k@,
            decreases self.entries.len() - i,
        {
            if same(self.entries[i].0.as_str(), k) {
                proof {
                    assert(self@[i as int].0 == k@);
                    lemma_pos_unique(self@, k@, i as int);
                }
                return i;
            }
            i += 1;
        }
        proof {
            lemma_pos_unique(self@, k@, i as int);
        }
        i
    }

    /// The value under a name.
    pub fn get(&self, k: &str) -> (r: Option<&Value>)
        ensures
            found(r) == get(self@, k@),
            r matches Some(v) ==> decreases_to!(self => v),
    {
        let i = self.find(k);
        if i < self.entries.len() {
            Some(self.value_at(i))
        } else {
            None
        }
    }

    /// Whether a name is there.
    pub fn contains_key(&self, k: &str) -> (r: bool)
        ensures
            r == holds(self@, k@),
    {
        self.find(k) < self.entries.len()
    }

    /// Puts a value under a name: in the place of the one that was there, else at the end.
    pub fn insert(&mut self, k: String, v: Value)
        ensures
            final(self)@ == put(old(self)@, k@, v@),
    {
        let i = self.find(k.as_str());
        proof {
            use_type_invariant(&*self);
            lemma_pos(self@, k@);
        }
        let ghost before = *self;
        let ghost name = k@;
        let mut entries: Vec<(String, Value)> = Vec::new();
        assert(VarMap { entries }@ =~= VarsView::empty());
        std::mem::swap(&mut entries, &mut self.entries);
        if i < entries.len() {
            entries.set(i, (k, v));
        } else {
            entries.push((k, v));
        }
        proof {
            assert(VarMap { entries }@ =~= put(before@, name, v@));
            lemma_put_distinct(before@, name, v@);
        }
        self.entries = entries;
    }

    /// Takes the entry under a name out; the last entry moves into the gap.
    pub fn remove(&mut self, k: &str)
        ensures
            final(self)@ == cut(old(self)@, k@),
    {
        let i = self.find(k);
        proof {
            use_type_invariant(&*self);
            lemma_pos(self@, k@);
        }
        let ghost before = *self;
        let mut entries: Vec<(String, Value)> = Vec::new();
        assert(VarMap { entries }@ =~= VarsView::empty());
        std::mem::swap(&mut entries, &mut self.entries);
        if i < entries.len() {
            let _ = entries.swap_remove(i);
        }
        proof {
            assert(VarMap { entries }@ =~= cut(before@, k@));
            lemma_cut_get(before@, k@, k@);
        }
        self.entries = entries;
    }

    /// Puts every entry of another map into this one, in order.
    pub fn extend(&mut self, other: &VarMap)
        ensures
            final(self)@ == overlay(old(self)@, other@),
    {
        let ghost before = self@;
        let mut i: usize = 0;
        while i < other.len()
            invariant
                i <= other@.len(),
                self@ == overlay(before, other@.take(i as int)),
            decreases other@.len() - i,
        {
            proof {
                let t = other@.take(i + 1);
                assert(t.drop_last() =~= other@.take(i as int));
                assert(t.last() == other@[i as int]);
            }
            self.insert(other.name_at(i).clone(), other.value_at(i).clone());
            i += 1;
        }
        assert(other@.take(i as int) =~= other@);
    }
}

impl Value {
    /// The `i64` that the value is, where it is one.
    pub fn to_i64(&self) -> (r: Option<i64>)
        ensures
            r == as_i64(self@),
    {
        match self {
            Value::Number(Number::PosInt(n)) => if *n <= 0x7fff_ffff_ffff_ffff {
                Some(*n as i64)
            } else {
                None
            },
            Value::Number(Number::NegInt(n)) => Some(*n),
            _ => None,
        }
    }
}

/// The value of an integer.
pub fn int_value(i: i64) -> (r: Value)
    ensures
        r@ == ValueView::Int(i as int),
{
    if i < 0 {
        Value::Number(Number::NegInt(i))
    } else {
        Value::Number(Number::PosInt(i as u64))
    }
}

impl Clone for VarMap {
    fn clone(&self) -> (r: VarMap)
        ensures
            r@ == self@,
        decreases self,
    {
        let mut out: Vec<(String, Value)> = Vec::new();
        let mut i: usize = 0;
        while i < self.entries.len()
            invariant
                i <= self.entries@.len(),
                out@.len() == i,
                forall|j: int|
                    0 <= j < i ==> (#[trigger] out@[j]).0@ == self@[j].0 && out@[j].1@
                        == self@[j].1,
            decreases self.entries.len() - i,
        {
            assert(decreases_to!(self => self.entries));
            assert(decreases_to!(self.entries => self.entries@[i as int]));
            assert(decreases_to!(self.entries@[i as int] => self.entries@[i as int].1));
            out.push((self.entries[i].0.clone(), self.entries[i].1.clone()));
            i += 1;
        }
        proof {
            use_type_invariant(self);
            assert(VarMap { entries: out }@ =~= self@);
        }
        let r = VarMap { entries: out };
        r
    }
}

impl Clone for Number {
    fn clone(&self) -> (r: Number)
        ensures
            Value::Number(r)@ == Value::Number(*self)@,
    {
        match self {
            Number::PosInt(n) => Number::PosInt(*n),
            Number::NegInt(n) => Number::NegInt(*n),
            Number::Float(t) => Number::Float(t.clone()),
        }
    }
}

impl Clone for Value {
    fn clone(&self) -> (r: Value)
        ensures
            r@ == self@,
        decreases self,
    {
        match self {
            Value::Null => Value::Null,
            Value::Bool(b) => Value::Bool(*b),
            Value::Number(n) => Value::Number(n.clone()),
            Value::Text(s) => Value::Text(s.clone()),
            Value::List(a) => {
                let mut out: Vec<Value> = Vec::new();
                let mut i: usize = 0;
                while i < a.len()
                    invariant
                        i <= a@.len(),
                        out@.len() == i,
                        forall|j: int| 0 <= j < i ==> (#[trigger] out@[j])@ == a@[j]@,
                        decreases_to!(self => a),
                    decreases a.len() - i,
                {
                    assert(decreases_to!(a => a@[i as int]));
                    out.push(a[i].clone());
                    i += 1;
                }
                proof {
                    lemma_list_view(out);
                    lemma_list_view(*a);
                    assert(values(out@) =~= values(a@));
                }
                Value::List(out)
            },
            Value::Dict(o) => Value::Dict(o.clone()),
        }
    }
}

// ---------------------------------------------------------------------------------------
// JSON text
// ---------------------------------------------------------------------------------------

/// A value as JSON without white space: what is no text, list or map is its word or number.
pub open spec fn json_text(v: ValueView) -> Seq<char> {
    match v {
        ValueView::Null => "null"@,
        ValueView::Bool(b) => if b {
            "true"@
        } else {
            "false"@
        },
        ValueView::Int(i) => dec(i),
        ValueView::Float(t) => t,
        _ => json_compact(v),
    }
}

impl Value {
    /// The value as JSON without white space.
    pub fn to_json_text(&self) -> (r: String)
        ensures
            r@ == json_text(self@),
    {
        match self {
            Value::Null => "null".to_owned(),
            Value::Bool(b) => if *b {
                "true".to_owned()
            } else {
                "false".to_owned()
            },
            Value::Number(Number::PosInt(n)) => dec_u64(*n),
            Value::Number(Number::NegInt(n)) => dec_i64(*n),
            Value::Number(Number::Float(t)) => t.clone(),
            _ => compact_json(self),
        }
    }
}

// ---------------------------------------------------------------------------------------
// Floats
// ---------------------------------------------------------------------------------------

/// What a text reads as, taken for a float: `None` where it is not one, `Some(None)` where
/// the float is not finite, and else the decimal text that the float is written as.
pub uninterp spec fn float_text(s: Seq<char>) -> Option<Option<Seq<char>>>;

/// What a text was read as, taken for a float.
pub open spec fn float_view(f: Option<Option<String>>) -> Option<Option<Seq<char>>> {
    match f {
        None => None,
        Some(None) => Some(None),
        Some(Some(t)) => Some(Some(t@)),
    }
}

/// `serde_json::Number::from_f64`, on the float that std's `str::parse` reads: whether the
/// text is a float, whether that is finite, and what it is written as depend on the text
/// alone.
#[verifier::external_body]
pub(crate) fn read_float(s: &str) -> (r: Option<Option<String>>)
    ensures
        float_view(r) == float_text(s@),
{
    s.parse().ok().map(|f| serde_json::Number::from_f64(f).map(|n| n.to_string()))
}

// ---------------------------------------------------------------------------------------
// Equality
// ---------------------------------------------------------------------------------------

/// The text of a float that is zero.
pub open spec fn is_zero_text(t: Seq<char>) -> bool {
    t == "0.0"@ || t == "-0.0"@
}

/// Equality of values: an integer never equals a float, the two zeros are equal, and maps
/// are equal whatever the order of their entries.
pub open spec fn same_value(a: ValueView, b: ValueView) -> bool
    decreases a,
{
    match (a, b) {
        (ValueView::Float(x), ValueView::Float(y)) => x == y || (is_zero_text(x) && is_zero_text(
            y,
        )),
        (ValueView::List(x), ValueView::List(y)) => x.len() == y.len() && forall|i: int|
            0 <= i < x.len() ==> same_value(#[trigger] x[i], y[i]),
        (ValueView::Dict(x), ValueView::Dict(y)) => x.len() == y.len() && forall|i: int|
            0 <= i < x.len() ==> (holds(y, (#[trigger] x[i]).0) && same_value(
                x[i].1,
                y[pos(y, x[i].0)].1,
            )),
        (ValueView::Null, ValueView::Null) => true,
        (ValueView::Bool(x), ValueView::Bool(y)) => x == y,
        (ValueView::Int(x), ValueView::Int(y)) => x == y,
        (ValueView::Text(x), ValueView::Text(y)) => x == y,
        _ => false,
    }
}

/// Tests a float's text for zero.
pub fn zero_text(t: &str) -> (r: bool)
    ensures
        r == is_zero_text(t@),
{
    same(t, "0.0") || same(t, "-0.0")
}

impl Value {
    /// Equality of values.
    pub fn same_as(&self, other: &Value) -> (r: bool)
        ensures
            r == same_value(self@, other@),
        decreases self,
    {
        match (self, other) {
            (Value::Null, Value::Null) => true,
            (Value::Bool(x), Value::Bool(y)) => *x == *y,
            (Value::Number(x), Value::Number(y)) => match (x, y) {
                (Number::Float(s), Number::Float(t)) => same(s.as_str(), t.as_str()) || (zero_text(
                    s.as_str(),
                ) && zero_text(t.as_str())),
                (Number::PosInt(i), Number::PosInt(j)) => *i == *j,
                (Number::NegInt(i), Number::NegInt(j)) => *i == *j,
                (Number::PosInt(i), Number::NegInt(j)) => *j >= 0 && *i == *j as u64,
                (Number::NegInt(i), Number::PosInt(j)) => *i >= 0 && *i as u64 == *j,
                _ => false,
            },
            (Value::Text(x), Value::Text(y)) => same(x.as_str(), y.as_str()),
            (Value::List(x), Value::List(y)) => {
                let ghost (vx, vy) = (values(x@), values(y@));
                proof {
                    lemma_list_view(*x);
                    lemma_list_view(*y);
                }
                if x.len() != y.len() {
                    return false;
                }
                let mut i: usize = 0;
                while i < x.len()
                    invariant
                        i <= x@.len() == y@.len(),
                        vx == values(x@),
                        vy == values(y@),
                        self@ == ValueView::List(vx),
                        other@ == ValueView::List(vy),
                        forall|j: int| 0 <= j < i ==> same_value(#[trigger] vx[j], vy[j]),
                        decreases_to!(self => x),
                    decreases x.len() - i,
                {
                    assert(decreases_to!(x => x@[i as int]));
                    if !x[i].same_as(&y[i]) {
                        assert(!same_value(vx[i as int], vy[i as int]));
                        return false;
                    }
                    i += 1;
                }
                true
            },
            (Value::Dict(x), Value::Dict(y)) => {
                if x.len() != y.len() {
                    return false;
                }
                let mut i: usize = 0;
                while i < x.len()
                    invariant
                        i <= x@.len() == y@.len(),
                        self@ == ValueView::Dict(x@),
                        other@ == ValueView::Dict(y@),
                        forall|j: int|
                            0 <= j < i ==> (holds(y@, (#[trigger] x@[j]).0) && same_value(
                                x@[j].1,
                                y@[pos(y@, x@[j].0)].1,
                            )),
                        decreases_to!(self => x),
                    decreases x@.len() - i,
                {
                    match y.get(x.name_at(i).as_str()) {
                        Some(v) => {
                            if !x.value_at(i).same_as(v) {
                                assert(!same_value(x@[i as int].1, y@[pos(y@, x@[i as int].0)].1));
                                return false;
                            }
                        },
                        None => {
                            assert(!holds(y@, x@[i as int].0));
                            return false;
                        },
                    }
                    i += 1;
                }
                true
            },
            _ => false,
        }
    }
}

} // verus!
