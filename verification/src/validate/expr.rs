//! Conditions on the fields of a keyword.

use crate::validate::model::{field_of, Occurrence};
use crate::validate::value::{Cmp, Value};
use vstd::prelude::*;

verus! {

/// A condition on one field.
#[derive(Debug, Clone)]
pub struct FieldPredicate {
    pub field: String,
    pub cmp: Cmp,
    pub value: Value,
}

impl FieldPredicate {
    /// The field is there, and its value compares so.
    pub open spec fn met(self, kw: Occurrence) -> bool {
        match field_of(kw.fields@, self.field@) {
            Some(v) => self.cmp.of(v, self.value@),
            None => false,
        }
    }

    pub open spec fn in_words(self) -> Seq<char> {
        self.field@ + " "@ + self.cmp.sign() + " "@ + self.value@.display()
    }

    fn is_met(&self, kw: &Occurrence) -> (r: bool)
        ensures
            r == self.met(*kw),
    {
        match kw.field(self.field.as_str()) {
            Some(v) => self.cmp.test(v, &self.value),
            None => false,
        }
    }

    fn describe(&self) -> (r: String)
        ensures
            r@ == self.in_words(),
    {
        let mut s: String = String::from_str(self.field.as_str());
        s.append(" ");
        s.append(self.cmp.symbol());
        s.append(" ");
        let v: String = self.value.display();
        s.append(v.as_str());
        s
    }
}

/// A condition: on one field, or made of conditions.
#[derive(Debug)]
pub enum Expr {
    Field(FieldPredicate),
    All(Vec<Expr>),
    Any(Vec<Expr>),
    Not(Box<Expr>),
}

/// The condition holds of an occurrence. A field that is not there meets none.
pub open spec fn holds(e: Expr, kw: Occurrence) -> bool
    decreases e, 0nat,
{
    match e {
        Expr::Field(p) => p.met(kw),
        Expr::All(v) => all_hold(v, kw, v@.len()),
        Expr::Any(v) => any_holds(v, kw, v@.len()),
        Expr::Not(x) => !holds(*x, kw),
    }
}

/// The first `n` conditions hold.
pub open spec fn all_hold(v: Vec<Expr>, kw: Occurrence, n: nat) -> bool
    decreases v, n,
{
    if n == 0 || n > v@.len() {
        true
    } else {
        all_hold(v, kw, (n - 1) as nat) && holds(v@[n - 1], kw)
    }
}

/// One of the first `n` conditions holds.
pub open spec fn any_holds(v: Vec<Expr>, kw: Occurrence, n: nat) -> bool
    decreases v, n,
{
    if n == 0 || n > v@.len() {
        false
    } else {
        any_holds(v, kw, (n - 1) as nat) || holds(v@[n - 1], kw)
    }
}

/// The condition in words.
pub open spec fn in_words(e: Expr) -> Seq<char>
    decreases e, 0nat,
{
    match e {
        Expr::Field(p) => p.in_words(),
        Expr::All(v) => "all("@ + list_in_words(v, v@.len()) + ")"@,
        Expr::Any(v) => "any("@ + list_in_words(v, v@.len()) + ")"@,
        Expr::Not(x) => "not("@ + in_words(*x) + ")"@,
    }
}

/// The first `n` conditions in words, with commas between them.
pub open spec fn list_in_words(v: Vec<Expr>, n: nat) -> Seq<char>
    decreases v, n,
{
    if n == 0 || n > v@.len() {
        Seq::empty()
    } else if n == 1 {
        in_words(v@[0])
    } else {
        list_in_words(v, (n - 1) as nat) + ", "@ + in_words(v@[n - 1])
    }
}

impl Expr {
    /// `field <cmp> value`.
    pub fn field(field: &str, cmp: Cmp, value: Value) -> (r: Expr)
        ensures
            r matches Expr::Field(p) && p.field@ == field@ && p.cmp == cmp && p.value == value,
    {
        Expr::Field(FieldPredicate { field: String::from_str(field), cmp, value })
    }

    /// All of the conditions.
    pub fn all(exprs: Vec<Expr>) -> (r: Expr)
        ensures
            r == Expr::All(exprs),
    {
        Expr::All(exprs)
    }

    /// One of the conditions.
    pub fn any(exprs: Vec<Expr>) -> (r: Expr)
        ensures
            r == Expr::Any(exprs),
    {
        Expr::Any(exprs)
    }

    /// The condition does not hold.
    pub fn not(expr: Expr) -> (r: Expr)
        ensures
            r matches Expr::Not(x) && *x == expr,
    {
        Expr::Not(Box::new(expr))
    }

    /// Tells whether the condition holds of an occurrence.
    pub fn eval(&self, kw: &Occurrence) -> (r: bool)
        ensures
            r == holds(*self, *kw),
        decreases *self, 1nat,
    {
        match self {
            Expr::Field(p) => p.is_met(kw),
            Expr::All(v) => eval_all(v, kw),
            Expr::Any(v) => eval_any(v, kw),
            Expr::Not(x) => !x.eval(kw),
        }
    }

    /// The condition in words.
    pub fn describe(&self) -> (r: String)
        ensures
            r@ == in_words(*self),
        decreases *self, 1nat,
    {
        match self {
            Expr::Field(p) => p.describe(),
            Expr::All(v) => {
                let mut s: String = String::from_str("all(");
                describe_list(v, &mut s);
                s.append(")");
                s
            },
            Expr::Any(v) => {
                let mut s: String = String::from_str("any(");
                describe_list(v, &mut s);
                s.append(")");
                s
            },
            Expr::Not(x) => {
                let mut s: String = String::from_str("not(");
                let t: String = x.describe();
                s.append(t.as_str());
                s.append(")");
                s
            },
        }
    }
}

fn eval_all(v: &Vec<Expr>, kw: &Occurrence) -> (r: bool)
    ensures
        r == all_hold(*v, *kw, v@.len()),
    decreases *v, 0nat,
{
    for i in 0..v.len()
        invariant
            all_hold(*v, *kw, i as nat),
    {
        assert(decreases_to!(*v => v@[i as int]));
        if !v[i].eval(kw) {
            proof {
                lemma_all_stop(*v, *kw, (i + 1) as nat, v@.len());
            }
            return false;
        }
    }
    true
}

fn eval_any(v: &Vec<Expr>, kw: &Occurrence) -> (r: bool)
    ensures
        r == any_holds(*v, *kw, v@.len()),
    decreases *v, 0nat,
{
    for i in 0..v.len()
        invariant
            !any_holds(*v, *kw, i as nat),
    {
        assert(decreases_to!(*v => v@[i as int]));
        if v[i].eval(kw) {
            proof {
                lemma_any_stop(*v, *kw, (i + 1) as nat, v@.len());
            }
            return true;
        }
    }
    false
}

fn describe_list(v: &Vec<Expr>, s: &mut String)
    ensures
        final(s)@ == old(s)@ + list_in_words(*v, v@.len()),
    decreases *v, 0nat,
{
    let ghost start = s@;
    assert(s@ =~= start + list_in_words(*v, 0));
    for i in 0..v.len()
        invariant
            s@ == start + list_in_words(*v, i as nat),
    {
        if i > 0 {
            s.append(", ");
        }
        assert(decreases_to!(*v => v@[i as int]));
        let t: String = v[i].describe();
        s.append(t.as_str());
        assert(s@ =~= start + list_in_words(*v, (i + 1) as nat));
    }
}

proof fn lemma_all_stop(v: Vec<Expr>, kw: Occurrence, i: nat, n: nat)
    requires
        i <= n <= v@.len(),
        !all_hold(v, kw, i),
    ensures
        !all_hold(v, kw, n),
    decreases n,
{
    if i < n {
        lemma_all_stop(v, kw, i, (n - 1) as nat);
    }
}

proof fn lemma_any_stop(v: Vec<Expr>, kw: Occurrence, i: nat, n: nat)
    requires
        i <= n <= v@.len(),
        any_holds(v, kw, i),
    ensures
        any_holds(v, kw, n),
    decreases n,
{
    if i < n {
        lemma_any_stop(v, kw, i, (n - 1) as nat);
    }
}

/// Two conditions hold of the same occurrences and read the same.
pub open spec fn alike(a: Expr, b: Expr) -> bool {
    &&& forall|kw: Occurrence| #[trigger] holds(a, kw) == holds(b, kw)
    &&& in_words(a) == in_words(b)
}

proof fn lemma_lists_alike(a: Vec<Expr>, b: Vec<Expr>, kw: Occurrence, n: nat)
    requires
        a@.len() == b@.len(),
        n <= a@.len(),
        forall|i: int| 0 <= i < a@.len() ==> alike(#[trigger] a@[i], b@[i]),
    ensures
        all_hold(a, kw, n) == all_hold(b, kw, n),
        any_holds(a, kw, n) == any_holds(b, kw, n),
        list_in_words(a, n) == list_in_words(b, n),
    decreases n,
{
    if n > 0 {
        lemma_lists_alike(a, b, kw, (n - 1) as nat);
        assert(alike(a@[n - 1], b@[n - 1]));
        assert(holds(a@[n - 1], kw) == holds(b@[n - 1], kw));
        assert(alike(a@[0], b@[0]));
    }
}

fn copy_value(v: &Value) -> (r: Value)
    ensures
        r@ == v@,
{
    match v {
        Value::Int(n) => Value::Int(*n),
        Value::Float { bits, text } => Value::Float {
            bits: *bits,
            text: String::from_str(text.as_str()),
        },
        Value::Str(s) => Value::Str(String::from_str(s.as_str())),
    }
}

fn copy_list(v: &Vec<Expr>) -> (r: Vec<Expr>)
    ensures
        r@.len() == v@.len(),
        forall|i: int| 0 <= i < v@.len() ==> alike(#[trigger] r@[i], v@[i]),
    decreases *v, 0nat,
{
    let mut out: Vec<Expr> = Vec::new();
    for i in 0..v.len()
        invariant
            out@.len() == i,
            forall|k: int| 0 <= k < i ==> alike(#[trigger] out@[k], v@[k]),
    {
        assert(decreases_to!(*v => v@[i as int]));
        out.push(copy_expr(&v[i]));
    }
    out
}

fn copy_expr(e: &Expr) -> (r: Expr)
    ensures
        alike(r, *e),
    decreases *e, 1nat,
{
    match e {
        Expr::Field(p) => Expr::Field(
            FieldPredicate {
                field: String::from_str(p.field.as_str()),
                cmp: p.cmp,
                value: copy_value(&p.value),
            },
        ),
        Expr::All(v) => {
            let w: Vec<Expr> = copy_list(v);
            proof {
                assert forall|kw: Occurrence| #[trigger]
                    holds(Expr::All(w), kw) == holds(*e, kw) by {
                    lemma_lists_alike(w, *v, kw, w@.len());
                }
                let kw: Occurrence = arbitrary();
                lemma_lists_alike(w, *v, kw, w@.len());
            }
            Expr::All(w)
        },
        Expr::Any(v) => {
            let w: Vec<Expr> = copy_list(v);
            proof {
                assert forall|kw: Occurrence| #[trigger]
                    holds(Expr::Any(w), kw) == holds(*e, kw) by {
                    lemma_lists_alike(w, *v, kw, w@.len());
                }
                let kw: Occurrence = arbitrary();
                lemma_lists_alike(w, *v, kw, w@.len());
            }
            Expr::Any(w)
        },
        Expr::Not(x) => {
            let y: Expr = copy_expr(&**x);
            proof {
                assert forall|kw: Occurrence| #[trigger]
                    holds(Expr::Not(Box::new(y)), kw) == holds(*e, kw) by {
                    assert(holds(y, kw) == holds(**x, kw));
                }
            }
            Expr::Not(Box::new(y))
        },
    }
}

impl Clone for Expr {
    fn clone(&self) -> (r: Self)
        ensures
            alike(r, *self),
    {
        copy_expr(self)
    }
}

/// A condition on one field.
pub fn pred(field: &str, cmp: Cmp, value: Value) -> (r: Expr)
    ensures
        r matches Expr::Field(p) && p.field@ == field@ && p.cmp == cmp && p.value == value,
{
    Expr::field(field, cmp, value)
}

/// Not all of the conditions hold exactly when one of their negations does.
pub proof fn law_not_all(v: Vec<Expr>, w: Vec<Expr>, kw: Occurrence, n: nat)
    requires
        n <= v@.len(),
        v@.len() == w@.len(),
        forall|i: int|
            0 <= i < v@.len() ==> ((#[trigger] w@[i]) matches Expr::Not(x) && *x == v@[i]),
    ensures
        all_hold(v, kw, n) == !any_holds(w, kw, n),
    decreases n,
{
    if n > 0 {
        law_not_all(v, w, kw, (n - 1) as nat);
        let x = w@[n - 1];
        assert(holds(x, kw) == !holds(v@[n - 1], kw));
    }
}

} // verus!
