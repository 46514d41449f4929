//! Values of fields, and how they compare.

use crate::ieee::{double_eq, double_lt, double_of_int, equal, from_int, less};
use crate::text::{dec_int, push_dec_int, same_text};
use vstd::prelude::*;

verus! {

/// The value of a field. A floating-point value is a bit pattern and its text.
#[derive(Debug, Clone, PartialEq)]
pub enum Value {
    Int(i64),
    Float { bits: u64, text: String },
    Str(String),
}

/// What a value stands for.
pub enum ValueView {
    Int(int),
    Float { bits: u64, text: Seq<char> },
    Str(Seq<char>),
}

impl View for Value {
    type V = ValueView;

    open spec fn view(&self) -> ValueView {
        match *self {
            Value::Int(v) => ValueView::Int(v as int),
            Value::Float { bits, text } => ValueView::Float { bits, text: text@ },
            Value::Str(s) => ValueView::Str(s@),
        }
    }
}

impl ValueView {
    /// The value as a double, if it is a number.
    pub open spec fn number(self) -> Option<u64> {
        match self {
            ValueView::Int(v) => Some(double_of_int(v) as u64),
            ValueView::Float { bits, .. } => Some(bits),
            ValueView::Str(_) => None,
        }
    }

    /// The value as text.
    pub open spec fn display(self) -> Seq<char> {
        match self {
            ValueView::Int(v) => dec_int(v),
            ValueView::Float { text, .. } => text,
            ValueView::Str(s) => s,
        }
    }

    /// Values that are not both numbers are the same when both are the same text.
    pub open spec fn same_text(self, other: Self) -> bool {
        match (self, other) {
            (ValueView::Str(a), ValueView::Str(b)) => a == b,
            _ => false,
        }
    }
}

/// How two values are compared.
#[derive(Debug, Clone, Copy, PartialEq, Eq, Structural)]
pub enum Cmp {
    Eq,
    Ne,
    Lt,
    Le,
    Gt,
    Ge,
}

impl Cmp {
    /// The comparison of two doubles; with one that is no number, only `Ne` holds.
    pub open spec fn of_numbers(self, a: u64, b: u64) -> bool {
        match self {
            Cmp::Eq => double_eq(a, b),
            Cmp::Ne => !double_eq(a, b),
            Cmp::Lt => double_lt(a, b),
            Cmp::Le => double_lt(a, b) || double_eq(a, b),
            Cmp::Gt => double_lt(b, a),
            Cmp::Ge => double_lt(b, a) || double_eq(a, b),
        }
    }

    /// The comparison of two values: as numbers where both are, and otherwise only
    /// whether they are the same; what is no number has no order.
    pub open spec fn of(self, a: ValueView, b: ValueView) -> bool {
        match (a.number(), b.number()) {
            (Some(x), Some(y)) => self.of_numbers(x, y),
            _ => match self {
                Cmp::Eq => a.same_text(b),
                Cmp::Ne => !a.same_text(b),
                _ => false,
            },
        }
    }

    pub open spec fn sign(self) -> Seq<char> {
        match self {
            Cmp::Eq => "=="@,
            Cmp::Ne => "!="@,
            Cmp::Lt => "<"@,
            Cmp::Le => "<="@,
            Cmp::Gt => ">"@,
            Cmp::Ge => ">="@,
        }
    }

    fn test_num(self, a: u64, b: u64) -> (r: bool)
        ensures
            r == self.of_numbers(a, b),
    {
        match self {
            Cmp::Eq => equal(a, b),
            Cmp::Ne => !equal(a, b),
            Cmp::Lt => less(a, b),
            Cmp::Le => less(a, b) || equal(a, b),
            Cmp::Gt => less(b, a),
            Cmp::Ge => less(b, a) || equal(a, b),
        }
    }

    /// Compares two values.
    pub fn test(self, a: &Value, b: &Value) -> (r: bool)
        ensures
            r == self.of(a@, b@),
    {
        match (a.as_f64(), b.as_f64()) {
            (Some(x), Some(y)) => self.test_num(x, y),
            _ => match self {
                Cmp::Eq => a.same_str(b),
                Cmp::Ne => !a.same_str(b),
                _ => false,
            },
        }
    }

    pub fn symbol(self) -> (r: &'static str)
        ensures
            r@ == self.sign(),
    {
        match self {
            Cmp::Eq => "==",
            Cmp::Ne => "!=",
            Cmp::Lt => "<",
            Cmp::Le => "<=",
            Cmp::Gt => ">",
            Cmp::Ge => ">=",
        }
    }
}

impl Value {
    /// The value as a double, if it is a number.
    pub fn as_f64(&self) -> (r: Option<u64>)
        ensures
            r == self@.number(),
    {
        match self {
            Value::Int(v) => Some(from_int(*v)),
            Value::Float { bits, .. } => Some(*bits),
            Value::Str(_) => None,
        }
    }

    fn same_str(&self, other: &Value) -> (r: bool)
        ensures
            r == self@.same_text(other@),
    {
        match (self, other) {
            (Value::Str(a), Value::Str(b)) => same_text(a.as_str(), b.as_str()),
            _ => false,
        }
    }

    /// The value as text.
    pub fn display(&self) -> (r: String)
        ensures
            r@ == self@.display(),
    {
        match self {
            Value::Int(v) => {
                let mut s: String = String::from_str("");
                push_dec_int(&mut s, *v);
                proof {
                    reveal_strlit("");
                    assert(s@ =~= dec_int(*v as int));
                }
                s
            },
            Value::Float { text, .. } => String::from_str(text.as_str()),
            Value::Str(s) => String::from_str(s.as_str()),
        }
    }
}

} // verus!
