//! Columns and tables.

use crate::deck::field::{int_or_zero, text_in_field, to_int, Field};
use crate::deck::schema::{FieldSpec, FieldType};
use crate::text::same_text;
use vstd::prelude::*;
use vstd::slice::slice_to_vec;

verus! {

/// A parsed column, `ncols` values to a row. A floating-point column holds the bytes
/// of its fields.
#[derive(Debug, Clone)]
pub enum Column {
    Int { data: Vec<i64>, ncols: usize },
    Float { data: Vec<Vec<u8>>, ncols: usize },
    Str { data: Vec<String>, ncols: usize },
}

impl Column {
    /// The number of values.
    pub open spec fn len(self) -> nat {
        match self {
            Column::Int { data, .. } => data@.len(),
            Column::Float { data, .. } => data@.len(),
            Column::Str { data, .. } => data@.len(),
        }
    }

    /// Values to a row.
    pub open spec fn ncols(self) -> usize {
        match self {
            Column::Int { ncols, .. } => ncols,
            Column::Float { ncols, .. } => ncols,
            Column::Str { ncols, .. } => ncols,
        }
    }

    /// The column is for fields of this type.
    pub open spec fn is_for(self, ty: FieldType) -> bool {
        match ty {
            FieldType::Int => self is Int,
            FieldType::Float => self is Float,
            FieldType::Str => self is Str,
        }
    }

    /// Value `i` is what the field `raw` holds.
    pub open spec fn holds(self, i: int, raw: Seq<u8>) -> bool {
        match self {
            Column::Int { data, .. } => data@[i] == int_or_zero(raw),
            Column::Float { data, .. } => data@[i]@ == raw,
            Column::Str { data, .. } => data@[i]@ == text_in_field(raw),
        }
    }

    /// Value `i` is the same in both.
    pub open spec fn same_at(self, i: int, other: Self, j: int) -> bool {
        match (self, other) {
            (Column::Int { data: a, .. }, Column::Int { data: b, .. }) => a@[i] == b@[j],
            (Column::Float { data: a, .. }, Column::Float { data: b, .. }) => a@[i] == b@[j],
            (Column::Str { data: a, .. }, Column::Str { data: b, .. }) => a@[i] == b@[j],
            _ => false,
        }
    }

    /// Rows of the column.
    pub fn rows(&self) -> (r: usize)
        ensures
            r == self.len() / (if self.ncols() == 0 {
                1
            } else {
                self.ncols() as nat
            }),
    {
        let (n, w): (usize, usize) = match self {
            Column::Int { data, ncols } => (data.len(), *ncols),
            Column::Float { data, ncols } => (data.len(), *ncols),
            Column::Str { data, ncols } => (data.len(), *ncols),
        };
        if w == 0 {
            n
        } else {
            n / w
        }
    }

    /// The integers of an integer column.
    pub fn as_int(&self) -> (r: Option<&[i64]>)
        ensures
            r is Some <==> self is Int,
            r matches Some(s) ==> (self matches Column::Int { data, .. } && s@ == data@),
    {
        match self {
            Column::Int { data, .. } => Some(data.as_slice()),
            _ => None,
        }
    }

    /// The fields of a floating-point column.
    pub fn as_float(&self) -> (r: Option<&[Vec<u8>]>)
        ensures
            r is Some <==> self is Float,
            r matches Some(s) ==> (self matches Column::Float { data, .. } && s@ == data@),
    {
        match self {
            Column::Float { data, .. } => Some(data.as_slice()),
            _ => None,
        }
    }

    /// The texts of a text column.
    pub fn as_str(&self) -> (r: Option<&[String]>)
        ensures
            r is Some <==> self is Str,
            r matches Some(s) ==> (self matches Column::Str { data, .. } && s@ == data@),
    {
        match self {
            Column::Str { data, .. } => Some(data.as_slice()),
            _ => None,
        }
    }

    /// Moves the integers out.
    pub fn into_int(self) -> (r: Option<Vec<i64>>)
        ensures
            r is Some <==> self is Int,
            r matches Some(s) ==> (self matches Column::Int { data, .. } && s == data),
    {
        match self {
            Column::Int { data, .. } => Some(data),
            _ => None,
        }
    }

    /// Moves the floating-point fields out.
    pub fn into_float(self) -> (r: Option<Vec<Vec<u8>>>)
        ensures
            r is Some <==> self is Float,
            r matches Some(s) ==> (self matches Column::Float { data, .. } && s == data),
    {
        match self {
            Column::Float { data, .. } => Some(data),
            _ => None,
        }
    }

    /// Moves the texts out.
    pub fn into_str(self) -> (r: Option<Vec<String>>)
        ensures
            r is Some <==> self is Str,
            r matches Some(s) ==> (self matches Column::Str { data, .. } && s == data),
    {
        match self {
            Column::Str { data, .. } => Some(data),
            _ => None,
        }
    }

    /// An empty column for a field.
    pub fn empty(f: &FieldSpec) -> (r: Self)
        ensures
            r.is_for(f.ty),
            r.ncols() == f.count,
            r.len() == 0,
    {
        match f.ty {
            FieldType::Int => Column::Int { data: Vec::new(), ncols: f.count },
            FieldType::Float => Column::Float { data: Vec::new(), ncols: f.count },
            FieldType::Str => Column::Str { data: Vec::new(), ncols: f.count },
        }
    }

    /// Appends what a field holds.
    pub fn push(&mut self, raw: &[u8])
        ensures
            final(self).ncols() == old(self).ncols(),
            forall|t: FieldType| old(self).is_for(t) == #[trigger] final(self).is_for(t),
            final(self).len() == old(self).len() + 1,
            forall|i: int| 0 <= i < old(self).len() ==> #[trigger] final(self).same_at(i, *old(self), i),
            final(self).holds(old(self).len() as int, raw@),
    {
        match self {
            Column::Int { data, .. } => {
                data.push(to_int(raw));
            },
            Column::Float { data, .. } => {
                data.push(slice_to_vec(raw));
            },
            Column::Str { data, .. } => {
                let f = Field { raw };
                data.push(f.as_str());
            },
        }
    }

    /// An empty number in every one of `rows` rows of a field.
    pub fn blank(f: &FieldSpec, rows: usize) -> (r: Self)
        requires
            f.ty != FieldType::Str,
        ensures
            r.is_for(f.ty),
            r.ncols() == f.count,
            r.len() == rows * f.count,
    {
        let mut ints: Vec<i64> = Vec::new();
        let mut floats: Vec<Vec<u8>> = Vec::new();
        assert(0 * f.count == 0);
        for r in 0..rows
            invariant
                f.ty == FieldType::Int ==> ints@.len() == r * f.count,
                f.ty == FieldType::Float ==> floats@.len() == r * f.count,
        {
            assert((r + 1) * f.count == r * f.count + f.count) by (nonlinear_arith);
            for j in 0..f.count
                invariant
                    f.ty == FieldType::Int ==> ints@.len() == r * f.count + j,
                    f.ty == FieldType::Float ==> floats@.len() == r * f.count + j,
            {
                if f.ty == FieldType::Int {
                    ints.push(0);
                } else {
                    floats.push(Vec::new());
                }
            }
        }
        if f.ty == FieldType::Int {
            Column::Int { data: ints, ncols: f.count }
        } else {
            Column::Float { data: floats, ncols: f.count }
        }
    }

    /// Writes what a field holds at place `i`.
    pub fn set(&mut self, i: usize, raw: &[u8])
        requires
            i < old(self).len(),
        ensures
            final(self).ncols() == old(self).ncols(),
            forall|t: FieldType| old(self).is_for(t) == #[trigger] final(self).is_for(t),
            final(self).len() == old(self).len(),
            forall|k: int|
                0 <= k < old(self).len() && k != i ==> #[trigger] final(self).same_at(
                    k,
                    *old(self),
                    k,
                ),
            final(self).holds(i as int, raw@),
    {
        match self {
            Column::Int { data, .. } => {
                data[i] = to_int(raw);
            },
            Column::Float { data, .. } => {
                data[i] = slice_to_vec(raw);
            },
            Column::Str { data, .. } => {
                let f = Field { raw };
                data[i] = f.as_str();
            },
        }
    }

    /// Appends another column of the same kind.
    pub fn extend(&mut self, other: Column)
        requires
            exists|t: FieldType| old(self).is_for(t) && other.is_for(t),
        ensures
            final(self).ncols() == old(self).ncols(),
            forall|t: FieldType| old(self).is_for(t) == #[trigger] final(self).is_for(t),
            final(self).len() == old(self).len() + other.len(),
            forall|i: int| 0 <= i < old(self).len() ==> #[trigger] final(self).same_at(i, *old(self), i),
            forall|i: int|
                0 <= i < other.len() ==> #[trigger] final(self).same_at(
                    old(self).len() + i,
                    other,
                    i,
                ),
    {
        match (self, other) {
            (Column::Int { data, .. }, Column::Int { data: d, .. }) => {
                let mut d: Vec<i64> = d;
                data.append(&mut d);
            },
            (Column::Float { data, .. }, Column::Float { data: d, .. }) => {
                let mut d: Vec<Vec<u8>> = d;
                data.append(&mut d);
            },
            (Column::Str { data, .. }, Column::Str { data: d, .. }) => {
                let mut d: Vec<String> = d;
                data.append(&mut d);
            },
            _ => {},
        }
    }
}

/// The columns of a keyword, in the order of its fields.
#[derive(Debug, Clone)]
pub struct Table {
    pub columns: Vec<(String, Column)>,
}

impl Default for Table {
    fn default() -> (r: Self)
        ensures
            r.columns@.len() == 0,
    {
        Table { columns: Vec::new() }
    }
}

/// The place of the first column with a name.
pub open spec fn first_named(s: Seq<(String, Column)>, name: Seq<char>) -> Option<int>
    decreases s.len(),
{
    if s.len() == 0 {
        None
    } else {
        match first_named(s.drop_last(), name) {
            Some(i) => Some(i),
            None => if s.last().0@ == name {
                Some(s.len() - 1)
            } else {
                None
            },
        }
    }
}

proof fn lemma_first_named(s: Seq<(String, Column)>, name: Seq<char>, n: int, i: int)
    requires
        0 <= i < n <= s.len(),
        s[i].0@ == name,
        forall|k: int| 0 <= k < i ==> (#[trigger] s[k]).0@ != name,
    ensures
        first_named(s.take(n), name) == Some(i),
    decreases n,
{
    assert(s.take(n).drop_last() =~= s.take(n - 1));
    assert(s.take(n).last() == s[n - 1]);
    if n - 1 > i {
        lemma_first_named(s, name, n - 1, i);
    } else {
        lemma_none_named(s, name, i);
    }
}

proof fn lemma_none_named(s: Seq<(String, Column)>, name: Seq<char>, n: int)
    requires
        0 <= n <= s.len(),
        forall|k: int| 0 <= k < n ==> (#[trigger] s[k]).0@ != name,
    ensures
        first_named(s.take(n), name) is None,
    decreases n,
{
    if n > 0 {
        assert(s.take(n).drop_last() =~= s.take(n - 1));
        assert(s.take(n).last() == s[n - 1]);
        lemma_none_named(s, name, n - 1);
    }
}

pub proof fn lemma_named_bounds(s: Seq<(String, Column)>, name: Seq<char>)
    ensures
        first_named(s, name) matches Some(i) ==> 0 <= i < s.len() && s[i].0@ == name,
    decreases s.len(),
{
    if s.len() > 0 {
        lemma_named_bounds(s.drop_last(), name);
    }
}

impl Table {
    /// Rows of the first column, or 0.
    pub open spec fn row_count(self) -> nat {
        if self.columns@.len() == 0 {
            0
        } else {
            let c = self.columns@[0].1;
            c.len() / (if c.ncols() == 0 {
                1
            } else {
                c.ncols() as nat
            })
        }
    }

    /// Rows of the first column, or 0.
    pub fn rows(&self) -> (r: usize)
        ensures
            r == self.row_count(),
    {
        if self.columns.len() == 0 {
            0
        } else {
            self.columns[0].1.rows()
        }
    }

    fn place(&self, name: &str) -> (r: Option<usize>)
        ensures
            match r {
                Some(i) => first_named(self.columns@, name@) == Some(i as int) && i
                    < self.columns@.len(),
                None => first_named(self.columns@, name@) is None,
            },
    {
        let ghost s = self.columns@;
        assert(s.take(s.len() as int) =~= s);
        for i in 0..self.columns.len()
            invariant
                s == self.columns@,
                s.take(s.len() as int) == s,
                forall|k: int| 0 <= k < i ==> (#[trigger] s[k]).0@ != name@,
        {
            if same_text(self.columns[i].0.as_str(), name) {
                proof {
                    lemma_first_named(s, name@, s.len() as int, i as int);
                }
                return Some(i);
            }
        }
        proof {
            lemma_none_named(s, name@, s.len() as int);
        }
        None
    }

    /// The column with a name.
    pub fn column(&self, name: &str) -> (r: Option<&Column>)
        ensures
            r is Some <==> first_named(self.columns@, name@) is Some,
            r matches Some(c) ==> *c == self.columns@[first_named(self.columns@, name@)->0].1,
    {
        match self.place(name) {
            Some(i) => Some(&self.columns[i].1),
            None => None,
        }
    }

    /// Takes the column with a name out.
    pub fn take(&mut self, name: &str) -> (r: Option<Column>)
        ensures
            r is Some <==> first_named(old(self).columns@, name@) is Some,
            match r {
                Some(c) => {
                    let i = first_named(old(self).columns@, name@)->0;
                    &&& c == old(self).columns@[i].1
                    &&& final(self).columns@ == old(self).columns@.remove(i)
                },
                None => *final(self) == *old(self),
            },
    {
        match self.place(name) {
            Some(i) => {
                let (_, c) = self.columns.remove(i);
                Some(c)
            },
            None => None,
        }
    }

    /// The view of row `idx`.
    pub fn row(&self, idx: usize) -> (r: Row<'_>)
        ensures
            *r.table == *self,
            r.idx == idx,
    {
        Row { table: self, idx }
    }
}

/// One row of a table.
pub struct Row<'a> {
    pub table: &'a Table,
    pub idx: usize,
}

impl<'a> Row<'a> {
    /// The column with a name, if it has one value to a row and reaches this row.
    pub open spec fn cell(self, name: Seq<char>) -> Option<Column> {
        match first_named(self.table.columns@, name) {
            Some(i) => {
                let c = self.table.columns@[i].1;
                if c.ncols() == 1 && self.idx < c.len() {
                    Some(c)
                } else {
                    None
                }
            },
            None => None,
        }
    }

    /// The integer of a column at this row.
    pub fn integer(&self, name: &str) -> (r: Option<i64>)
        ensures
            r is Some <==> (self.cell(name@) matches Some(c) && c is Int),
            r matches Some(v) ==> (self.cell(name@) matches Some(Column::Int { data, .. }) && v
                == data@[self.idx as int]),
    {
        match self.table.column(name) {
            Some(Column::Int { data, ncols }) => {
                if *ncols == 1 && self.idx < data.len() {
                    Some(data[self.idx])
                } else {
                    None
                }
            },
            _ => None,
        }
    }

    /// The floating-point field of a column at this row.
    pub fn float(&self, name: &str) -> (r: Option<&'a [u8]>)
        ensures
            r is Some <==> (self.cell(name@) matches Some(c) && c is Float),
            r matches Some(v) ==> (self.cell(name@) matches Some(Column::Float { data, .. }) && v@
                == data@[self.idx as int]@),
    {
        match self.table.column(name) {
            Some(Column::Float { data, ncols }) => {
                if *ncols == 1 && self.idx < data.len() {
                    Some(data[self.idx].as_slice())
                } else {
                    None
                }
            },
            _ => None,
        }
    }

    /// The text of a column at this row.
    pub fn str(&self, name: &str) -> (r: Option<&'a str>)
        ensures
            r is Some <==> (self.cell(name@) matches Some(c) && c is Str),
            r matches Some(v) ==> (self.cell(name@) matches Some(Column::Str { data, .. }) && v@
                == data@[self.idx as int]@),
    {
        match self.table.column(name) {
            Some(Column::Str { data, ncols }) => {
                if *ncols == 1 && self.idx < data.len() {
                    Some(data[self.idx].as_str())
                } else {
                    None
                }
            },
            _ => None,
        }
    }
}

} // verus!
