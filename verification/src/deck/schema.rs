//! The layout of a keyword: its cards and their fields.

use vstd::prelude::*;

verus! {

#[derive(Debug, Clone, Copy, PartialEq, Eq, Structural)]
pub enum FieldType {
    Int,
    Float,
    Str,
}

/// The kinds of things that ids stand for.
#[derive(Debug, Clone, Copy, PartialEq, Eq, Structural)]
pub enum EntityKind {
    Node,
    Element,
    Part,
    Material,
    ThermalMaterial,
    Section,
    Eos,
    Hourglass,
    Curve,
    Coord,
    Vector,
    Box,
    Transform,
    NodeSet,
    PartSet,
    SegmentSet,
    ShellSet,
    SolidSet,
    BeamSet,
    DiscreteSet,
    Sensor,
    Define,
}

/// What the id in a field points at.
#[derive(Debug, Clone)]
pub enum Ref {
    Nothing,
    To(EntityKind),
    AnyOf(Vec<EntityKind>),
}

/// One field of a card: its name, type, width in columns, how many values it has,
/// and what its id points at.
#[derive(Debug, Clone)]
pub struct FieldSpec {
    pub name: String,
    pub ty: FieldType,
    pub width: usize,
    pub count: usize,
    pub reference: Ref,
}

/// One card of a keyword: its fields in order.
#[derive(Debug, Clone)]
pub struct Card {
    pub fields: Vec<FieldSpec>,
}

impl Default for Card {
    fn default() -> (r: Self)
        ensures
            r.fields@.len() == 0,
    {
        Card::new()
    }
}

/// A field as a card builder makes it.
pub open spec fn is_field(
    f: FieldSpec,
    name: Seq<char>,
    ty: FieldType,
    width: usize,
    count: usize,
    reference: Ref,
) -> bool {
    &&& f.name@ == name
    &&& f.ty == ty
    &&& f.width == width
    &&& f.count == count
    &&& f.reference == reference
}

/// `b` is `a` with one more field.
pub open spec fn extended(a: Card, b: Card) -> bool {
    &&& b.fields@.len() == a.fields@.len() + 1
    &&& b.fields@.drop_last() == a.fields@
}

impl Card {
    /// A card without fields.
    pub fn new() -> (r: Self)
        ensures
            r.fields@.len() == 0,
    {
        Card { fields: Vec::new() }
    }

    /// Adds an integer field.
    pub fn integer(self, name: &str, width: usize) -> (r: Self)
        ensures
            extended(self, r),
            is_field(r.fields@.last(), name@, FieldType::Int, width, 1, Ref::Nothing),
    {
        self.push(name, FieldType::Int, width, 1)
    }

    /// Adds a floating-point field.
    pub fn float(self, name: &str, width: usize) -> (r: Self)
        ensures
            extended(self, r),
            is_field(r.fields@.last(), name@, FieldType::Float, width, 1, Ref::Nothing),
    {
        self.push(name, FieldType::Float, width, 1)
    }

    /// Adds a text field.
    pub fn str(self, name: &str, width: usize) -> (r: Self)
        ensures
            extended(self, r),
            is_field(r.fields@.last(), name@, FieldType::Str, width, 1, Ref::Nothing),
    {
        self.push(name, FieldType::Str, width, 1)
    }

    /// Adds `count` integers as one column.
    pub fn int_array(self, name: &str, count: usize, width: usize) -> (r: Self)
        ensures
            extended(self, r),
            is_field(
                r.fields@.last(),
                name@,
                FieldType::Int,
                width,
                if count == 0 {
                    1
                } else {
                    count
                },
                Ref::Nothing,
            ),
    {
        self.push(name, FieldType::Int, width, count)
    }

    /// Adds `count` floating-point numbers as one column.
    pub fn float_array(self, name: &str, count: usize, width: usize) -> (r: Self)
        ensures
            extended(self, r),
            is_field(
                r.fields@.last(),
                name@,
                FieldType::Float,
                width,
                if count == 0 {
                    1
                } else {
                    count
                },
                Ref::Nothing,
            ),
    {
        self.push(name, FieldType::Float, width, count)
    }

    /// Adds an integer field whose id points at an entity of `kind`.
    pub fn ref_to(self, name: &str, width: usize, kind: EntityKind) -> (r: Self)
        ensures
            extended(self, r),
            is_field(r.fields@.last(), name@, FieldType::Int, width, 1, Ref::To(kind)),
    {
        let mut fields: Vec<FieldSpec> = self.fields;
        let ghost before = fields@;
        fields.push(
            FieldSpec {
                name: String::from_str(name),
                ty: FieldType::Int,
                width,
                count: 1,
                reference: Ref::To(kind),
            },
        );
        assert(fields@.drop_last() =~= before);
        Card { fields }
    }

    fn push(self, name: &str, ty: FieldType, width: usize, count: usize) -> (r: Self)
        ensures
            extended(self, r),
            is_field(
                r.fields@.last(),
                name@,
                ty,
                width,
                if count == 0 {
                    1
                } else {
                    count
                },
                Ref::Nothing,
            ),
    {
        let mut fields: Vec<FieldSpec> = self.fields;
        let ghost before = fields@;
        fields.push(
            FieldSpec {
                name: String::from_str(name),
                ty,
                width,
                count: if count == 0 { 1 } else { count },
                reference: Ref::Nothing,
            },
        );
        assert(fields@.drop_last() =~= before);
        Card { fields }
    }
}

/// The layout of a keyword.
#[derive(Debug, Clone)]
pub struct Schema {
    /// The name without `*`; its case does not matter.
    pub keyword: String,
    pub cards: Vec<Card>,
    /// Whether the cards repeat over the whole body.
    pub repeat: bool,
}

impl Schema {
    /// A repeating keyword without cards.
    pub fn new(keyword: &str) -> (r: Self)
        ensures
            r.keyword@ == keyword@,
            r.cards@.len() == 0,
            r.repeat,
    {
        Schema { keyword: String::from_str(keyword), cards: Vec::new(), repeat: true }
    }

    /// Adds a card.
    pub fn card(self, card: Card) -> (r: Self)
        ensures
            r.keyword == self.keyword,
            r.repeat == self.repeat,
            r.cards@ == self.cards@.push(card),
    {
        let mut cards: Vec<Card> = self.cards;
        cards.push(card);
        Schema { keyword: self.keyword, cards, repeat: self.repeat }
    }

    /// Only the first entity of each block counts.
    pub fn once(self) -> (r: Self)
        ensures
            r.keyword == self.keyword,
            r.cards == self.cards,
            !r.repeat,
    {
        Schema { keyword: self.keyword, cards: self.cards, repeat: false }
    }

    /// The card that governs data row `i`: a lone repeating card governs every row,
    /// and otherwise the cards go by rows.
    pub fn card_for_row(&self, i: usize) -> (r: Option<&[FieldSpec]>)
        ensures
            ({
                let k: int = if self.repeat && self.cards@.len() == 1 {
                    0
                } else {
                    i as int
                };
                &&& r is Some <==> k < self.cards@.len()
                &&& r matches Some(f) ==> f@ == self.cards@[k].fields@
            }),
    {
        let k: usize = if self.repeat && self.cards.len() == 1 { 0 } else { i };
        if k < self.cards.len() {
            Some(self.cards[k].fields.as_slice())
        } else {
            None
        }
    }
}

} // verus!
