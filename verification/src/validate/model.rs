//! What rules read of a deck.

use crate::deck::file::{same_name, same_word, ParsedFile};
use crate::deck::schema::{EntityKind, Ref};
use crate::validate::value::{Value, ValueView};
use vstd::prelude::*;

verus! {

/// One occurrence of a keyword: its fields, and what it defines.
#[derive(Debug)]
pub struct Occurrence {
    pub name: String,
    pub file: String,
    pub line: usize,
    pub fields: Vec<(String, Value)>,
    /// The kind and the id that the occurrence defines, in the numbers of the whole
    /// deck.
    pub kind: Option<EntityKind>,
    pub id: Option<i64>,
    /// The material of a part, in the numbers of the whole deck.
    pub material: Option<i64>,
    /// What is added to the part ids of the file to get those of the whole deck.
    pub part_offset: i64,
}

/// An id in a field that points at an entity.
#[derive(Debug)]
pub struct Reference {
    pub from_keyword: String,
    pub field: String,
    pub file: String,
    pub line: usize,
    pub target: Ref,
    pub id: i64,
    /// The reference is from an element to its nodes.
    pub connectivity: bool,
}

/// A labelled entity that a block defines.
#[derive(Debug, Clone, Copy)]
pub struct Definition {
    pub kind: EntityKind,
    pub id: i64,
    pub file: usize,
    pub block: usize,
}

/// A node or an element.
#[derive(Debug, Clone, Copy)]
pub struct MeshId {
    pub kind: EntityKind,
    pub id: i64,
}

/// A file that another one names.
#[derive(Debug)]
pub struct NamedFile {
    pub from: usize,
    pub raw_path: String,
    pub resolved_path: String,
    pub exists: bool,
}

/// A deck: its files, and what stands in them.
#[derive(Debug)]
pub struct Deck {
    pub files: Vec<ParsedFile>,
    pub occurrences: Vec<Occurrence>,
    pub references: Vec<Reference>,
    pub definitions: Vec<Definition>,
    pub mesh_ids: Vec<MeshId>,
    pub named_files: Vec<NamedFile>,
}

impl Deck {
    /// What names a file or a block names one that is there, and lines can be
    /// counted.
    pub open spec fn wf(self) -> bool {
        &&& forall|i: int|
            0 <= i < self.files@.len() ==> (#[trigger] self.files@[i]).wf()
        &&& forall|i: int, j: int|
            0 <= i < self.files@.len() && 0 <= j < self.files@[i].blocks@.len() ==> (
            #[trigger] self.files@[i].blocks@[j]).name_start < usize::MAX
        &&& forall|i: int|
            0 <= i < self.named_files@.len() ==> (#[trigger] self.named_files@[i]).from
                < self.files@.len()
        &&& forall|i: int|
            0 <= i < self.definitions@.len() ==> (#[trigger] self.definitions@[i]).file
                < self.files@.len() && self.definitions@[i].block
                < self.files@[self.definitions@[i].file as int].blocks@.len()
    }
}

/// The place of the first field with a name, whose case does not matter.
pub open spec fn field_place(fields: Seq<(String, Value)>, name: Seq<char>, i: int) -> bool {
    &&& 0 <= i < fields.len()
    &&& same_word(
        vstd::utf8::encode_utf8(fields[i].0@),
        vstd::utf8::encode_utf8(name),
    )
    &&& forall|k: int|
        0 <= k < i ==> !same_word(
            vstd::utf8::encode_utf8((#[trigger] fields[k]).0@),
            vstd::utf8::encode_utf8(name),
        )
}

/// The value of the first field with a name.
pub open spec fn field_of(fields: Seq<(String, Value)>, name: Seq<char>) -> Option<ValueView> {
    if exists|i: int| #[trigger] field_place(fields, name, i) {
        Some(fields[choose|i: int| #[trigger] field_place(fields, name, i)].1@)
    } else {
        None
    }
}

impl Occurrence {
    /// The value of a field, whose name's case does not matter.
    pub fn field(&self, name: &str) -> (r: Option<&Value>)
        ensures
            match r {
                Some(v) => field_of(self.fields@, name@) == Some(v@),
                None => field_of(self.fields@, name@) is None,
            },
    {
        let key: &[u8] = name.as_bytes();
        for i in 0..self.fields.len()
            invariant
                key@ == vstd::utf8::encode_utf8(name@),
                forall|k: int|
                    0 <= k < i ==> !same_word(
                        vstd::utf8::encode_utf8((#[trigger] self.fields@[k]).0@),
                        key@,
                    ),
        {
            if same_name(self.fields[i].0.as_str().as_bytes(), key) {
                proof {
                    let s = self.fields@;
                    assert(field_place(s, name@, i as int));
                    let j = choose|j: int| #[trigger] field_place(s, name@, j);
                    assert(s[i as int].1@ == s[j].1@) by {
                        if i < j {
                            assert(!same_word(vstd::utf8::encode_utf8(s[i as int].0@), key@));
                        }
                        if j < i {
                            assert(!same_word(vstd::utf8::encode_utf8(s[j].0@), key@));
                        }
                    }
                }
                return Some(&self.fields[i].1);
            }
        }
        proof {
            assert forall|i: int| !#[trigger] field_place(self.fields@, name@, i) by {}
        }
        None
    }
}

} // verus!
