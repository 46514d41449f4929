//! Which ids a deck defines, and which it refers to.

use crate::deck::schema::{EntityKind, Ref};
use crate::validate::model::{Deck, Definition, MeshId, Reference};
use std::collections::HashSet;
use vstd::prelude::*;

verus! {

broadcast use vstd::std_specs::hash::group_hash_axioms;

/// The place of a kind in the list of kinds.
pub open spec fn kind_index(k: EntityKind) -> int {
    match k {
        EntityKind::Node => 0,
        EntityKind::Element => 1,
        EntityKind::Part => 2,
        EntityKind::Material => 3,
        EntityKind::ThermalMaterial => 4,
        EntityKind::Section => 5,
        EntityKind::Eos => 6,
        EntityKind::Hourglass => 7,
        EntityKind::Curve => 8,
        EntityKind::Coord => 9,
        EntityKind::Vector => 10,
        EntityKind::Box => 11,
        EntityKind::Transform => 12,
        EntityKind::NodeSet => 13,
        EntityKind::PartSet => 14,
        EntityKind::SegmentSet => 15,
        EntityKind::ShellSet => 16,
        EntityKind::SolidSet => 17,
        EntityKind::BeamSet => 18,
        EntityKind::DiscreteSet => 19,
        EntityKind::Sensor => 20,
        EntityKind::Define => 21,
    }
}

/// One number for a kind and an id; no two pairs share one.
pub open spec fn key_of(k: EntityKind, id: i64) -> int {
    id * 32 + kind_index(k)
}

fn key(k: EntityKind, id: i64) -> (r: i128)
    ensures
        r == key_of(k, id),
{
    let i: i128 = match k {
        EntityKind::Node => 0,
        EntityKind::Element => 1,
        EntityKind::Part => 2,
        EntityKind::Material => 3,
        EntityKind::ThermalMaterial => 4,
        EntityKind::Section => 5,
        EntityKind::Eos => 6,
        EntityKind::Hourglass => 7,
        EntityKind::Curve => 8,
        EntityKind::Coord => 9,
        EntityKind::Vector => 10,
        EntityKind::Box => 11,
        EntityKind::Transform => 12,
        EntityKind::NodeSet => 13,
        EntityKind::PartSet => 14,
        EntityKind::SegmentSet => 15,
        EntityKind::ShellSet => 16,
        EntityKind::SolidSet => 17,
        EntityKind::BeamSet => 18,
        EntityKind::DiscreteSet => 19,
        EntityKind::Sensor => 20,
        EntityKind::Define => 21,
    };
    (id as i128) * 32 + i
}

/// No two pairs of a kind and an id have the same number.
pub proof fn law_keys_are_unique(a: EntityKind, x: i64, b: EntityKind, y: i64)
    requires
        key_of(a, x) == key_of(b, y),
    ensures
        a == b,
        x == y,
{
    assert(0 <= kind_index(a) < 32);
    assert(0 <= kind_index(b) < 32);
}

/// One of the definitions is of this kind and id.
pub open spec fn among(s: Seq<Definition>, k: EntityKind, id: i64) -> bool {
    exists|i: int| 0 <= i < s.len() && (#[trigger] s[i]).kind == k && s[i].id == id
}

/// One of the mesh's entities is of this kind and id.
pub open spec fn in_mesh(s: Seq<MeshId>, k: EntityKind, id: i64) -> bool {
    exists|i: int| 0 <= i < s.len() && (#[trigger] s[i]).kind == k && s[i].id == id
}

impl Deck {
    /// The deck defines the entity.
    pub open spec fn defines(self, k: EntityKind, id: i64) -> bool {
        among(self.definitions@, k, id) || in_mesh(self.mesh_ids@, k, id)
    }
}

/// The reference can mean an entity of this kind.
pub open spec fn points_at(r: Ref, k: EntityKind) -> bool {
    match r {
        Ref::To(t) => t == k,
        Ref::AnyOf(ks) => ks@.contains(k),
        Ref::Nothing => false,
    }
}

/// What the reference points at is defined; what points nowhere is in order.
pub open spec fn resolves(deck: Deck, r: Ref, id: i64) -> bool {
    match r {
        Ref::Nothing => true,
        _ => exists|k: EntityKind| #[trigger] points_at(r, k) && deck.defines(k, id),
    }
}

/// Something other than an element's nodes refers to the entity.
pub open spec fn referenced(s: Seq<Reference>, k: EntityKind, id: i64) -> bool {
    exists|i: int|
        0 <= i < s.len() && !(#[trigger] s[i]).connectivity && points_at(s[i].target, k)
            && s[i].id == id
}

/// The set holds the numbers of just the entities that the deck defines.
pub open spec fn holds_defined(s: Set<i128>, deck: Deck) -> bool {
    forall|k: EntityKind, id: i64|
        s.contains(#[trigger] key_of(k, id) as i128) == deck.defines(k, id)
}

/// The set holds the numbers of just the entities that are referred to.
pub open spec fn holds_referenced(s: Set<i128>, refs: Seq<Reference>) -> bool {
    forall|k: EntityKind, id: i64|
        s.contains(#[trigger] key_of(k, id) as i128) == referenced(refs, k, id)
}

proof fn lemma_key_range(k: EntityKind, id: i64)
    ensures
        i128::MIN <= key_of(k, id) <= i128::MAX,
{
}

/// The numbers of the entities that the deck defines.
pub fn defined_ids(deck: &Deck) -> (r: HashSet<i128>)
    ensures
        holds_defined(r@, *deck),
{
    let mut set: HashSet<i128> = HashSet::new();
    let ghost defs = deck.definitions@;
    let ghost mesh = deck.mesh_ids@;
    for i in 0..deck.definitions.len()
        invariant
            defs == deck.definitions@,
            forall|k: EntityKind, id: i64|
                set@.contains(#[trigger] key_of(k, id) as i128) == among(
                    defs.take(i as int),
                    k,
                    id,
                ),
    {
        let d: Definition = deck.definitions[i];
        set.insert(key(d.kind, d.id));
        proof {
            let t = defs.take(i as int);
            let u = defs.take(i + 1);
            assert forall|k: EntityKind, id: i64|
                set@.contains(#[trigger] key_of(k, id) as i128) == among(u, k, id) by {
                lemma_key_range(k, id);
                lemma_key_range(d.kind, d.id);
                if key_of(k, id) == key_of(d.kind, d.id) {
                    law_keys_are_unique(k, id, d.kind, d.id);
                    assert(u[i as int] == d);
                }
                if among(t, k, id) {
                    let j = choose|j: int|
                        0 <= j < t.len() && (#[trigger] t[j]).kind == k && t[j].id == id;
                    assert(u[j] == t[j]);
                }
                if among(u, k, id) {
                    let j = choose|j: int|
                        0 <= j < u.len() && (#[trigger] u[j]).kind == k && u[j].id == id;
                    if j < i {
                        assert(u[j] == t[j]);
                    }
                }
            }
        }
    }
    assert(defs.take(defs.len() as int) =~= defs);
    for i in 0..deck.mesh_ids.len()
        invariant
            defs == deck.definitions@,
            mesh == deck.mesh_ids@,
            forall|k: EntityKind, id: i64|
                set@.contains(#[trigger] key_of(k, id) as i128) == (among(defs, k, id) || in_mesh(
                    mesh.take(i as int),
                    k,
                    id,
                )),
    {
        let d: MeshId = deck.mesh_ids[i];
        set.insert(key(d.kind, d.id));
        proof {
            let t = mesh.take(i as int);
            let u = mesh.take(i + 1);
            assert forall|k: EntityKind, id: i64|
                set@.contains(#[trigger] key_of(k, id) as i128) == (among(defs, k, id) || in_mesh(
                    u,
                    k,
                    id,
                )) by {
                lemma_key_range(k, id);
                lemma_key_range(d.kind, d.id);
                if key_of(k, id) == key_of(d.kind, d.id) {
                    law_keys_are_unique(k, id, d.kind, d.id);
                    assert(u[i as int] == d);
                }
                if in_mesh(t, k, id) {
                    let j = choose|j: int|
                        0 <= j < t.len() && (#[trigger] t[j]).kind == k && t[j].id == id;
                    assert(u[j] == t[j]);
                }
                if in_mesh(u, k, id) {
                    let j = choose|j: int|
                        0 <= j < u.len() && (#[trigger] u[j]).kind == k && u[j].id == id;
                    if j < i {
                        assert(u[j] == t[j]);
                    }
                }
            }
        }
    }
    assert(mesh.take(mesh.len() as int) =~= mesh);
    set
}

/// Tells whether what a reference points at is defined.
pub fn is_resolved(set: &HashSet<i128>, deck: &Deck, r: &Ref, id: i64) -> (b: bool)
    requires
        holds_defined(set@, *deck),
    ensures
        b == resolves(*deck, *r, id),
{
    match r {
        Ref::Nothing => true,
        Ref::To(k) => {
            let b: bool = set.contains(&key(*k, id));
            proof {
                lemma_key_range(*k, id);
                assert(points_at(*r, *k));
                assert(set@.contains(key_of(*k, id) as i128) == deck.defines(*k, id));
            }
            b
        },
        Ref::AnyOf(ks) => {
            for j in 0..ks.len()
                invariant
                    *r == Ref::AnyOf(*ks),
                    holds_defined(set@, *deck),
                    forall|x: int| 0 <= x < j ==> !deck.defines(#[trigger] ks@[x], id),
            {
                proof {
                    lemma_key_range(ks@[j as int], id);
                    assert(set@.contains(key_of(ks@[j as int], id) as i128) == deck.defines(
                        ks@[j as int],
                        id,
                    ));
                }
                if set.contains(&key(ks[j], id)) {
                    proof {
                        assert(ks@.contains(ks@[j as int]));
                        assert(points_at(*r, ks@[j as int]));
                    }
                    return true;
                }
            }
            proof {
                assert forall|k: EntityKind| #[trigger] points_at(*r, k) implies !deck.defines(
                    k,
                    id,
                ) by {
                    let x = choose|x: int| 0 <= x < ks@.len() && ks@[x] == k;
                    assert(ks@[x] == k);
                }
            }
            false
        },
    }
}

/// The numbers of the entities that something other than an element's nodes refers
/// to.
pub fn referenced_ids(deck: &Deck) -> (r: HashSet<i128>)
    ensures
        holds_referenced(r@, deck.references@),
{
    let mut set: HashSet<i128> = HashSet::new();
    let ghost refs = deck.references@;
    for i in 0..deck.references.len()
        invariant
            refs == deck.references@,
            holds_referenced(set@, refs.take(i as int)),
    {
        let ghost before = set@;
        let ghost t = refs.take(i as int);
        let ghost u = refs.take(i + 1);
        let r: &Reference = &deck.references[i];
        assert(u[i as int] == *r);
        proof {
            assert forall|k: EntityKind, id: i64| #[trigger]
                referenced(u, k, id) == (referenced(t, k, id) || (!r.connectivity && points_at(
                    r.target,
                    k,
                ) && r.id == id)) by {
                if referenced(t, k, id) {
                    let j = choose|j: int|
                        0 <= j < t.len() && !(#[trigger] t[j]).connectivity && points_at(
                            t[j].target,
                            k,
                        ) && t[j].id == id;
                    assert(u[j] == t[j]);
                }
                if referenced(u, k, id) {
                    let j = choose|j: int|
                        0 <= j < u.len() && !(#[trigger] u[j]).connectivity && points_at(
                            u[j].target,
                            k,
                        ) && u[j].id == id;
                    if j < i {
                        assert(u[j] == t[j]);
                    }
                }
            }
        }
        if !r.connectivity {
            add_targets(&mut set, &r.target, r.id);
        }
        proof {
            assert forall|k: EntityKind, id: i64|
                set@.contains(#[trigger] key_of(k, id) as i128) == referenced(u, k, id) by {
                assert(before.contains(key_of(k, id) as i128) == referenced(t, k, id));
                assert(points_at(r.target, k) || !points_at(r.target, k));
            }
        }
    }
    assert(refs.take(refs.len() as int) =~= refs);
    set
}

fn add_targets(set: &mut HashSet<i128>, r: &Ref, id: i64)
    ensures
        forall|k: EntityKind, x: i64|
            final(set)@.contains(#[trigger] key_of(k, x) as i128) == (old(set)@.contains(
                key_of(k, x) as i128,
            ) || (points_at(*r, k) && x == id)),
{
    let ghost start = set@;
    match r {
        Ref::Nothing => {},
        Ref::To(t) => {
            set.insert(key(*t, id));
            proof {
                assert forall|k: EntityKind, x: i64|
                    set@.contains(#[trigger] key_of(k, x) as i128) == (start.contains(
                        key_of(k, x) as i128,
                    ) || (points_at(*r, k) && x == id)) by {
                    lemma_key_range(k, x);
                    lemma_key_range(*t, id);
                    if key_of(k, x) == key_of(*t, id) {
                        law_keys_are_unique(k, x, *t, id);
                    }
                }
            }
        },
        Ref::AnyOf(ks) => {
            for j in 0..ks.len()
                invariant
                    forall|k: EntityKind, x: i64|
                        set@.contains(#[trigger] key_of(k, x) as i128) == (start.contains(
                            key_of(k, x) as i128,
                        ) || (ks@.take(j as int).contains(k) && x == id)),
            {
                let ghost before = set@;
                let t: EntityKind = ks[j];
                set.insert(key(t, id));
                proof {
                    assert forall|k: EntityKind, x: i64|
                        set@.contains(#[trigger] key_of(k, x) as i128) == (start.contains(
                            key_of(k, x) as i128,
                        ) || (ks@.take(j + 1).contains(k) && x == id)) by {
                        lemma_key_range(k, x);
                        lemma_key_range(t, id);
                        assert(before.contains(key_of(k, x) as i128) == (start.contains(
                            key_of(k, x) as i128,
                        ) || (ks@.take(j as int).contains(k) && x == id)));
                        assert(ks@.take(j + 1) =~= ks@.take(j as int).push(t));
                        if key_of(k, x) == key_of(t, id) {
                            law_keys_are_unique(k, x, t, id);
                            assert(ks@.take(j + 1)[j as int] == t);
                        }
                        if ks@.take(j as int).contains(k) {
                            let y = ks@.take(j as int).index_of(k);
                            assert(ks@.take(j + 1)[y] == k);
                        }
                        if ks@.take(j + 1).contains(k) {
                            let y = ks@.take(j + 1).index_of(k);
                            if y < j {
                                assert(ks@.take(j as int)[y] == k);
                            } else {
                                assert(k == t);
                            }
                        }
                    }
                }
            }
            assert(ks@.take(ks@.len() as int) =~= ks@);
        },
    }
}

/// Tells whether an entity is referred to.
pub fn is_referenced(set: &HashSet<i128>, deck: &Deck, k: EntityKind, id: i64) -> (b: bool)
    requires
        holds_referenced(set@, deck.references@),
    ensures
        b == referenced(deck.references@, k, id),
{
    proof {
        lemma_key_range(k, id);
        assert(set@.contains(key_of(k, id) as i128) == referenced(deck.references@, k, id));
    }
    set.contains(&key(k, id))
}

} // verus!
