//! Rules on what a deck defines and refers to.

use crate::deck::file::{block_line, Block, ParsedFile};
use crate::deck::schema::EntityKind;
use crate::text::{dec, dec_int, decode_lossy, push_dec, push_dec_int, same_text};
use crate::validate::fields::{block_name, copy, is_of, line_of, with_finding};
use crate::validate::ids::{
    defined_ids, is_referenced, is_resolved, referenced, referenced_ids, resolves,
};
use crate::validate::model::{field_of, Deck, Definition, Occurrence, Reference};
use crate::validate::names::{
    base_of, canonical_base, is_rigid_base, is_rigid_material, kind_name, kind_text, target_name,
    target_text,
};
use crate::validate::report::{finding_views, Finding, FindingView, Severity};
use crate::validate::value::{Value, ValueView};
use std::collections::HashSet;
use vstd::prelude::*;

verus! {

/// What is found at a reference to what is not defined. From elements to their nodes
/// only where that is asked.
pub open spec fn dangling_at(deck: Deck, connectivity: bool, r: Reference) -> Option<FindingView> {
    if (connectivity || !r.connectivity) && !resolves(deck, r.target, r.id) {
        Some(
            FindingView {
                rule: "references_resolve"@,
                severity: Severity::Error,
                keyword: r.from_keyword@,
                file: r.file@,
                line: r.line,
                message: r.from_keyword@ + "."@ + r.field@ + " references "@ + target_text(
                    r.target,
                ) + " "@ + dec_int(r.id as int) + " — not defined in the deck"@,
            },
        )
    } else {
        None
    }
}

/// What is found at the first `n` references.
pub open spec fn dangling_upto(deck: Deck, connectivity: bool, n: nat) -> Seq<FindingView>
    decreases n,
{
    if n == 0 {
        Seq::empty()
    } else {
        with_finding(
            dangling_upto(deck, connectivity, (n - 1) as nat),
            dangling_at(deck, connectivity, deck.references@[n - 1]),
        )
    }
}

/// Finds the references to what is not defined.
pub fn find_dangling(connectivity: bool, deck: &Deck) -> (r: Vec<Finding>)
    ensures
        finding_views(r@) == dangling_upto(*deck, connectivity, deck.references@.len()),
{
    let ids: HashSet<i128> = defined_ids(deck);
    let mut out: Vec<Finding> = Vec::new();
    assert(finding_views(out@) =~= Seq::<FindingView>::empty());
    for i in 0..deck.references.len()
        invariant
            crate::validate::ids::holds_defined(ids@, *deck),
            finding_views(out@) == dangling_upto(*deck, connectivity, i as nat),
    {
        let ghost before = finding_views(out@);
        let d: &Reference = &deck.references[i];
        if (connectivity || !d.connectivity) && !is_resolved(&ids, deck, &d.target, d.id) {
            let mut message: String = copy(&d.from_keyword);
            message.append(".");
            message.append(d.field.as_str());
            message.append(" references ");
            let target: String = target_name(&d.target);
            message.append(target.as_str());
            message.append(" ");
            push_dec_int(&mut message, d.id);
            message.append(" — not defined in the deck");
            let f: Finding = Finding {
                rule: String::from_str("references_resolve"),
                severity: Severity::Error,
                keyword: copy(&d.from_keyword),
                file: copy(&d.file),
                line: d.line,
                message,
            };
            out.push(f);
            assert(finding_views(out@) =~= before.push(f@));
        }
        assert(finding_views(out@) =~= with_finding(before, dangling_at(*deck, connectivity, *d)));
    }
    out
}

/// Two definitions are of the same kind and id.
pub open spec fn same_entity(a: Definition, b: Definition) -> bool {
    a.kind == b.kind && a.id == b.id
}

/// How many of the first `n` definitions are of the same kind and id as `d`.
pub open spec fn sites(s: Seq<Definition>, d: Definition, n: nat) -> nat
    decreases n,
{
    if n == 0 {
        0
    } else {
        sites(s, d, (n - 1) as nat) + if same_entity(s[n - 1], d) {
            1nat
        } else {
            0
        }
    }
}

/// What is found at one of several definitions of the same kind and id.
pub open spec fn collision(deck: Deck, d: Definition, total: nat) -> FindingView {
    let file = deck.files@[d.file as int];
    let block = file.blocks@[d.block as int];
    FindingView {
        rule: "duplicate_ids"@,
        severity: Severity::Error,
        keyword: base_of(block_name(file, block)),
        file: file.path@,
        line: line_of(file, block),
        message: "duplicate "@ + kind_text(d.kind) + " id "@ + dec_int(d.id as int)
            + " — defined by "@ + dec(total) + " keywords in the deck"@,
    }
}

/// What is found at those of the first `n` definitions that are of the same kind and
/// id as `d`, of which there are `total`.
pub open spec fn collisions_of(deck: Deck, d: Definition, total: nat, n: nat) -> Seq<FindingView>
    decreases n,
{
    if n == 0 {
        Seq::empty()
    } else {
        with_finding(
            collisions_of(deck, d, total, (n - 1) as nat),
            if same_entity(deck.definitions@[n - 1], d) {
                Some(collision(deck, deck.definitions@[n - 1], total))
            } else {
                None
            },
        )
    }
}

/// What is found of the entity that definition `i` is the first of, if it has others.
pub open spec fn group_at(deck: Deck, i: int) -> Seq<FindingView> {
    let s = deck.definitions@;
    if sites(s, s[i], i as nat) == 0 && sites(s, s[i], s.len()) >= 2 {
        collisions_of(deck, s[i], sites(s, s[i], s.len()), s.len())
    } else {
        Seq::empty()
    }
}

/// What is found of the entities that the first `n` definitions are the first of.
pub open spec fn duplicates_upto(deck: Deck, n: nat) -> Seq<FindingView>
    decreases n,
{
    if n == 0 {
        Seq::empty()
    } else {
        duplicates_upto(deck, (n - 1) as nat) + group_at(deck, n - 1)
    }
}

fn count_sites(s: &Vec<Definition>, d: Definition, n: usize) -> (r: usize)
    requires
        n <= s@.len(),
    ensures
        r == sites(s@, d, n as nat),
{
    let mut c: usize = 0;
    for i in 0..n
        invariant
            n <= s@.len(),
            c <= i,
            c == sites(s@, d, i as nat),
    {
        if s[i].kind == d.kind && s[i].id == d.id {
            c = c + 1;
        }
    }
    c
}

/// Finds the definitions that share their kind and id with another.
pub fn find_duplicates(deck: &Deck) -> (r: Vec<Finding>)
    requires
        deck.wf(),
    ensures
        finding_views(r@) == duplicates_upto(*deck, deck.definitions@.len()),
{
    let mut out: Vec<Finding> = Vec::new();
    assert(finding_views(out@) =~= Seq::<FindingView>::empty());
    let n: usize = deck.definitions.len();
    for i in 0..n
        invariant
            deck.wf(),
            n == deck.definitions@.len(),
            finding_views(out@) == duplicates_upto(*deck, i as nat),
    {
        let ghost start = finding_views(out@);
        let d: Definition = deck.definitions[i];
        let total: usize = count_sites(&deck.definitions, d, n);
        if total >= 2 && count_sites(&deck.definitions, d, i) == 0 {
            assert(start + collisions_of(*deck, d, total as nat, 0) =~= start);
            for j in 0..n
                invariant
                    deck.wf(),
                    n == deck.definitions@.len(),
                    finding_views(out@) == start + collisions_of(
                        *deck,
                        d,
                        total as nat,
                        j as nat,
                    ),
            {
                let ghost before = finding_views(out@);
                let e: Definition = deck.definitions[j];
                assert(deck.definitions@[j as int].file < deck.files@.len());
                if e.kind == d.kind && e.id == d.id {
                    let file: &ParsedFile = &deck.files[e.file];
                    let block: Block = file.blocks[e.block];
                    assert(deck.files@[e.file as int].wf());
                    assert(deck.files@[e.file as int].blocks@[e.block as int].name_start
                        < usize::MAX);
                    let name: String = decode_lossy(file.keyword_name(&block));
                    let mut message: String = String::from_str("duplicate ");
                    message.append(kind_name(e.kind));
                    message.append(" id ");
                    push_dec_int(&mut message, e.id);
                    message.append(" — defined by ");
                    push_dec(&mut message, total as u64);
                    message.append(" keywords in the deck");
                    let f: Finding = Finding {
                        rule: String::from_str("duplicate_ids"),
                        severity: Severity::Error,
                        keyword: canonical_base(name.as_str()),
                        file: copy(&file.path),
                        line: block_line(file, &block),
                        message,
                    };
                    out.push(f);
                    assert(finding_views(out@) =~= before.push(f@));
                    assert(f@ == collision(*deck, e, total as nat));
                }
                assert(finding_views(out@) =~= start + collisions_of(
                    *deck,
                    d,
                    total as nat,
                    (j + 1) as nat,
                ));
            }
        }
        assert(finding_views(out@) =~= start + group_at(*deck, i as int));
    }
    out
}

/// What is found at an occurrence that defines an entity of a kind that nothing refers
/// to.
pub open spec fn unused_at(deck: Deck, kind: EntityKind, kw: Occurrence) -> Option<FindingView> {
    match kw.id {
        Some(id) => if kw.kind == Some(kind) && !referenced(deck.references@, kind, id) {
            Some(
                FindingView {
                    rule: "unreferenced_entities"@,
                    severity: Severity::Warning,
                    keyword: base_of(kw.name@),
                    file: kw.file@,
                    line: kw.line,
                    message: kind_text(kind) + " "@ + dec_int(id as int)
                        + " is defined but never referenced"@,
                },
            )
        } else {
            None
        },
        None => None,
    }
}

/// What is found at the first `n` occurrences.
pub open spec fn unused_of(deck: Deck, kind: EntityKind, n: nat) -> Seq<FindingView>
    decreases n,
{
    if n == 0 {
        Seq::empty()
    } else {
        with_finding(
            unused_of(deck, kind, (n - 1) as nat),
            unused_at(deck, kind, deck.occurrences@[n - 1]),
        )
    }
}

/// What is found of the first `n` kinds.
pub open spec fn unused_upto(deck: Deck, kinds: Seq<EntityKind>, n: nat) -> Seq<FindingView>
    decreases n,
{
    if n == 0 {
        Seq::empty()
    } else {
        unused_upto(deck, kinds, (n - 1) as nat) + unused_of(
            deck,
            kinds[n - 1],
            deck.occurrences@.len(),
        )
    }
}

/// Finds the entities of some kinds that nothing refers to.
pub fn find_unused(kinds: &Vec<EntityKind>, deck: &Deck) -> (r: Vec<Finding>)
    ensures
        finding_views(r@) == unused_upto(*deck, kinds@, kinds@.len()),
{
    let ids: HashSet<i128> = referenced_ids(deck);
    let mut out: Vec<Finding> = Vec::new();
    assert(finding_views(out@) =~= Seq::<FindingView>::empty());
    for k in 0..kinds.len()
        invariant
            crate::validate::ids::holds_referenced(ids@, deck.references@),
            finding_views(out@) == unused_upto(*deck, kinds@, k as nat),
    {
        let kind: EntityKind = kinds[k];
        let ghost start = finding_views(out@);
        assert(start + unused_of(*deck, kind, 0) =~= start);
        for i in 0..deck.occurrences.len()
            invariant
                crate::validate::ids::holds_referenced(ids@, deck.references@),
                finding_views(out@) == start + unused_of(*deck, kind, i as nat),
        {
            let ghost before = finding_views(out@);
            let kw: &Occurrence = &deck.occurrences[i];
            let here: bool = match kw.kind {
                Some(x) => x == kind,
                None => false,
            };
            if here {
                match kw.id {
                    Some(id) => {
                        if !is_referenced(&ids, deck, kind, id) {
                            let mut message: String = String::from_str(kind_name(kind));
                            message.append(" ");
                            push_dec_int(&mut message, id);
                            message.append(" is defined but never referenced");
                            let f: Finding = Finding {
                                rule: String::from_str("unreferenced_entities"),
                                severity: Severity::Warning,
                                keyword: canonical_base(kw.name.as_str()),
                                file: copy(&kw.file),
                                line: kw.line,
                                message,
                            };
                            out.push(f);
                            assert(finding_views(out@) =~= before.push(f@));
                        }
                    },
                    None => {},
                }
            }
            assert(finding_views(out@) =~= with_finding(before, unused_at(*deck, kind, *kw)));
            assert(finding_views(out@) =~= start + unused_of(*deck, kind, (i + 1) as nat));
        }
    }
    out
}

/// The place of the first occurrence that defines an entity.
pub open spec fn entity_place(kws: Seq<Occurrence>, kind: EntityKind, id: int, i: int) -> bool {
    &&& 0 <= i < kws.len()
    &&& defines_here(kws[i], kind, id)
    &&& forall|k: int| 0 <= k < i ==> !#[trigger] defines_here(kws[k], kind, id)
}

/// The occurrence defines the entity.
pub open spec fn defines_here(kw: Occurrence, kind: EntityKind, id: int) -> bool {
    kw.kind == Some(kind) && (kw.id matches Some(x) && x == id)
}

/// The first occurrence that defines an entity.
pub open spec fn entity_of(kws: Seq<Occurrence>, kind: EntityKind, id: int) -> Option<Occurrence> {
    if exists|i: int| #[trigger] entity_place(kws, kind, id, i) {
        Some(kws[choose|i: int| #[trigger] entity_place(kws, kind, id, i)])
    } else {
        None
    }
}

fn find_entity(kws: &Vec<Occurrence>, kind: EntityKind, id: i128) -> (r: Option<usize>)
    ensures
        match r {
            Some(i) => i < kws@.len() && entity_of(kws@, kind, id as int) == Some(kws@[i as int]),
            None => entity_of(kws@, kind, id as int) is None,
        },
{
    for i in 0..kws.len()
        invariant
            forall|k: int| 0 <= k < i ==> !#[trigger] defines_here(kws@[k], kind, id as int),
    {
        let kw: &Occurrence = &kws[i];
        let here: bool = match (kw.kind, kw.id) {
            (Some(k), Some(x)) => k == kind && x as i128 == id,
            _ => false,
        };
        if here {
            proof {
                assert(entity_place(kws@, kind, id as int, i as int));
                let j = choose|j: int| #[trigger] entity_place(kws@, kind, id as int, j);
                assert(j == i) by {
                    if i < j {
                        assert(!defines_here(kws@[i as int], kind, id as int));
                    }
                    if j < i {
                        assert(!defines_here(kws@[j], kind, id as int));
                    }
                }
            }
            return Some(i);
        }
        assert(!defines_here(kws@[i as int], kind, id as int));
    }
    proof {
        assert forall|i: int| !#[trigger] entity_place(kws@, kind, id as int, i) by {}
    }
    None
}

/// The part that an occurrence names in a field, in the numbers of the whole deck.
pub open spec fn named_part(kw: Occurrence, field: Seq<char>) -> Option<int> {
    match field_of(kw.fields@, field) {
        Some(ValueView::Int(v)) => if v != 0 {
            Some(v + kw.part_offset)
        } else {
            None
        },
        _ => None,
    }
}

/// The base name of the material of a part, where both are defined.
pub open spec fn part_material(kws: Seq<Occurrence>, pid: int) -> Option<Seq<char>> {
    match entity_of(kws, EntityKind::Part, pid) {
        Some(part) => match part.material {
            Some(mid) => match entity_of(kws, EntityKind::Material, mid as int) {
                Some(mat) => Some(base_of(mat.name@)),
                None => None,
            },
            None => None,
        },
        None => None,
    }
}

/// What is found at a field that names a part which is not rigid.
pub open spec fn deformable_at(
    kws: Seq<Occurrence>,
    keyword: Seq<char>,
    field: Seq<char>,
    kw: Occurrence,
) -> Option<FindingView> {
    if !is_of(kw, keyword) {
        None
    } else {
        match named_part(kw, field) {
            Some(pid) => match part_material(kws, pid) {
                Some(mat) => if is_rigid_base(mat) {
                    None
                } else {
                    Some(
                        FindingView {
                            rule: "rigid_context"@,
                            severity: Severity::Error,
                            keyword: base_of(kw.name@),
                            file: kw.file@,
                            line: kw.line,
                            message: base_of(kw.name@) + "."@ + field + " references part "@
                                + dec_int(pid) + ", whose material *"@ + mat
                                + " is not *MAT_RIGID"@,
                        },
                    )
                },
                None => None,
            },
            None => None,
        }
    }
}

/// The fields of a keyword on rigid bodies that name a part.
pub open spec fn rigid_fields() -> Seq<(Seq<char>, Seq<Seq<char>>)> {
    seq![
        ("LOAD_RIGID_BODY"@, seq!["PID"@]),
        ("CONSTRAINED_RIGID_BODIES"@, seq!["PIDL"@, "PIDC"@]),
        ("CONSTRAINED_EXTRA_NODES_NODE"@, seq!["PID"@]),
        ("CONSTRAINED_EXTRA_NODES_SET"@, seq!["PID"@]),
        ("CONSTRAINED_RIGID_BODY_STOPPERS"@, seq!["PID"@]),
        ("BOUNDARY_PRESCRIBED_MOTION_RIGID"@, seq!["PID"@]),
    ]
}

/// What is found at the first `m` of the fields of one occurrence.
pub open spec fn deformable_in(
    kws: Seq<Occurrence>,
    keyword: Seq<char>,
    fields: Seq<Seq<char>>,
    kw: Occurrence,
    m: nat,
) -> Seq<FindingView>
    decreases m,
{
    if m == 0 {
        Seq::empty()
    } else {
        with_finding(
            deformable_in(kws, keyword, fields, kw, (m - 1) as nat),
            deformable_at(kws, keyword, fields[m - 1], kw),
        )
    }
}

/// What is found at the first `n` occurrences.
pub open spec fn deformable_of(
    kws: Seq<Occurrence>,
    keyword: Seq<char>,
    fields: Seq<Seq<char>>,
    n: nat,
) -> Seq<FindingView>
    decreases n,
{
    if n == 0 {
        Seq::empty()
    } else {
        deformable_of(kws, keyword, fields, (n - 1) as nat) + deformable_in(
            kws,
            keyword,
            fields,
            kws[n - 1],
            fields.len(),
        )
    }
}

/// What is found of the first `n` keywords on rigid bodies.
pub open spec fn deformable_upto(kws: Seq<Occurrence>, n: nat) -> Seq<FindingView>
    decreases n,
{
    if n == 0 {
        Seq::empty()
    } else {
        deformable_upto(kws, (n - 1) as nat) + deformable_of(
            kws,
            rigid_fields()[n - 1].0,
            rigid_fields()[n - 1].1,
            kws.len(),
        )
    }
}

fn check_field(
    kws: &Vec<Occurrence>,
    keyword: &str,
    field: &str,
    kw: &Occurrence,
    out: &mut Vec<Finding>,
)
    requires
        is_of(*kw, keyword@),
    ensures
        finding_views(final(out)@) == with_finding(
            finding_views(old(out)@),
            deformable_at(kws@, keyword@, field@, *kw),
        ),
{
    let ghost before = finding_views(out@);
    let raw: i64 = match kw.field(field) {
        Some(Value::Int(v)) => *v,
        _ => 0,
    };
    if raw == 0 {
        return;
    }
    let pid: i128 = raw as i128 + kw.part_offset as i128;
    assert(named_part(*kw, field@) == Some(pid as int));
    let mid: i64 = match find_entity(kws, EntityKind::Part, pid) {
        Some(p) => match kws[p].material {
            Some(mid) => mid,
            None => {
                return;
            },
        },
        None => {
            return;
        },
    };
    match find_entity(kws, EntityKind::Material, mid as i128) {
        Some(m) => {
            let mat: String = canonical_base(kws[m].name.as_str());
            assert(part_material(kws@, pid as int) == Some(mat@));
            // An id that is not in range belongs to no part.
            if !is_rigid_material(mat.as_str()) && -0x8000_0000_0000_0000 <= pid && pid
                <= 0x7fff_ffff_ffff_ffff {
                let base: String = canonical_base(kw.name.as_str());
                let mut message: String = copy(&base);
                message.append(".");
                message.append(field);
                message.append(" references part ");
                push_dec_int(&mut message, pid as i64);
                message.append(", whose material *");
                message.append(mat.as_str());
                message.append(" is not *MAT_RIGID");
                let f: Finding = Finding {
                    rule: String::from_str("rigid_context"),
                    severity: Severity::Error,
                    keyword: base,
                    file: copy(&kw.file),
                    line: kw.line,
                    message,
                };
                out.push(f);
                assert(finding_views(out@) =~= before.push(f@));
            }
        },
        None => {},
    }
}

fn check_keyword(kws: &Vec<Occurrence>, keyword: &str, fields: &[&str], out: &mut Vec<Finding>)
    ensures
        finding_views(final(out)@) == finding_views(old(out)@) + deformable_of(
            kws@,
            keyword@,
            texts(fields@),
            kws@.len(),
        ),
{
    let base: String = canonical_base(keyword);
    let ghost start = finding_views(out@);
    let ghost names = texts(fields@);
    assert(start + deformable_of(kws@, keyword@, names, 0) =~= start);
    for i in 0..kws.len()
        invariant
            base@ == base_of(keyword@),
            names == texts(fields@),
            finding_views(out@) == start + deformable_of(kws@, keyword@, names, i as nat),
    {
        let kw: &Occurrence = &kws[i];
        let ghost before = finding_views(out@);
        let own: String = canonical_base(kw.name.as_str());
        if same_text(own.as_str(), base.as_str()) {
            assert(before + deformable_in(kws@, keyword@, names, *kw, 0) =~= before);
            for j in 0..fields.len()
                invariant
                    is_of(*kw, keyword@),
                    names == texts(fields@),
                    finding_views(out@) == before + deformable_in(
                        kws@,
                        keyword@,
                        names,
                        *kw,
                        j as nat,
                    ),
            {
                check_field(kws, keyword, fields[j], kw, out);
                assert(names[j as int] == fields@[j as int]@);
                assert(finding_views(out@) =~= before + deformable_in(
                    kws@,
                    keyword@,
                    names,
                    *kw,
                    (j + 1) as nat,
                ));
            }
        } else {
            proof {
                lemma_not_of(kws@, keyword@, names, *kw, names.len());
            }
        }
        assert(finding_views(out@) =~= before + deformable_in(
            kws@,
            keyword@,
            names,
            *kw,
            names.len(),
        ));
        assert(finding_views(out@) =~= start + deformable_of(
            kws@,
            keyword@,
            names,
            (i + 1) as nat,
        ));
    }
}

pub open spec fn texts(s: Seq<&str>) -> Seq<Seq<char>> {
    Seq::new(s.len(), |i: int| s[i]@)
}

proof fn lemma_not_of(
    kws: Seq<Occurrence>,
    keyword: Seq<char>,
    fields: Seq<Seq<char>>,
    kw: Occurrence,
    m: nat,
)
    requires
        !is_of(kw, keyword),
    ensures
        deformable_in(kws, keyword, fields, kw, m) == Seq::<FindingView>::empty(),
    decreases m,
{
    if m > 0 {
        lemma_not_of(kws, keyword, fields, kw, (m - 1) as nat);
    }
}

/// Finds the keywords on rigid bodies that name a part which is not rigid.
pub fn find_deformable(deck: &Deck) -> (r: Vec<Finding>)
    ensures
        finding_views(r@) == deformable_upto(deck.occurrences@, rigid_fields().len()),
{
    let mut out: Vec<Finding> = Vec::new();
    let kws: &Vec<Occurrence> = &deck.occurrences;
    let pid: [&str; 1] = ["PID"];
    let both: [&str; 2] = ["PIDL", "PIDC"];
    assert(texts(pid@) =~= seq!["PID"@]);
    assert(texts(both@) =~= seq!["PIDL"@, "PIDC"@]);
    assert(finding_views(out@) =~= deformable_upto(kws@, 0));
    check_keyword(kws, "LOAD_RIGID_BODY", &pid, &mut out);
    assert(finding_views(out@) == deformable_upto(kws@, 1));
    check_keyword(kws, "CONSTRAINED_RIGID_BODIES", &both, &mut out);
    assert(finding_views(out@) == deformable_upto(kws@, 2));
    check_keyword(kws, "CONSTRAINED_EXTRA_NODES_NODE", &pid, &mut out);
    assert(finding_views(out@) == deformable_upto(kws@, 3));
    check_keyword(kws, "CONSTRAINED_EXTRA_NODES_SET", &pid, &mut out);
    assert(finding_views(out@) == deformable_upto(kws@, 4));
    check_keyword(kws, "CONSTRAINED_RIGID_BODY_STOPPERS", &pid, &mut out);
    assert(finding_views(out@) == deformable_upto(kws@, 5));
    check_keyword(kws, "BOUNDARY_PRESCRIBED_MOTION_RIGID", &pid, &mut out);
    assert(finding_views(out@) == deformable_upto(kws@, 6));
    out
}

} // verus!
