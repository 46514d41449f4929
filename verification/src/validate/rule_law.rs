//! What the rules on keywords, fields and parts find, and where.

use crate::deck::file::{count_lines, same_word, ParsedFile};
use crate::deck::schema::{EntityKind, Ref};
use crate::text::{dec_int, text_of};
use crate::validate::entities::{
    deformable_at, deformable_in, deformable_of, deformable_upto, defines_here, entity_of,
    entity_place, part_material, rigid_fields, unused_of, unused_upto,
};
use crate::validate::expr::{all_hold, any_holds, holds, in_words, Expr, FieldPredicate};
use crate::validate::fields::{
    bad_values_upto, condition_text, forbidden_in, forbidden_upto, got_text, missing_upto,
    one_equals, unmet_upto,
};
use crate::validate::finding_law::at_places;
use crate::validate::ids::{points_at, referenced};
use crate::validate::model::{field_of, field_place, Deck, Occurrence};
use crate::validate::names::{base_of, kind_text, upper_text};
use crate::validate::report::{
    holds_any, holds_text, lower, stands_at, FileScope, FindingView, Severity,
};
use crate::validate::rules::{applied, stamped, RuleKind};
use crate::validate::value::{Cmp, Value, ValueView};
use vstd::prelude::*;

verus! {

/// What the rule on a field's values finds at occurrence `i`.
pub open spec fn value_finding(
    keyword: Seq<char>,
    field: Seq<char>,
    kws: Seq<Occurrence>,
    i: int,
) -> FindingView {
    FindingView {
        rule: "field_forbidden_values("@ + keyword + "."@ + field + ")"@,
        severity: Severity::Error,
        keyword: base_of(keyword),
        file: kws[i].file@,
        line: kws[i].line,
        message: field + " = "@ + (field_of(kws[i].fields@, field)->0).display()
            + " is forbidden"@,
    }
}

/// Occurrence `i` is one of the keyword, has the field, and the field has one of the
/// values.
pub open spec fn has_value(
    keyword: Seq<char>,
    field: Seq<char>,
    values: Seq<Value>,
    kws: Seq<Occurrence>,
    i: int,
) -> bool {
    &&& base_of(kws[i].name@) == base_of(keyword)
    &&& field_of(kws[i].fields@, field) is Some
    &&& exists|v: int|
        0 <= v < values.len() && Cmp::Eq.of(
            #[trigger] values[v]@,
            field_of(kws[i].fields@, field)->0,
        )
}

/// The rule on a field's values finds each occurrence whose field has one of them.
pub proof fn law_forbidden_values(keyword: String, field: String, values: Vec<Value>, deck: Deck)
    ensures
        (RuleKind::FieldForbiddenValues { keyword, field, values }).finds(deck) == at_places(
            deck.occurrences@.len(),
            |i: int| has_value(keyword@, field@, values@, deck.occurrences@, i),
            |i: int| value_finding(keyword@, field@, deck.occurrences@, i),
        ),
{
    lemma_values(keyword@, field@, values@, deck.occurrences@, deck.occurrences@.len());
}

proof fn lemma_step(
    n: nat,
    p: spec_fn(int) -> bool,
    f: spec_fn(int) -> FindingView,
)
    ensures
        n == 0 ==> at_places(n, p, f) == Seq::<FindingView>::empty(),
        n > 0 ==> at_places(n, p, f) == (if p(n - 1) {
            at_places((n - 1) as nat, p, f).push(f(n - 1))
        } else {
            at_places((n - 1) as nat, p, f)
        }),
{
    reveal(Seq::filter);
    let s = Seq::new(n, |i: int| i);
    if n == 0 {
        assert(at_places(n, p, f) =~= Seq::<FindingView>::empty());
    } else {
        assert(s.drop_last() =~= Seq::new((n - 1) as nat, |i: int| i));
        assert(s.last() == n - 1);
        assert(at_places(n, p, f) =~= (if p(n - 1) {
            at_places((n - 1) as nat, p, f).push(f(n - 1))
        } else {
            at_places((n - 1) as nat, p, f)
        }));
    }
}

proof fn lemma_values(
    keyword: Seq<char>,
    field: Seq<char>,
    values: Seq<Value>,
    kws: Seq<Occurrence>,
    n: nat,
)
    requires
        n <= kws.len(),
    ensures
        bad_values_upto(keyword, field, values, kws, n) == at_places(
            n,
            |i: int| has_value(keyword, field, values, kws, i),
            |i: int| value_finding(keyword, field, kws, i),
        ),
    decreases n,
{
    let p = |i: int| has_value(keyword, field, values, kws, i);
    let f = |i: int| value_finding(keyword, field, kws, i);
    lemma_step(n, p, f);
    if n > 0 {
        lemma_values(keyword, field, values, kws, (n - 1) as nat);
        let kw = kws[n - 1];
        if field_of(kw.fields@, field) is Some {
            let v = field_of(kw.fields@, field)->0;
            if one_equals(values, v) {
                let i = choose|i: int| 0 <= i < values.len() && #[trigger] Cmp::Eq.of(values[i]@, v);
                assert(Cmp::Eq.of(values[i]@, v));
            }
            if has_value(keyword, field, values, kws, n - 1) {
                let i = choose|i: int|
                    0 <= i < values.len() && Cmp::Eq.of(#[trigger] values[i]@, v);
                assert(Cmp::Eq.of(values[i]@, v));
            }
        }
    }
}

/// What the rule on a required field finds at occurrence `i`.
pub open spec fn unmet_finding(
    keyword: Seq<char>,
    when: Option<Expr>,
    require: Expr,
    kws: Seq<Occurrence>,
    i: int,
) -> FindingView {
    FindingView {
        rule: "field_required("@ + keyword + ")"@,
        severity: Severity::Error,
        keyword: base_of(keyword),
        file: kws[i].file@,
        line: kws[i].line,
        message: "requires "@ + in_words(require) + condition_text(when) + got_text(
            require,
            kws[i],
        ),
    }
}

/// Occurrence `i` is one of the keyword, the condition holds of it if there is one, and
/// what is required does not.
pub open spec fn lacks(
    keyword: Seq<char>,
    when: Option<Expr>,
    require: Expr,
    kws: Seq<Occurrence>,
    i: int,
) -> bool {
    &&& base_of(kws[i].name@) == base_of(keyword)
    &&& match when {
        Some(w) => holds(w, kws[i]),
        None => true,
    }
    &&& !holds(require, kws[i])
}

/// The rule on a required field finds each occurrence under its condition that does not
/// meet what it asks for.
pub proof fn law_required_fields(keyword: String, when: Option<Expr>, require: Expr, deck: Deck)
    ensures
        (RuleKind::FieldRequired { keyword, when, require }).finds(deck) == at_places(
            deck.occurrences@.len(),
            |i: int| lacks(keyword@, when, require, deck.occurrences@, i),
            |i: int| unmet_finding(keyword@, when, require, deck.occurrences@, i),
        ),
{
    lemma_unmet(keyword@, when, require, deck.occurrences@, deck.occurrences@.len());
}

proof fn lemma_unmet(
    keyword: Seq<char>,
    when: Option<Expr>,
    require: Expr,
    kws: Seq<Occurrence>,
    n: nat,
)
    requires
        n <= kws.len(),
    ensures
        unmet_upto(keyword, when, require, kws, n) == at_places(
            n,
            |i: int| lacks(keyword, when, require, kws, i),
            |i: int| unmet_finding(keyword, when, require, kws, i),
        ),
    decreases n,
{
    let p = |i: int| lacks(keyword, when, require, kws, i);
    let f = |i: int| unmet_finding(keyword, when, require, kws, i);
    lemma_step(n, p, f);
    if n > 0 {
        lemma_unmet(keyword, when, require, kws, (n - 1) as nat);
    }
}

/// What the rule on files finds of named file `i`: it stands in the file that names it.
pub open spec fn missing_finding(deck: Deck, i: int) -> FindingView {
    let f = deck.named_files@[i];
    FindingView {
        rule: "include_missing"@,
        severity: Severity::Error,
        keyword: "INCLUDE"@,
        file: deck.files@[f.from as int].path@,
        line: 0,
        message: "include '"@ + f.raw_path@ + "' resolves to a missing file: "@
            + f.resolved_path@,
    }
}

/// The rule on files finds each named file that does not exist.
pub proof fn law_missing_files(deck: Deck)
    ensures
        RuleKind::IncludeMissing.finds(deck) == at_places(
            deck.named_files@.len(),
            |i: int| !deck.named_files@[i].exists,
            |i: int| missing_finding(deck, i),
        ),
{
    lemma_missing(deck, deck.named_files@.len());
}

proof fn lemma_missing(deck: Deck, n: nat)
    requires
        n <= deck.named_files@.len(),
    ensures
        missing_upto(deck, n) == at_places(
            n,
            |i: int| !deck.named_files@[i].exists,
            |i: int| missing_finding(deck, i),
        ),
    decreases n,
{
    let p = |i: int| !deck.named_files@[i].exists;
    let f = |i: int| missing_finding(deck, i);
    lemma_step(n, p, f);
    if n > 0 {
        lemma_missing(deck, (n - 1) as nat);
    }
}

/// What the rule on a keyword finds at block `i` of a file.
pub open spec fn forbidden_finding(keyword: Seq<char>, file: ParsedFile, i: int) -> FindingView {
    FindingView {
        rule: "keyword_forbidden("@ + keyword + ")"@,
        severity: Severity::Error,
        keyword: base_of(keyword),
        file: file.path@,
        line: (1 + count_lines(file.src@.take(file.blocks@[i].name_start as int))) as usize,
        message: "keyword *"@ + base_of(keyword) + " is not allowed here"@,
    }
}

/// Block `i` of a file is one of the keyword.
pub open spec fn is_block_of(keyword: Seq<char>, file: ParsedFile, i: int) -> bool {
    let b = file.blocks@[i];
    base_of(text_of(file.src@.subrange(b.name_start as int, b.name_end as int))) == base_of(keyword)
}

/// The rule on a keyword finds each of its blocks, file by file, at its line.
pub proof fn law_forbidden_keyword(keyword: String, deck: Deck)
    ensures
        (RuleKind::KeywordForbidden { keyword }).finds(deck) == deck.files@.map_values(
            |file: ParsedFile|
                at_places(
                    file.blocks@.len(),
                    |i: int| is_block_of(keyword@, file, i),
                    |i: int| forbidden_finding(keyword@, file, i),
                ),
        ).flatten(),
{
    lemma_forbidden(keyword@, deck.files@, deck.files@.len());
    assert(deck.files@.take(deck.files@.len() as int) =~= deck.files@);
}

proof fn lemma_forbidden_in(keyword: Seq<char>, file: ParsedFile, n: nat)
    requires
        n <= file.blocks@.len(),
    ensures
        forbidden_in(keyword, file, n) == at_places(
            n,
            |i: int| is_block_of(keyword, file, i),
            |i: int| forbidden_finding(keyword, file, i),
        ),
    decreases n,
{
    let p = |i: int| is_block_of(keyword, file, i);
    let f = |i: int| forbidden_finding(keyword, file, i);
    lemma_step(n, p, f);
    if n > 0 {
        lemma_forbidden_in(keyword, file, (n - 1) as nat);
    }
}

proof fn lemma_forbidden(keyword: Seq<char>, files: Seq<ParsedFile>, n: nat)
    requires
        n <= files.len(),
    ensures
        forbidden_upto(keyword, files, n) == files.take(n as int).map_values(
            |file: ParsedFile|
                at_places(
                    file.blocks@.len(),
                    |i: int| is_block_of(keyword, file, i),
                    |i: int| forbidden_finding(keyword, file, i),
                ),
        ).flatten(),
    decreases n,
{
    let g = |file: ParsedFile|
        at_places(
            file.blocks@.len(),
            |i: int| is_block_of(keyword, file, i),
            |i: int| forbidden_finding(keyword, file, i),
        );
    if n == 0 {
        assert(files.take(0).map_values(g) =~= Seq::empty());
    } else {
        let m = (n - 1) as nat;
        lemma_forbidden(keyword, files, m);
        let file = files[m as int];
        lemma_forbidden_in(keyword, file, file.blocks@.len());
        assert(files.take(n as int).map_values(g) =~= files.take(m as int).map_values(g).push(
            g(file),
        ));
        files.take(m as int).map_values(g).lemma_flatten_push(g(file));
    }
}

/// Something refers to the entity, other than an element to its nodes.
pub open spec fn is_used(deck: Deck, kind: EntityKind, id: i64) -> bool {
    exists|r: int|
        0 <= r < deck.references@.len() && !(#[trigger] deck.references@[r]).connectivity
            && deck.references@[r].id == id && match deck.references@[r].target {
            Ref::To(k) => k == kind,
            Ref::AnyOf(ks) => ks@.contains(kind),
            Ref::Nothing => false,
        }
}

/// Occurrence `i` defines an entity of a kind, and nothing refers to it.
pub open spec fn is_unused(deck: Deck, kind: EntityKind, i: int) -> bool {
    let kw = deck.occurrences@[i];
    kw.kind == Some(kind) && kw.id is Some && !is_used(deck, kind, kw.id->0)
}

/// What the rule on unused entities finds at occurrence `i`.
pub open spec fn unused_finding(deck: Deck, kind: EntityKind, i: int) -> FindingView {
    let kw = deck.occurrences@[i];
    FindingView {
        rule: "unreferenced_entities"@,
        severity: Severity::Warning,
        keyword: base_of(kw.name@),
        file: kw.file@,
        line: kw.line,
        message: kind_text(kind) + " "@ + dec_int(kw.id->0 as int)
            + " is defined but never referenced"@,
    }
}

/// The rule on unused entities finds, kind by kind, each entity that nothing refers to.
pub proof fn law_unused_entities(kinds: Vec<EntityKind>, deck: Deck)
    ensures
        (RuleKind::UnreferencedEntities { kinds }).finds(deck) == kinds@.map_values(
            |kind: EntityKind|
                at_places(
                    deck.occurrences@.len(),
                    |i: int| is_unused(deck, kind, i),
                    |i: int| unused_finding(deck, kind, i),
                ),
        ).flatten(),
{
    lemma_unused(deck, kinds@, kinds@.len());
    assert(kinds@.take(kinds@.len() as int) =~= kinds@);
}

proof fn lemma_used(deck: Deck, kind: EntityKind, id: i64)
    ensures
        is_used(deck, kind, id) == referenced(deck.references@, kind, id),
{
    let s = deck.references@;
    if referenced(s, kind, id) {
        let i = choose|i: int|
            0 <= i < s.len() && !(#[trigger] s[i]).connectivity && points_at(s[i].target, kind)
                && s[i].id == id;
        assert(!deck.references@[i].connectivity);
    }
    if is_used(deck, kind, id) {
        let r = choose|r: int|
            0 <= r < deck.references@.len() && !(#[trigger] deck.references@[r]).connectivity
                && deck.references@[r].id == id && match deck.references@[r].target {
                Ref::To(k) => k == kind,
                Ref::AnyOf(ks) => ks@.contains(kind),
                Ref::Nothing => false,
            };
        assert(points_at(s[r].target, kind));
    }
}

proof fn lemma_unused_of(deck: Deck, kind: EntityKind, n: nat)
    requires
        n <= deck.occurrences@.len(),
    ensures
        unused_of(deck, kind, n) == at_places(
            n,
            |i: int| is_unused(deck, kind, i),
            |i: int| unused_finding(deck, kind, i),
        ),
    decreases n,
{
    let p = |i: int| is_unused(deck, kind, i);
    let f = |i: int| unused_finding(deck, kind, i);
    lemma_step(n, p, f);
    if n > 0 {
        lemma_unused_of(deck, kind, (n - 1) as nat);
        if deck.occurrences@[n - 1].id is Some {
            lemma_used(deck, kind, deck.occurrences@[n - 1].id->0);
        }
    }
}

proof fn lemma_unused(deck: Deck, kinds: Seq<EntityKind>, n: nat)
    requires
        n <= kinds.len(),
    ensures
        unused_upto(deck, kinds, n) == kinds.take(n as int).map_values(
            |kind: EntityKind|
                at_places(
                    deck.occurrences@.len(),
                    |i: int| is_unused(deck, kind, i),
                    |i: int| unused_finding(deck, kind, i),
                ),
        ).flatten(),
    decreases n,
{
    let g = |kind: EntityKind|
        at_places(
            deck.occurrences@.len(),
            |i: int| is_unused(deck, kind, i),
            |i: int| unused_finding(deck, kind, i),
        );
    if n == 0 {
        assert(kinds.take(0).map_values(g) =~= Seq::empty());
    } else {
        let m = (n - 1) as nat;
        lemma_unused(deck, kinds, m);
        lemma_unused_of(deck, kinds[m as int], deck.occurrences@.len());
        assert(kinds.take(n as int).map_values(g) =~= kinds.take(m as int).map_values(g).push(
            g(kinds[m as int]),
        ));
        kinds.take(m as int).map_values(g).lemma_flatten_push(g(kinds[m as int]));
    }
}

/// Occurrence `p` is the first that defines part `pid`, and occurrence `m` the first that
/// defines its material.
pub open spec fn is_made_of(kws: Seq<Occurrence>, pid: int, p: int, m: int) -> bool {
    &&& 0 <= p < kws.len()
    &&& kws[p].kind == Some(EntityKind::Part)
    &&& (kws[p].id matches Some(x) && x == pid)
    &&& forall|k: int|
        0 <= k < p ==> !((#[trigger] kws[k]).kind == Some(EntityKind::Part) && (
        kws[k].id matches Some(x) && x == pid))
    &&& kws[p].material is Some
    &&& 0 <= m < kws.len()
    &&& kws[m].kind == Some(EntityKind::Material)
    &&& kws[m].id == kws[p].material
    &&& forall|k: int|
        0 <= k < m ==> !((#[trigger] kws[k]).kind == Some(EntityKind::Material) && kws[k].id
            == kws[p].material)
}

/// A field on a rigid body is found to be wrong if and only if it names a part, that part
/// and its material are defined, and the material is not the rigid one. The number in the
/// field is that of the file; what the file's part ids are offset by is added to it.
pub proof fn law_deformable_parts(
    kws: Seq<Occurrence>,
    keyword: Seq<char>,
    field: Seq<char>,
    kw: Occurrence,
)
    ensures
        deformable_at(kws, keyword, field, kw) is Some <==> base_of(kw.name@) == base_of(keyword)
            && exists|v: int, p: int, m: int|
            {
                &&& field_of(kw.fields@, field) == Some(ValueView::Int(v))
                &&& v != 0
                &&& #[trigger] is_made_of(kws, v + kw.part_offset, p, m)
                &&& base_of(kws[m].name@) != "MAT_RIGID"@
                &&& base_of(kws[m].name@) != "MAT_020"@
                &&& base_of(kws[m].name@) != "MAT_20"@
            },
        deformable_at(kws, keyword, field, kw) matches Some(f) ==> f.rule == "rigid_context"@
            && f.severity == Severity::Error && f.keyword == base_of(kw.name@) && f.file == kw.file@
            && f.line == kw.line,
{
    let x = field_of(kw.fields@, field);
    if x is Some && x->0 is Int && x->0->Int_0 != 0 {
        let v = x->0->Int_0;
        let pid = v + kw.part_offset;
        if part_material(kws, pid) is Some {
            let p = choose|i: int| #[trigger] entity_place(kws, EntityKind::Part, pid, i);
            let mid = kws[p].material->0 as int;
            let m = choose|i: int| #[trigger] entity_place(kws, EntityKind::Material, mid, i);
            assert(entity_place(kws, EntityKind::Part, pid, p));
            assert(entity_place(kws, EntityKind::Material, mid, m));
            assert forall|k: int| 0 <= k < p implies !((#[trigger] kws[k]).kind == Some(
                EntityKind::Part,
            ) && (kws[k].id matches Some(x) && x == pid)) by {
                assert(!defines_here(kws[k], EntityKind::Part, pid));
            }
            assert forall|k: int| 0 <= k < m implies !((#[trigger] kws[k]).kind == Some(
                EntityKind::Material,
            ) && kws[k].id == kws[p].material) by {
                assert(!defines_here(kws[k], EntityKind::Material, mid));
            }
            assert(is_made_of(kws, v + kw.part_offset, p, m));
        }
    }
    if exists|v: int, p: int, m: int|
        {
            &&& field_of(kw.fields@, field) == Some(ValueView::Int(v))
            &&& v != 0
            &&& #[trigger] is_made_of(kws, v + kw.part_offset, p, m)
            &&& base_of(kws[m].name@) != "MAT_RIGID"@
            &&& base_of(kws[m].name@) != "MAT_020"@
            &&& base_of(kws[m].name@) != "MAT_20"@
        } {
        let (v, p, m) = choose|v: int, p: int, m: int|
            {
                &&& field_of(kw.fields@, field) == Some(ValueView::Int(v))
                &&& v != 0
                &&& #[trigger] is_made_of(kws, v + kw.part_offset, p, m)
                &&& base_of(kws[m].name@) != "MAT_RIGID"@
                &&& base_of(kws[m].name@) != "MAT_020"@
                &&& base_of(kws[m].name@) != "MAT_20"@
            };
        let pid = v + kw.part_offset;
        lemma_place(kws, EntityKind::Part, pid, p);
        lemma_place(kws, EntityKind::Material, kws[p].material->0 as int, m);
    }
}

proof fn lemma_place(kws: Seq<Occurrence>, kind: EntityKind, id: int, p: int)
    requires
        0 <= p < kws.len(),
        defines_here(kws[p], kind, id),
        forall|k: int|
            0 <= k < p ==> !((#[trigger] kws[k]).kind == Some(kind) && (kws[k].id matches Some(x)
                && x == id)),
    ensures
        entity_of(kws, kind, id) == Some(kws[p]),
{
    assert forall|k: int| 0 <= k < p implies !#[trigger] defines_here(kws[k], kind, id) by {
        assert(!(kws[k].kind == Some(kind) && (kws[k].id matches Some(x) && x == id)));
    }
    assert(entity_place(kws, kind, id, p));
    let j = choose|j: int| #[trigger] entity_place(kws, kind, id, j);
    if p < j {
        assert(!defines_here(kws[p], kind, id));
    }
    if j < p {
        assert(!defines_here(kws[j], kind, id));
    }
}

/// The findings of a list of fields of one occurrence.
pub open spec fn at_fields(
    kws: Seq<Occurrence>,
    keyword: Seq<char>,
    fields: Seq<Seq<char>>,
    kw: Occurrence,
) -> Seq<FindingView> {
    at_places(
        fields.len(),
        |j: int| deformable_at(kws, keyword, fields[j], kw) is Some,
        |j: int| deformable_at(kws, keyword, fields[j], kw)->0,
    )
}

/// The findings of a list of fields of all occurrences.
pub open spec fn at_keyword(
    kws: Seq<Occurrence>,
    keyword: Seq<char>,
    fields: Seq<Seq<char>>,
) -> Seq<FindingView> {
    kws.map_values(|kw: Occurrence| at_fields(kws, keyword, fields, kw)).flatten()
}

proof fn lemma_at_fields(
    kws: Seq<Occurrence>,
    keyword: Seq<char>,
    fields: Seq<Seq<char>>,
    kw: Occurrence,
    n: nat,
)
    requires
        n <= fields.len(),
    ensures
        deformable_in(kws, keyword, fields, kw, n) == at_places(
            n,
            |j: int| deformable_at(kws, keyword, fields[j], kw) is Some,
            |j: int| deformable_at(kws, keyword, fields[j], kw)->0,
        ),
    decreases n,
{
    let p = |j: int| deformable_at(kws, keyword, fields[j], kw) is Some;
    let f = |j: int| deformable_at(kws, keyword, fields[j], kw)->0;
    lemma_step(n, p, f);
    if n > 0 {
        lemma_at_fields(kws, keyword, fields, kw, (n - 1) as nat);
    }
}

proof fn lemma_at_keyword(
    kws: Seq<Occurrence>,
    keyword: Seq<char>,
    fields: Seq<Seq<char>>,
    n: nat,
)
    requires
        n <= kws.len(),
    ensures
        deformable_of(kws, keyword, fields, n) == kws.take(n as int).map_values(
            |kw: Occurrence| at_fields(kws, keyword, fields, kw),
        ).flatten(),
    decreases n,
{
    let g = |kw: Occurrence| at_fields(kws, keyword, fields, kw);
    if n == 0 {
        assert(kws.take(0).map_values(g) =~= Seq::empty());
    } else {
        let m = (n - 1) as nat;
        lemma_at_keyword(kws, keyword, fields, m);
        lemma_at_fields(kws, keyword, fields, kws[m as int], fields.len());
        assert(kws.take(n as int).map_values(g) =~= kws.take(m as int).map_values(g).push(
            g(kws[m as int]),
        ));
        kws.take(m as int).map_values(g).lemma_flatten_push(g(kws[m as int]));
    }
}

/// The rule on rigid bodies looks at six keywords, and at all fields of each that name a
/// part.
pub proof fn law_rigid_keywords(deck: Deck)
    ensures
        RuleKind::RigidContext.finds(deck) == ({
            let kws = deck.occurrences@;
            at_keyword(kws, "LOAD_RIGID_BODY"@, seq!["PID"@]) + at_keyword(
                kws,
                "CONSTRAINED_RIGID_BODIES"@,
                seq!["PIDL"@, "PIDC"@],
            ) + at_keyword(kws, "CONSTRAINED_EXTRA_NODES_NODE"@, seq!["PID"@]) + at_keyword(
                kws,
                "CONSTRAINED_EXTRA_NODES_SET"@,
                seq!["PID"@],
            ) + at_keyword(kws, "CONSTRAINED_RIGID_BODY_STOPPERS"@, seq!["PID"@]) + at_keyword(
                kws,
                "BOUNDARY_PRESCRIBED_MOTION_RIGID"@,
                seq!["PID"@],
            )
        }),
{
    let kws = deck.occurrences@;
    let n = kws.len();
    assert(kws.take(n as int) =~= kws);
    let r = rigid_fields();
    lemma_at_keyword(kws, r[0].0, r[0].1, n);
    lemma_at_keyword(kws, r[1].0, r[1].1, n);
    lemma_at_keyword(kws, r[2].0, r[2].1, n);
    lemma_at_keyword(kws, r[3].0, r[3].1, n);
    lemma_at_keyword(kws, r[4].0, r[4].1, n);
    lemma_at_keyword(kws, r[5].0, r[5].1, n);
    reveal_with_fuel(deformable_upto, 7);
    assert(Seq::<FindingView>::empty() + deformable_of(kws, r[0].0, r[0].1, n) =~= deformable_of(
        kws,
        r[0].0,
        r[0].1,
        n,
    ));
}

/// A rule keeps all that its check finds in the files that it is for, in order, and
/// nothing else; a severity of its own replaces that of the check.
pub proof fn law_rule_filters(
    s: Seq<FindingView>,
    severity: Option<Severity>,
    scope: FileScope,
)
    ensures
        applied(s, severity, scope) == s.filter(|f: FindingView| scope.covers(f.file)).map_values(
            |f: FindingView|
                (FindingView {
                    severity: match severity {
                        Some(v) => v,
                        None => f.severity,
                    },
                    ..f
                }),
        ),
    decreases s.len(),
{
    let p = |f: FindingView| scope.covers(f.file);
    let g = |f: FindingView|
        (FindingView {
            severity: match severity {
                Some(v) => v,
                None => f.severity,
            },
            ..f
        });
    reveal(Seq::filter);
    if s.len() == 0 {
        assert(applied(s, severity, scope) =~= s.filter(p).map_values(g));
    } else {
        law_rule_filters(s.drop_last(), severity, scope);
        assert(stamped(s.last(), severity) == g(s.last()));
        assert(applied(s, severity, scope) =~= s.filter(p).map_values(g));
    }
}

/// The same byte but for the case of an ASCII letter.
pub open spec fn same_letter(a: u8, b: u8) -> bool {
    a == b || (65 <= a <= 90 && b == a + 32) || (97 <= a <= 122 && b == a - 32)
}

/// `t` stands in `s`: what is cut out of `s` somewhere is `t`, but for the case of
/// letters.
pub open spec fn stands_in(s: Seq<char>, t: Seq<char>) -> bool {
    exists|a: Seq<u8>, m: Seq<u8>, b: Seq<u8>|
        {
            &&& vstd::utf8::encode_utf8(s) == #[trigger] (a + m + b)
            &&& m.len() == vstd::utf8::encode_utf8(t).len()
            &&& forall|i: int|
                0 <= i < m.len() ==> same_letter(
                    #[trigger] m[i],
                    vstd::utf8::encode_utf8(t)[i],
                )
        }
}

/// A rule for all files is for each; one for some files is for those whose path holds one
/// of its texts, whatever the case of their letters; one that leaves out some files is for
/// the others.
pub proof fn law_scope(pats: Vec<String>, path: Seq<char>)
    ensures
        FileScope::Anywhere.covers(path),
        FileScope::OnlyIn(pats).covers(path) <==> exists|j: int|
            0 <= j < pats@.len() && stands_in(path, #[trigger] pats@[j]@),
        FileScope::ExceptIn(pats).covers(path) <==> forall|j: int|
            0 <= j < pats@.len() ==> !stands_in(path, #[trigger] pats@[j]@),
{
    assert forall|j: int| 0 <= j < pats@.len() implies stands_in(path, #[trigger] pats@[j]@)
        == holds_text(path, pats@[j]@) by {
        lemma_stands_in(path, pats@[j]@);
    }
    if holds_any(path, pats@) {
        let j = choose|j: int| 0 <= j < pats@.len() && #[trigger] holds_text(path, pats@[j]@);
        assert(stands_in(path, pats@[j]@));
    }
    if exists|j: int| 0 <= j < pats@.len() && stands_in(path, #[trigger] pats@[j]@) {
        let j = choose|j: int| 0 <= j < pats@.len() && stands_in(path, #[trigger] pats@[j]@);
        assert(holds_text(path, pats@[j]@));
    }
}

proof fn lemma_stands_in(s: Seq<char>, t: Seq<char>)
    ensures
        stands_in(s, t) == holds_text(s, t),
{
    let x = vstd::utf8::encode_utf8(s);
    let y = vstd::utf8::encode_utf8(t);
    if holds_text(s, t) {
        let i = choose|i: int| #[trigger] stands_at(x, y, i);
        let a = x.take(i);
        let m = x.subrange(i, i + y.len());
        let b = x.skip(i + y.len());
        assert(x =~= a + m + b);
        assert forall|k: int| 0 <= k < m.len() implies same_letter(#[trigger] m[k], y[k]) by {
            assert(lower(y[k]) == lower(x[i + k]));
        }
        assert(stands_in(s, t));
    }
    if stands_in(s, t) {
        let (a, m, b) = choose|a: Seq<u8>, m: Seq<u8>, b: Seq<u8>|
            {
                &&& vstd::utf8::encode_utf8(s) == #[trigger] (a + m + b)
                &&& m.len() == vstd::utf8::encode_utf8(t).len()
                &&& forall|i: int|
                    0 <= i < m.len() ==> same_letter(
                        #[trigger] m[i],
                        vstd::utf8::encode_utf8(t)[i],
                    )
            };
        let i = a.len() as int;
        assert forall|k: int| 0 <= k < y.len() implies lower(#[trigger] y[k]) == lower(x[i + k]) by {
            assert(x[i + k] == m[k]);
            assert(same_letter(m[k], y[k]));
        }
        assert(stands_at(x, y, i));
    }
}

/// The value of a field is that of the first field of that name; the case of the name does
/// not matter.
pub proof fn law_first_field(fields: Seq<(String, Value)>, name: Seq<char>, i: int)
    requires
        0 <= i < fields.len(),
        same_word(vstd::utf8::encode_utf8(fields[i].0@), vstd::utf8::encode_utf8(name)),
        forall|k: int|
            0 <= k < i ==> !same_word(
                vstd::utf8::encode_utf8((#[trigger] fields[k]).0@),
                vstd::utf8::encode_utf8(name),
            ),
    ensures
        field_of(fields, name) == Some(fields[i].1@),
{
    assert(field_place(fields, name, i));
    let j = choose|j: int| #[trigger] field_place(fields, name, j);
    if i < j {
        assert(!same_word(
            vstd::utf8::encode_utf8(fields[i].0@),
            vstd::utf8::encode_utf8(name),
        ));
    }
    if j < i {
        assert(!same_word(
            vstd::utf8::encode_utf8(fields[j].0@),
            vstd::utf8::encode_utf8(name),
        ));
    }
}

/// Without a field of that name there is no value.
pub proof fn law_no_field(fields: Seq<(String, Value)>, name: Seq<char>)
    requires
        forall|k: int|
            0 <= k < fields.len() ==> !same_word(
                vstd::utf8::encode_utf8((#[trigger] fields[k]).0@),
                vstd::utf8::encode_utf8(name),
            ),
    ensures
        field_of(fields, name) is None,
{
    if exists|i: int| #[trigger] field_place(fields, name, i) {
        let i = choose|i: int| #[trigger] field_place(fields, name, i);
        assert(!same_word(
            vstd::utf8::encode_utf8(fields[i].0@),
            vstd::utf8::encode_utf8(name),
        ));
    }
}

/// A condition on a field holds where the field is there and compares so; one on all, on
/// one of, or on none of other conditions holds where all, one, or none of them do.
pub proof fn law_conditions(p: FieldPredicate, v: Vec<Expr>, x: Box<Expr>, kw: Occurrence)
    ensures
        holds(Expr::Field(p), kw) <==> field_of(kw.fields@, p.field@) is Some && p.cmp.of(
            field_of(kw.fields@, p.field@)->0,
            p.value@,
        ),
        holds(Expr::All(v), kw) <==> forall|i: int|
            0 <= i < v@.len() ==> holds(#[trigger] v@[i], kw),
        holds(Expr::Any(v), kw) <==> exists|i: int|
            0 <= i < v@.len() && holds(#[trigger] v@[i], kw),
        holds(Expr::Not(x), kw) <==> !holds(*x, kw),
{
    lemma_lists(v, kw, v@.len());
}

proof fn lemma_lists(v: Vec<Expr>, kw: Occurrence, n: nat)
    requires
        n <= v@.len(),
    ensures
        all_hold(v, kw, n) <==> forall|i: int| 0 <= i < n ==> holds(#[trigger] v@[i], kw),
        any_holds(v, kw, n) <==> exists|i: int| 0 <= i < n && holds(#[trigger] v@[i], kw),
    decreases n,
{
    if n > 0 {
        lemma_lists(v, kw, (n - 1) as nat);
        if any_holds(v, kw, n) {
            if holds(v@[n - 1], kw) {
            } else {
                let i = choose|i: int| 0 <= i < n - 1 && holds(#[trigger] v@[i], kw);
                assert(holds(v@[i], kw));
            }
        }
    }
}

/// The comparisons fit together: unequal is not equal; at most is below or equal; above is
/// below the other way round; at least is at most the other way round. A text is below and
/// above nothing, and equals the same text alone.
pub proof fn law_comparisons(a: ValueView, b: ValueView)
    ensures
        Cmp::Ne.of(a, b) == !Cmp::Eq.of(a, b),
        Cmp::Le.of(a, b) <==> Cmp::Lt.of(a, b) || (Cmp::Eq.of(a, b) && !(a is Str) && !(b is Str)),
        Cmp::Gt.of(a, b) == Cmp::Lt.of(b, a),
        Cmp::Ge.of(a, b) == Cmp::Le.of(b, a),
        Cmp::Eq.of(a, b) == Cmp::Eq.of(b, a),
        !(Cmp::Lt.of(a, b) && Cmp::Lt.of(b, a)),
        !(Cmp::Lt.of(a, b) && Cmp::Eq.of(a, b)),
        a is Str || b is Str ==> !Cmp::Lt.of(a, b) && !Cmp::Le.of(a, b),
        a is Str && b is Str ==> (Cmp::Eq.of(a, b) <==> a->Str_0 == b->Str_0),
        (a is Str) != (b is Str) ==> !Cmp::Eq.of(a, b),
{
}

/// Integers of at most 53 bits compare as integers.
pub proof fn law_integers_compare(a: int, b: int)
    requires
        -0x20_0000_0000_0000 < a < 0x20_0000_0000_0000,
        -0x20_0000_0000_0000 < b < 0x20_0000_0000_0000,
    ensures
        Cmp::Lt.of(ValueView::Int(a), ValueView::Int(b)) <==> a < b,
        Cmp::Eq.of(ValueView::Int(a), ValueView::Int(b)) <==> a == b,
{
    crate::ieee::law_integers_keep_their_order(a, b);
}

/// The name of a keyword counts without `_TITLE` and `_ID` behind it, and in upper case:
/// its annotated forms are the same keyword.
pub proof fn law_annotated_names(x: Seq<char>)
    requires
        upper_text(x) == x,
        x.len() >= 6 ==> x.skip(x.len() - 6) != "_TITLE"@,
        x.len() >= 3 ==> x.skip(x.len() - 3) != "_ID"@,
    ensures
        base_of(x) == x,
        base_of(x + "_TITLE"@) == x,
        base_of(x + "_ID"@) == x,
        base_of(x + "_ID_TITLE"@) == x,
        base_of(x + "_id_title"@) == x,
{
    reveal_strlit("_TITLE");
    reveal_strlit("_ID");
    reveal_strlit("_ID_TITLE");
    reveal_strlit("_id_title");
    let t = "_TITLE"@;
    let i = "_ID"@;
    let it = "_ID_TITLE"@;
    assert(it =~= i + t);
    assert(upper_text(x + t) =~= x + t);
    assert(upper_text(x + i) =~= x + i);
    assert(upper_text(x + it) =~= x + i + t);
    assert(upper_text(x + "_id_title"@) =~= x + i + t);
    assert((x + t).skip(x.len() as int) =~= t);
    assert((x + t).take(x.len() as int) =~= x);
    assert((x + i).skip(x.len() as int) =~= i);
    assert((x + i).take(x.len() as int) =~= x);
    let y = x + i;
    assert((y + t).skip(y.len() as int) =~= t);
    assert((y + t).take(y.len() as int) =~= y);
    if y.len() >= 6 {
        assert(y.skip(y.len() - 6)[5] == 'D');
        assert(t[5] == 'E');
    }
}

/// Names that differ in the case of letters alone have the same base.
pub proof fn law_base_ignores_case(a: Seq<char>, b: Seq<char>)
    requires
        a.len() == b.len(),
        forall|i: int|
            0 <= i < a.len() ==> (#[trigger] a[i]) == b[i] || ('a' <= a[i] && a[i] <= 'z' && b[i]
                as u32 == a[i] as u32 - 32),
    ensures
        base_of(a) == base_of(b),
{
    assert(upper_text(a) =~= upper_text(b));
}

} // verus!
