//! What each rule finds, and that it finds nothing else.

use crate::deck::file::count_lines;
use crate::deck::schema::{EntityKind, Ref};
use crate::text::{dec, dec_int, text_of};
use crate::validate::entities::{
    collision, collisions_of, dangling_upto, duplicates_upto, group_at, same_entity, sites,
};
use crate::validate::ids::{points_at, resolves};
use crate::validate::model::{Deck, Definition, Reference};
use crate::validate::names::{base_of, kind_text, target_text};
use crate::validate::report::{FindingView, Severity};
use crate::validate::rules::RuleKind;
use vstd::prelude::*;

verus! {

/// The places `0 .. n` at which something holds, in order.
pub open spec fn places(n: nat, p: spec_fn(int) -> bool) -> Seq<int> {
    Seq::new(n, |i: int| i).filter(p)
}

proof fn lemma_places(n: nat, p: spec_fn(int) -> bool)
    requires
        n > 0,
    ensures
        places(n, p) == (if p(n - 1) {
            places((n - 1) as nat, p).push(n - 1)
        } else {
            places((n - 1) as nat, p)
        }),
{
    reveal(Seq::filter);
    let s = Seq::new(n, |i: int| i);
    assert(s.drop_last() =~= Seq::new((n - 1) as nat, |i: int| i));
    assert(s.last() == n - 1);
}

proof fn lemma_no_places(p: spec_fn(int) -> bool)
    ensures
        places(0, p) == Seq::<int>::empty(),
{
    reveal(Seq::filter);
    assert(places(0, p) =~= Seq::<int>::empty());
}

/// A place at which something holds is among them, and nothing else is.
pub proof fn law_places(n: nat, p: spec_fn(int) -> bool)
    ensures
        forall|i: int| #[trigger] places(n, p).contains(i) <==> 0 <= i < n && p(i),
        places(n, p).len() == 0 <==> forall|i: int| 0 <= i < n ==> !#[trigger] p(i),
    decreases n,
{
    if n == 0 {
        lemma_no_places(p);
    } else {
        let m = (n - 1) as nat;
        law_places(m, p);
        lemma_places(n, p);
        let a = places(m, p);
        assert forall|i: int| #[trigger] places(n, p).contains(i) <==> 0 <= i < n && p(i) by {
            if a.contains(i) && p(n - 1) {
                let k = a.index_of(i);
                assert(a.push(n - 1)[k] == i);
            }
            if i == n - 1 && p(i) {
                assert(a.push(n - 1)[a.len() as int] == i);
            }
            if places(n, p).contains(i) && !a.contains(i) {
                let k = places(n, p).index_of(i);
                assert(places(n, p)[k] == i);
                if k < a.len() {
                    assert(a[k] == i);
                }
            }
        }
    }
}

/// What is found at places.
pub open spec fn at_places(
    n: nat,
    p: spec_fn(int) -> bool,
    f: spec_fn(int) -> FindingView,
) -> Seq<FindingView> {
    places(n, p).map_values(f)
}

proof fn lemma_at_places(n: nat, p: spec_fn(int) -> bool, f: spec_fn(int) -> FindingView)
    requires
        n > 0,
    ensures
        at_places(n, p, f) == (if p(n - 1) {
            at_places((n - 1) as nat, p, f).push(f(n - 1))
        } else {
            at_places((n - 1) as nat, p, f)
        }),
{
    lemma_places(n, p);
    assert(at_places(n, p, f) =~= (if p(n - 1) {
        at_places((n - 1) as nat, p, f).push(f(n - 1))
    } else {
        at_places((n - 1) as nat, p, f)
    }));
}

/// The deck has an entity of this kind and id: a block defines it, or it is of the mesh.
pub open spec fn has_entity(deck: Deck, k: EntityKind, id: i64) -> bool {
    ||| exists|i: int|
        0 <= i < deck.definitions@.len() && (#[trigger] deck.definitions@[i]).kind == k
            && deck.definitions@[i].id == id
    ||| exists|i: int|
        0 <= i < deck.mesh_ids@.len() && (#[trigger] deck.mesh_ids@[i]).kind == k
            && deck.mesh_ids@[i].id == id
}

/// The reference leads to nothing: it asks for an entity, and the deck has none of its id
/// that is of the kind, or of one of the kinds, that it asks for.
pub open spec fn leads_nowhere(deck: Deck, r: Reference) -> bool {
    match r.target {
        Ref::Nothing => false,
        Ref::To(k) => !has_entity(deck, k, r.id),
        Ref::AnyOf(ks) => forall|j: int|
            0 <= j < ks@.len() ==> !has_entity(deck, #[trigger] ks@[j], r.id),
    }
}

proof fn lemma_leads_nowhere(deck: Deck, r: Reference)
    ensures
        leads_nowhere(deck, r) == !resolves(deck, r.target, r.id),
{
    match r.target {
        Ref::Nothing => {},
        Ref::To(k) => {
            assert(points_at(r.target, k));
        },
        Ref::AnyOf(ks) => {
            assert forall|j: int| 0 <= j < ks@.len() implies points_at(
                r.target,
                #[trigger] ks@[j],
            ) by {}
            if leads_nowhere(deck, r) && resolves(deck, r.target, r.id) {
                let k = choose|k: EntityKind| #[trigger]
                    points_at(r.target, k) && deck.defines(k, r.id);
                let j = ks@.index_of(k);
                assert(ks@[j] == k);
                assert(!has_entity(deck, ks@[j], r.id));
            }
        },
    }
}

/// What the rule on references finds at reference `i`.
pub open spec fn dangling_finding(deck: Deck, i: int) -> FindingView {
    let r = deck.references@[i];
    FindingView {
        rule: "references_resolve"@,
        severity: Severity::Error,
        keyword: r.from_keyword@,
        file: r.file@,
        line: r.line,
        message: r.from_keyword@ + "."@ + r.field@ + " references "@ + target_text(r.target)
            + " "@ + dec_int(r.id as int) + " — not defined in the deck"@,
    }
}

/// Reference `i` leads nowhere, and counts: it is not one of an element to its nodes, or
/// those count too.
pub open spec fn dangles(deck: Deck, connectivity: bool, i: int) -> bool {
    leads_nowhere(deck, deck.references@[i]) && (connectivity || !deck.references@[i].connectivity)
}

/// The rule on references finds each reference that leads nowhere, where it stands, and
/// nothing else; those of elements to their nodes only where it is asked to.
pub proof fn law_dangling_references(deck: Deck, connectivity: bool)
    ensures
        (RuleKind::ReferencesResolve { connectivity }).finds(deck) == at_places(
            deck.references@.len(),
            |i: int| dangles(deck, connectivity, i),
            |i: int| dangling_finding(deck, i),
        ),
{
    lemma_dangling(deck, connectivity, deck.references@.len());
}

proof fn lemma_dangling(deck: Deck, connectivity: bool, n: nat)
    requires
        n <= deck.references@.len(),
    ensures
        dangling_upto(deck, connectivity, n) == at_places(
            n,
            |i: int| dangles(deck, connectivity, i),
            |i: int| dangling_finding(deck, i),
        ),
    decreases n,
{
    let p = |i: int| dangles(deck, connectivity, i);
    let f = |i: int| dangling_finding(deck, i);
    if n == 0 {
        lemma_no_places(p);
        assert(at_places(0, p, f) =~= Seq::<FindingView>::empty());
    } else {
        lemma_dangling(deck, connectivity, (n - 1) as nat);
        lemma_at_places(n, p, f);
        lemma_leads_nowhere(deck, deck.references@[n - 1]);
    }
}

/// Another definition, at another place in the list, has the kind and the id of
/// definition `i`.
pub open spec fn has_twin(s: Seq<Definition>, i: int) -> bool {
    exists|j: int|
        0 <= j < s.len() && j != i && (#[trigger] s[j]).kind == s[i].kind && s[j].id == s[i].id
}

/// The number of definitions with the kind and the id of definition `i`.
pub open spec fn twins(s: Seq<Definition>, i: int) -> nat {
    places(s.len(), |j: int| s[j].kind == s[i].kind && s[j].id == s[i].id).len()
}

/// What the rule on ids finds of definition `i`: it stands at the line of its block, and
/// says how many there are.
pub open spec fn twin_finding(deck: Deck, i: int) -> FindingView {
    let d = deck.definitions@[i];
    let file = deck.files@[d.file as int];
    let block = file.blocks@[d.block as int];
    FindingView {
        rule: "duplicate_ids"@,
        severity: Severity::Error,
        keyword: base_of(
            text_of(file.src@.subrange(block.name_start as int, block.name_end as int)),
        ),
        file: file.path@,
        line: (1 + count_lines(file.src@.subrange(0, block.name_start as int))) as usize,
        message: "duplicate "@ + kind_text(d.kind) + " id "@ + dec_int(d.id as int)
            + " — defined by "@ + dec(twins(deck.definitions@, i)) + " keywords in the deck"@,
    }
}

proof fn lemma_sites(s: Seq<Definition>, d: Definition, n: nat)
    requires
        n <= s.len(),
    ensures
        sites(s, d, n) == places(n, |j: int| s[j].kind == d.kind && s[j].id == d.id).len(),
        sites(s, d, n) >= 1 <==> exists|j: int| 0 <= j < n && same_entity(#[trigger] s[j], d),
        sites(s, d, n) >= 2 <==> exists|j: int, k: int|
            0 <= j < k < n && same_entity(#[trigger] s[j], d) && same_entity(#[trigger] s[k], d),
    decreases n,
{
    let p = |j: int| s[j].kind == d.kind && s[j].id == d.id;
    if n == 0 {
        lemma_no_places(p);
    } else {
        lemma_sites(s, d, (n - 1) as nat);
        lemma_places(n, p);
        let e = s[n - 1];
        if same_entity(e, d) {
            if sites(s, d, (n - 1) as nat) >= 1 {
                let j = choose|j: int| 0 <= j < n - 1 && same_entity(#[trigger] s[j], d);
                assert(same_entity(s[j], d) && same_entity(s[n - 1], d));
            }
        }
    }
}

/// How many of the first `m` definitions have a twin and an equal among the first `n`.
spec fn paired(s: Seq<Definition>, n: nat, m: nat) -> nat
    decreases m,
{
    if m == 0 {
        0
    } else {
        paired(s, n, (m - 1) as nat) + if has_twin(s, m - 1) && (exists|i: int|
            0 <= i < n && same_entity(#[trigger] s[i], s[m - 1])) {
            1nat
        } else {
            0
        }
    }
}

proof fn lemma_paired_none(s: Seq<Definition>, m: nat)
    ensures
        paired(s, 0, m) == 0,
    decreases m,
{
    if m > 0 {
        lemma_paired_none(s, (m - 1) as nat);
    }
}

proof fn lemma_paired_step(s: Seq<Definition>, n: nat, m: nat)
    requires
        0 < n <= s.len(),
        m <= s.len(),
    ensures
        paired(s, n, m) == paired(s, (n - 1) as nat, m) + (if sites(s, s[n - 1], (n - 1) as nat)
            == 0 && sites(s, s[n - 1], s.len()) >= 2 {
            sites(s, s[n - 1], m)
        } else {
            0
        }),
    decreases m,
{
    if m > 0 {
        lemma_paired_step(s, n, (m - 1) as nat);
        let d = s[n - 1];
        let e = s[m - 1];
        lemma_sites(s, d, (n - 1) as nat);
        lemma_sites(s, d, s.len());
        let before = exists|i: int| 0 <= i < n - 1 && same_entity(#[trigger] s[i], e);
        let now = exists|i: int| 0 <= i < n && same_entity(#[trigger] s[i], e);
        if before {
            let i = choose|i: int| 0 <= i < n - 1 && same_entity(#[trigger] s[i], e);
            assert(same_entity(s[i], e));
            if same_entity(d, e) {
                assert(same_entity(s[i], d));
            }
        }
        if same_entity(d, e) {
            assert(same_entity(s[n - 1], e));
            if sites(s, d, (n - 1) as nat) >= 1 {
                let i = choose|i: int| 0 <= i < n - 1 && same_entity(#[trigger] s[i], d);
                assert(same_entity(s[i], e));
            }
            if has_twin(s, m - 1) {
                let j = choose|j: int|
                    0 <= j < s.len() && j != m - 1 && (#[trigger] s[j]).kind == e.kind && s[j].id
                        == e.id;
                assert(same_entity(s[j], d) && same_entity(s[m - 1], d));
                if j < m - 1 {
                    assert(same_entity(s[j], d) && same_entity(s[m - 1], d));
                } else {
                    assert(same_entity(s[m - 1], d) && same_entity(s[j], d));
                }
            }
            if sites(s, d, s.len()) >= 2 {
                let (j, k) = choose|j: int, k: int|
                    0 <= j < k < s.len() && same_entity(#[trigger] s[j], d) && same_entity(
                        #[trigger] s[k],
                        d,
                    );
                if j == m - 1 {
                    assert(s[k].kind == e.kind && s[k].id == e.id);
                } else {
                    assert(s[j].kind == e.kind && s[j].id == e.id);
                }
                assert(has_twin(s, m - 1));
            }
        }
        if now && !before {
            let i = choose|i: int| 0 <= i < n && same_entity(#[trigger] s[i], e);
            assert(i == n - 1);
        }
    }
}

proof fn lemma_paired_all(s: Seq<Definition>, m: nat)
    requires
        m <= s.len(),
    ensures
        paired(s, s.len(), m) == places(m, |i: int| has_twin(s, i)).len(),
    decreases m,
{
    let p = |i: int| has_twin(s, i);
    if m == 0 {
        lemma_no_places(p);
    } else {
        lemma_paired_all(s, (m - 1) as nat);
        lemma_places(m, p);
        assert(same_entity(s[m - 1], s[m - 1]));
    }
}

/// The finding is that of one of the first `n` definitions, which is the same as `d`.
spec fn of_group(deck: Deck, d: Definition, total: nat, n: nat, f: FindingView) -> bool {
    exists|j: int|
        0 <= j < n && same_entity(#[trigger] deck.definitions@[j], d) && f == collision(
            deck,
            deck.definitions@[j],
            total,
        )
}

/// The finding is that of a definition with a twin.
pub open spec fn of_twin(deck: Deck, f: FindingView) -> bool {
    exists|i: int|
        0 <= i < deck.definitions@.len() && has_twin(deck.definitions@, i) && f
            == #[trigger] twin_finding(deck, i)
}

proof fn lemma_collisions(deck: Deck, d: Definition, total: nat, n: nat)
    requires
        n <= deck.definitions@.len(),
    ensures
        collisions_of(deck, d, total, n).len() == sites(deck.definitions@, d, n),
        forall|j: int|
            0 <= j < n && same_entity(#[trigger] deck.definitions@[j], d) ==> collisions_of(
                deck,
                d,
                total,
                n,
            ).contains(collision(deck, deck.definitions@[j], total)),
        forall|x: int|
            0 <= x < collisions_of(deck, d, total, n).len() ==> of_group(
                deck,
                d,
                total,
                n,
                #[trigger] collisions_of(deck, d, total, n)[x],
            ),
    decreases n,
{
    if n > 0 {
        let m = (n - 1) as nat;
        lemma_collisions(deck, d, total, m);
        let a = collisions_of(deck, d, total, m);
        let b = collisions_of(deck, d, total, n);
        assert forall|j: int| 0 <= j < n && same_entity(
            #[trigger] deck.definitions@[j],
            d,
        ) implies b.contains(collision(deck, deck.definitions@[j], total)) by {
            if j < m {
                let c = collision(deck, deck.definitions@[j], total);
                assert(a.contains(c));
                let k = a.index_of(c);
                assert(b[k] == c);
            } else {
                assert(b[b.len() - 1] == collision(deck, deck.definitions@[j], total));
            }
        }
        assert forall|x: int| 0 <= x < b.len() implies of_group(
            deck,
            d,
            total,
            n,
            #[trigger] b[x],
        ) by {
            if x < a.len() {
                assert(a[x] == b[x]);
                assert(of_group(deck, d, total, m, a[x]));
                let j = choose|j: int|
                    0 <= j < m && same_entity(#[trigger] deck.definitions@[j], d) && a[x]
                        == collision(deck, deck.definitions@[j], total);
                assert(same_entity(deck.definitions@[j], d));
            } else {
                assert(same_entity(deck.definitions@[n - 1], d));
            }
        }
    }
}

proof fn lemma_same_finding(deck: Deck, d: Definition, j: int)
    requires
        deck.wf(),
        0 <= j < deck.definitions@.len(),
        same_entity(deck.definitions@[j], d),
    ensures
        collision(deck, deck.definitions@[j], sites(deck.definitions@, d, deck.definitions@.len()))
            == twin_finding(deck, j),
{
    let s = deck.definitions@;
    let e = s[j];
    lemma_sites(s, d, s.len());
    let p = |x: int| s[x].kind == d.kind && s[x].id == d.id;
    let q = |x: int| s[x].kind == s[j].kind && s[x].id == s[j].id;
    assert(p =~= q);
    assert(twins(s, j) == places(s.len(), q).len());
    let file = deck.files@[e.file as int];
    let block = file.blocks@[e.block as int];
    assert(file.src@.take(block.name_start as int) =~= file.src@.subrange(
        0,
        block.name_start as int,
    ));
}

/// The first of the definitions that are the same as definition `j`.
proof fn lemma_first(s: Seq<Definition>, j: int, n: nat) -> (i: int)
    requires
        0 <= j < n <= s.len(),
    ensures
        0 <= i <= j,
        same_entity(s[i], s[j]),
        sites(s, s[i], i as nat) == 0,
    decreases j,
{
    lemma_sites(s, s[j], j as nat);
    if sites(s, s[j], j as nat) == 0 {
        j
    } else {
        let k = choose|k: int| 0 <= k < j && same_entity(#[trigger] s[k], s[j]);
        lemma_first(s, k, n)
    }
}

proof fn lemma_duplicates(deck: Deck, n: nat)
    requires
        deck.wf(),
        n <= deck.definitions@.len(),
    ensures
        duplicates_upto(deck, n).len() == paired(deck.definitions@, n, deck.definitions@.len()),
        forall|i: int, x: int|
            0 <= i < n && 0 <= x < group_at(deck, i).len() ==> duplicates_upto(deck, n).contains(
                #[trigger] group_at(deck, i)[x],
            ),
        forall|x: int|
            0 <= x < duplicates_upto(deck, n).len() ==> of_twin(
                deck,
                #[trigger] duplicates_upto(deck, n)[x],
            ),
    decreases n,
{
    let s = deck.definitions@;
    if n == 0 {
        lemma_paired_none(s, s.len());
    } else {
        let m = (n - 1) as nat;
        lemma_duplicates(deck, m);
        lemma_paired_step(s, n, s.len());
        let d = s[n - 1];
        let total = sites(s, d, s.len());
        lemma_collisions(deck, d, total, s.len());
        let a = duplicates_upto(deck, m);
        let g = group_at(deck, n - 1);
        let b = duplicates_upto(deck, n);
        assert(b == a + g);
        assert forall|i: int, x: int| 0 <= i < n && 0 <= x < group_at(deck, i).len() implies b.contains(
        #[trigger] group_at(deck, i)[x]) by {
            if i < m {
                let f = group_at(deck, i)[x];
                assert(a.contains(f));
                let k = a.index_of(f);
                assert(b[k] == f);
            } else {
                assert(b[a.len() + x] == g[x]);
            }
        }
        assert forall|x: int| 0 <= x < b.len() implies of_twin(deck, #[trigger] b[x]) by {
            if x < a.len() {
                assert(b[x] == a[x]);
                assert(of_twin(deck, a[x]));
            } else {
                let c = collisions_of(deck, d, total, s.len());
                assert(b[x] == c[x - a.len()]);
                assert(of_group(deck, d, total, s.len(), c[x - a.len()]));
                let j = choose|j: int|
                    0 <= j < s.len() && same_entity(#[trigger] s[j], d) && c[x - a.len()]
                        == collision(deck, s[j], total);
                lemma_same_finding(deck, d, j);
                lemma_twin(s, d, j);
                assert(b[x] == twin_finding(deck, j));
            }
        }
    }
}

proof fn lemma_twin(s: Seq<Definition>, d: Definition, j: int)
    requires
        0 <= j < s.len(),
        same_entity(s[j], d),
    ensures
        has_twin(s, j) <==> sites(s, d, s.len()) >= 2,
{
    lemma_sites(s, d, s.len());
    if sites(s, d, s.len()) >= 2 {
        let (a, b) = choose|a: int, b: int|
            0 <= a < b < s.len() && same_entity(#[trigger] s[a], d) && same_entity(
                #[trigger] s[b],
                d,
            );
        if a == j {
            assert(s[b].kind == s[j].kind && s[b].id == s[j].id);
        } else {
            assert(s[a].kind == s[j].kind && s[a].id == s[j].id);
        }
    }
    if has_twin(s, j) {
        let k = choose|k: int|
            0 <= k < s.len() && k != j && (#[trigger] s[k]).kind == s[j].kind && s[k].id == s[j].id;
        assert(same_entity(s[k], d) && same_entity(s[j], d));
        if k < j {
            assert(same_entity(s[k], d) && same_entity(s[j], d));
        } else {
            assert(same_entity(s[j], d) && same_entity(s[k], d));
        }
    }
}

/// The rule on ids finds one thing for each definition that shares its kind and id with
/// another, at its file and line, and nothing else: it finds nothing if and only if no two
/// definitions have the same kind and id.
pub proof fn law_duplicate_ids(deck: Deck)
    requires
        deck.wf(),
    ensures
        RuleKind::DuplicateIds.finds(deck).len() == places(
            deck.definitions@.len(),
            |i: int| has_twin(deck.definitions@, i),
        ).len(),
        RuleKind::DuplicateIds.finds(deck).len() == 0 <==> forall|i: int, j: int|
            0 <= i < j < deck.definitions@.len() ==> !((#[trigger] deck.definitions@[i]).kind == (
            #[trigger] deck.definitions@[j]).kind && deck.definitions@[i].id
                == deck.definitions@[j].id),
        forall|i: int|
            0 <= i < deck.definitions@.len() && has_twin(deck.definitions@, i)
                ==> RuleKind::DuplicateIds.finds(deck).contains(#[trigger] twin_finding(deck, i)),
        forall|f: FindingView| #[trigger]
            RuleKind::DuplicateIds.finds(deck).contains(f) ==> of_twin(deck, f),
{
    let s = deck.definitions@;
    let n = s.len();
    let all = duplicates_upto(deck, n);
    let p = |i: int| has_twin(s, i);
    lemma_duplicates(deck, n);
    lemma_paired_all(s, n);
    law_places(n, p);
    assert forall|i: int| 0 <= i < n && has_twin(s, i) implies all.contains(
        #[trigger] twin_finding(deck, i),
    ) by {
        let k = lemma_first(s, i, n);
        let d = s[k];
        lemma_twin(s, d, i);
        let total = sites(s, d, n);
        lemma_collisions(deck, d, total, n);
        lemma_same_finding(deck, d, i);
        let f = twin_finding(deck, i);
        let g = group_at(deck, k);
        assert(g == collisions_of(deck, d, total, n));
        assert(g.contains(f));
        let x = g.index_of(f);
        assert(group_at(deck, k)[x] == f);
    }
    if all.len() == 0 {
        assert forall|i: int, j: int| 0 <= i < j < n implies !((#[trigger] s[i]).kind == (
        #[trigger] s[j]).kind && s[i].id == s[j].id) by {
            if s[i].kind == s[j].kind && s[i].id == s[j].id {
                assert(has_twin(s, i));
                assert(p(i));
            }
        }
    } else {
        assert(places(n, p).len() != 0);
        let i = choose|i: int| 0 <= i < n && #[trigger] p(i);
        let j = choose|j: int|
            0 <= j < s.len() && j != i && (#[trigger] s[j]).kind == s[i].kind && s[j].id == s[i].id;
        if i < j {
            assert(s[i].kind == s[j].kind && s[i].id == s[j].id);
        } else {
            assert(s[j].kind == s[i].kind && s[j].id == s[i].id);
        }
    }
    assert forall|f: FindingView| #[trigger] all.contains(f) implies of_twin(deck, f) by {
        let x = all.index_of(f);
        assert(all[x] == f);
    }
}

} // verus!
