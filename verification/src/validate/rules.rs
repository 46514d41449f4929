//! Rules: a check, with a severity and the files it is for.

use crate::deck::schema::EntityKind;
use crate::validate::entities::{
    dangling_upto, deformable_upto, duplicates_upto, find_dangling, find_deformable,
    find_duplicates, find_unused, rigid_fields, unused_upto,
};
use crate::validate::expr::Expr;
use crate::validate::fields::{
    bad_values_upto, copy, find_bad_values, find_forbidden, find_missing, find_unmet,
    forbidden_name, forbidden_upto, missing_upto, unmet_upto,
};
use crate::validate::model::Deck;
use crate::validate::report::{finding_views, FileScope, Finding, FindingView, Report, Severity};
use crate::validate::value::Value;
use std::sync::Arc;
use vstd::prelude::*;

verus! {

/// What a rule of the library checks.
#[derive(Debug, Clone)]
pub enum RuleKind {
    /// A keyword must not occur.
    KeywordForbidden { keyword: String },
    /// A field of a keyword must have none of the values.
    FieldForbiddenValues { keyword: String, field: String, values: Vec<Value> },
    /// Where `when` holds, or there is none, `require` must hold too.
    FieldRequired { keyword: String, when: Option<Expr>, require: Expr },
    /// The files that others name must be there.
    IncludeMissing,
    /// What is referred to must be defined.
    ReferencesResolve { connectivity: bool },
    /// No two labelled entities of a kind may share an id.
    DuplicateIds,
    /// Entities of these kinds should be referred to.
    UnreferencedEntities { kinds: Vec<EntityKind> },
    /// Keywords on rigid bodies must name rigid parts.
    RigidContext,
}

/// What a rule runs.
#[derive(Clone)]
pub enum Subject {
    /// A check of the library.
    Kind(RuleKind),
    /// A check of the user's, which clones of the rule share.
    Own(Arc<Box<dyn Check>>),
}

/// A check, with a severity and the files it is for.
#[derive(Clone)]
pub struct Rule {
    pub subject: Subject,
    /// The severity of all findings; without one, each finding keeps its own.
    pub severity: Option<Severity>,
    pub scope: FileScope,
}

/// What can be run over a deck. A user's own check is an impl of this, made a rule by
/// [`Rule::custom`].
pub trait Check: Send + Sync {
    /// What running the check finds. Of a check that does not say it, nothing is known.
    open spec fn found(&self, deck: Deck) -> Seq<FindingView> {
        arbitrary::<spec_fn(Deck) -> Seq<FindingView>>()(deck)
    }

    /// What the check is called. Of a check that does not say it, nothing is known.
    open spec fn title(&self) -> Seq<char> {
        arbitrary()
    }

    fn name(&self) -> (r: String)
        ensures
            r@ == self.title(),
    ;

    fn run(&self, deck: &Deck) -> (r: Vec<Finding>)
        requires
            deck.wf(),
        ensures
            finding_views(r@) == self.found(*deck),
    ;
}

impl RuleKind {
    /// What is found in the whole deck.
    pub open spec fn finds(self, deck: Deck) -> Seq<FindingView> {
        match self {
            RuleKind::KeywordForbidden { keyword } => forbidden_upto(
                keyword@,
                deck.files@,
                deck.files@.len(),
            ),
            RuleKind::FieldForbiddenValues { keyword, field, values } => bad_values_upto(
                keyword@,
                field@,
                values@,
                deck.occurrences@,
                deck.occurrences@.len(),
            ),
            RuleKind::FieldRequired { keyword, when, require } => unmet_upto(
                keyword@,
                when,
                require,
                deck.occurrences@,
                deck.occurrences@.len(),
            ),
            RuleKind::IncludeMissing => missing_upto(deck, deck.named_files@.len()),
            RuleKind::ReferencesResolve { connectivity } => dangling_upto(
                deck,
                connectivity,
                deck.references@.len(),
            ),
            RuleKind::DuplicateIds => duplicates_upto(deck, deck.definitions@.len()),
            RuleKind::UnreferencedEntities { kinds } => unused_upto(
                deck,
                kinds@,
                kinds@.len(),
            ),
            RuleKind::RigidContext => deformable_upto(deck.occurrences@, rigid_fields().len()),
        }
    }

    pub open spec fn title(self) -> Seq<char> {
        match self {
            RuleKind::KeywordForbidden { keyword } => forbidden_name(keyword@),
            RuleKind::FieldForbiddenValues { keyword, field, .. } => "field_forbidden_values("@
                + keyword@ + "."@ + field@ + ")"@,
            RuleKind::FieldRequired { keyword, .. } => "field_required("@ + keyword@ + ")"@,
            RuleKind::IncludeMissing => "include_missing"@,
            RuleKind::ReferencesResolve { .. } => "references_resolve"@,
            RuleKind::DuplicateIds => "duplicate_ids"@,
            RuleKind::UnreferencedEntities { .. } => "unreferenced_entities"@,
            RuleKind::RigidContext => "rigid_context"@,
        }
    }

    fn find(&self, deck: &Deck) -> (r: Vec<Finding>)
        requires
            deck.wf(),
        ensures
            finding_views(r@) == self.finds(*deck),
    {
        match self {
            RuleKind::KeywordForbidden { keyword } => find_forbidden(keyword.as_str(), deck),
            RuleKind::FieldForbiddenValues { keyword, field, values } => find_bad_values(
                keyword.as_str(),
                field.as_str(),
                values,
                deck,
            ),
            RuleKind::FieldRequired { keyword, when, require } => find_unmet(
                keyword.as_str(),
                when,
                require,
                deck,
            ),
            RuleKind::IncludeMissing => find_missing(deck),
            RuleKind::ReferencesResolve { connectivity } => find_dangling(*connectivity, deck),
            RuleKind::DuplicateIds => find_duplicates(deck),
            RuleKind::UnreferencedEntities { kinds } => find_unused(kinds, deck),
            RuleKind::RigidContext => find_deformable(deck),
        }
    }

    fn label(&self) -> (r: String)
        ensures
            r@ == self.title(),
    {
        match self {
            RuleKind::KeywordForbidden { keyword } => {
                let mut s: String = String::from_str("keyword_forbidden(");
                s.append(keyword.as_str());
                s.append(")");
                s
            },
            RuleKind::FieldForbiddenValues { keyword, field, .. } => {
                let mut s: String = String::from_str("field_forbidden_values(");
                s.append(keyword.as_str());
                s.append(".");
                s.append(field.as_str());
                s.append(")");
                s
            },
            RuleKind::FieldRequired { keyword, .. } => {
                let mut s: String = String::from_str("field_required(");
                s.append(keyword.as_str());
                s.append(")");
                s
            },
            RuleKind::IncludeMissing => String::from_str("include_missing"),
            RuleKind::ReferencesResolve { .. } => String::from_str("references_resolve"),
            RuleKind::DuplicateIds => String::from_str("duplicate_ids"),
            RuleKind::UnreferencedEntities { .. } => String::from_str("unreferenced_entities"),
            RuleKind::RigidContext => String::from_str("rigid_context"),
        }
    }
}

impl Subject {
    /// What is found in the whole deck.
    pub open spec fn finds(self, deck: Deck) -> Seq<FindingView> {
        match self {
            Subject::Kind(kind) => kind.finds(deck),
            Subject::Own(check) => check.found(deck),
        }
    }

    pub open spec fn title(self) -> Seq<char> {
        match self {
            Subject::Kind(kind) => kind.title(),
            Subject::Own(check) => check.title(),
        }
    }

    fn find(&self, deck: &Deck) -> (r: Vec<Finding>)
        requires
            deck.wf(),
        ensures
            finding_views(r@) == self.finds(*deck),
    {
        match self {
            Subject::Kind(kind) => kind.find(deck),
            Subject::Own(check) => check.run(deck),
        }
    }

    fn label(&self) -> (r: String)
        ensures
            r@ == self.title(),
    {
        match self {
            Subject::Kind(kind) => kind.label(),
            Subject::Own(check) => check.name(),
        }
    }
}

fn copy_finding(f: &Finding) -> (r: Finding)
    ensures
        r@ == f@,
{
    Finding {
        rule: copy(&f.rule),
        severity: f.severity,
        keyword: copy(&f.keyword),
        file: copy(&f.file),
        line: f.line,
        message: copy(&f.message),
    }
}

/// The finding with the rule's severity, if it has one.
pub open spec fn stamped(f: FindingView, severity: Option<Severity>) -> FindingView {
    match severity {
        Some(s) => FindingView { severity: s, ..f },
        None => f,
    }
}

/// The findings in the files that the rule is for, with the rule's severity.
pub open spec fn applied(
    s: Seq<FindingView>,
    severity: Option<Severity>,
    scope: FileScope,
) -> Seq<FindingView>
    decreases s.len(),
{
    if s.len() == 0 {
        Seq::empty()
    } else {
        let rest = applied(s.drop_last(), severity, scope);
        if scope.covers(s.last().file) {
            rest.push(stamped(s.last(), severity))
        } else {
            rest
        }
    }
}

fn apply(found: Vec<Finding>, severity: Option<Severity>, scope: &FileScope) -> (r: Vec<Finding>)
    ensures
        finding_views(r@) == applied(finding_views(found@), severity, *scope),
{
    let mut out: Vec<Finding> = Vec::new();
    let ghost s = finding_views(found@);
    assert(finding_views(out@) =~= Seq::<FindingView>::empty());
    assert(s.take(0) =~= Seq::<FindingView>::empty());
    for i in 0..found.len()
        invariant
            s == finding_views(found@),
            finding_views(out@) == applied(s.take(i as int), severity, *scope),
    {
        let ghost before = finding_views(out@);
        assert(s.take(i + 1).drop_last() =~= s.take(i as int));
        assert(s.take(i + 1).last() == found@[i as int]@);
        if scope.allows(found[i].file.as_str()) {
            let mut f: Finding = copy_finding(&found[i]);
            match severity {
                Some(v) => {
                    f.severity = v;
                },
                None => {},
            }
            assert(f@ == stamped(found@[i as int]@, severity));
            out.push(f);
            assert(finding_views(out@) =~= before.push(f@));
        }
    }
    assert(s.take(s.len() as int) =~= s);
    out
}

/// A user's check of a type of its own, as the rule holds it.
struct Lifted<C> {
    check: C,
}

impl<C: Check> Check for Lifted<C> {
    closed spec fn found(&self, deck: Deck) -> Seq<FindingView> {
        self.check.found(deck)
    }

    closed spec fn title(&self) -> Seq<char> {
        self.check.title()
    }

    fn name(&self) -> (r: String) {
        self.check.name()
    }

    fn run(&self, deck: &Deck) -> (r: Vec<Finding>) {
        self.check.run(deck)
    }
}

impl Check for Rule {
    open spec fn found(&self, deck: Deck) -> Seq<FindingView> {
        applied(self.subject.finds(deck), self.severity, self.scope)
    }

    open spec fn title(&self) -> Seq<char> {
        self.subject.title()
    }

    fn name(&self) -> (r: String) {
        self.subject.label()
    }

    /// Runs the check over the whole deck, and keeps what it found in the files that
    /// the rule is for.
    fn run(&self, deck: &Deck) -> (r: Vec<Finding>) {
        apply(self.subject.find(deck), self.severity, &self.scope)
    }
}

/// The kinds of entities that other cards point at, so that one nothing refers to is
/// worth a word. Not nodes and elements, and not parts, to which elements refer.
pub open spec fn library_kinds() -> Seq<EntityKind> {
    seq![
        EntityKind::Material,
        EntityKind::ThermalMaterial,
        EntityKind::Section,
        EntityKind::Eos,
        EntityKind::Hourglass,
        EntityKind::Curve,
        EntityKind::Coord,
        EntityKind::Vector,
        EntityKind::Box,
        EntityKind::Transform,
        EntityKind::NodeSet,
        EntityKind::PartSet,
        EntityKind::SegmentSet,
        EntityKind::ShellSet,
        EntityKind::SolidSet,
        EntityKind::BeamSet,
        EntityKind::DiscreteSet,
        EntityKind::Sensor,
        EntityKind::Define,
    ]
}

impl Rule {
    /// The rule is for all files, with the severities that its check gives.
    pub open spec fn unchanged(self) -> bool {
        self.severity is None && self.scope == FileScope::Anywhere
    }

    /// The rule on a check of the library, for all files, with the severities that the
    /// check gives.
    pub open spec fn plain(self, kind: RuleKind) -> bool {
        self.subject == Subject::Kind(kind) && self.unchanged()
    }

    fn wrap(kind: RuleKind) -> (r: Rule)
        ensures
            r.plain(kind),
    {
        Rule { subject: Subject::Kind(kind), severity: None, scope: FileScope::Anywhere }
    }

    /// A rule on a check of the user's. It runs the check whenever the rule is run.
    pub fn custom<C: Check + 'static>(check: C) -> (r: Rule)
        ensures
            r.unchanged(),
            r.title() == check.title(),
            forall|deck: Deck| #[trigger] r.subject.finds(deck) == check.found(deck),
    {
        let ghost given = check;
        let own: Box<dyn Check> = Box::new(Lifted { check });
        let shared = Arc::new(own);
        let r: Rule = Rule {
            subject: Subject::Own(shared),
            severity: None,
            scope: FileScope::Anywhere,
        };
        assert(forall|deck: Deck| #[trigger] r.subject.finds(deck) == given.found(deck));
        r
    }

    pub fn keyword_forbidden(keyword: String) -> (r: Rule)
        ensures
            r.plain(RuleKind::KeywordForbidden { keyword }),
    {
        Rule::wrap(RuleKind::KeywordForbidden { keyword })
    }

    pub fn field_forbidden_values(keyword: String, field: String, values: Vec<Value>) -> (r: Rule)
        ensures
            r.plain(RuleKind::FieldForbiddenValues { keyword, field, values }),
    {
        Rule::wrap(RuleKind::FieldForbiddenValues { keyword, field, values })
    }

    pub fn field_required(keyword: String, when: Option<Expr>, require: Expr) -> (r: Rule)
        ensures
            r.plain(RuleKind::FieldRequired { keyword, when, require }),
    {
        Rule::wrap(RuleKind::FieldRequired { keyword, when, require })
    }

    pub fn include_missing() -> (r: Rule)
        ensures
            r.plain(RuleKind::IncludeMissing),
    {
        Rule::wrap(RuleKind::IncludeMissing)
    }

    /// What is referred to is defined; not the nodes of elements.
    pub fn references_resolve() -> (r: Rule)
        ensures
            r.plain(RuleKind::ReferencesResolve { connectivity: false }),
    {
        Rule::wrap(RuleKind::ReferencesResolve { connectivity: false })
    }

    /// What is referred to is defined, and so are the nodes of elements.
    pub fn references_resolve_with_connectivity() -> (r: Rule)
        ensures
            r.plain(RuleKind::ReferencesResolve { connectivity: true }),
    {
        Rule::wrap(RuleKind::ReferencesResolve { connectivity: true })
    }

    /// No two labelled entities of a kind share an id in the numbers of the whole deck.
    pub fn duplicate_ids() -> (r: Rule)
        ensures
            r.plain(RuleKind::DuplicateIds),
    {
        Rule::wrap(RuleKind::DuplicateIds)
    }

    /// Something refers to every entity of the kinds that others point at.
    pub fn unreferenced_entities() -> (r: Rule)
        ensures
            r.severity is None,
            r.scope == FileScope::Anywhere,
            r.subject matches Subject::Kind(RuleKind::UnreferencedEntities { kinds }) && kinds@
                == library_kinds(),
    {
        let mut kinds: Vec<EntityKind> = Vec::new();
        kinds.push(EntityKind::Material);
        kinds.push(EntityKind::ThermalMaterial);
        kinds.push(EntityKind::Section);
        kinds.push(EntityKind::Eos);
        kinds.push(EntityKind::Hourglass);
        kinds.push(EntityKind::Curve);
        kinds.push(EntityKind::Coord);
        kinds.push(EntityKind::Vector);
        kinds.push(EntityKind::Box);
        kinds.push(EntityKind::Transform);
        kinds.push(EntityKind::NodeSet);
        kinds.push(EntityKind::PartSet);
        kinds.push(EntityKind::SegmentSet);
        kinds.push(EntityKind::ShellSet);
        kinds.push(EntityKind::SolidSet);
        kinds.push(EntityKind::BeamSet);
        kinds.push(EntityKind::DiscreteSet);
        kinds.push(EntityKind::Sensor);
        kinds.push(EntityKind::Define);
        assert(kinds@ =~= library_kinds());
        Rule::wrap(RuleKind::UnreferencedEntities { kinds })
    }

    /// Something refers to every entity of these kinds.
    pub fn unreferenced_entities_of(kinds: Vec<EntityKind>) -> (r: Rule)
        ensures
            r.plain(RuleKind::UnreferencedEntities { kinds }),
    {
        Rule::wrap(RuleKind::UnreferencedEntities { kinds })
    }

    /// Keywords on rigid bodies name rigid parts.
    pub fn rigid_context() -> (r: Rule)
        ensures
            r.plain(RuleKind::RigidContext),
    {
        Rule::wrap(RuleKind::RigidContext)
    }

    /// Gives all findings a severity.
    pub fn with_severity(self, sev: Severity) -> (r: Rule)
        ensures
            r == (Rule { severity: Some(sev), ..self }),
    {
        Rule { subject: self.subject, severity: Some(sev), scope: self.scope }
    }

    /// Keeps the findings in files whose path holds one of the texts.
    pub fn only_in(self, pats: Vec<String>) -> (r: Rule)
        ensures
            r == (Rule { scope: FileScope::OnlyIn(pats), ..self }),
    {
        Rule { subject: self.subject, severity: self.severity, scope: FileScope::OnlyIn(pats) }
    }

    /// Keeps the findings in files whose path holds none of the texts.
    pub fn except_in(self, pats: Vec<String>) -> (r: Rule)
        ensures
            r == (Rule { scope: FileScope::ExceptIn(pats), ..self }),
    {
        Rule { subject: self.subject, severity: self.severity, scope: FileScope::ExceptIn(pats) }
    }
}

/// What the first `n` rules find, one rule behind the other.
pub open spec fn found_by(rules: Seq<Rule>, deck: Deck, n: nat) -> Seq<FindingView>
    decreases n,
{
    if n == 0 {
        Seq::empty()
    } else {
        found_by(rules, deck, (n - 1) as nat) + rules[n - 1].found(deck)
    }
}

impl Deck {
    /// Runs rules over the deck.
    pub fn validate(&self, rules: &Vec<Rule>) -> (r: Report)
        requires
            self.wf(),
        ensures
            finding_views(r.findings@) == found_by(rules@, *self, rules@.len()),
    {
        let mut findings: Vec<Finding> = Vec::new();
        assert(finding_views(findings@) =~= Seq::<FindingView>::empty());
        for i in 0..rules.len()
            invariant
                self.wf(),
                finding_views(findings@) == found_by(rules@, *self, i as nat),
        {
            let ghost before = findings@;
            let mut found: Vec<Finding> = rules[i].run(self);
            let ghost own = found@;
            findings.append(&mut found);
            assert(finding_views(findings@) =~= finding_views(before) + finding_views(own));
        }
        Report { findings }
    }
}

/// Rules to be run together.
pub struct Validator {
    pub rules: Vec<Rule>,
}

impl Validator {
    pub fn new() -> (r: Self)
        ensures
            r.rules@.len() == 0,
    {
        Validator { rules: Vec::new() }
    }

    /// Adds a rule behind the others.
    pub fn rule(self, rule: Rule) -> (r: Self)
        ensures
            r.rules@ == self.rules@.push(rule),
    {
        let mut rules: Vec<Rule> = self.rules;
        rules.push(rule);
        Validator { rules }
    }

    /// Adds a check of the user's behind the others, for all files.
    pub fn check(self, check: Box<dyn Check>) -> (r: Self)
        ensures
            r.rules@.len() == self.rules@.len() + 1,
            r.rules@.drop_last() == self.rules@,
            r.rules@.last().unchanged(),
            r.rules@.last().title() == check.title(),
            forall|deck: Deck| #[trigger]
                r.rules@.last().subject.finds(deck) == check.found(deck),
    {
        let shared = Arc::new(check);
        let rule: Rule = Rule {
            subject: Subject::Own(shared),
            severity: None,
            scope: FileScope::Anywhere,
        };
        let mut rules: Vec<Rule> = self.rules;
        rules.push(rule);
        assert(rules@.drop_last() =~= self.rules@);
        Validator { rules }
    }

    /// Runs the rules over a deck.
    pub fn run_on(&self, deck: &Deck) -> (r: Report)
        requires
            deck.wf(),
        ensures
            finding_views(r.findings@) == found_by(self.rules@, *deck, self.rules@.len()),
    {
        deck.validate(&self.rules)
    }
}

impl Default for Validator {
    fn default() -> (r: Self)
        ensures
            r.rules@.len() == 0,
    {
        Validator::new()
    }
}

/// A rule finds something only in the files that it is for, and with its severity
/// where it has one.
pub proof fn law_findings_keep_scope(rule: Rule, deck: Deck, i: int)
    requires
        0 <= i < rule.found(deck).len(),
    ensures
        rule.scope.covers(rule.found(deck)[i].file),
        rule.severity matches Some(s) ==> rule.found(deck)[i].severity == s,
{
    lemma_applied(rule.subject.finds(deck), rule.severity, rule.scope, i);
}

proof fn lemma_applied(
    s: Seq<FindingView>,
    severity: Option<Severity>,
    scope: FileScope,
    i: int,
)
    requires
        0 <= i < applied(s, severity, scope).len(),
    ensures
        scope.covers(applied(s, severity, scope)[i].file),
        severity matches Some(v) ==> applied(s, severity, scope)[i].severity == v,
    decreases s.len(),
{
    if i < applied(s.drop_last(), severity, scope).len() {
        lemma_applied(s.drop_last(), severity, scope, i);
    }
}

/// A rule for all files and without a severity finds just what its check finds.
pub proof fn law_plain_rule_finds_all(rule: Rule, deck: Deck)
    requires
        rule.unchanged(),
    ensures
        rule.found(deck) == rule.subject.finds(deck),
{
    lemma_unchanged(rule.subject.finds(deck));
}

proof fn lemma_unchanged(s: Seq<FindingView>)
    ensures
        applied(s, None, FileScope::Anywhere) == s,
    decreases s.len(),
{
    if s.len() > 0 {
        lemma_unchanged(s.drop_last());
        assert(s.drop_last().push(s.last()) =~= s);
    }
}

/// A finding of a rule that is kept within some files is not one of the same rule kept
/// out of them: the two share no file.
pub proof fn law_scopes_part_the_files(pats: Vec<String>, path: Seq<char>)
    ensures
        FileScope::OnlyIn(pats).covers(path) != FileScope::ExceptIn(pats).covers(path),
{
}

/// Running two lists of rules one behind the other finds what each list finds.
pub proof fn law_rules_add_up(a: Seq<Rule>, b: Seq<Rule>, deck: Deck)
    ensures
        found_by(a + b, deck, (a.len() + b.len()) as nat) == found_by(a, deck, a.len())
            + found_by(b, deck, b.len()),
{
    lemma_found_prefix(a, b, deck, a.len());
    lemma_found_tail(a, b, deck, b.len());
}

proof fn lemma_found_prefix(a: Seq<Rule>, b: Seq<Rule>, deck: Deck, n: nat)
    requires
        n <= a.len(),
    ensures
        found_by(a + b, deck, n) == found_by(a, deck, n),
    decreases n,
{
    if n > 0 {
        lemma_found_prefix(a, b, deck, (n - 1) as nat);
    }
}

proof fn lemma_found_tail(a: Seq<Rule>, b: Seq<Rule>, deck: Deck, n: nat)
    requires
        n <= b.len(),
    ensures
        found_by(a + b, deck, (a.len() + n) as nat) == found_by(a, deck, a.len()) + found_by(
            b,
            deck,
            n,
        ),
    decreases n,
{
    if n == 0 {
        lemma_found_prefix(a, b, deck, a.len());
        assert(found_by(a, deck, a.len()) + found_by(b, deck, 0) =~= found_by(a, deck, a.len()));
    } else {
        lemma_found_tail(a, b, deck, (n - 1) as nat);
        let m = (a.len() + n) as nat;
        assert((a + b)[m - 1] == b[n - 1]);
        assert(found_by(a, deck, a.len()) + (found_by(b, deck, (n - 1) as nat) + b[n - 1].found(
            deck,
        )) =~= found_by(a, deck, a.len()) + found_by(b, deck, (n - 1) as nat) + b[n - 1].found(
            deck,
        ));
    }
}

/// A deck whose references all resolve has no dangling ones, and the other way
/// round.
pub proof fn law_clean_references(deck: Deck, connectivity: bool, n: nat)
    requires
        n <= deck.references@.len(),
    ensures
        dangling_upto(deck, connectivity, n).len() == 0 <==> forall|i: int|
            0 <= i < n ==> (connectivity || !(#[trigger] deck.references@[i]).connectivity)
                ==> crate::validate::ids::resolves(
                deck,
                deck.references@[i].target,
                deck.references@[i].id,
            ),
    decreases n,
{
    if n > 0 {
        law_clean_references(deck, connectivity, (n - 1) as nat);
        let r = deck.references@[n - 1];
        if dangling_upto(deck, connectivity, n).len() == 0 {
            assert(crate::validate::entities::dangling_at(deck, connectivity, r) is None);
        }
    }
}

} // verus!
