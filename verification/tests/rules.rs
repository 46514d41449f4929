//! Rules over decks.

use dynars::deck::file::{Block, CardFormat, ParsedFile};
use dynars::deck::inplace::parse_schema;
use dynars::deck::schema::{Card, EntityKind, Ref, Schema};
use dynars::validate::expr::{pred, Expr};
use dynars::validate::ids::{defined_ids, is_resolved};
use dynars::validate::model::{Deck, Definition, MeshId, NamedFile, Occurrence, Reference};
use dynars::validate::names::{canonical_base, is_rigid_material, kind_name, target_name};
use dynars::validate::primary::{cell, primary_rows, primary_schema, Cell};
use dynars::validate::report::{FileScope, Finding, Report, Severity};
use dynars::validate::rules::{Check, Rule, Validator};
use dynars::validate::value::{Cmp, Value};

fn float(v: f64) -> Value {
    Value::Float {
        bits: v.to_bits(),
        text: v.to_string(),
    }
}

fn text(s: &str) -> Value {
    Value::Str(s.to_string())
}

fn file(path: &str, src: &str) -> ParsedFile {
    let b = src.as_bytes();
    let mut blocks: Vec<Block> = Vec::new();
    let mut at = 0;
    for line in src.split_inclusive('\n') {
        if line.starts_with('*') {
            if let Some(last) = blocks.last_mut() {
                last.body_end = at;
            }
            blocks.push(Block {
                name_start: at + 1,
                name_end: at + line.trim_end().len(),
                body_start: at + line.len(),
                body_end: b.len(),
                format: CardFormat::Fixed,
            });
        }
        at += line.len();
    }
    ParsedFile::new(path.to_string(), b.to_vec(), blocks)
}

fn occurrence(name: &str, line: usize, fields: Vec<(&str, Value)>) -> Occurrence {
    Occurrence {
        name: name.to_string(),
        file: "root.k".to_string(),
        line,
        fields: fields
            .into_iter()
            .map(|(n, v)| (n.to_string(), v))
            .collect(),
        kind: None,
        id: None,
        material: None,
        part_offset: 0,
    }
}

fn entity(name: &str, kind: EntityKind, id: i64, material: Option<i64>) -> Occurrence {
    Occurrence {
        kind: Some(kind),
        id: Some(id),
        material,
        ..occurrence(name, 1, vec![])
    }
}

fn reference(from: &str, field: &str, line: usize, target: Ref, id: i64) -> Reference {
    Reference {
        from_keyword: from.to_string(),
        field: field.to_string(),
        file: "root.k".to_string(),
        line,
        target,
        id,
        connectivity: false,
    }
}

fn deck(src: &str) -> Deck {
    Deck {
        files: vec![file("root.k", src)],
        occurrences: vec![],
        references: vec![],
        definitions: vec![],
        mesh_ids: vec![],
        named_files: vec![],
    }
}

fn messages(d: &Deck, rule: Rule, sev: Severity) -> Vec<String> {
    d.validate(&vec![rule])
        .findings
        .into_iter()
        .filter(|f| f.severity == sev)
        .map(|f| f.message)
        .collect()
}

fn define(d: &mut Deck, kind: EntityKind, id: i64, block: usize) {
    d.definitions.push(Definition {
        kind,
        id,
        file: 0,
        block,
    });
}

#[test]
fn duplicate_ids_flags_id_collisions() {
    let mut d = deck(
        "*KEYWORD\n\
         *MAT_ELASTIC\n1,7.85e-9,210000.0,0.3\n\
         *MAT_ELASTIC\n1,7.0e-9,200000.0,0.3\n\
         *SECTION_SHELL\n1,2\n\
         *PART\npart one\n3,1,1\n\
         *PART\npart two\n3,1,1\n\
         *END\n",
    );
    define(&mut d, EntityKind::Material, 1, 1);
    define(&mut d, EntityKind::Material, 1, 2);
    define(&mut d, EntityKind::Section, 1, 3);
    define(&mut d, EntityKind::Part, 3, 4);
    define(&mut d, EntityKind::Part, 3, 5);
    let msgs = messages(&d, Rule::duplicate_ids(), Severity::Error);
    let mat = msgs.iter().filter(|m| m.contains("Material id 1")).count();
    let part = msgs.iter().filter(|m| m.contains("Part id 3")).count();
    assert_eq!(mat, 2, "both *MAT_ELASTIC mid=1 flagged: {msgs:?}");
    assert_eq!(part, 2, "both *PART pid=3 flagged: {msgs:?}");
    assert_eq!(msgs.len(), 4, "nothing else collides: {msgs:?}");
    let r = d.validate(&vec![Rule::duplicate_ids()]);
    assert_eq!(r.findings[1].location(), "root.k:4");
    assert_eq!(r.findings[1].keyword, "MAT_ELASTIC");
    assert_eq!(
        r.findings[1].message,
        "duplicate Material id 1 — defined by 2 keywords in the deck"
    );
}

#[test]
fn unique_ids_produce_no_duplicate_findings() {
    let mut d = deck(
        "*KEYWORD\n\
         *MAT_ELASTIC\n1,7.85e-9,210000.0,0.3\n\
         *MAT_ELASTIC\n2,7.0e-9,200000.0,0.3\n\
         *SECTION_SHELL\n1,2\n\
         *PART\np\n1,1,1\n\
         *END\n",
    );
    define(&mut d, EntityKind::Material, 1, 1);
    define(&mut d, EntityKind::Material, 2, 2);
    define(&mut d, EntityKind::Section, 1, 3);
    define(&mut d, EntityKind::Part, 1, 4);
    assert!(messages(&d, Rule::duplicate_ids(), Severity::Error).is_empty());
}

#[test]
fn instanced_ids_are_not_false_duplicates() {
    let mut d = deck("*PART\np\n1,1,1\n");
    define(&mut d, EntityKind::Part, 1, 0);
    define(&mut d, EntityKind::Part, 1001, 0);
    assert!(messages(&d, Rule::duplicate_ids(), Severity::Error).is_empty());
}

#[test]
fn unreferenced_entities_flags_dead_definitions() {
    let mut d = deck("");
    d.occurrences = vec![
        entity("PART", EntityKind::Part, 1, Some(1)),
        entity("SECTION_SHELL", EntityKind::Section, 1, None),
        entity("MAT_ELASTIC", EntityKind::Material, 1, None),
        entity("MAT_ELASTIC", EntityKind::Material, 99, None),
        entity("DEFINE_CURVE", EntityKind::Curve, 7, None),
    ];
    d.references = vec![
        reference("PART", "SECID", 1, Ref::To(EntityKind::Section), 1),
        reference("PART", "MID", 1, Ref::To(EntityKind::Material), 1),
    ];
    let msgs = messages(&d, Rule::unreferenced_entities(), Severity::Warning);
    assert!(msgs.iter().any(|m| m.contains("Material 99")), "{msgs:?}");
    assert!(msgs.iter().any(|m| m.contains("Curve 7")), "{msgs:?}");
    assert!(!msgs.iter().any(|m| m.contains("Material 1")), "{msgs:?}");
    assert!(!msgs.iter().any(|m| m.contains("Section 1")), "{msgs:?}");
    assert_eq!(msgs[0], "Material 99 is defined but never referenced");
    let of = Rule::unreferenced_entities_of(vec![EntityKind::Curve]);
    assert_eq!(messages(&d, of, Severity::Warning).len(), 1);
}

fn rigid_deck(extra: Occurrence) -> Deck {
    let mut d = deck("");
    d.occurrences = vec![
        entity("MAT_RIGID", EntityKind::Material, 1, None),
        entity("MAT_ELASTIC", EntityKind::Material, 2, None),
        entity("PART", EntityKind::Part, 10, Some(1)),
        entity("PART", EntityKind::Part, 20, Some(2)),
        extra,
    ];
    d
}

fn rigid_findings(d: &Deck) -> Vec<String> {
    messages(d, Rule::rigid_context(), Severity::Error)
}

#[test]
fn rigid_body_load_on_rigid_part_is_clean() {
    let d = rigid_deck(occurrence("LOAD_RIGID_BODY", 9, vec![("PID", Value::Int(10))]));
    assert!(rigid_findings(&d).is_empty());
}

#[test]
fn rigid_body_load_on_deformable_part_is_flagged() {
    let d = rigid_deck(occurrence("LOAD_RIGID_BODY", 9, vec![("PID", Value::Int(20))]));
    let msgs = rigid_findings(&d);
    assert_eq!(msgs.len(), 1, "{msgs:?}");
    assert!(msgs[0].contains("part 20"), "{msgs:?}");
    assert!(msgs[0].contains("MAT_ELASTIC"), "{msgs:?}");
    assert_eq!(
        msgs[0],
        "LOAD_RIGID_BODY.PID references part 20, whose material *MAT_ELASTIC is not *MAT_RIGID"
    );
}

#[test]
fn constrained_rigid_bodies_flags_only_the_deformable_member() {
    let d = rigid_deck(occurrence(
        "CONSTRAINED_RIGID_BODIES",
        9,
        vec![("PIDL", Value::Int(10)), ("PIDC", Value::Int(20))],
    ));
    let msgs = rigid_findings(&d);
    assert_eq!(msgs.len(), 1, "{msgs:?}");
    assert!(msgs[0].contains("PIDC"), "{msgs:?}");
    assert!(msgs[0].contains("part 20"), "{msgs:?}");
}

#[test]
fn dangling_rigid_target_is_left_to_references_resolve() {
    let mut d = rigid_deck(occurrence("LOAD_RIGID_BODY", 9, vec![("PID", Value::Int(999))]));
    assert!(rigid_findings(&d).is_empty());
    d.references.push(reference(
        "LOAD_RIGID_BODY",
        "PID",
        9,
        Ref::To(EntityKind::Part),
        999,
    ));
    let dangling = messages(&d, Rule::references_resolve(), Severity::Error);
    assert!(dangling.iter().any(|m| m.contains("Part 999")), "{dangling:?}");
}

#[test]
fn parts_are_shifted_into_the_deck() {
    let mut load = occurrence("LOAD_RIGID_BODY", 9, vec![("pid", Value::Int(5))]);
    load.part_offset = 15;
    assert_eq!(rigid_findings(&rigid_deck(load)).len(), 1);
    let none = occurrence("LOAD_RIGID_BODY", 9, vec![("PID", Value::Int(0))]);
    assert!(rigid_findings(&rigid_deck(none)).is_empty());
}

#[test]
fn dangling_check_is_linear_in_block_count() {
    const N: usize = 30_000;
    let mut d = deck("");
    for nid in 1..=N {
        d.mesh_ids.push(MeshId {
            kind: EntityKind::Node,
            id: nid as i64,
        });
    }
    for j in 0..N {
        let nid = if j == N - 1 { N + 1_000_000 } else { j + 1 };
        d.references.push(reference(
            "BOUNDARY_SPC_NODE",
            "NID",
            (N + 2) + j * 2 + 1,
            Ref::To(EntityKind::Node),
            nid as i64,
        ));
    }
    let report = d.validate(&vec![Rule::references_resolve()]);
    let errors: Vec<&Finding> = report
        .findings
        .iter()
        .filter(|f| f.severity == Severity::Error && f.keyword == "BOUNDARY_SPC_NODE")
        .collect();
    assert_eq!(errors.len(), 1, "exactly one dangling SPC reference");
    assert_eq!(errors[0].line, 3 * N + 1);
}

#[test]
fn sensor_reference_is_checked_against_sensor_defs() {
    let mut d = deck("*SENSOR_DEFINE_NODE\n5,0,0\n");
    define(&mut d, EntityKind::Sensor, 5, 0);
    d.references = vec![
        reference("SENSOR_SWITCH", "SENSID", 4, Ref::To(EntityKind::Sensor), 5),
        reference("SENSOR_SWITCH", "SENSID", 6, Ref::To(EntityKind::Sensor), 99),
    ];
    let ids = defined_ids(&d);
    assert!(is_resolved(&ids, &d, &Ref::To(EntityKind::Sensor), 5));
    assert!(!is_resolved(&ids, &d, &Ref::To(EntityKind::Sensor), 99));
    let msgs = messages(&d, Rule::references_resolve(), Severity::Error);
    assert_eq!(
        msgs,
        vec!["SENSOR_SWITCH.SENSID references Sensor 99 — not defined in the deck"]
    );
}

#[test]
fn nodes_of_elements_are_checked_on_request() {
    let mut d = deck("");
    let mut r = reference("ELEMENT_SHELL", "N1", 3, Ref::To(EntityKind::Node), 4);
    r.connectivity = true;
    d.references.push(r);
    assert!(messages(&d, Rule::references_resolve(), Severity::Error).is_empty());
    let all = Rule::references_resolve_with_connectivity();
    assert_eq!(messages(&d, all, Severity::Error).len(), 1);
}

#[test]
fn any_of_several_kinds_will_do() {
    let mut d = deck("*SET_NODE\n3\n");
    define(&mut d, EntityKind::NodeSet, 3, 0);
    let any = Ref::AnyOf(vec![EntityKind::Part, EntityKind::NodeSet]);
    assert_eq!(target_name(&any), "[Part, NodeSet]");
    assert_eq!(target_name(&Ref::To(EntityKind::Box)), "Box");
    assert_eq!(target_name(&Ref::Nothing), "");
    d.references = vec![
        reference("X", "A", 1, any.clone(), 3),
        reference("X", "A", 2, any, 4),
    ];
    let msgs = messages(&d, Rule::references_resolve(), Severity::Error);
    assert_eq!(
        msgs,
        vec!["X.A references [Part, NodeSet] 4 — not defined in the deck"]
    );
}

#[test]
fn forbidden_keywords_are_found_in_all_forms() {
    let d = deck("*KEYWORD\n*Mat_Elastic_Title\nx\n*MAT_ELASTIC_ID\n*MAT_ELASTIC_FLUID\n");
    let rule = Rule::keyword_forbidden("mat_elastic".to_string());
    assert_eq!(rule.name(), "keyword_forbidden(mat_elastic)");
    let found = d.validate(&vec![rule]).findings;
    let lines: Vec<usize> = found.iter().map(|f| f.line).collect();
    assert_eq!(lines, vec![2, 4]);
    assert_eq!(found[0].message, "keyword *MAT_ELASTIC is not allowed here");
    assert_eq!(canonical_base("Part_id_TITLE"), "PART");
    assert_eq!(canonical_base("PART_TITLE_ID"), "PART_TITLE");
    assert!(is_rigid_material("MAT_020"));
    assert!(!is_rigid_material("MAT_024"));
    assert_eq!(kind_name(EntityKind::Eos), "Eos");
}

fn sections() -> Deck {
    let mut d = deck("");
    d.occurrences = vec![
        occurrence(
            "SECTION_SHELL_TITLE",
            3,
            vec![("ELFORM", Value::Int(2)), ("NIP", Value::Int(2))],
        ),
        occurrence(
            "SECTION_SHELL",
            8,
            vec![("ELFORM", Value::Int(16)), ("NIP", float(2.0))],
        ),
        occurrence("SECTION_SOLID", 12, vec![("ELFORM", Value::Int(2))]),
    ];
    d
}

#[test]
fn forbidden_values_are_found() {
    let rule = Rule::field_forbidden_values(
        "SECTION_SHELL".to_string(),
        "elform".to_string(),
        vec![float(2.0), text("2")],
    );
    assert_eq!(rule.name(), "field_forbidden_values(SECTION_SHELL.elform)");
    let found = sections().validate(&vec![rule]).findings;
    assert_eq!(found.len(), 1);
    assert_eq!(found[0].line, 3);
    assert_eq!(found[0].message, "elform = 2 is forbidden");
    assert_eq!(found[0].keyword, "SECTION_SHELL");
}

#[test]
fn required_fields_are_asked_for() {
    let rule = Rule::field_required(
        "SECTION_SHELL".to_string(),
        Some(pred("ELFORM", Cmp::Eq, Value::Int(16))),
        pred("NIP", Cmp::Ge, Value::Int(3)),
    );
    assert_eq!(rule.name(), "field_required(SECTION_SHELL)");
    let found = sections().validate(&vec![rule]).findings;
    assert_eq!(found.len(), 1);
    assert_eq!(
        found[0].message,
        "requires NIP >= 3 when ELFORM == 16, got 2"
    );
    let deep = Rule::field_required(
        "SECTION_SHELL".to_string(),
        None,
        Expr::any(vec![
            Expr::not(pred("NIP", Cmp::Lt, Value::Int(3))),
            Expr::all(vec![]),
        ]),
    );
    assert!(sections().validate(&vec![deep]).is_clean());
    let none = Rule::field_required("SECTION_SHELL".to_string(), None, Expr::any(vec![]));
    let found = sections().validate(&vec![none]).findings;
    assert_eq!(found.len(), 2);
    assert_eq!(found[0].message, "requires any()");
}

#[test]
fn conditions_in_words() {
    let e = Expr::not(Expr::all(vec![
        pred("A", Cmp::Ne, text("x")),
        Expr::field("B", Cmp::Le, float(0.5)),
    ]));
    assert_eq!(e.describe(), "not(all(A != x, B <= 0.5))");
    let kw = occurrence("K", 1, vec![("a", text("x")), ("b", float(0.25))]);
    assert!(e.eval(&kw));
    assert!(!pred("missing", Cmp::Ne, Value::Int(1)).eval(&kw));
}

#[test]
fn values_compare_as_numbers_where_they_can() {
    assert!(Cmp::Eq.test(&Value::Int(2), &float(2.0)));
    assert!(Cmp::Lt.test(&Value::Int(-3), &float(-2.5)));
    assert!(Cmp::Gt.test(&float(1e300), &Value::Int(i64::MAX)));
    assert!(Cmp::Ne.test(&float(f64::NAN), &float(f64::NAN)));
    assert!(!Cmp::Le.test(&float(f64::NAN), &float(1.0)));
    assert!(Cmp::Eq.test(&text("a"), &text("a")));
    assert!(Cmp::Ne.test(&text("2"), &Value::Int(2)));
    assert!(!Cmp::Lt.test(&text("a"), &text("b")));
    assert_eq!(float(0.5).display(), "0.5");
    assert_eq!(Value::Int(-7).display(), "-7");
    assert_eq!(Cmp::Ge.symbol(), ">=");
}

#[test]
fn validation_flags_the_intentionally_missing_include() {
    let mut d = deck("*INCLUDE\nmissing_geometry.k\n");
    d.named_files = vec![
        NamedFile {
            from: 0,
            raw_path: "here.k".to_string(),
            resolved_path: "/m/here.k".to_string(),
            exists: true,
        },
        NamedFile {
            from: 0,
            raw_path: "missing_geometry.k".to_string(),
            resolved_path: "/m/missing_geometry.k".to_string(),
            exists: false,
        },
    ];
    let found = d.validate(&vec![Rule::include_missing()]).findings;
    assert_eq!(found.len(), 1);
    assert_eq!(
        found[0].message,
        "include 'missing_geometry.k' resolves to a missing file: /m/missing_geometry.k"
    );
    assert_eq!(found[0].location(), "root.k:0");
    assert_eq!(found[0].keyword, "INCLUDE");
}

fn finding(path: &str, severity: Severity) -> Finding {
    Finding {
        rule: "own".to_string(),
        severity,
        keyword: "K".to_string(),
        file: path.to_string(),
        line: 1,
        message: "m".to_string(),
    }
}

struct Own;

impl Check for Own {
    fn name(&self) -> String {
        "own".to_string()
    }

    fn run(&self, _deck: &Deck) -> Vec<Finding> {
        vec![
            finding("model/Airbag.k", Severity::Info),
            finding("model/seat.k", Severity::Warning),
        ]
    }
}

/// Finds a deck of more than that many files too large.
struct FileLimit {
    most: usize,
}

impl Check for FileLimit {
    fn name(&self) -> String {
        format!("file_limit({})", self.most)
    }

    fn run(&self, deck: &Deck) -> Vec<Finding> {
        if deck.files.len() > self.most {
            vec![finding("root.k", Severity::Info)]
        } else {
            vec![]
        }
    }
}

#[test]
fn findings_keep_to_their_files_and_severity() {
    let pats = || vec!["AIRBAG".to_string()];
    let d = deck("");
    let r = d.validate(&vec![
        Rule::custom(Own).only_in(pats()),
        Rule::custom(Own)
            .except_in(pats())
            .with_severity(Severity::Error),
    ]);
    assert_eq!(r.findings.len(), 2);
    assert_eq!(r.findings[0].file, "model/Airbag.k");
    assert_eq!(r.findings[0].severity, Severity::Info);
    assert_eq!(r.findings[1].file, "model/seat.k");
    assert_eq!(r.findings[1].severity, Severity::Error);
    assert!(!r.is_clean());
    assert_eq!(r.count(Severity::Error), 1);
    assert_eq!(r.count(Severity::Warning), 0);
    assert!(FileScope::Anywhere.allows(""));
    assert!(!FileScope::OnlyIn(vec![]).allows("a"));
    assert!(FileScope::OnlyIn(vec!["".to_string()]).allows("a"));
    assert!(Report::default().is_clean());
}

#[test]
fn validators_run_rule_behind_rule() {
    let d = deck("*A\n*B\n");
    let v = Validator::new()
        .rule(Rule::keyword_forbidden("B".to_string()))
        .check(Box::new(Own))
        .rule(Rule::keyword_forbidden("A".to_string()));
    let got: Vec<String> = v.run_on(&d).findings.iter().map(|f| f.rule.clone()).collect();
    assert_eq!(
        got,
        vec!["keyword_forbidden(B)", "own", "own", "keyword_forbidden(A)"]
    );
    assert!(Validator::default().run_on(&d).findings.is_empty());
}

#[test]
fn rules_run_the_checks_of_the_user() {
    let small = deck("*A\n");
    let mut large = deck("*A\n");
    large.files.push(file("more.k", "*B\n"));
    let rule = Rule::custom(FileLimit { most: 1 });
    assert_eq!(rule.name(), "file_limit(1)");
    assert!(rule.run(&small).is_empty());
    assert_eq!(rule.run(&large).len(), 1);
    let strict = rule.clone().with_severity(Severity::Error);
    assert_eq!(rule.run(&large)[0].severity, Severity::Info);
    assert_eq!(strict.run(&large)[0].severity, Severity::Error);
    let nested = Rule::custom(strict).except_in(vec!["root".to_string()]);
    assert_eq!(nested.name(), "file_limit(1)");
    assert!(nested.run(&large).is_empty());
    let v = Validator::new().check(Box::new(FileLimit { most: 0 })).rule(rule);
    assert_eq!(v.run_on(&small).findings.len(), 1);
    assert_eq!(v.run_on(&large).findings.len(), 2);
}

#[test]
fn rules_and_conditions_are_cloned() {
    let e = Expr::all(vec![
        pred("T", Cmp::Gt, float(0.5)),
        Expr::not(Expr::any(vec![pred("N", Cmp::Eq, Value::Int(3))])),
    ]);
    let c = e.clone();
    assert_eq!(c.describe(), e.describe());
    let kw = occurrence("K", 1, vec![("T", float(1.0)), ("N", Value::Int(2))]);
    assert!(e.eval(&kw) && c.eval(&kw));
    let kw = occurrence("K", 1, vec![("T", float(1.0)), ("N", Value::Int(3))]);
    assert!(!e.eval(&kw) && !c.eval(&kw));
    let rule = Rule::field_required("K".to_string(), None, e).with_severity(Severity::Info);
    let mut d = deck("");
    d.occurrences.push(kw);
    let (a, b) = (rule.run(&d), rule.clone().run(&d));
    assert_eq!((a.len(), b.len()), (1, 1));
    assert_eq!(a[0].message, b[0].message);
    assert_eq!(b[0].severity, Severity::Info);
}

#[test]
fn primary_cards_of_titled_keywords() {
    let f = file(
        "root.k",
        "*SECTION_SHELL_TITLE\nfront door\n         7        16\n1.0\n*SECTION_SHELL\n8,2\n",
    );
    let card = || Card::new().integer("SECID", 10).integer("ELFORM", 10);
    let titled = primary_schema("Section_Shell_Title", card());
    assert_eq!(titled.keyword, "SECTION_SHELL_TITLE");
    assert_eq!(titled.cards.len(), 2);
    assert!(!titled.repeat);
    let (t, lines) = primary_rows(&f, b"SECTION_SHELL_TITLE", &titled);
    assert_eq!(lines, vec![1]);
    assert!(matches!(cell(&t, "elform", 0), Some(Cell::Int(16))));
    match cell(&t, "title", 0) {
        Some(Cell::Str(s)) => assert_eq!(s, "front door"),
        _ => panic!("the heading must be there"),
    }
    assert!(cell(&t, "elform", 1).is_none());
    assert!(cell(&t, "nothing", 0).is_none());
    let plain = primary_schema("SECTION_SHELL", card());
    let (t, lines) = primary_rows(&f, b"SECTION_SHELL", &plain);
    assert_eq!(lines, vec![5]);
    assert!(matches!(cell(&t, "SECID", 0), Some(Cell::Int(8))));
    let wide = Schema::new("SECTION_SHELL").card(Card::new().int_array("a", 2, 10));
    assert!(cell(&parse_schema(&f, &wide), "a", 0).is_none());
}
