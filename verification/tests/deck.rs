//! Cards and columns of decks.

use dynars::deck::column::{Column, Table};
use dynars::deck::file::{block_line, same_name, Block, CardFormat, ParsedFile};
use dynars::deck::hooks::{
    KeywordSchema, __drive_single_card, __is_free, __is_skippable, __slice, __strip_eol, __table,
    __to_int, __to_str,
};
use dynars::deck::inplace::{parse_schema, parse_schema_files};
use dynars::deck::lines::{body_lines, split_bytes};
use dynars::deck::schema::{Card, EntityKind, FieldType, Ref, Schema};
use dynars::deck::typed::{parse_mat_elastic, parse_parts, Part};

/// The blocks of a text: a keyword line, and the lines up to the next one.
fn split_blocks(src: &[u8]) -> Vec<Block> {
    let mut starts: Vec<usize> = Vec::new();
    let mut line = 0;
    for (i, c) in src.iter().enumerate() {
        if i == line && *c == b'*' {
            starts.push(i);
        }
        if *c == b'\n' {
            line = i + 1;
        }
    }
    starts
        .iter()
        .enumerate()
        .map(|(k, &s)| {
            let end = starts.get(k + 1).copied().unwrap_or(src.len());
            let eol = src[s..end].iter().position(|c| *c == b'\n').unwrap_or(end - s) + s;
            Block {
                name_start: s + 1,
                name_end: eol,
                body_start: (eol + 1).min(end),
                body_end: end,
                format: CardFormat::Fixed,
            }
        })
        .collect()
}

fn parsed(src: &[u8]) -> ParsedFile {
    ParsedFile::new("deck.k".to_string(), src.to_vec(), split_blocks(src))
}

fn floats(c: &Column) -> Vec<f64> {
    c.as_float().unwrap().iter().map(|b| number(b)).collect()
}

fn number(raw: &[u8]) -> f64 {
    std::str::from_utf8(raw).unwrap().trim().parse().unwrap_or(0.0)
}

#[test]
fn schema_reproduces_nodes() {
    let fixed = format!("{:>8}{:>16.6}{:>16.6}{:>16.6}", 3, 4.0, 5.0, 6.0);
    let src = format!("*NODE\n1,0.0,0.0,0.0\n2,1.0,2.0,3.0\n{}\n*END\n", fixed);
    let p = parsed(src.as_bytes());
    let schema = Schema::new("NODE").card(
        Card::new()
            .integer("nid", 8)
            .float("x", 16)
            .float("y", 16)
            .float("z", 16),
    );
    let t = parse_schema(&p, &schema);
    assert_eq!(t.rows(), 3);
    assert_eq!(t.column("nid").unwrap().as_int().unwrap(), &[1, 2, 3]);
    assert_eq!(floats(t.column("z").unwrap()), vec![0.0, 3.0, 6.0]);
}

#[test]
fn schema_handles_multi_card_repeating() {
    let p = parsed(b"*PART\nsteel bracket\n1,2,3\nalu panel\n10,20,30\n");
    let schema = Schema::new("PART")
        .card(Card::new().str("title", 80))
        .card(Card::new().integer("pid", 8).integer("secid", 8).integer("mid", 8));
    let t = parse_schema(&p, &schema);
    assert_eq!(t.rows(), 2);
    assert_eq!(
        t.column("title").unwrap().as_str().unwrap(),
        &["steel bracket", "alu panel"]
    );
    assert_eq!(t.column("pid").unwrap().as_int().unwrap(), &[1, 10]);
    assert_eq!(t.column("mid").unwrap().as_int().unwrap(), &[3, 30]);
}

#[test]
fn schema_array_field_makes_a_wide_column() {
    let p = parsed(b"*ELEMENT_SHELL\n1,10,1,2,3,4\n2,10,5,6,7,8\n");
    let schema = Schema::new("ELEMENT_SHELL").card(
        Card::new()
            .integer("eid", 8)
            .integer("pid", 8)
            .int_array("nodes", 4, 8),
    );
    let t = parse_schema(&p, &schema);
    assert_eq!(t.rows(), 2);
    let nodes = t.column("nodes").unwrap();
    assert_eq!(nodes.rows(), 2);
    assert_eq!(nodes.as_int().unwrap(), &[1, 2, 3, 4, 5, 6, 7, 8]);
}

fn elastic() -> Schema {
    Schema::new("MAT_ELASTIC").card(
        Card::new()
            .integer("mid", 8)
            .float("ro", 16)
            .float("e", 16)
            .float("pr", 16),
    )
}

const ELASTIC: &[u8] =
    b"*MAT_ELASTIC\n1,7.85e-9,210000.0,0.3\n*MAT_ELASTIC\n2,2.7e-9,70000.0,0.33\n";

#[test]
fn table_iter_yields_row_views() {
    let t = parse_schema(&parsed(ELASTIC), &elastic());
    let rows: Vec<(i64, f64)> = (0..t.rows())
        .map(|i| {
            let r = t.row(i);
            (r.integer("mid").unwrap(), number(r.float("e").unwrap()))
        })
        .collect();
    assert_eq!(rows, vec![(1, 210000.0), (2, 70000.0)]);
}

#[test]
fn schema_single_entity_per_block() {
    let t = parse_schema(&parsed(ELASTIC), &elastic());
    assert_eq!(t.rows(), 2);
    assert_eq!(t.column("mid").unwrap().as_int().unwrap(), &[1, 2]);
    assert_eq!(floats(t.column("e").unwrap()), vec![210000.0, 70000.0]);
    let once = parse_schema(&parsed(b"*MAT_ELASTIC\n1,2\n3,4\n"), &elastic().once());
    assert_eq!(once.column("mid").unwrap().as_int().unwrap(), &[1]);
}

#[test]
fn parses_parts_with_titles() {
    let src = b"*PART\n\
                steel bracket\n\
                1,2,3\n\
                $ comment between\n\
                aluminium panel\n\
                10,20,30\n";
    let parts = parse_parts(&parsed(src));
    assert_eq!(parts.len(), 2);
    assert_eq!(
        parts[0],
        Part {
            title: "steel bracket".to_string(),
            pid: 1,
            secid: 2,
            mid: 3
        }
    );
    assert_eq!(
        parts[1],
        Part {
            title: "aluminium panel".to_string(),
            pid: 10,
            secid: 20,
            mid: 30
        }
    );
}

#[test]
fn parses_mat_elastic() {
    let mats = parse_mat_elastic(&parsed(b"*MAT_ELASTIC\n1,7.85e-9,210000.0,0.3\n"));
    assert_eq!(mats.len(), 1);
    assert_eq!(mats[0].mid, 1);
    assert_eq!(number(&mats[0].e), 210000.0);
    assert_eq!(number(&mats[0].pr), 0.3);
}

struct Node;

impl KeywordSchema for Node {
    fn schema() -> Schema {
        Schema::new("NODE").card(
            Card::new()
                .integer("nid", 8)
                .float("x", 16)
                .float("y", 16)
                .float("z", 16),
        )
    }
}

#[test]
fn derive_reproduces_schema_parsing() {
    let node =
        |i: usize, x: f64, y: f64, z: f64| format!("{:>8}{:>16.6}{:>16.6}{:>16.6}\n", i, x, y, z);
    let mut deck = String::from("*KEYWORD\n*NODE\n");
    deck += &node(1, 0.0, 0.0, 0.0);
    deck += &node(2, 1.0, 2.0, 3.0);
    deck += "*ELEMENT_SHELL\n1,10,1,2,3,4\n2,10,5,6,7,8\n";
    deck += "*PART\nsteel\n1,2,3\nalu\n10,20,30\n*END\n";
    let p = parsed(deck.as_bytes());

    // A parser of single cards, made from the hooks.
    let cols = __drive_single_card(&p, "NODE", |chunk: &[u8], format: CardFormat| {
        let (mut nid, mut z) = (Vec::new(), Vec::new());
        for line in split_bytes(chunk, b'\n') {
            if __is_skippable(line) {
                continue;
            }
            let line = __strip_eol(line);
            assert!(!__is_free(line, format));
            nid.push(__to_int(__slice(line, 0, 8)));
            z.push(__slice(line, 40, 16).to_vec());
        }
        vec![
            Column::Int { data: nid, ncols: 1 },
            Column::Float { data: z, ncols: 1 },
        ]
    });
    let nodes = __table(vec!["nid", "z"], cols);
    assert_eq!(nodes.rows(), 2);
    assert_eq!(nodes.column("nid").unwrap().as_int().unwrap(), &[1, 2]);
    assert_eq!(floats(nodes.column("z").unwrap()), vec![0.0, 3.0]);
    let same = parse_schema(&p, &Node::schema());
    assert_eq!(same.column("nid").unwrap().as_int().unwrap(), &[1, 2]);
    assert_eq!(floats(same.column("z").unwrap()), vec![0.0, 3.0]);

    let shells = parse_schema(
        &p,
        &Schema::new("ELEMENT_SHELL").card(
            Card::new()
                .integer("eid", 8)
                .integer("pid", 8)
                .int_array("nodes", 4, 8),
        ),
    );
    assert_eq!(shells.rows(), 2);
    let conn = shells.column("nodes").unwrap();
    assert_eq!(conn.rows(), 2);
    assert_eq!(conn.as_int().unwrap(), &[1, 2, 3, 4, 5, 6, 7, 8]);

    let part = Schema::new("PART")
        .card(Card::new().str("title", 80))
        .card(Card::new().integer("pid", 8).integer("secid", 8).integer("mid", 8));
    let parts = parse_schema(&p, &part);
    assert_eq!(parts.rows(), 2);
    assert_eq!(
        parts.column("title").unwrap().as_str().unwrap(),
        &["steel", "alu"]
    );
    assert_eq!(parts.column("mid").unwrap().as_int().unwrap(), &[3, 30]);

    assert_eq!(Node::schema().keyword, "NODE");
    assert!(Node::schema().repeat);
    assert_eq!(part.cards.len(), 2);
}

#[test]
fn no_block_gives_empty_columns() {
    let p = parsed(b"*KEYWORD\n");
    let cols = __drive_single_card(&p, "NODE", |chunk: &[u8], _format: CardFormat| {
        assert!(chunk.is_empty());
        vec![Column::Int { data: vec![], ncols: 1 }]
    });
    assert_eq!(cols.len(), 1);
    assert_eq!(cols[0].rows(), 0);
    let t = parse_schema(&p, &Node::schema());
    assert_eq!(t.rows(), 0);
    assert_eq!(t.columns.len(), 4);
    assert_eq!(parse_schema(&p, &Schema::new("NODE")).columns.len(), 0);
}

#[test]
fn large_blocks_are_cut_between_lines() {
    let n = 60_000;
    let mut src = String::from("*NODE\n");
    for i in 1..=n {
        src += &format!("{:>8}{:>16.6}{:>16.6}{:>16.6}\n", i, i as f64, 0.0, 0.5);
    }
    let t = parse_schema(&parsed(src.as_bytes()), &Node::schema());
    assert_eq!(t.rows(), n);
    let ids = t.column("nid").unwrap().as_int().unwrap();
    assert!(ids.iter().enumerate().all(|(i, v)| *v == i as i64 + 1));
    assert_eq!(floats(t.column("x").unwrap())[n - 1], n as f64);
    let text = Schema::new("NODE").card(Card::new().str("all", 56));
    assert_eq!(parse_schema(&parsed(src.as_bytes()), &text).rows(), n);
}

#[test]
fn tables_span_files() {
    let a = parsed(b"*SET\n1\n2\n");
    let b = parsed(b"$ note\n*set\n\n3\n*OTHER\n9\n");
    let s = Schema::new("SET").card(Card::new().integer("id", 10));
    let t = parse_schema_files(&[a, b], &s);
    assert_eq!(t.column("id").unwrap().as_int().unwrap(), &[1, 2, 3]);
}

#[test]
fn long_cards_have_double_width() {
    let src = b"*NODE\n               7\n";
    let mut p = parsed(src);
    p.blocks[0].format = CardFormat::Long;
    let s = Schema::new("NODE").card(Card::new().integer("id", 8));
    let t = parse_schema(&p, &s);
    assert_eq!(t.column("id").unwrap().as_int().unwrap(), &[7]);
}

#[test]
fn fields_hold_numbers_and_text() {
    assert_eq!(__to_int(b"  -12 "), -12);
    assert_eq!(__to_int(b"+7"), 7);
    assert_eq!(__to_int(b"1.5"), 0);
    assert_eq!(__to_int(b"9223372036854775808"), 0);
    assert_eq!(__to_str(b"  a b "), "a b");
    assert_eq!(__to_str(&[0xff]), "\u{fffd}");
    assert_eq!(__slice(b"abc", 1, 5), b"bc");
    assert_eq!(__slice(b"abc", 3, 5), b"");
    assert!(__is_free(b"1,2", CardFormat::Fixed));
    assert!(__is_free(b"1 2", CardFormat::Free));
    assert!(!__is_free(b"1 2", CardFormat::Fixed));
    assert!(__is_skippable(b"$ note"));
    assert!(__is_skippable(b"   \r"));
    assert!(!__is_skippable(b" 1"));
    assert_eq!(__strip_eol(b"x\r\n"), b"x");
    assert_eq!(split_bytes(b"a,,b", b','), vec![&b"a"[..], b"", b"b"]);
    assert_eq!(body_lines(b"$c\n1\n\n2"), vec![&b"1"[..], b"2"]);
}

#[test]
fn names_and_lines_of_blocks() {
    let p = parsed(b"*KEYWORD\n*Node\n1\n*END");
    assert_eq!(p.keyword_name(&p.blocks[1]), b"Node");
    assert_eq!(p.body(&p.blocks[1]), b"1\n");
    assert_eq!(block_line(&p, &p.blocks[0]), 1);
    assert_eq!(block_line(&p, &p.blocks[2]), 4);
    assert!(same_name(b"NoDe", b"nOdE"));
    assert!(!same_name(b"NODE", b"NODES"));
}

#[test]
fn columns_give_up_their_data() {
    let mut t: Table = __table(
        vec!["a", "b", "c"],
        vec![
            Column::Int { data: vec![1], ncols: 1 },
            Column::Str { data: vec!["x".to_string()], ncols: 1 },
        ],
    );
    assert_eq!(t.columns.len(), 2);
    assert_eq!(t.row(0).str("b"), Some("x"));
    assert_eq!(t.row(0).integer("b"), None);
    let b = t.take("b").unwrap();
    assert!(t.column("b").is_none());
    assert_eq!(b.into_str().unwrap(), vec!["x"]);
    assert_eq!(t.take("a").unwrap().into_int(), Some(vec![1]));
    assert!(Table::default().row(0).float("a").is_none());
}

#[test]
fn cards_are_built_field_by_field() {
    let c = Card::default()
        .ref_to("mid", 10, EntityKind::Material)
        .float_array("v", 0, 10);
    assert_eq!(c.fields.len(), 2);
    assert!(matches!(c.fields[0].reference, Ref::To(EntityKind::Material)));
    assert_eq!(c.fields[1].count, 1);
    assert_eq!(c.fields[1].ty, FieldType::Float);
    let s = Schema::new("X").card(c).card(Card::new());
    assert_eq!(s.card_for_row(0).unwrap().len(), 2);
    assert_eq!(s.card_for_row(1).unwrap().len(), 0);
    assert!(s.card_for_row(2).is_none());
    let one = Schema::new("X").card(Card::new().integer("a", 8));
    assert_eq!(one.card_for_row(17).unwrap().len(), 1);
}
