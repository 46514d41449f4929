//! Reading, editing and writing binouts.

use dynars::lsda::arena::{add_entry, cd, RNode, RawEntry};
use dynars::lsda::binout::{Binout, StateMatrix};
use dynars::lsda::data::Data;
use dynars::lsda::diskfile::{Diskfile, SeekFrom};
use dynars::lsda::edit::BinoutEditor;
use dynars::lsda::endian::read_int;
use dynars::lsda::family::{continuation_name, family_order, next_continuation};
use dynars::lsda::series::pick_scalar;
use dynars::lsda::symbol::{type_elem_size, ReadResult};
use dynars::lsda::table::parse_entry;
use dynars::lsda::tree::SymNode;
use dynars::lsda::write::{put_u64, set_u64, write_cd};
use dynars::lsda::{LsdaError, ScalarExtract};

fn nums(v: &[u64]) -> Vec<f64> {
    v.iter().map(|x| f64::from_bits(*x)).collect()
}

fn singles(v: &[f32]) -> Data {
    Data::F32(v.iter().map(|x| x.to_bits()).collect())
}

fn doubles(v: &[f64]) -> Data {
    Data::F64(v.iter().map(|x| x.to_bits()).collect())
}

fn reopen(e: &BinoutEditor) -> Binout {
    Binout::from_files(vec!["binout0000".to_string()], vec![e.to_bytes()]).unwrap()
}

fn good_entry() -> Vec<u8> {
    let mut d = b"x".to_vec();
    d.push(1);
    d.extend_from_slice(&42u64.to_le_bytes());
    d.extend_from_slice(&7u64.to_le_bytes());
    d
}

#[test]
fn parse_entry_reads_well_formed_record() {
    let e = parse_entry(&good_entry(), 17, 1, 8, 8, true).unwrap();
    assert_eq!(e.name, b"x");
    assert_eq!(e.type_, 1);
    assert_eq!(e.offset, 42);
    assert_eq!(e.length, 7);
}

#[test]
fn parse_entry_rejects_truncated_records_without_panicking() {
    assert!(parse_entry(b"ab", 17, 1, 8, 8, true).is_err());
    assert!(parse_entry(&[], 17, 1, 8, 8, true).is_err());
    let mut d = good_entry();
    d.truncate(d.len() - 4);
    assert!(parse_entry(&d, 13, 1, 8, 8, true).is_err());
    assert!(read_int(&[0; 8], 3, true).is_none());
    assert!(read_int(&[0; 2], 4, true).is_none());
}

#[test]
fn integers_of_either_order() {
    let b = [1u8, 2, 3, 4, 5, 6, 7, 8];
    assert_eq!(read_int(&b, 1, true), Some(1));
    assert_eq!(read_int(&b, 2, true), Some(0x0201));
    assert_eq!(read_int(&b, 2, false), Some(0x0102));
    assert_eq!(read_int(&b, 4, true), Some(0x04030201));
    assert_eq!(read_int(&b, 4, false), Some(0x01020304));
    assert_eq!(read_int(&b, 8, true), Some(0x0807060504030201));
    assert_eq!(read_int(&b, 8, false), Some(0x0102030405060708));
}

#[test]
fn build_write_read_roundtrip() {
    let mut e = BinoutEditor::new();
    e.set(&["nodout", "metadata", "ids"], Data::I32(vec![10, 20, 30]))
        .unwrap();
    e.set(&["nodout", "n1", "time"], singles(&[0.0, 0.5, 1.0])).unwrap();
    e.set(&["nodout", "n1", "x_displacement"], singles(&[1.0, 2.0, 4.0]))
        .unwrap();
    e.set(&["glstat", "title"], Data::Str("dynars test".to_string()))
        .unwrap();
    let b = reopen(&e);
    assert_eq!(b.read(&[]).unwrap().keys(), vec!["glstat", "nodout"]);
    assert_eq!(
        nums(&b.read(&["nodout", "metadata", "ids"]).unwrap().to_f64_vec()),
        vec![10.0, 20.0, 30.0]
    );
    assert_eq!(
        nums(&b.read(&["nodout", "n1", "x_displacement"]).unwrap().to_f64_vec()),
        vec![1.0, 2.0, 4.0]
    );
    match b.read(&["glstat", "title"]).unwrap() {
        ReadResult::I8(v) => {
            let bytes: Vec<u8> = v.iter().map(|&x| x as u8).collect();
            assert_eq!(&bytes, b"dynars test");
        }
        _ => panic!("expected an I8 byte array for glstat/title"),
    }
}

#[test]
fn edit_existing_values_via_full_rewrite() {
    let mut e = BinoutEditor::new();
    e.set(&["rcforc", "m1", "x_force"], singles(&[1.0, 2.0, 3.0])).unwrap();
    let mut e2 = BinoutEditor::from_binout(&reopen(&e)).unwrap();
    assert_eq!(
        e2.get(&["rcforc", "m1", "x_force"]),
        Some(&singles(&[1.0, 2.0, 3.0]))
    );
    e2.set(&["rcforc", "m1", "x_force"], singles(&[9.0, 8.0, 7.0])).unwrap();
    e2.set(&["rcforc", "m1", "y_force"], singles(&[0.0, 0.0, 0.0])).unwrap();
    assert!(e2.remove(&["rcforc", "m1", "x_force"]) || true);
    e2.set(&["rcforc", "m1", "x_force"], singles(&[9.0, 8.0, 7.0])).unwrap();
    let b = reopen(&e2);
    assert_eq!(
        nums(&b.read(&["rcforc", "m1", "x_force"]).unwrap().to_f64_vec()),
        vec![9.0, 8.0, 7.0]
    );
    assert_eq!(
        b.read(&["rcforc", "m1"]).unwrap().keys(),
        vec!["x_force", "y_force"]
    );
}

#[test]
fn all_types_round_trip() {
    let mut e = BinoutEditor::new();
    let all = vec![
        ("a", Data::I8(vec![-1, 2])),
        ("b", Data::I16(vec![-300, 300])),
        ("c", Data::I32(vec![-70000, 70000])),
        ("d", Data::I64(vec![i64::MIN, i64::MAX])),
        ("e", Data::U8(vec![0, 255])),
        ("f", Data::U16(vec![0, 65535])),
        ("g", Data::U32(vec![0, u32::MAX])),
        ("h", Data::U64(vec![0, u64::MAX])),
        ("i", singles(&[1.5, -0.25])),
        ("j", doubles(&[0.1, 1.0 / 3.0])),
    ];
    for (k, d) in &all {
        e.set(&["all", k], d.clone()).unwrap();
    }
    let back = BinoutEditor::from_binout(&reopen(&e)).unwrap();
    for (k, d) in &all {
        assert_eq!(back.get(&["all", k]), Some(d), "{k}");
    }
    assert_eq!(back.list(&["all"]).unwrap().len(), all.len());
    assert_eq!(all[2].1.type_code(), 3);
    assert_eq!(type_elem_size(3), 4);
    assert_eq!(all[9].1.count(), 2);
    assert_eq!(all[1].1.to_le_bytes(), vec![0xd4, 0xfe, 0x2c, 0x01]);
}

#[test]
fn last_set_wins_and_removal_takes_out() {
    let mut e = BinoutEditor::new();
    assert!(e.get(&["a", "x"]).is_none());
    e.set(&["a", "x"], Data::U8(vec![1])).unwrap();
    e.set(&["a", "x"], Data::U8(vec![2])).unwrap();
    assert_eq!(e.get(&["a", "x"]), Some(&Data::U8(vec![2])));
    assert!(matches!(
        e.set(&["a", "x", "y"], Data::U8(vec![3])),
        Err(LsdaError::InvalidPath(_))
    ));
    assert!(matches!(
        e.set(&[], Data::U8(vec![3])),
        Err(LsdaError::InvalidPath(_))
    ));
    assert_eq!(e.get(&["a", "x"]), Some(&Data::U8(vec![2])));
    assert!(!e.remove(&["a", "y"]));
    assert!(e.remove(&["a", "x"]));
    assert!(e.get(&["a", "x"]).is_none());
    assert!(BinoutEditor::default().list(&[]).unwrap().is_empty());
}

fn nodout() -> Binout {
    let mut e = BinoutEditor::new();
    e.set(&["nodout", "metadata", "ids"], Data::I32(vec![7, 9])).unwrap();
    e.set(
        &["nodout", "metadata", "title"],
        Data::Str("a title ".to_string()),
    )
    .unwrap();
    for (k, t, v) in [
        ("d000001", 0.0, [1.0, 2.0]),
        ("d000002", 0.5, [3.0, 4.0]),
        ("d000010", 1.0, [5.0, 6.0]),
    ] {
        e.set(&["nodout", k, "time"], doubles(&[t])).unwrap();
        e.set(&["nodout", k, "x_acceleration"], doubles(&v)).unwrap();
    }
    reopen(&e)
}

#[test]
fn read_states_aggregates_a_nodout_variable() {
    let b = nodout();
    let m = b.read_states("nodout", "x_acceleration").unwrap();
    assert_eq!((m.n_steps, m.n_channels), (3, 2));
    assert_eq!(m.values.len(), m.n_steps * m.n_channels);
    assert_eq!(nums(&m.time), vec![0.0, 0.5, 1.0]);
    let direct = b.read_f64(&["nodout", "d000001", "x_acceleration"]).unwrap();
    assert_eq!(m.row(0), direct.as_slice());
    assert_eq!(nums(&m.column(0)), vec![1.0, 3.0, 5.0]);
    assert_eq!(m.ids, vec![7, 9]);
    assert_eq!(m.index_of(9), Some(1));
    assert_eq!(m.column_by_id(7), Some(m.column(0)));
    assert_eq!(m.column_by_id(8), None);
    assert_eq!(b.ids("nodout").unwrap(), vec![7, 9]);
    assert_eq!(b.title("nodout").unwrap(), "a title");
    assert!(matches!(
        b.read_states("nodout", "nothing"),
        Err(LsdaError::SymbolNotFound(_))
    ));
}

#[test]
fn paths_that_lead_nowhere() {
    let b = nodout();
    assert!(b.read(&["nodout", "nothing"]).is_err());
    assert!(b.read(&["nodout", "d000001", "time", "deeper"]).is_err());
    let many = b.read_many(&[vec!["nodout"], vec!["other"]]);
    assert!(many[0].is_ok());
    assert!(many[1].is_err());
    assert!(matches!(&b.tree, SymNode::Dir(_)));
    assert!(b.tree.child(b"nodout").is_some());
    assert!(b.tree.child(b"other").is_none());
}

#[test]
fn series_has_its_time() {
    let mut e = BinoutEditor::new();
    e.set(&["glstat", "run", "time"], doubles(&[0.0, 1.0])).unwrap();
    e.set(&["glstat", "run", "energy"], doubles(&[4.0, 5.0])).unwrap();
    let b = reopen(&e);
    let s = b.read_time_series(&["glstat", "run", "energy"]).unwrap();
    assert_eq!(nums(&s.time), vec![0.0, 1.0]);
    assert_eq!(nums(&s.values), vec![4.0, 5.0]);
    assert_eq!(s.channel, "energy");
    let names = b.channels(&["glstat", "run"]).unwrap();
    assert!(names.contains(&"energy".to_string()));
}

#[test]
fn matrix_of_no_ids() {
    let m = StateMatrix {
        time: vec![0],
        values: vec![1, 2],
        ids: vec![],
        n_steps: 1,
        n_channels: 2,
    };
    assert_eq!(m.row(0), &[1, 2]);
    assert_eq!(m.column(1), vec![2]);
    assert_eq!(m.index_of(1), None);
}

#[test]
fn header_of_a_file() {
    let bytes = BinoutEditor::new().to_bytes();
    let mut f = Diskfile::new(bytes.clone(), "r").unwrap();
    assert!(f.is_little_endian);
    assert_eq!(f.bytes(), bytes.as_slice());
    assert_eq!(f.seek(SeekFrom::Start(3)).unwrap(), 3);
    assert_eq!(f.seek(SeekFrom::Current(2)).unwrap(), 5);
    assert_eq!(f.tell().unwrap(), 5);
    assert_eq!(
        f.seek(SeekFrom::End(0)).unwrap(),
        bytes.len() as u64
    );
    assert!(f.read_slice(1).is_err());
    assert!(Diskfile::new(vec![8, 8], "r").is_err());
}

#[test]
fn words_and_directories_are_written() {
    let mut buf: Vec<u8> = Vec::new();
    put_u64(&mut buf, 1);
    put_u64(&mut buf, 2);
    set_u64(&mut buf, 8, 0x0102);
    assert_eq!(buf, [1, 0, 0, 0, 0, 0, 0, 0, 2, 1, 0, 0, 0, 0, 0, 0]);
    let mut cd: Vec<u8> = Vec::new();
    write_cd(&mut cd, "/a");
    assert_eq!(cd.len(), 9 + 2);
    assert_eq!(cd[0], 11);
    assert_eq!(&cd[9..], b"/a");
}

#[test]
fn families_are_named_and_ordered() {
    assert_eq!(continuation_name("binout0000", 1), "binout0000%001");
    assert_eq!(continuation_name("b", 42), "b%042");
    assert_eq!(continuation_name("b", 1234), "b%1234");
    let files: Vec<String> = ["binout0001", "binout0000", "binout0001"]
        .iter()
        .map(|s| s.to_string())
        .collect();
    assert_eq!(family_order(&files), vec!["binout0000", "binout0001"]);
}

#[test]
fn scalars_are_picked() {
    let v: Vec<u64> = [1.0f64, -4.0, 3.0].iter().map(|x| x.to_bits()).collect();
    let pick = |m: ScalarExtract| pick_scalar(&v, m).map(f64::from_bits);
    assert_eq!(pick(ScalarExtract::First), Some(1.0));
    assert_eq!(pick(ScalarExtract::Last), Some(3.0));
    assert_eq!(pick(ScalarExtract::Max), Some(3.0));
    assert_eq!(pick(ScalarExtract::Min), Some(-4.0));
    assert_eq!(pick(ScalarExtract::AbsMax), Some(4.0));
}

#[test]
fn names_that_are_not_text_are_shown() {
    let r = ReadResult::Directory(vec![b"ok".to_vec(), vec![0xff, b'x']]);
    assert_eq!(r.keys(), vec!["ok", "\u{fffd}x"]);
}

#[test]
fn later_files_restate_what_earlier_ones_hold() {
    let mut a = BinoutEditor::new();
    a.set(&["glstat", "x"], doubles(&[1.0])).unwrap();
    a.set(&["glstat", "y"], doubles(&[2.0])).unwrap();
    let mut b = BinoutEditor::new();
    b.set(&["glstat", "x"], doubles(&[3.0, 4.0])).unwrap();
    let names = vec!["binout".to_string()];
    let both = Binout::from_files(names, vec![a.to_bytes(), b.to_bytes()]).unwrap();
    assert_eq!(nums(&both.read_f64(&["glstat", "x"]).unwrap()), vec![3.0, 4.0]);
    assert_eq!(nums(&both.read_f64(&["glstat", "y"]).unwrap()), vec![2.0]);
}

#[test]
fn tables_in_a_circle_are_refused() {
    let mut e = BinoutEditor::new();
    e.set(&["glstat", "x"], doubles(&[1.0])).unwrap();
    let mut bytes = e.to_bytes();
    let n = bytes.len();
    let first: Vec<u8> = bytes[17..25].to_vec();
    bytes[n - 8..].copy_from_slice(&first);
    match Binout::from_files(vec!["binout".to_string()], vec![bytes]) {
        Err(LsdaError::Conversion(m)) => {
            assert_eq!(m, "corrupt binout: symbol tables form a cycle")
        }
        _ => panic!("a circle of tables must be refused"),
    }
}

#[test]
fn families_end_at_the_first_missing_file() {
    assert_eq!(next_continuation("b", 1, true), Some("b%001".to_string()));
    assert_eq!(next_continuation("b", 999, true), Some("b%999".to_string()));
    assert_eq!(next_continuation("b", 1000, true), None);
    assert_eq!(next_continuation("b", 2, false), None);
}

fn entry(name: &str, type_: u8, offset: u64) -> RawEntry {
    RawEntry { name: name.as_bytes().to_vec(), type_, offset, length: 3 }
}

fn links(n: &RNode) -> Vec<(Vec<u8>, usize)> {
    n.children.clone()
}

#[test]
fn directories_are_numbered_as_they_are_made() {
    let mut arena = vec![RNode::dir(0)];
    let mut cwd = 0;
    cd(&mut arena, &mut cwd, "/a/b/");
    assert_eq!((arena.len(), cwd), (3, 2));
    assert_eq!(links(&arena[0]), vec![(b"a".to_vec(), 1)]);
    assert_eq!(links(&arena[1]), vec![(b"b".to_vec(), 2)]);
    assert!(links(&arena[2]).is_empty());
    assert_eq!((arena[1].parent, arena[2].parent), (0, 1));
    assert!(arena.iter().all(|n| n.type_ == 0));
    cd(&mut arena, &mut cwd, "/a/b/");
    assert_eq!((arena.len(), cwd), (3, 2));
    cd(&mut arena, &mut cwd, "..");
    assert_eq!((arena.len(), cwd), (3, 1));
    cd(&mut arena, &mut cwd, "/a/b");
    assert_eq!((arena.len(), cwd), (3, 2));
    cd(&mut arena, &mut cwd, "/..");
    assert_eq!((arena.len(), cwd), (3, 0));
}

#[test]
fn entries_are_declared_behind_the_others() {
    let mut arena = vec![RNode::dir(0)];
    let mut cwd = 0;
    add_entry(&mut arena, 0, entry("x", 1, 40), 0);
    assert_eq!(arena.len(), 2);
    assert_eq!(links(&arena[0]), vec![(b"x".to_vec(), 1)]);
    assert_eq!(arena[1].parent, 0);
    assert_eq!((arena[1].type_, arena[1].offset, arena[1].length), (1, 40, 3));
    assert_eq!((arena[1].file_index, arena[1].name_len), (0, 1));
    cd(&mut arena, &mut cwd, "/x/y");
    assert_eq!((arena.len(), cwd), (2, 0));
    add_entry(&mut arena, 0, entry("x", 9, 50), 2);
    assert_eq!(arena.len(), 2);
    assert_eq!(links(&arena[0]), vec![(b"x".to_vec(), 1)]);
    assert_eq!((arena[1].type_, arena[1].offset, arena[1].file_index), (9, 50, 2));
    assert_eq!(arena[1].parent, 0);
    assert_eq!((arena[0].type_, arena[0].offset, arena[0].length), (0, 0, 0));
}

fn legend_of(bytes: &str, ids: Vec<i32>) -> Vec<String> {
    let mut e = BinoutEditor::new();
    e.set(&["nodout", "metadata", "ids"], Data::I32(ids)).unwrap();
    e.set(&["nodout", "metadata", "legend"], Data::Str(bytes.to_string())).unwrap();
    reopen(&e).legend("nodout").unwrap()
}

#[test]
fn each_entity_has_one_name() {
    assert_eq!(legend_of("abcde", vec![1, 2]), vec!["ab", "cd"]);
    assert_eq!(legend_of("left  right ", vec![1, 2]), vec!["left", "right"]);
    assert_eq!(legend_of("ab", vec![1, 2, 3]), vec!["a", "b", ""]);
    assert!(legend_of("abc", vec![]).is_empty());
}

#[test]
fn what_an_editor_wrote_opens_again() {
    let mut e = BinoutEditor::new();
    e.set(&["a", "b", "d"], doubles(&[0.5, -2.0])).unwrap();
    e.set(&["a", "i"], Data::I16(vec![-7, 8])).unwrap();
    e.set(&["u"], Data::U64(vec![1 << 40])).unwrap();
    assert!(e.names_are_texts());
    let again = BinoutEditor::open(vec![e.to_bytes()]).unwrap();
    assert_eq!(again.get(&["a", "b", "d"]), Some(&doubles(&[0.5, -2.0])));
    assert_eq!(again.get(&["a", "i"]), Some(&Data::I16(vec![-7, 8])));
    assert_eq!(again.get(&["u"]), Some(&Data::U64(vec![1 << 40])));
    assert_eq!(again.get(&["a", "c"]), None);
    assert_eq!(again.list(&["a"]), Some(vec!["b".to_string(), "i".to_string()]));
    assert_eq!(again.to_bytes(), e.to_bytes());
}

#[test]
fn names_that_cannot_be_read_back_are_told() {
    let named = |path: &[&str]| {
        let mut e = BinoutEditor::new();
        e.set(&["ok", "x"], Data::I8(vec![1])).unwrap();
        e.set(path, Data::I8(vec![2])).unwrap();
        e.names_are_texts()
    };
    assert!(BinoutEditor::new().names_are_texts());
    assert!(named(&["a", "b"]));
    assert!(named(&["gr\u{fc}n", "\u{e9}"]));
    assert!(named(&["a", ".."]));
    assert!(named(&["a", "x/y"]));
    assert!(named(&["...", "x"]));
    assert!(!named(&["..", "x"]));
    assert!(!named(&["a/b", "x"]));
    assert!(!named(&["a", "", "x"]));
    let raw = BinoutEditor {
        root: SymNode::Dir(vec![(vec![0xff], SymNode::Leaf(Data::I8(vec![])))]),
    };
    assert!(!raw.names_are_texts());
}

#[test]
fn editors_open_no_broken_files() {
    assert!(matches!(BinoutEditor::open(vec![]), Err(LsdaError::FileNotFound)));
    assert!(matches!(BinoutEditor::open(vec![vec![8; 7]]), Err(LsdaError::Conversion(_))));
    let mut e = BinoutEditor::new();
    e.set(&["gr\u{fc}n", "t"], Data::Str("\u{e9}".to_string())).unwrap();
    let again = BinoutEditor::open(vec![e.to_bytes()]).unwrap();
    let bytes = Data::I8(vec![0xc3u8 as i8, 0xa9u8 as i8]);
    assert_eq!(again.get(&["gr\u{fc}n", "t"]), Some(&bytes));
}
