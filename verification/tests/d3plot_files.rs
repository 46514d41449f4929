//! Files written and read back.

use byteorder::{LittleEndian, WriteBytesExt};
use dynars::d3plot::block::ResultBlock;
use dynars::d3plot::editor::D3plotEditor;
use dynars::d3plot::intfor::IntforWriter;
use dynars::d3plot::query::BlockArray;
use dynars::d3plot::reader::D3plot;
use dynars::d3plot::writer::D3plotWriter;
use dynars::d3plot::{
    D3plotError, FsiforField, GlobalField, InterfaceField, NodeField, PartField, StateBlock,
};
use dynars::element::{
    beam_axial_force, beam_resultants, effective_plastic_strain, leading_stress,
    part_failure_counts, part_max_history, shell_plastic_strain, shell_stresses, LayerSelect,
};

fn bits(v: &[f64]) -> Vec<u64> {
    v.iter().map(|x| x.to_bits()).collect()
}

fn nums(v: &[u64]) -> Vec<f64> {
    v.iter().map(|x| f64::from_bits(*x)).collect()
}

fn singles(v: &[u32]) -> Vec<f64> {
    v.iter().map(|x| f32::from_bits(*x) as f64).collect()
}

fn open(bytes: Vec<u8>) -> D3plot {
    D3plot::from_files(vec![bytes]).unwrap()
}

fn written(w: &D3plotWriter) -> Vec<u8> {
    assert!(w.is_countable());
    assert!(w.has_countable_lengths());
    w.checked_bytes().unwrap()
}

fn block(dims: &[usize], data: &[f64]) -> ResultBlock {
    ResultBlock::new(dims.to_vec(), bits(data))
}

fn strings(v: &[String]) -> Vec<&str> {
    v.iter().map(|s| s.as_str()).collect()
}

fn von_mises(s: &[u64; 6]) -> f64 {
    let s = nums(s);
    let dev = (s[0] - s[1]).powi(2) + (s[1] - s[2]).powi(2) + (s[2] - s[0]).powi(2);
    (0.5 * dev + 3.0 * (s[3] * s[3] + s[4] * s[4] + s[5] * s[5])).sqrt()
}

fn von_mises_stress(rec: &[u64]) -> u64 {
    match leading_stress(rec) {
        Some(s) => von_mises(&s).to_bits(),
        None => 0,
    }
}

fn synthetic() -> Vec<u8> {
    let mut words: Vec<i32> = vec![0; 64];
    words[15] = 4; // NDIM
    words[16] = 2; // NUMNP
    words[20] = 1; // IU
    let mut buf: Vec<u8> = Vec::new();
    for &w in &words {
        buf.write_i32::<LittleEndian>(w).unwrap();
    }
    for _ in 0..6 {
        buf.write_f32::<LittleEndian>(0.0).unwrap();
    }
    for s in 0..2i32 {
        buf.write_f32::<LittleEndian>(s as f32).unwrap();
        for &c in &[0.0, 0.0, 0.0, 0.0, 0.0, s as f32] {
            buf.write_f32::<LittleEndian>(c).unwrap();
        }
    }
    buf
}

fn displacements(d: &D3plot, state: usize) -> Vec<f64> {
    let x0 = nums(d.initial_coordinates());
    let x = nums(&d.node_coordinates(state).unwrap());
    (0..d.num_nodes())
        .map(|n| {
            (0..3)
                .map(|k| (x[3 * n + k] - x0[3 * n + k]).powi(2))
                .sum::<f64>()
                .sqrt()
        })
        .collect()
}

#[test]
fn round_trip_single_precision() {
    let d = open(synthetic());
    assert_eq!(d.control().wordsize, 4);
    assert_eq!(d.num_nodes(), 2);
    assert_eq!(d.num_states(), 2);
    let m0 = displacements(&d, 0);
    assert!((m0[1] - 0.0).abs() < 1e-6, "{m0:?}");
    let m1 = displacements(&d, 1);
    assert!((m1[1] - 1.0).abs() < 1e-6, "{m1:?}");

    let bulk = d.node_coordinates_all().unwrap();
    let per: Vec<u64> = (0..d.num_states())
        .flat_map(|s| d.node_coordinates(s).unwrap())
        .collect();
    assert_eq!(bulk, per);
    assert_eq!(bulk.len(), d.num_states() * d.num_nodes() * 3);

    let all = d.resolve_states(None).unwrap();
    let (data, dims) = d.block_data(StateBlock::Displacement, &all).unwrap();
    assert_eq!(dims, [2, 2, 3]);
    match data {
        BlockArray::F32(v) => {
            let v = singles(&v);
            assert_eq!(v.len(), 12);
            assert!((v[11] - 1.0).abs() < 1e-6);
        }
        BlockArray::F64(_) => panic!("single precision expected"),
    }
    let (last, ldims) = d.block_data(StateBlock::Displacement, &[1]).unwrap();
    assert_eq!(ldims, [1, 2, 3]);
    match last {
        BlockArray::F32(v) => assert!((singles(&v)[5] - 1.0).abs() < 1e-6),
        BlockArray::F64(_) => panic!("single precision expected"),
    }
    let (file, at, dims, stride) = d.block_view(StateBlock::Displacement, &all).unwrap();
    assert_eq!(dims, [2, 2, 3]);
    let one = d.node_coordinates(1).unwrap();
    for (i, v) in one.iter().enumerate() {
        let o = at + stride + 4 * i;
        let raw: [u8; 4] = d.file_bytes(file)[o..o + 4].try_into().unwrap();
        assert_eq!(f32::from_le_bytes(raw) as f64, f64::from_bits(*v));
    }
    assert!(d.block_data(StateBlock::Shell, &all).is_none());
    assert!(d.block_data(StateBlock::Solid, &all).is_none());
}

#[test]
fn states_are_selected_by_index() {
    let d = open(synthetic());
    assert_eq!(d.resolve_states(None).unwrap(), vec![0, 1]);
    assert_eq!(d.resolve_states(Some(&[-1, 0])).unwrap(), vec![1, 0]);
    match d.resolve_states(Some(&[0, 2])) {
        Err(D3plotError::Unsupported(m)) => assert!(m.contains('2'), "{m}"),
        _ => panic!("an index past the end must be refused"),
    }
    match d.node_coordinates(5) {
        Err(D3plotError::Unsupported(m)) => assert!(m.contains('5'), "{m}"),
        _ => panic!("a state past the end must be refused"),
    }
}

#[test]
fn states_go_on_in_the_next_file() {
    let all = synthetic();
    let head = 64 * 4 + 6 * 4;
    let state = 7 * 4;
    let first = all[..head + state].to_vec();
    let second = all[head + state..].to_vec();
    let d = D3plot::from_files(vec![first, second]).unwrap();
    assert_eq!(nums(d.times()), vec![0.0, 1.0]);
    assert!((displacements(&d, 1)[1] - 1.0).abs() < 1e-6);
    let states = d.all_states();
    assert!(d.block_view(StateBlock::Displacement, &states).is_none());
}

#[test]
fn writer_roundtrips_through_reader() {
    let nodes: Vec<f64> = vec![
        0.0, 0.0, 0.0, 1.0, 0.0, 0.0, 1.0, 1.0, 0.0, 0.0, 1.0, 0.0, 0.5, 0.5, 1.0,
    ];
    let mut w = D3plotWriter::new(bits(&nodes)).unwrap();
    w.set_title("dynars writer test");
    w.add_shell([1, 2, 3, 4], 1);
    for s in 0..3 {
        let dz = s as f64;
        let disp: Vec<f64> = nodes
            .chunks(3)
            .flat_map(|p| [p[0], p[1], p[2] + dz])
            .collect();
        let vel: Vec<f64> = vec![0.5; nodes.len()];
        w.add_state((s as f64 * 0.1).to_bits(), bits(&disp), Some(bits(&vel)), None)
            .unwrap();
    }
    let d = open(written(&w));
    assert_eq!(d.num_nodes(), 5);
    assert_eq!(d.num_states(), 3);
    for (a, b) in nums(d.times()).iter().zip([0.0, 0.1, 0.2]) {
        assert!((a - b).abs() < 1e-6);
    }
    let c2 = nums(&d.node_coordinates(2).unwrap());
    assert!((c2[4 * 3 + 2] - 3.0).abs() < 1e-6);
    let all = d.resolve_states(None).unwrap();
    let (vel, dims) = d.block_data(StateBlock::Velocity, &all).unwrap();
    assert_eq!(dims, [3, 5, 3]);
    match vel {
        BlockArray::F32(v) => assert!(singles(&v).iter().all(|&x| (x - 0.5).abs() < 1e-6)),
        BlockArray::F64(_) => panic!("single precision expected"),
    }
    assert!(d.block_data(StateBlock::Acceleration, &all).is_none());
}

#[test]
fn writer_narbs_and_element_results_and_editor() {
    let nodes: Vec<f64> = (0..8 * 3).map(|i| i as f64).collect();
    let mut w = D3plotWriter::new(bits(&nodes)).unwrap();
    w.add_solid([1, 2, 3, 4, 5, 6, 7, 8], 1);
    w.set_node_ids((0..8).map(|i| 100 + i).collect());
    w.set_part_ids(vec![7]);
    let results: Vec<f64> = (0..2 * 5).map(|i| i as f64).collect();
    w.set_solid_results(block(&[2, 1, 5], &results));
    for s in 0..2 {
        let disp: Vec<f64> = nodes.iter().map(|&c| c + s as f64).collect();
        w.add_state((s as f64).to_bits(), bits(&disp), None, None)
            .unwrap();
    }
    let bytes = written(&w);
    let d = open(bytes.clone());
    assert_eq!(d.num_states(), 2);
    assert_eq!(d.node_ids(), (100..108).collect::<Vec<i64>>());
    assert_eq!(d.part_ids(), vec![7]);
    let all = d.resolve_states(None).unwrap();
    let (solid, dims) = d.block_data(StateBlock::Solid, &all).unwrap();
    assert_eq!(dims, [2, 1, 5]);
    assert_eq!(solid.len(), 10);
    assert!((nums(&solid.to_f64())[9] - 9.0).abs() < 1e-6);

    let orig_state0 = d.node_coordinates(0).unwrap();
    let mut e = D3plotEditor::from_files(vec![bytes]).unwrap();
    assert_eq!(e.num_nodes(), 8);
    assert_eq!(e.num_states(), 2);
    let new_coords = vec![7.0f32.to_bits(); 8 * 3];
    e.set_node_coordinates(1, &new_coords).unwrap();
    let d2 = D3plot::from_files(e.files).unwrap();
    let s1 = nums(&d2.node_coordinates(1).unwrap());
    assert!(s1.iter().all(|&c| (c - 7.0).abs() < 1e-6));
    assert_eq!(d2.node_coordinates(0).unwrap(), orig_state0);
    let (solid2, _) = d2
        .block_data(StateBlock::Solid, &d2.resolve_states(None).unwrap())
        .unwrap();
    assert!((nums(&solid2.to_f64())[9] - 9.0).abs() < 1e-6);
}

#[test]
fn editor_refuses_what_does_not_fit() {
    let mut e = D3plotEditor::from_files(vec![synthetic()]).unwrap();
    let before = e.files[0].clone();
    assert!(matches!(
        e.set_node_coordinates(2, &[0; 6]),
        Err(D3plotError::Unsupported(_))
    ));
    assert!(matches!(
        e.set_node_coordinates(0, &[0; 5]),
        Err(D3plotError::Unsupported(_))
    ));
    assert!(matches!(
        e.set_block(StateBlock::Shell, 0, &[]),
        Err(D3plotError::Unsupported(_))
    ));
    assert_eq!(e.files[0], before);
}

#[test]
fn edits_change_one_block_of_one_state() {
    let mut w = D3plotWriter::new(bits(&[0.0, 0.0, 0.0, 1.0, 0.0, 0.0])).unwrap();
    for s in 0..3 {
        let v = s as f64;
        w.add_state(v.to_bits(), bits(&[v; 6]), Some(bits(&[10.0 + v; 6])), None)
            .unwrap();
    }
    let bytes = written(&w);
    let before = open(bytes.clone());
    let mut e = D3plotEditor::from_files(vec![bytes]).unwrap();
    let data: Vec<u32> = (0..6).map(|i| (100.0 + i as f32).to_bits()).collect();
    e.set_block(StateBlock::Velocity, 1, &data).unwrap();
    let after = D3plot::from_files(e.files).unwrap();
    assert_eq!(after.times(), before.times());
    assert_eq!(after.initial_coordinates(), before.initial_coordinates());
    assert_eq!(
        after.node_coordinates_all().unwrap(),
        before.node_coordinates_all().unwrap()
    );
    let all = [0usize, 1, 2];
    let (vel, dims) = after.block_data(StateBlock::Velocity, &all).unwrap();
    assert_eq!(dims, [3, 2, 3]);
    let vel = nums(&vel.to_f64());
    assert_eq!(vel[..6], [10.0; 6]);
    assert_eq!(vel[6..12], [100.0, 101.0, 102.0, 103.0, 104.0, 105.0]);
    assert_eq!(vel[12..], [12.0; 6]);
}

#[test]
fn blocks_of_a_state_follow_each_other() {
    let nodes: Vec<f64> = (0..8 * 3).map(|i| i as f64).collect();
    let mut w = D3plotWriter::new(bits(&nodes)).unwrap();
    w.add_solid([1, 2, 3, 4, 5, 6, 7, 8], 1);
    w.add_shell([1, 2, 3, 4], 2);
    w.set_solid_results(block(&[1, 1, 7], &[1.0; 7]));
    w.set_shell_results(block(&[1, 1, 7], &[2.0; 7]));
    w.add_state(0, bits(&nodes), Some(bits(&nodes)), None).unwrap();
    let d = open(written(&w));
    let c = d.control();
    assert_eq!(c.block_spec(StateBlock::Displacement), Some((1, 8, 3)));
    assert_eq!(c.block_spec(StateBlock::Velocity), Some((25, 8, 3)));
    assert_eq!(c.block_spec(StateBlock::Acceleration), None);
    assert_eq!(c.block_spec(StateBlock::Solid), Some((49, 1, 7)));
    assert_eq!(c.block_spec(StateBlock::Shell), Some((56, 1, 7)));
    assert_eq!(c.deletion_off(), 63);
}

#[test]
fn element_criteria_over_a_solid_part() {
    let nodes: Vec<f64> = (0..8 * 3).map(|i| i as f64).collect();
    let mut w = D3plotWriter::new(bits(&nodes)).unwrap();
    w.add_solid([1, 2, 3, 4, 5, 6, 7, 8], 1);
    w.set_part_ids(vec![7]);
    w.set_solid_results(block(
        &[2, 1, 7],
        &[
            100.0, 0.0, 0.0, 0.0, 0.0, 0.0, 0.1, 0.0, 0.0, 0.0, 50.0, 0.0, 0.0, 0.3,
        ],
    ));
    for s in 0..2 {
        let disp: Vec<f64> = nodes.iter().map(|&c| c + s as f64).collect();
        w.add_state((s as f64).to_bits(), bits(&disp), None, None)
            .unwrap();
    }
    let d = open(written(&w));
    let (data, dims, parts) = d.element_block_f64(StateBlock::Solid).unwrap();
    assert_eq!(dims, [2, 1, 7]);
    assert_eq!(parts, vec![1]);
    let vm_bits = part_max_history(&data, dims[0], dims[1], dims[2], &parts, 1, von_mises_stress);
    let vm = nums(&vm_bits);
    assert!(
        (vm[0] - 100.0).abs() < 1e-2 && (vm[1] - 3.0f64.sqrt() * 50.0).abs() < 1e-2,
        "{vm:?}"
    );
    let eps = nums(&part_max_history(
        &data,
        dims[0],
        dims[1],
        dims[2],
        &parts,
        1,
        effective_plastic_strain,
    ));
    assert!((eps[0] - 0.1).abs() < 1e-4 && (eps[1] - 0.3).abs() < 1e-4, "{eps:?}");
    let (ff, n) = part_failure_counts(
        &data,
        dims[0],
        dims[1],
        dims[2],
        &parts,
        1,
        0.2f64.to_bits(),
        effective_plastic_strain,
    );
    assert_eq!((ff.clone(), n), (vec![0, 1], 1));

    let vm_s = d.part_max_history(StateBlock::Solid, 1, von_mises_stress).unwrap();
    assert_eq!(vm_s, vm_bits);
    let ff_s = d
        .part_failure_counts(StateBlock::Solid, 1, 0.2f64.to_bits(), effective_plastic_strain)
        .unwrap();
    assert_eq!(ff_s, (ff, n));

    let am = d.part_argmax_history(StateBlock::Solid, 1, von_mises_stress).unwrap();
    assert_eq!(am.iter().map(|&(e, _)| e).collect::<Vec<_>>(), vec![0, 0]);
    assert_eq!((am[0].1, am[1].1), (vm_bits[0], vm_bits[1]));

    let (mat, mdims, cols) = d
        .part_element_history(StateBlock::Solid, 1, von_mises_stress)
        .unwrap();
    assert_eq!(mdims, [2, 1]);
    assert_eq!(cols, vec![0]);
    assert_eq!(mat, vm_bits);
    let (pmat, _, _) = d
        .part_element_history(StateBlock::Solid, 1, effective_plastic_strain)
        .unwrap();
    let pmat = nums(&pmat);
    assert!((pmat[0] - 0.1).abs() < 1e-4 && (pmat[1] - 0.3).abs() < 1e-4, "{pmat:?}");

    let e = d.element_result(StateBlock::Solid, 1, 0).unwrap();
    let expect = [0.0, 0.0, 0.0, 50.0, 0.0, 0.0, 0.3];
    assert!(nums(&e).iter().zip(expect).all(|(a, b)| (a - b).abs() < 1e-5), "{e:?}");
    let v = f64::from_bits(von_mises_stress(&e));
    assert!((v - 3.0f64.sqrt() * 50.0).abs() < 1e-2);
    assert!(d.element_result(StateBlock::Solid, 2, 0).is_none());
    assert!(d.element_result(StateBlock::Solid, 0, 1).is_none());
}

fn shell_von_mises(rec: &[u64], d: &D3plot, sel: LayerSelect) -> f64 {
    shell_stresses(rec, &d.shell_layout(), sel)
        .iter()
        .map(von_mises)
        .fold(0.0, f64::max)
}

#[test]
fn shell_multilayer_round_trip() {
    let nodes: Vec<f64> = (0..4 * 3).map(|i| i as f64).collect();
    let mut w = D3plotWriter::new(bits(&nodes)).unwrap();
    w.add_shell([1, 2, 3, 4], 1);
    w.add_shell([1, 2, 3, 4], 1);
    w.set_part_ids(vec![5]);
    w.set_shell_layers(3);
    let uni = |sxx: f64, eps: f64| [sxx, 0.0, 0.0, 0.0, 0.0, 0.0, eps];
    let mut data: Vec<f64> = Vec::new();
    for lay in [(100.0, 0.01), (200.0, 0.02), (300.0, 0.03)] {
        data.extend_from_slice(&uni(lay.0, lay.1));
    }
    for lay in [(400.0, 0.04), (150.0, 0.015), (200.0, 0.02)] {
        data.extend_from_slice(&uni(lay.0, lay.1));
    }
    w.set_shell_results(block(&[1, 2, 21], &data));
    let disp: Vec<f64> = nodes.iter().map(|&c| c + 1.0).collect();
    w.add_state(0, bits(&disp), None, None).unwrap();
    let d = open(written(&w));
    let ly = d.shell_layout();
    assert_eq!(
        (ly.n_layers, ly.stride, ly.has_stress, ly.has_pstrain),
        (3, 7, true, true)
    );
    let s0 = d.element_result(StateBlock::Shell, 0, 0).unwrap();
    assert!((shell_von_mises(&s0, &d, LayerSelect::Bottom) - 100.0).abs() < 1e-2);
    assert!((shell_von_mises(&s0, &d, LayerSelect::Mid) - 200.0).abs() < 1e-2);
    assert!((shell_von_mises(&s0, &d, LayerSelect::Top) - 300.0).abs() < 1e-2);
    assert!((shell_von_mises(&s0, &d, LayerSelect::Max) - 300.0).abs() < 1e-2);
    let eps = f64::from_bits(shell_plastic_strain(&s0, &ly, LayerSelect::Max));
    assert!((eps - 0.03).abs() < 1e-4);
    let vm_max = d
        .part_max_history(StateBlock::Shell, 1, |rec: &[u64]| {
            shell_von_mises(rec, &d, LayerSelect::Max).to_bits()
        })
        .unwrap();
    let vm_max = nums(&vm_max);
    assert!((vm_max[0] - 400.0).abs() < 1e-2, "{vm_max:?}");
}

#[test]
fn part_element_history_and_argmax_over_multiple_elements() {
    let nodes: Vec<f64> = (0..8 * 3).map(|i| i as f64).collect();
    let mut w = D3plotWriter::new(bits(&nodes)).unwrap();
    for &pt in &[1, 2, 1, 2] {
        w.add_solid([1, 2, 3, 4, 5, 6, 7, 8], pt);
    }
    w.set_part_ids(vec![10, 20]);
    let uni = |sxx: f64| [sxx, 0.0, 0.0, 0.0, 0.0, 0.0, 0.0];
    let mut data: Vec<f64> = Vec::new();
    for &sxx in &[100.0, 10.0, 150.0, 30.0, 200.0, 20.0, 50.0, 40.0] {
        data.extend_from_slice(&uni(sxx));
    }
    w.set_solid_results(block(&[2, 4, 7], &data));
    for s in 0..2 {
        let disp: Vec<f64> = nodes.iter().map(|&c| c + s as f64).collect();
        w.add_state((s as f64).to_bits(), bits(&disp), None, None)
            .unwrap();
    }
    let d = open(written(&w));
    let (mat, dims, cols) = d
        .part_element_history(StateBlock::Solid, 1, von_mises_stress)
        .unwrap();
    assert_eq!(dims, [2, 2]);
    assert_eq!(cols, vec![0, 2]);
    let mat = nums(&mat);
    assert!(
        mat.iter()
            .zip([100.0, 150.0, 200.0, 50.0])
            .all(|(a, b)| (a - b).abs() < 1e-2),
        "{mat:?}"
    );
    let vm = nums(&d.part_max_history(StateBlock::Solid, 1, von_mises_stress).unwrap());
    assert!((vm[0] - 150.0).abs() < 1e-2 && (vm[1] - 200.0).abs() < 1e-2, "{vm:?}");
    let am = d.part_argmax_history(StateBlock::Solid, 1, von_mises_stress).unwrap();
    assert_eq!(am[0].0, 2);
    assert_eq!(am[1].0, 0);
    let (a0, a1) = (f64::from_bits(am[0].1), f64::from_bits(am[1].1));
    assert!((a0 - 150.0).abs() < 1e-2 && (a1 - 200.0).abs() < 1e-2);
    let e2: Vec<f64> = (0..d.num_states())
        .map(|s| {
            let rec = d.element_result(StateBlock::Solid, s, 2).unwrap();
            f64::from_bits(von_mises_stress(&rec))
        })
        .collect();
    assert!((e2[0] - 150.0).abs() < 1e-2 && (e2[1] - 50.0).abs() < 1e-2, "{e2:?}");
}

#[test]
fn reads_intfor_interface_force_file() {
    let (numnp, numsg) = (4usize, 1usize);
    let (nwear, npresu, nshear, nforce, ngapc) = (0usize, 1, 3, 12, 0);
    let nv2d = nwear + npresu + nshear + nforce + ngapc;
    let n_states = 2;
    let mut words = [0i32; 64];
    words[11] = 4;
    words[15] = 4;
    words[16] = numnp as i32;
    words[17] = 6;
    words[20] = 1;
    words[21] = 1;
    words[31] = numsg as i32;
    words[32] = 2;
    words[33] = nv2d as i32;
    words[59] = nwear as i32;
    words[60] = npresu as i32;
    words[61] = nshear as i32;
    words[62] = nforce as i32;
    words[63] = ngapc as i32;
    let mut buf: Vec<u8> = Vec::new();
    for &w in &words {
        buf.write_i32::<LittleEndian>(w).unwrap();
    }
    let coords: [f32; 12] = [0., 0., 0., 1., 0., 0., 1., 1., 0., 0., 1., 0.];
    for &c in &coords {
        buf.write_f32::<LittleEndian>(c).unwrap();
    }
    for &w in &[1i32, 2, 3, 4, 101] {
        buf.write_i32::<LittleEndian>(w).unwrap();
    }
    for s in 0..n_states {
        buf.write_f32::<LittleEndian>(s as f32 * 0.1).unwrap();
        for c in coords.chunks(3) {
            buf.write_f32::<LittleEndian>(c[0]).unwrap();
            buf.write_f32::<LittleEndian>(c[1]).unwrap();
            buf.write_f32::<LittleEndian>(c[2] + s as f32 * 0.5).unwrap();
        }
        for _ in 0..numnp * 3 {
            buf.write_f32::<LittleEndian>(2.0).unwrap();
        }
        for v in 0..nv2d {
            buf.write_f32::<LittleEndian>(v as f32 + s as f32).unwrap();
        }
    }
    buf.write_f32::<LittleEndian>(-999999.0).unwrap();
    let d = open(buf);
    assert!(d.is_interface_force());
    assert!(!d.is_fsifor());
    assert_eq!(d.filetype(), 4);
    assert_eq!(d.num_nodes(), numnp);
    assert_eq!(d.num_states(), n_states);
    let f = d.interface_fields();
    assert_eq!((f.wear, f.pressure, f.shear, f.force, f.gap), (0, 1, 3, 12, 0));
    assert_eq!(d.interface_field_span(InterfaceField::Pressure), (0, 1));
    assert_eq!(d.interface_field_span(InterfaceField::Shear), (1, 3));
    assert_eq!(d.interface_field_span(InterfaceField::Force), (4, 12));
    assert_eq!(d.interface_field_span(InterfaceField::Wear), (0, 0));
    let all = d.resolve_states(None).unwrap();
    let (vel, vdims) = d.block_data(StateBlock::Velocity, &all).unwrap();
    assert!(matches!(vel, BlockArray::F32(_)));
    assert_eq!(vdims, [n_states, numnp, 3]);
    assert!(nums(&vel.to_f64()).iter().all(|&x| (x - 2.0).abs() < 1e-6));
    let (seg, sdims) = d.block_data(StateBlock::Shell, &all).unwrap();
    assert!(matches!(seg, BlockArray::F32(_)));
    assert_eq!(sdims, [n_states, numsg, nv2d]);
    assert!((nums(&seg.to_f64())[numsg * nv2d + 5] - 6.0).abs() < 1e-6);
    assert_eq!(d.shell_connectivity().0, vec![1, 2, 3, 4]);
}

#[test]
fn intfor_writer_roundtrips_through_reader() {
    let coords: Vec<f64> = vec![0., 0., 0., 1., 0., 0., 1., 1., 0., 0., 1., 0.];
    let mut w = IntforWriter::new(bits(&coords), 1).unwrap();
    w.set_title("dynars intfor demo");
    w.add_segment([1, 2, 3, 4], 501);
    w.set_fields(0, 1, 3, 12, 0);
    assert_eq!(w.nv2d(), 16);
    for s in 0..2 {
        let vel = vec![0.0; coords.len()];
        let mut seg = vec![100.0 + s as f64, 1.0, 2.0, 3.0];
        seg.extend((0..12).map(|i| 10.0 + i as f64));
        w.add_state((s as f64 * 0.01).to_bits(), bits(&coords), bits(&vel), bits(&seg))
            .unwrap();
    }
    assert!(w.is_countable());
    let d = open(w.to_bytes());
    assert!(d.is_interface_force());
    assert!(!d.is_fsifor());
    assert_eq!(d.num_states(), 2);
    assert_eq!(d.interface_field_span(InterfaceField::Pressure), (0, 1));
    assert_eq!(d.interface_field_span(InterfaceField::Shear), (1, 3));
    assert_eq!(d.interface_field_span(InterfaceField::Force), (4, 12));
    assert_eq!(d.interface_field_span(InterfaceField::Gap), (16, 0));
    assert_eq!(d.shell_ids(), vec![501]);
    assert_eq!(d.shell_connectivity().0, vec![1, 2, 3, 4]);
    assert_eq!(d.shell_connectivity().1, vec![501]);
    assert_eq!(d.node_ids(), vec![1, 2, 3, 4]);
    let all = d.resolve_states(None).unwrap();
    let (seg, dims) = d.block_data(StateBlock::Shell, &all).unwrap();
    assert!(matches!(seg, BlockArray::F32(_)));
    let seg = nums(&seg.to_f64());
    assert_eq!(dims, [2, 1, 16]);
    assert!((seg[0] - 100.0).abs() < 1e-6);
    assert!((seg[16] - 101.0).abs() < 1e-6);
    assert!((seg[4] - 10.0).abs() < 1e-6);
}

#[test]
fn intfor_writer_refuses_wrong_lengths() {
    assert!(matches!(
        IntforWriter::new(vec![0; 4], 1),
        Err(D3plotError::Unsupported(_))
    ));
    let mut w = IntforWriter::new(vec![0; 3], 1).unwrap();
    w.add_segment([1, 1, 1, 1], 1);
    w.set_fields(0, 1, 0, 0, 0);
    match w.add_state(0, vec![0; 2], vec![0; 3], vec![0]) {
        Err(D3plotError::Unsupported(m)) => assert_eq!(m, "disp/vel length must be numnp*3 (3)"),
        _ => panic!("too few coordinates must be refused"),
    }
    match w.add_state(0, vec![0; 3], vec![0; 3], vec![0; 2]) {
        Err(D3plotError::Unsupported(m)) => {
            assert_eq!(m, "segment_values length 2 != n_segments*nv2d (1)")
        }
        _ => panic!("too many segment values must be refused"),
    }
    assert_eq!(w.states.len(), 0);
}

#[test]
fn intfor_writer_fsifor() {
    let coords: Vec<f64> = vec![0., 0., 0., 1., 0., 0., 1., 1., 0., 0., 1., 0.];
    let mut w = IntforWriter::new(bits(&coords), 1).unwrap();
    w.add_segment([1, 2, 3, 4], 1);
    w.set_fsifor(7);
    w.add_state(0, bits(&coords), bits(&[0.0; 12]), bits(&[9.0; 7]))
        .unwrap();
    let d = open(w.to_bytes());
    assert!(d.is_fsifor());
    assert_eq!(d.fsifor_field_span(FsiforField::Pressure), (0, 1));
    assert_eq!(d.fsifor_field_span(FsiforField::VelocityY), (6, 1));
    assert_eq!(d.fsifor_field_span(FsiforField::VelocityZ), (7, 0));
}

fn moving(w: &mut D3plotWriter, nodes: &[f64], n: usize) {
    for s in 0..n {
        let disp: Vec<f64> = nodes.iter().map(|&c| c + s as f64).collect();
        w.add_state((s as f64).to_bits(), bits(&disp), None, None)
            .unwrap();
    }
}

const QUAD: [f64; 12] = [0., 0., 0., 1., 0., 0., 1., 1., 0., 0., 1., 0.];

#[test]
fn beams_and_tshells_round_trip() {
    let nodes: Vec<f64> = (0..8 * 3).map(|i| i as f64 * 0.1).collect();
    let mut w = D3plotWriter::new(bits(&nodes)).unwrap();
    w.add_beam([1, 2, 3], 1);
    w.add_tshell([1, 2, 3, 4, 5, 6, 7, 8], 2);
    let beam: Vec<f64> = (0..2 * 6).map(|i| i as f64).collect();
    let tsh: Vec<f64> = (0..2 * 8).map(|i| 100.0 + i as f64).collect();
    w.set_beam_results(block(&[2, 1, 6], &beam));
    w.set_tshell_results(block(&[2, 1, 8], &tsh));
    moving(&mut w, &nodes, 2);
    let d = open(written(&w));
    let bl = d.beam_results().unwrap();
    assert_eq!(bl.dims(), [2, 1, 6]);
    assert_eq!(nums(bl.data()), beam);
    let ts = d.tshell_results().unwrap();
    assert_eq!(ts.dims(), [2, 1, 8]);
    assert_eq!(nums(ts.data()), tsh);
    assert_eq!(nums(&bl.component("sigma_xx").unwrap()), vec![0.0, 6.0]);
    assert_eq!(nums(ts.state(1).unwrap()), tsh[8..]);
    let c1 = nums(&d.node_coordinates(1).unwrap());
    assert!((c1[0] - 1.0).abs() < 1e-6);
    let rec = d.element_result(StateBlock::Beam, 1, 0).unwrap();
    assert_eq!(f64::from_bits(beam_axial_force(&rec)), 6.0);
    let r = beam_resultants(&rec).unwrap();
    assert_eq!(f64::from_bits(r.torsion_moment), 11.0);
}

#[test]
fn globals_and_part_fields_round_trip() {
    let mut w = D3plotWriter::new(bits(&QUAD)).unwrap();
    w.add_shell([1, 2, 3, 4], 1);
    w.add_shell([1, 2, 3, 4], 2);
    w.set_global_history(GlobalField::KineticEnergy, bits(&[1., 2., 3.]));
    w.set_global_history(GlobalField::TotalEnergy, bits(&[10., 11., 12.]));
    w.set_part_field(PartField::InternalEnergy, bits(&[1., 2., 3., 4., 5., 6.]));
    w.set_part_field(PartField::Mass, bits(&[10., 20., 30., 40., 50., 60.]));
    moving(&mut w, &QUAD, 3);
    let d = open(written(&w));
    let history = |f: GlobalField| nums(&d.global_history(f).unwrap());
    assert_eq!(history(GlobalField::KineticEnergy), vec![1., 2., 3.]);
    assert_eq!(history(GlobalField::TotalEnergy), vec![10., 11., 12.]);
    assert_eq!(history(GlobalField::InternalEnergy), vec![0., 0., 0.]);
    let ie = d.part_field_history(PartField::InternalEnergy).unwrap();
    assert_eq!(ie.dims(), [3, 2]);
    assert_eq!(nums(ie.data()), vec![1., 2., 3., 4., 5., 6.]);
    assert_eq!(nums(ie.state(1).unwrap()), vec![3., 4.]);
    let mass = d.part_field_history(PartField::Mass).unwrap();
    assert_eq!(nums(mass.data()), vec![10., 20., 30., 40., 50., 60.]);
    let ke = d.part_field_history(PartField::KineticEnergy).unwrap();
    assert!(nums(ke.data()).iter().all(|&x| x == 0.0));
}

#[test]
fn node_thermal_fields_round_trip() {
    let numnp = 4;
    let ns = 2;
    let mut w = D3plotWriter::new(bits(&QUAD)).unwrap();
    w.add_shell([1, 2, 3, 4], 1);
    let from = |n: usize, a: f64| (0..n).map(|i| a + i as f64).collect::<Vec<f64>>();
    let temp = from(ns * numnp, 0.0);
    let flux = from(ns * numnp * 3, 100.0);
    let mass = from(ns * numnp, 200.0);
    let grad = from(ns * numnp, 300.0);
    let rf = from(ns * numnp * 3, 400.0);
    let rm = from(ns * numnp * 3, 500.0);
    w.set_node_field(NodeField::Temperature, bits(&temp));
    w.set_node_field(NodeField::HeatFlux, bits(&flux));
    w.set_node_field(NodeField::MassScaling, bits(&mass));
    w.set_node_field(NodeField::TemperatureGradient, bits(&grad));
    w.set_node_field(NodeField::ResidualForce, bits(&rf));
    w.set_node_field(NodeField::ResidualMoment, bits(&rm));
    moving(&mut w, &QUAD, ns);
    let d = open(written(&w));
    let field = |f: NodeField, s: usize| nums(d.node_field(f, s).unwrap().data());
    assert_eq!(field(NodeField::Temperature, 0), temp[..numnp]);
    assert_eq!(field(NodeField::HeatFlux, 1), flux[numnp * 3..]);
    assert_eq!(field(NodeField::MassScaling, 0), mass[..numnp]);
    assert_eq!(field(NodeField::TemperatureGradient, 1), grad[numnp..]);
    assert_eq!(field(NodeField::ResidualForce, 0), rf[..numnp * 3]);
    assert_eq!(field(NodeField::ResidualMoment, 1), rm[numnp * 3..]);
    let f = d.node_field(NodeField::HeatFlux, 1).unwrap();
    assert_eq!(strings(f.components()), vec!["x", "y", "z"]);
}

#[test]
fn element_deletion_round_trip() {
    let mut w = D3plotWriter::new(bits(&QUAD)).unwrap();
    w.add_shell([1, 2, 3, 4], 1);
    w.add_shell([1, 2, 3, 4], 1);
    w.set_element_deletion(StateBlock::Shell, bits(&[1., 1., 1., 0.]));
    moving(&mut w, &QUAD, 2);
    let d = open(written(&w));
    let alive = |s: usize| nums(&d.element_alive(StateBlock::Shell, s).unwrap());
    assert_eq!(alive(0), vec![1., 1.]);
    assert_eq!(alive(1), vec![1., 0.]);
}

#[test]
fn sph_round_trip() {
    let mut w = D3plotWriter::new(bits(&QUAD)).unwrap();
    let results: Vec<f64> = (0..2 * 3 * 4).map(|i| i as f64).collect();
    w.set_sph(vec![11, 12, 13], 4, bits(&results));
    moving(&mut w, &QUAD, 2);
    let d = open(written(&w));
    let v0 = d.sph_state(0).unwrap();
    assert_eq!(v0.dims(), [3, 4]);
    assert_eq!(nums(v0.data()), results[..12]);
    assert_eq!(nums(d.sph_state(1).unwrap().data()), results[12..]);
}

#[test]
fn airbag_round_trip() {
    let mut w = D3plotWriter::new(bits(&QUAD)).unwrap();
    let (na, npart, ngeom, nav, npv) = (2usize, 3usize, 2usize, 2usize, 4usize);
    let geom: Vec<f64> = (0..na * ngeom).map(|i| i as f64).collect();
    let ab: Vec<f64> = (0..2 * na * nav).map(|i| 10.0 + i as f64).collect();
    let pt: Vec<f64> = (0..2 * npart * npv).map(|i| 100.0 + i as f64).collect();
    w.set_airbag(na, npart, ngeom, nav, npv, bits(&geom), bits(&ab), bits(&pt));
    moving(&mut w, &QUAD, 2);
    let d = open(written(&w));
    let st = d.airbag_state(1).unwrap();
    assert_eq!(st.airbag_dims, [na, nav]);
    assert_eq!(st.particle_dims, [npart, npv]);
    assert_eq!(nums(&st.airbag), ab[na * nav..]);
    assert_eq!(nums(&st.particle), pt[npart * npv..]);
}

#[test]
fn rigid_body_round_trip() {
    let mut w = D3plotWriter::new(bits(&QUAD)).unwrap();
    let motion: Vec<f64> = (0..2 * 2 * 24).map(|i| i as f64).collect();
    w.set_rigid_bodies(
        vec![(1, vec![1, 2], vec![1]), (2, vec![3, 4], vec![4])],
        bits(&motion),
    );
    moving(&mut w, &QUAD, 2);
    let d = open(written(&w));
    let m0 = d.rigid_body_motion(0).unwrap();
    assert_eq!(m0.dims(), [2, 24]);
    assert_eq!(nums(m0.data()), motion[..48]);
    assert_eq!(nums(d.rigid_body_motion(1).unwrap().data()), motion[48..]);
}

#[test]
fn rigid_road_round_trip() {
    let nodes: Vec<f64> = vec![0., 0., 0., 1., 0., 0., 1., 1., 0.];
    let mut w = D3plotWriter::new(bits(&nodes)).unwrap();
    let road_nodes: Vec<f64> = (0..3 * 3).map(|i| i as f64 * 0.5).collect();
    let motion: Vec<f64> = (0..2 * 6).map(|i| i as f64).collect();
    w.set_rigid_road(
        vec![1, 2, 3],
        bits(&road_nodes),
        vec![(5, vec![1, 2, 3, 3])],
        bits(&motion),
    );
    moving(&mut w, &nodes, 2);
    let d = open(written(&w));
    let r0 = d.rigid_road_state(0).unwrap();
    assert_eq!(r0.dims(), [1, 6]);
    assert_eq!(nums(r0.data()), motion[..6]);
    assert_eq!(nums(d.rigid_road_state(1).unwrap().data()), motion[6..]);
}

#[test]
fn rigid_body_and_road_reduced_round_trip() {
    let mut w = D3plotWriter::new(bits(&QUAD)).unwrap();
    let rb_motion: Vec<f64> = (0..2 * 12).map(|i| i as f64).collect();
    let road_motion: Vec<f64> = (0..2 * 6).map(|i| 100.0 + i as f64).collect();
    w.set_rigid_bodies(vec![(1, vec![1, 2], vec![1])], bits(&rb_motion));
    w.set_rigid_road(
        vec![1, 2],
        bits(&[0., 0., 0., 1., 0., 0.]),
        vec![(7, vec![1, 2, 2, 2])],
        bits(&road_motion),
    );
    moving(&mut w, &QUAD, 2);
    let d = open(written(&w));
    let rb = d.rigid_body_motion(1).unwrap();
    assert_eq!(rb.dims(), [1, 12]);
    assert_eq!(nums(rb.data()), rb_motion[12..]);
    let rr = d.rigid_road_state(1).unwrap();
    assert_eq!(rr.dims(), [1, 6]);
    assert_eq!(nums(rr.data()), road_motion[6..]);
}

fn assert_block_eq(got: &BlockArray, expect: &[f64]) {
    assert!(matches!(got, BlockArray::F32(_)));
    let v = nums(&got.to_f64());
    assert_eq!(v.len(), expect.len());
    for (i, (a, b)) in v.iter().zip(expect).enumerate() {
        assert!((a - b).abs() < 1e-4, "idx {i}: {a} != {b}");
    }
}

#[test]
fn combined_blocks_keep_state_offsets_aligned() {
    let nodes: Vec<f64> = (0..4 * 3).map(|i| i as f64).collect();
    let numnp = 4;
    let mut w = D3plotWriter::new(bits(&nodes)).unwrap();
    w.add_beam([1, 2, 3], 1);
    w.set_global_history(GlobalField::TotalEnergy, bits(&[5., 6.]));
    let temp: Vec<f64> = (0..2 * numnp).map(|i| i as f64).collect();
    w.set_node_field(NodeField::Temperature, bits(&temp));
    let res: Vec<f64> = (0..2 * 3).map(|i| 9.0 + i as f64).collect();
    w.set_beam_results(block(&[2, 1, 3], &res));
    w.set_element_deletion(StateBlock::Beam, bits(&[1., 1.]));
    for s in 0..2 {
        let disp: Vec<f64> = nodes.iter().map(|&c| c + s as f64).collect();
        w.add_state(
            (s as f64).to_bits(),
            bits(&disp),
            Some(bits(&vec![7.0; numnp * 3])),
            None,
        )
        .unwrap();
    }
    let d = open(written(&w));
    let total = d.global_history(GlobalField::TotalEnergy).unwrap();
    assert_eq!(nums(&total), vec![5., 6.]);
    let t1 = d.node_field(NodeField::Temperature, 1).unwrap();
    assert_eq!(nums(t1.data()), vec![4., 5., 6., 7.]);
    let all = d.resolve_states(None).unwrap();
    let (vel, _) = d.block_data(StateBlock::Velocity, &all).unwrap();
    assert_block_eq(&vel, &vec![7.0; 2 * numnp * 3]);
    let (beam, bd) = d.block_data(StateBlock::Beam, &all).unwrap();
    assert_eq!(bd, [2, 1, 3]);
    assert_block_eq(&beam, &res);
    let alive = d.element_alive(StateBlock::Beam, 1).unwrap();
    assert_eq!(nums(&alive), vec![1.]);
}

#[test]
fn node_deletion_round_trip() {
    let mut w = D3plotWriter::new(bits(&QUAD)).unwrap();
    w.add_shell([1, 2, 3, 4], 1);
    w.set_node_deletion(bits(&[1., 1., 1., 1., 1., 1., 0., 1.]));
    moving(&mut w, &QUAD, 2);
    let d = open(written(&w));
    assert_eq!(nums(&d.node_alive(0).unwrap()), vec![1., 1., 1., 1.]);
    assert_eq!(nums(&d.node_alive(1).unwrap()), vec![1., 1., 0., 1.]);
    assert!(d.element_alive(StateBlock::Shell, 0).is_none());
}

#[test]
fn rigid_wall_round_trip() {
    let mut w = D3plotWriter::new(bits(&QUAD)).unwrap();
    w.add_shell([1, 2, 3, 4], 1);
    let force: Vec<f64> = (0..2 * 2).map(|i| i as f64).collect();
    let pos: Vec<f64> = (0..2 * 2 * 3).map(|i| 100.0 + i as f64).collect();
    w.set_rigid_walls(2, bits(&force), Some(bits(&pos)));
    moving(&mut w, &QUAD, 2);
    let d = open(written(&w));
    let f1 = d.rigid_wall_force(1).unwrap();
    assert_eq!(f1.dims(), [2]);
    assert_eq!(nums(f1.data()), force[2..4]);
    let p1 = d.rigid_wall_position(1).unwrap();
    assert_eq!(p1.dims(), [2, 3]);
    assert_eq!(strings(p1.components()), vec!["x", "y", "z"]);
    assert_eq!(nums(p1.data()), pos[6..12]);
}

#[test]
fn double_precision_preserves_f64() {
    let coords: Vec<f64> = vec![
        0.1,
        0.2,
        0.3,
        1.0 / 3.0,
        0.7,
        0.9,
        1.1,
        1.3,
        1.7,
        2.2,
        2.4,
        2.6,
    ];
    let mut w = D3plotWriter::new(bits(&coords)).unwrap();
    w.set_double_precision(true);
    w.add_solid([1, 2, 3, 4, 1, 2, 3, 4], 1);
    let sres = vec![1.0 / 3.0; 7];
    w.set_solid_results(block(&[1, 1, 7], &sres));
    w.add_state(0.25f64.to_bits(), bits(&coords), None, None).unwrap();
    let d = open(written(&w));
    assert_eq!(d.control().wordsize, 8);
    assert_eq!(nums(&d.node_coordinates(0).unwrap()), coords);
    let solid = d.solid_results().unwrap();
    assert_eq!(nums(solid.data()), sres);
    let eps = solid.component("eff_plastic_strain").unwrap();
    assert_eq!(nums(&eps), vec![1.0 / 3.0]);
}

#[test]
fn validate_rejects_wrong_length() {
    let nodes: Vec<f64> = (0..8 * 3).map(|i| i as f64).collect();
    let mut w = D3plotWriter::new(bits(&nodes)).unwrap();
    w.add_solid([1, 2, 3, 4, 5, 6, 7, 8], 1);
    w.set_solid_results(block(&[2, 1, 5], &[0.0; 9]));
    for s in 0..2 {
        w.add_state((s as f64).to_bits(), bits(&nodes), None, None).unwrap();
    }
    assert!(w.validate().is_err());
    assert!(w.checked_bytes().is_err());
}

#[test]
fn writer_refuses_wrong_coordinates() {
    assert!(matches!(
        D3plotWriter::new(vec![0; 4]),
        Err(D3plotError::Unsupported(_))
    ));
    let mut w = D3plotWriter::new(vec![0; 3]).unwrap();
    assert_eq!(w.num_nodes(), 1);
    assert!(w.add_state(0, vec![0; 2], None, None).is_err());
    assert!(w.add_state(0, vec![0; 3], Some(vec![0; 2]), None).is_err());
    assert_eq!(w.states.len(), 0);
}

#[test]
fn user_numbers_read_back() {
    let mut w = D3plotWriter::new(bits(&QUAD)).unwrap();
    w.add_shell([1, 2, 3, 4], 1);
    w.add_shell([4, 3, 2, 1], 2);
    w.set_node_ids(vec![10, 20, 30, 40]);
    w.set_shell_ids(vec![7, 9]);
    w.set_part_ids(vec![100, 200]);
    moving(&mut w, &QUAD, 1);
    let d = open(written(&w));
    assert_eq!(d.node_ids(), vec![10, 20, 30, 40]);
    assert_eq!(d.shell_ids(), vec![7, 9]);
    assert_eq!(d.part_ids(), vec![100, 200]);
    assert_eq!(
        d.shell_connectivity(),
        (vec![1, 2, 3, 4, 4, 3, 2, 1], vec![1, 2])
    );
    assert_eq!(d.solid_connectivity(), (vec![], vec![]));
}

#[test]
fn double_precision_is_single_precision_word_by_word() {
    let build = |double: bool| {
        let mut w = D3plotWriter::new(bits(&QUAD)).unwrap();
        w.set_double_precision(double);
        w.add_shell([1, 2, 3, 4], 7);
        w.add_state((1.0f64 / 3.0).to_bits(), bits(&QUAD), None, None).unwrap();
        w.checked_bytes().unwrap()
    };
    let (single, double) = (build(false), build(true));
    assert_eq!(double.len(), 2 * single.len());
    let int4 = |k: usize| i32::from_le_bytes(single[4 * k..4 * k + 4].try_into().unwrap());
    let int8 = |k: usize| i64::from_le_bytes(double[8 * k..8 * k + 8].try_into().unwrap());
    let words = single.len() / 4;
    let mut thirds = 0;
    for k in 10..words {
        let f8 = f64::from_bits(int8(k) as u64);
        let f4 = f32::from_bits(int4(k) as u32);
        assert!(int4(k) as i64 == int8(k) || f4 == f8 as f32, "word {k}");
        if f8 == 1.0 / 3.0 {
            assert_eq!(f4, 1.0f32 / 3.0);
            thirds += 1;
        }
    }
    assert_eq!(thirds, 1);
    assert_eq!(f64::from_bits(int8(words - 1) as u64), -999999.0);
}

#[test]
fn streamed_maxima_of_negative_values() {
    let mut w = D3plotWriter::new(bits(&QUAD)).unwrap();
    w.add_solid([1, 2, 3, 4, 1, 2, 3, 4], 1);
    w.add_solid([1, 2, 3, 4, 1, 2, 3, 4], 1);
    let rec = |x: f64| vec![x, 0.0, 0.0, 0.0, 0.0, 0.0, 0.0];
    w.set_solid_results(block(&[1, 2, 7], &[rec(-5.0), rec(-2.0)].concat()));
    w.add_state(0, bits(&QUAD), None, None).unwrap();
    let d = open(written(&w));
    let mx = d.part_max_history(StateBlock::Solid, 1, |e: &[u64]| e[0]).unwrap();
    assert_eq!(nums(&mx), vec![-2.0]);
}
