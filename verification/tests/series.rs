//! Records, signals, doubles as patterns, and generated decks.

use dynars::d3plot::block::ResultBlock;
use dynars::d3plot::extract::NEG_INFINITY;
use dynars::element::{
    beam_resultants, effective_plastic_strain, leading_stress, part_failure_counts,
    part_max_history, part_values, ranked, shell_plastic_strain, shell_stresses, LayerSelect,
    ShellLayout,
};
use dynars::ieee::{equal, from_int, from_uint, less, nan, narrow, to_int, widen};
use dynars::injury::clip;
use dynars::signal::{decimate, Band};
use dynars::testgen::{can_generate, generate_test_files};
use dynars::text::is_utf8;

fn bits(v: &[f64]) -> Vec<u64> {
    v.iter().map(|x| x.to_bits()).collect()
}

fn nums(v: &[u64]) -> Vec<f64> {
    v.iter().map(|x| f64::from_bits(*x)).collect()
}

#[test]
fn part_reductions_over_a_synthetic_block() {
    let (nv, n_elem, n_states) = (7usize, 4usize, 2usize);
    let part_ids = [10i64, 10, 20, 10];
    let eps = [[0.1, 0.3, 0.9, 0.2], [0.4, 0.5, 0.1, 0.05]];
    let mut data = vec![0.0f64; n_states * n_elem * nv];
    for s in 0..n_states {
        for e in 0..n_elem {
            data[s * n_elem * nv + e * nv + 6] = eps[s][e];
        }
    }
    let data = bits(&data);
    let mx = part_max_history(
        &data,
        n_states,
        n_elem,
        nv,
        &part_ids,
        10,
        effective_plastic_strain,
    );
    assert_eq!(nums(&mx), vec![0.3, 0.5]);
    let (ff, n) = part_failure_counts(
        &data,
        n_states,
        n_elem,
        nv,
        &part_ids,
        10,
        0.25f64.to_bits(),
        effective_plastic_strain,
    );
    assert_eq!(n, 3);
    let ff: Vec<f64> = ff.iter().map(|c| *c as f64 / n as f64).collect();
    assert!((ff[0] - 1.0 / 3.0).abs() < 1e-12 && (ff[1] - 2.0 / 3.0).abs() < 1e-12);
    let rows = part_values(
        &data,
        n_states,
        n_elem,
        nv,
        &part_ids,
        10,
        effective_plastic_strain,
    );
    let p50: Vec<f64> = rows.into_iter().map(|r| nums(&ranked(r))[1]).collect();
    assert!((p50[0] - 0.2).abs() < 1e-12 && (p50[1] - 0.4).abs() < 1e-12);
    let s = leading_stress(&bits(&[120.0, 0.0, 0.0, 0.0, 0.0, 0.0, 0.0])).unwrap();
    assert_eq!(nums(&s), vec![120.0, 0.0, 0.0, 0.0, 0.0, 0.0]);
    let e = effective_plastic_strain(&bits(&[0.0, 0.0, 0.0, 0.0, 0.0, 0.0, 0.42]));
    assert_eq!(f64::from_bits(e), 0.42);
}

fn von_mises(s: &[u64; 6]) -> f64 {
    let s = nums(s);
    let dev = (s[0] - s[1]).powi(2) + (s[1] - s[2]).powi(2) + (s[2] - s[0]).powi(2);
    (0.5 * dev + 3.0 * (s[3] * s[3] + s[4] * s[4] + s[5] * s[5])).sqrt()
}

fn shell_von_mises(rec: &[u64], layout: &ShellLayout, sel: LayerSelect) -> f64 {
    shell_stresses(rec, layout, sel)
        .iter()
        .map(von_mises)
        .fold(0.0, f64::max)
}

#[test]
fn shell_layer_selection_and_max() {
    let layout = ShellLayout {
        n_layers: 3,
        stride: 7,
        has_stress: true,
        has_pstrain: true,
        has_forces: false,
        has_extra: false,
    };
    let uni = |sxx: f64, eps: f64| [sxx, 0.0, 0.0, 0.0, 0.0, 0.0, eps];
    let mut rec: Vec<f64> = Vec::new();
    rec.extend_from_slice(&uni(100.0, 0.01));
    rec.extend_from_slice(&uni(300.0, 0.03));
    rec.extend_from_slice(&uni(200.0, 0.02));
    let rec = bits(&rec);
    let vm = |sel: LayerSelect| shell_von_mises(&rec, &layout, sel);
    assert!((vm(LayerSelect::Bottom) - 100.0).abs() < 1e-9);
    assert!((vm(LayerSelect::Mid) - 300.0).abs() < 1e-9);
    assert!((vm(LayerSelect::Top) - 200.0).abs() < 1e-9);
    assert!((vm(LayerSelect::Index(0)) - 100.0).abs() < 1e-9);
    assert!((vm(LayerSelect::Index(9)) - 200.0).abs() < 1e-9);
    assert!((vm(LayerSelect::Max) - 300.0).abs() < 1e-9);
    let ps = |sel: LayerSelect| f64::from_bits(shell_plastic_strain(&rec, &layout, sel));
    assert!((ps(LayerSelect::Bottom) - 0.01).abs() < 1e-9);
    assert!((ps(LayerSelect::Top) - 0.02).abs() < 1e-9);
    assert!((ps(LayerSelect::Max) - 0.03).abs() < 1e-9);
    assert_eq!(layout.layer_pstrain(&rec, 1), Some(0.03f64.to_bits()));

    let rlay = ShellLayout {
        n_layers: 1,
        stride: 7,
        has_stress: true,
        has_pstrain: true,
        has_forces: true,
        has_extra: true,
    };
    let mut r2 = uni(50.0, 0.0).to_vec();
    r2.extend_from_slice(&[1.0, 2.0, 3.0, 4.0, 5.0, 6.0, 7.0, 8.0, 0.9, 0.0, 0.0]);
    let res = rlay.resultants(&bits(&r2)).unwrap();
    assert_eq!(nums(&res.bending_moment), vec![1.0, 2.0, 3.0]);
    assert_eq!(nums(&res.shear_force), vec![4.0, 5.0]);
    assert_eq!(nums(&res.normal_force), vec![6.0, 7.0, 8.0]);
    assert_eq!(res.thickness, Some(0.9f64.to_bits()));
    assert!(layout.resultants(&rec).is_none());
    let nostress = ShellLayout {
        n_layers: 2,
        stride: 1,
        has_stress: false,
        has_pstrain: true,
        has_forces: false,
        has_extra: false,
    };
    let short = bits(&[0.5, 0.7]);
    assert_eq!(nostress.layer_stress(&short, 0), None);
    assert_eq!(shell_von_mises(&short, &nostress, LayerSelect::Max), 0.0);
    assert!(beam_resultants(&short).is_none());
}

#[test]
fn values_are_ranked_in_the_total_order() {
    let v = bits(&[1.0, -0.0, 0.0, f64::INFINITY, -3.0, f64::NEG_INFINITY]);
    let r = nums(&ranked(v));
    assert_eq!(r[0], f64::NEG_INFINITY);
    assert_eq!(r[1], -3.0);
    assert!(r[2] == 0.0 && r[2].is_sign_negative());
    assert!(r[3] == 0.0 && r[3].is_sign_positive());
    assert_eq!(r[5], f64::INFINITY);
}

#[test]
fn decimate_keeps_every_nth() {
    let x: Vec<f64> = (0..10).map(|i| i as f64).collect();
    let x = bits(&x);
    assert_eq!(decimate(&x, 1), x);
    assert_eq!(nums(&decimate(&x, 2)), vec![0.0, 2.0, 4.0, 6.0, 8.0]);
    assert_eq!(nums(&decimate(&x, 3)), vec![0.0, 3.0, 6.0, 9.0]);
    assert_eq!(decimate(&x, 0), x);
    assert_eq!(decimate(&decimate(&x, 2), 3), decimate(&x, 6));
    assert_ne!(Band::Low, Band::High);
}

fn level(a: &[f64], dt: f64, window: f64) -> f64 {
    let w = ((window / dt).round() as usize).max(1);
    f64::from_bits(clip(&bits(a), w))
}

#[test]
fn clip_finds_the_sustained_level_not_brief_spikes() {
    let dt = 1.0e-4;
    let mut a = vec![3.0; 400];
    for v in a.iter_mut().take(105).skip(100) {
        *v = 10.0;
    }
    assert!((level(&a, dt, 0.003) - 3.0).abs() < 1e-12);
    for v in a.iter_mut().take(140).skip(100) {
        *v = 10.0;
    }
    assert!((level(&a, dt, 0.003) - 10.0).abs() < 1e-12);
}

#[test]
fn clip_deque_matches_naive_reference() {
    let dt = 1.0e-4;
    let a: Vec<f64> = (0..300)
        .map(|i| ((i * 7 % 13) as f64 - 5.0) + (i as f64 * 0.1).sin())
        .collect();
    for &win in &[0.0003_f64, 0.001, 0.003, 0.01, 0.05] {
        let w = ((win / dt).round() as usize).max(1);
        let naive = if w >= a.len() {
            a.iter().copied().fold(f64::INFINITY, f64::min)
        } else {
            (0..=a.len() - w)
                .map(|i| a[i..i + w].iter().copied().fold(f64::INFINITY, f64::min))
                .fold(f64::NEG_INFINITY, f64::max)
        };
        assert!((level(&a, dt, win) - naive).abs() < 1e-12, "win={win}");
    }
}

#[test]
fn clip_of_short_signals() {
    assert_eq!(f64::from_bits(clip(&bits(&[3.0, 1.0, 2.0]), 30)), 1.0);
    assert_eq!(clip(&[], 3), 0);
}

#[test]
fn clip_of_what_is_no_number() {
    let nan = f64::NAN;
    assert_eq!(f64::from_bits(clip(&bits(&[nan, nan, nan]), 2)), f64::NEG_INFINITY);
    assert_eq!(clip(&bits(&[nan, nan, nan]), 2), NEG_INFINITY);
    assert_eq!(f64::from_bits(clip(&bits(&[5.0, nan, 3.0, 4.0]), 2)), 5.0);
    assert_eq!(f64::from_bits(clip(&bits(&[nan, 2.0]), 9)), 2.0);
}

#[test]
fn patterns_follow_the_machine() {
    let v = [
        0.0,
        -0.0,
        1.0,
        -2.5,
        0.1,
        1e300,
        -1e-300,
        5e-324,
        f64::INFINITY,
        f64::NEG_INFINITY,
        f64::NAN,
        16777217.0,
        1e-45,
        3.4028236e38,
    ];
    for &a in &v {
        for &b in &v {
            assert_eq!(less(a.to_bits(), b.to_bits()), a < b);
            assert_eq!(equal(a.to_bits(), b.to_bits()), a == b);
        }
        assert_eq!(nan(a.to_bits()), a.is_nan());
        if !a.is_nan() {
            assert_eq!(narrow(a.to_bits()), (a as f32).to_bits(), "{a}");
        }
        assert_eq!(to_int(a.to_bits()), a as i64, "{a}");
    }
    for &a in &[0.0f32, -1.5, 1e-45, 3.4e38, f32::INFINITY] {
        assert_eq!(widen(a.to_bits()), (a as f64).to_bits());
    }
    for &i in &[0i64, 1, -1, i64::MAX, i64::MIN, 9007199254740993] {
        assert_eq!(from_int(i), (i as f64).to_bits());
    }
    assert_eq!(from_uint(u64::MAX), (u64::MAX as f64).to_bits());
}

#[test]
fn generated_decks_name_their_files() {
    assert!(can_generate(2, 5, 3));
    assert!(!can_generate(60, 9, 3));
    let files = generate_test_files(2, 5, 3);
    assert_eq!(files.len(), 1 + 5 + 25);
    assert_eq!(files[0].name, "root.k");
    assert_eq!(files[1].name, "d1_b0_1.k");
    assert_eq!(files[2].name, "d2_b0_102.k");
    let mut names: Vec<&str> = files.iter().map(|f| f.name.as_str()).collect();
    names.sort();
    names.dedup();
    assert_eq!(names.len(), files.len());
    for f in &files[1..] {
        let hits = files
            .iter()
            .filter(|g| g.text.lines().any(|l| l == f.name))
            .count();
        assert_eq!(hits, 1, "{}", f.name);
    }
    let lines: Vec<&str> = files[0].text.lines().collect();
    assert_eq!(lines[0], "$# Generated test file: root.k");
    assert_eq!(lines[1], "$# Depth: 0, Breadth: 5");
    assert_eq!(lines[2..4], ["*KEYWORD", "*NODE"]);
    for i in 0..3usize {
        let x = (i as f64) * 1.5;
        let y = (i as f64) * 2.5;
        let z = (i as f64) * 0.1;
        let want = format!(
            "{:>8}{:>16.6}{:>16.6}{:>16.6}{:>8}{:>8}        ",
            10_000_000 + i + 1,
            x,
            y,
            z,
            0,
            0
        );
        assert_eq!(lines[4 + i], want);
    }
    assert_eq!(lines[7], "*INCLUDE");
    assert_eq!(lines[9], "*INCLUDE_TRANSFORM");
    assert_eq!(lines[11], "*include");
    assert_eq!(lines[13..16], ["$# Comment before include", "*INCLUDE", "$# Another comment"]);
    assert_eq!(lines[lines.len() - 1], "*END");
}

#[test]
fn the_largest_of_negative_values_is_negative() {
    let data = bits(&[-5.0, -2.0]);
    let mx = part_max_history(&data, 1, 2, 1, &[1, 1], 1, |e: &[u64]| e[0]);
    assert_eq!(nums(&mx), vec![-2.0]);
    let none = part_max_history(&data, 1, 2, 1, &[1, 1], 7, |e: &[u64]| e[0]);
    assert_eq!(nums(&none), vec![0.0]);
}

#[test]
fn blocks_have_the_states_that_their_dimensions_name() {
    let b = ResultBlock::new(vec![2, 0], vec![]);
    assert_eq!(b.state(5), None);
    assert_eq!(b.state(1), Some(&[][..]));
    let b = ResultBlock::new(vec![2, 2], bits(&[1.0, 2.0, 3.0, 4.0]));
    assert_eq!(nums(b.state(1).unwrap()), vec![3.0, 4.0]);
    assert_eq!(b.state(2), None);
    let b = ResultBlock::new(vec![2], bits(&[1.0, 2.0]));
    assert_eq!(b.state(0), None);
}

#[test]
fn bytes_that_are_text() {
    assert!(is_utf8(b""));
    assert!(is_utf8("\u{e9}\u{20ac}".as_bytes()));
    assert!(!is_utf8(&[0xc3]));
    assert!(!is_utf8(&[0xff, 0x41]));
}
