//! Control words, the geometry walk, and the layout of states.

use byteorder::{LittleEndian, WriteBytesExt};
use dynars::d3plot::control::{digit, idtdt_node_vars, therm_vars_for_it, Control};
use dynars::d3plot::family::{family_paths, member_names, member_number};
use dynars::d3plot::header::read_control_bytes;
use dynars::d3plot::reader::D3plot;
use dynars::d3plot::{D3plotError, StateBlock};

fn bytes_of(words: &[i32]) -> Vec<u8> {
    let mut buf: Vec<u8> = Vec::new();
    for &w in words {
        buf.write_i32::<LittleEndian>(w).unwrap();
    }
    buf
}

fn control_from_words(words: &[i32]) -> Control {
    read_control_bytes(&bytes_of(words)).unwrap()
}

#[test]
fn material_section_rigid_shell_count() {
    let mut words = vec![0i32; 66];
    words[15] = 5; // NDIM 5: the material section is there
    words[31] = 10; // NEL4
    words[33] = 8; // NV2D
    words[51] = 2; // NMMAT
    words[64] = 3; // rigid shells
    let ctrl = control_from_words(&words);
    assert_eq!(ctrl.n_rigid_shells, 3);
    assert_eq!(ctrl.n_shells_with_data(), 7);
    assert_eq!(ctrl.element_words(), 7 * 8);
    let (_, count, vars) = ctrl.block_spec(StateBlock::Shell).unwrap();
    assert_eq!((count, vars), (7, 8));
}

#[test]
fn geometry_walk_airbag_sizing() {
    let mut w = vec![0i32; 72];
    w[15] = 3; // NDIM
    w[16] = 1; // NUMNP
    w[20] = 1; // IU
    w[54] = 2; // NPEFG
    w[64] = 3; // geometry variables
    w[65] = 5; // particle state variables
    w[66] = 4; // particles
    w[67] = 2; // airbag state variables
    let c = control_from_words(&w);
    assert_eq!(
        (
            c.n_airbags,
            c.n_particles,
            c.n_airbag_state_vars,
            c.n_particle_state_vars,
            c.n_geom_vars
        ),
        (2, 4, 2, 5, 3)
    );
    assert_eq!(c.coord_off, (64 + 94) * 4);
    assert_eq!(c.bytes_per_state(), 28 * 4);
}

#[test]
fn geometry_walk_sph_sizing() {
    let mut w = vec![0i32; 80];
    w[15] = 3; // NDIM
    w[16] = 1; // NUMNP
    w[20] = 1; // IU
    w[37] = 2; // NMSPH
    w[64] = 11; // number of flags
    for k in 65..=71 {
        w[k] = 1;
    }
    w[72] = 6;
    w[73] = 1;
    w[74] = 2;
    let c = control_from_words(&w);
    assert_eq!(c.n_sph_vars, 17);
    assert_eq!(c.coord_off, (64 + 11) * 4);
    assert_eq!(c.bytes_per_state(), 38 * 4);
}

#[test]
fn geometry_walk_rigid_body_sizing() {
    let mut w = vec![0i32; 74];
    w[15] = 8; // NDIM 8: rigid bodies
    w[16] = 1; // NUMNP
    w[20] = 1; // IU
    w[67] = 1; // rigid bodies
    w[68] = 0;
    w[69] = 0;
    w[70] = 0;
    let c = control_from_words(&w);
    assert!(!c.reduced_rigid);
    assert_eq!(c.n_rigids, 1);
    assert_eq!(c.bytes_per_state(), 28 * 4);
    assert_eq!(c.rigid_off(), 1 + 3);
    assert_eq!(c.rigid_vars(), 24);
}

#[test]
fn tail_block_offsets_chain_in_read_order() {
    let mut w = vec![0i32; 80];
    w[15] = 3; // NDIM
    w[16] = 2; // NUMNP
    w[20] = 1; // IU
    w[23] = 4; // NEL8
    w[27] = 7; // NV3D
    w[36] = -10004; // MAXINT: element deletion, 4 layers
    w[37] = 3; // NMSPH
    w[64] = 11;
    for k in 65..=74 {
        w[k] = 1;
    }
    let c = control_from_words(&w);
    let time_glob_node = 1 + 2 * 3;
    let elements = 4 * 7;
    assert_eq!(c.deletion_off(), time_glob_node + elements);
    assert_eq!(c.sph_off(), c.deletion_off() + 4);
    assert_eq!(c.rigid_off(), c.sph_off() + c.sph_words());
    assert_eq!(c.bytes_per_state(), c.rigid_off() as u64 * 4);
}

#[test]
fn it_flag_decodes_node_thermal_words() {
    assert_eq!(therm_vars_for_it(0), 0);
    assert_eq!(therm_vars_for_it(1), 1);
    assert_eq!(therm_vars_for_it(2), 4);
    assert_eq!(therm_vars_for_it(3), 6);
    assert_eq!(therm_vars_for_it(11), 2);
    assert_eq!(therm_vars_for_it(13), 7);
}

#[test]
fn rejects_garbage() {
    assert!(D3plot::from_files(vec![vec![0xABu8; 256]]).is_err());
    assert!(matches!(
        read_control_bytes(&[0xABu8; 256]),
        Err(D3plotError::BadHeader)
    ));
}

#[test]
fn digits_of_flags() {
    assert_eq!(digit(11010, 0), 0);
    assert_eq!(digit(11010, 1), 1);
    assert_eq!(digit(11010, 3), 1);
    assert_eq!(idtdt_node_vars(0), 0);
    assert_eq!(idtdt_node_vars(1), 1);
    assert_eq!(idtdt_node_vars(10), 6);
    assert_eq!(idtdt_node_vars(11), 7);
}

#[test]
fn displacement_is_needed() {
    let mut w = vec![0i32; 64];
    w[15] = 4;
    w[16] = 1;
    match D3plot::from_files(vec![bytes_of(&w)]) {
        Err(D3plotError::Unsupported(m)) => assert!(!m.is_empty()),
        _ => panic!("a file without displacements must be refused"),
    }
}

#[test]
fn members_are_named_by_number() {
    let n = member_names("out/d3plot", 3);
    assert_eq!(n, vec!["out/d3plot", "out/d3plot01", "out/d3plot02"]);
    assert_eq!(member_names("d3plot", 0), vec!["d3plot"]);
    let many = member_names("d", 102);
    assert_eq!(many[99], "d99");
    assert_eq!(many[101], "d101");
}

#[test]
fn members_are_found_by_number() {
    assert_eq!(member_number("d3plot", "d3plot07"), Some(7));
    assert_eq!(member_number("d3plot", "d3plot"), None);
    assert_eq!(member_number("d3plot", "d3plot0x"), None);
    assert_eq!(member_number("d3plot", "d3plo12"), None);
    assert_eq!(member_number("d", "d18446744073709551615"), Some(u64::MAX));
    assert_eq!(member_number("d", "d18446744073709551616"), None);
}

#[test]
fn order_family_numeric_member_sort() {
    let entry = |n: &str| (n.to_string(), format!("run/{n}"));
    let entries = vec![
        entry("d3plot100"),
        entry("d3plot02"),
        entry("notes.txt"),
        entry("d3plot22"),
        entry("d3plot"),
        entry("d3plot10"),
        entry("d3plot01"),
    ];
    let got = family_paths("run/d3plot", "d3plot", &entries);
    assert_eq!(
        got,
        vec![
            "run/d3plot",
            "run/d3plot01",
            "run/d3plot02",
            "run/d3plot10",
            "run/d3plot22",
            "run/d3plot100"
        ]
    );
}
