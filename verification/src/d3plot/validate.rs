//! Checking the arrays of a database under construction against the number of
//! states and entities.

use crate::d3plot::image::covers;
use crate::d3plot::writer::{D3plotWriter, Deletion};
use crate::d3plot::D3plotError;
use crate::text::{dec, push_dec};
use vstd::prelude::*;

verus! {

/// The complaint about a length, or `None` when it is as expected.
pub open spec fn length_error(what: Seq<char>, got: nat, want: nat) -> Option<Seq<char>> {
    if got == want {
        None
    } else {
        Some(length_complaint(what, got, want))
    }
}

pub open spec fn length_complaint(what: Seq<char>, got: nat, want: nat) -> Seq<char> {
    what + ": length "@ + dec(got) + " != expected "@ + dec(want)
}

pub open spec fn array_error(what: Seq<char>, d: Option<Vec<u64>>, want: nat) -> Option<Seq<char>> {
    match d {
        Some(x) => length_error(what, x@.len(), want),
        None => None,
    }
}

pub open spec fn result_error(
    what: Seq<char>,
    r: Option<(usize, Vec<u64>)>,
    ns: nat,
    count: nat,
) -> Option<Seq<char>> {
    match r {
        Some(x) => length_error(what, x.1@.len(), ns * count * x.0 as nat),
        None => None,
    }
}

/// The first of two complaints.
pub open spec fn first(a: Option<Seq<char>>, b: Option<Seq<char>>) -> Option<Seq<char>> {
    if a is Some {
        a
    } else {
        b
    }
}

/// The first road surface from `i` on whose node ids do not make up whole
/// segments.
pub open spec fn segment_error(s: Seq<(i32, Vec<i32>)>, i: int) -> Option<Seq<char>>
    decreases s.len() - i,
{
    if i >= s.len() {
        None
    } else if s[i].1@.len() % 4 != 0 {
        Some(
            "rigid_road segment "@ + dec(i as nat) + ": "@ + dec(s[i].1@.len())
                + " node ids not a multiple of 4"@,
        )
    } else {
        segment_error(s, i + 1)
    }
}

/// The first complaint about the global scalars from `i` on.
pub open spec fn scalar_error(s: Seq<Option<Vec<u64>>>, i: int, ns: nat) -> Option<Seq<char>>
    decreases s.len() - i,
{
    if i >= s.len() {
        None
    } else {
        first(
            array_error("global scalar "@ + dec(i as nat), s[i], ns),
            scalar_error(s, i + 1, ns),
        )
    }
}

impl D3plotWriter {
    pub open spec fn element_error(self) -> Option<Seq<char>> {
        let ns = self.n_states();
        first(
            result_error("solid_results"@, self.solid_results, ns, self.solids@.len()),
            first(
                result_error("tshell_results"@, self.tshell_results, ns, self.tshells@.len()),
                first(
                    result_error("beam_results"@, self.beam_results, ns, self.beams@.len()),
                    result_error("shell_results"@, self.shell_results, ns, self.shells@.len()),
                ),
            ),
        )
    }

    pub open spec fn part_error(self) -> Option<Seq<char>> {
        let ns = self.n_states();
        let np = self.n_parts();
        let p = self.globals.parts;
        first(
            array_error("part internal_energy"@, p.internal_energy, ns * np),
            first(
                array_error("part kinetic_energy"@, p.kinetic_energy, ns * np),
                first(
                    array_error("part velocity"@, p.velocity, ns * (3 * np)),
                    first(
                        array_error("part mass"@, p.mass, ns * np),
                        array_error("part hourglass_energy"@, p.hourglass_energy, ns * np),
                    ),
                ),
            ),
        )
    }

    pub open spec fn global_error(self) -> Option<Seq<char>> {
        first(
            scalar_error(self.globals.scalars@, 0, self.n_states()),
            first(self.part_error(), self.wall_error()),
        )
    }

    pub open spec fn wall_error(self) -> Option<Seq<char>> {
        let ns = self.n_states();
        match self.globals.rigid_wall {
            Some(w) => first(
                length_error("rigid_wall force"@, w.force@.len(), ns * w.n_walls as nat),
                array_error("rigid_wall position"@, w.position, ns * 3 * w.n_walls as nat),
            ),
            None => None,
        }
    }

    pub open spec fn temperature_error(self) -> Option<Seq<char>> {
        let unit = self.n_states() * self.numnp as nat;
        match self.node_thermal.temperature {
            Some(t) => if unit == 0 || (t@.len() != unit && t@.len() != 3 * unit) {
                Some(length_complaint("node Temperature"@, t@.len(), unit))
            } else {
                None
            },
            None => None,
        }
    }

    pub open spec fn node_error(self) -> Option<Seq<char>> {
        let unit = self.n_states() * self.numnp as nat;
        let t = self.node_thermal;
        first(
            self.temperature_error(),
            first(
                array_error("node HeatFlux"@, t.heat_flux, unit * 3),
                first(
                    array_error("node MassScaling"@, t.mass_scaling, unit),
                    first(
                        array_error("node TemperatureGradient"@, t.temp_gradient, unit),
                        first(
                            array_error("node ResidualForce"@, t.residual_force, unit * 3),
                            array_error("node ResidualMoment"@, t.residual_moment, unit * 3),
                        ),
                    ),
                ),
            ),
        )
    }

    pub open spec fn deletion_error(self) -> Option<Seq<char>> {
        let ns = self.n_states();
        match self.deletion {
            None => None,
            Some(Deletion::Node(d)) => length_error(
                "node deletion"@,
                d@.len(),
                ns * self.numnp as nat,
            ),
            Some(Deletion::Element { solid, tshell, shell, beam }) => first(
                array_error("solid deletion"@, solid, ns * self.solids@.len()),
                first(
                    array_error("tshell deletion"@, tshell, ns * self.tshells@.len()),
                    first(
                        array_error("shell deletion"@, shell, ns * self.shells@.len()),
                        array_error("beam deletion"@, beam, ns * self.beams@.len()),
                    ),
                ),
            ),
        }
    }

    pub open spec fn sph_error(self) -> Option<Seq<char>> {
        match self.sph {
            Some(s) => if s.n_vars == 0 {
                Some("sph n_vars must be ≥ 1"@)
            } else {
                length_error(
                    "sph results"@,
                    s.results@.len(),
                    self.n_states() * s.materials@.len() * s.n_vars as nat,
                )
            },
            None => None,
        }
    }

    pub open spec fn airbag_error(self) -> Option<Seq<char>> {
        let ns = self.n_states();
        match self.airbag {
            Some(a) => first(
                length_error(
                    "airbag geom"@,
                    a.geom@.len(),
                    a.n_airbags as nat * a.n_geom_vars as nat,
                ),
                first(
                    length_error(
                        "airbag state"@,
                        a.airbag_state@.len(),
                        ns * a.n_airbags as nat * a.n_airbag_vars as nat,
                    ),
                    length_error(
                        "particle state"@,
                        a.particle_state@.len(),
                        ns * a.n_particles as nat * a.n_particle_vars as nat,
                    ),
                ),
            ),
            None => None,
        }
    }

    pub open spec fn rigid_error(self) -> Option<Seq<char>> {
        let ns = self.n_states();
        first(
            match self.rigid_bodies {
                Some(b) => length_error(
                    "rigid_body motion"@,
                    b.motion@.len(),
                    ns * b.bodies@.len() * self.rigid_width(),
                ),
                None => None,
            },
            match self.rigid_road {
                Some(r) => first(
                    length_error(
                        "rigid_road node_coords"@,
                        r.node_coords@.len(),
                        3 * r.node_ids@.len(),
                    ),
                    first(
                        segment_error(r.segments@, 0),
                        length_error(
                            "rigid_road motion"@,
                            r.motion@.len(),
                            ns * r.segments@.len() * 6,
                        ),
                    ),
                ),
                None => None,
            },
        )
    }

    /// The first complaint about the arrays, or `None` when every length matches
    /// the number of states and entities.
    pub open spec fn validation_error(self) -> Option<Seq<char>> {
        first(
            self.element_error(),
            first(
                self.global_error(),
                first(
                    self.node_error(),
                    first(
                        self.deletion_error(),
                        first(self.sph_error(), first(self.airbag_error(), self.rigid_error())),
                    ),
                ),
            ),
        )
    }

    /// The expected lengths of the arrays that were set are machine numbers.
    pub open spec fn lengths_countable(self) -> bool {
        let ns = self.n_states();
        let np = self.n_parts();
        let n = self.numnp as nat;
        &&& results_countable(self.solid_results, ns, self.solids@.len())
        &&& results_countable(self.tshell_results, ns, self.tshells@.len())
        &&& results_countable(self.beam_results, ns, self.beams@.len())
        &&& results_countable(self.shell_results, ns, self.shells@.len())
        &&& (self.globals.parts.some() ==> ns * (3 * np) <= usize::MAX)
        &&& ns * n * 3 <= usize::MAX
        &&& (self.deletion matches Some(Deletion::Element { .. }) ==> ns * self.solids@.len()
            <= usize::MAX && ns * self.tshells@.len() <= usize::MAX && ns * self.shells@.len()
            <= usize::MAX && ns * self.beams@.len() <= usize::MAX)
        &&& (self.globals.rigid_wall matches Some(w) ==> ns * 3 * w.n_walls as nat <= usize::MAX)
        &&& (self.sph matches Some(s) ==> ns * s.materials@.len() <= usize::MAX && ns
            * s.materials@.len() * s.n_vars as nat <= usize::MAX)
        &&& (self.airbag matches Some(a) ==> a.n_airbags as nat * a.n_geom_vars as nat <= usize::MAX
            && ns * a.n_airbags as nat <= usize::MAX && ns * a.n_airbags as nat
            * a.n_airbag_vars as nat <= usize::MAX && ns * a.n_particles as nat <= usize::MAX && ns
            * a.n_particles as nat * a.n_particle_vars as nat <= usize::MAX)
        &&& (self.rigid_bodies matches Some(b) ==> ns * b.bodies@.len() * 24 <= usize::MAX)
        &&& (self.rigid_road matches Some(r) ==> 3 * r.node_ids@.len() <= usize::MAX && ns
            * r.segments@.len() * 6 <= usize::MAX)
    }
}

pub open spec fn results_countable(r: Option<(usize, Vec<u64>)>, ns: nat, count: nat) -> bool {
    r matches Some(x) ==> ns * count <= usize::MAX && ns * count * x.0 as nat <= usize::MAX
}

/// `r` reports the complaint `m`, or success when there is none.
pub open spec fn reports(r: Result<(), D3plotError>, m: Option<Seq<char>>) -> bool {
    match m {
        None => r is Ok,
        Some(s) => r matches Err(e) && e.says(s),
    }
}

fn length_failure(what: &str, got: usize, want: usize) -> (e: D3plotError)
    ensures
        e.says(length_complaint(what@, got as nat, want as nat)),
{
    let mut s: String = String::from_str(what);
    s.append(": length ");
    push_dec(&mut s, got as u64);
    s.append(" != expected ");
    push_dec(&mut s, want as u64);
    D3plotError::Unsupported(s)
}

fn check_length(what: &str, got: usize, want: usize) -> (r: Result<(), D3plotError>)
    ensures
        reports(r, length_error(what@, got as nat, want as nat)),
{
    if got == want {
        Ok(())
    } else {
        Err(length_failure(what, got, want))
    }
}

fn check_array(what: &str, d: &Option<Vec<u64>>, want: usize) -> (r: Result<(), D3plotError>)
    ensures
        reports(r, array_error(what@, *d, want as nat)),
{
    match d {
        Some(x) => check_length(what, x.len(), want),
        None => Ok(()),
    }
}

fn check_results(what: &str, r: &Option<(usize, Vec<u64>)>, ns: usize, count: usize) -> (res: Result<
    (),
    D3plotError,
>)
    requires
        results_countable(*r, ns as nat, count as nat),
    ensures
        reports(res, result_error(what@, *r, ns as nat, count as nat)),
{
    match r {
        Some(x) => check_length(what, x.1.len(), ns * count * x.0),
        None => Ok(()),
    }
}

fn check_segments(s: &Vec<(i32, Vec<i32>)>) -> (r: Result<(), D3plotError>)
    ensures
        reports(r, segment_error(s@, 0)),
{
    for i in 0..s.len()
        invariant
            segment_error(s@, i as int) == segment_error(s@, 0),
    {
        if s[i].1.len() % 4 != 0 {
            let mut m: String = String::from_str("rigid_road segment ");
            push_dec(&mut m, i as u64);
            m.append(": ");
            push_dec(&mut m, s[i].1.len() as u64);
            m.append(" node ids not a multiple of 4");
            return Err(D3plotError::Unsupported(m));
        }
    }
    Ok(())
}

fn check_scalars(s: &Vec<Option<Vec<u64>>>, ns: usize) -> (r: Result<(), D3plotError>)
    ensures
        reports(r, scalar_error(s@, 0, ns as nat)),
{
    for i in 0..s.len()
        invariant
            scalar_error(s@, i as int, ns as nat) == scalar_error(s@, 0, ns as nat),
    {
        let mut what: String = String::from_str("global scalar ");
        push_dec(&mut what, i as u64);
        let r: Result<(), D3plotError> = check_array(what.as_str(), &s[i], ns);
        if r.is_err() {
            return r;
        }
    }
    Ok(())
}

impl D3plotWriter {
    fn check_elements(&self) -> (r: Result<(), D3plotError>)
        requires
            self.lengths_countable(),
        ensures
            reports(r, self.element_error()),
    {
        let ns: usize = self.states.len();
        let r: Result<(), D3plotError> = check_results(
            "solid_results",
            &self.solid_results,
            ns,
            self.solids.len(),
        );
        if r.is_err() {
            return r;
        }
        let r: Result<(), D3plotError> = check_results(
            "tshell_results",
            &self.tshell_results,
            ns,
            self.tshells.len(),
        );
        if r.is_err() {
            return r;
        }
        let r: Result<(), D3plotError> = check_results(
            "beam_results",
            &self.beam_results,
            ns,
            self.beams.len(),
        );
        if r.is_err() {
            return r;
        }
        check_results("shell_results", &self.shell_results, ns, self.shells.len())
    }

    fn check_globals(&self) -> (r: Result<(), D3plotError>)
        requires
            self.lengths_countable(),
        ensures
            reports(r, self.global_error()),
    {
        let ns: usize = self.states.len();
        let r: Result<(), D3plotError> = check_scalars(&self.globals.scalars, ns);
        if r.is_err() {
            return r;
        }
        if self.globals.parts.any() {
            let r: Result<(), D3plotError> = self.check_parts();
            if r.is_err() {
                return r;
            }
        }
        self.check_walls()
    }

    fn check_parts(&self) -> (r: Result<(), D3plotError>)
        requires
            self.lengths_countable(),
            self.globals.parts.some(),
        ensures
            reports(r, self.part_error()),
    {
        let ns: usize = self.states.len();
        let np: usize = self.part_count();
        proof {
            let a = ns as int;
            let b = np as int;
            assert(a * (3 * b) == 3 * (a * b)) by (nonlinear_arith);
            assert(0 <= a * b) by (nonlinear_arith)
                requires
                    a >= 0,
                    b >= 0,
            ;
            if ns > 0 {
                assert(3 * b <= a * (3 * b)) by (nonlinear_arith)
                    requires
                        a >= 1,
                        b >= 0,
                ;
            }
        }
        let unit: usize = ns * np;
        let p = &self.globals.parts;
        let r: Result<(), D3plotError> = check_array("part internal_energy", &p.internal_energy, unit);
        if r.is_err() {
            return r;
        }
        let r: Result<(), D3plotError> = check_array("part kinetic_energy", &p.kinetic_energy, unit);
        if r.is_err() {
            return r;
        }
        let r: Result<(), D3plotError> = check_array("part velocity", &p.velocity, 3 * unit);
        if r.is_err() {
            return r;
        }
        let r: Result<(), D3plotError> = check_array("part mass", &p.mass, unit);
        if r.is_err() {
            return r;
        }
        check_array("part hourglass_energy", &p.hourglass_energy, unit)
    }

    fn check_walls(&self) -> (r: Result<(), D3plotError>)
        requires
            self.lengths_countable(),
        ensures
            reports(r, self.wall_error()),
    {
        let ns: usize = self.states.len();
        match &self.globals.rigid_wall {
            None => Ok(()),
            Some(w) => {
                proof {
                    let a = ns as int;
                    let b = w.n_walls as int;
                    assert(a * 3 * b == 3 * (a * b)) by (nonlinear_arith);
                    assert(0 <= a * b) by (nonlinear_arith)
                        requires
                            a >= 0,
                            b >= 0,
                    ;
                }
                let unit: usize = ns * w.n_walls;
                let r: Result<(), D3plotError> = check_length(
                    "rigid_wall force",
                    w.force.len(),
                    unit,
                );
                if r.is_err() {
                    return r;
                }
                check_array("rigid_wall position", &w.position, 3 * unit)
            },
        }
    }

    fn check_nodes(&self) -> (r: Result<(), D3plotError>)
        requires
            self.lengths_countable(),
        ensures
            reports(r, self.node_error()),
    {
        let ns: usize = self.states.len();
        let unit: usize = ns * self.numnp;
        let t = &self.node_thermal;
        if let Some(d) = &t.temperature {
            let len: usize = d.len();
            if unit == 0 || (len != unit && len != 3 * unit) {
                return Err(length_failure("node Temperature", len, unit));
            }
        }
        let r: Result<(), D3plotError> = check_array("node HeatFlux", &t.heat_flux, unit * 3);
        if r.is_err() {
            return r;
        }
        let r: Result<(), D3plotError> = check_array("node MassScaling", &t.mass_scaling, unit);
        if r.is_err() {
            return r;
        }
        let r: Result<(), D3plotError> = check_array(
            "node TemperatureGradient",
            &t.temp_gradient,
            unit,
        );
        if r.is_err() {
            return r;
        }
        let r: Result<(), D3plotError> = check_array(
            "node ResidualForce",
            &t.residual_force,
            unit * 3,
        );
        if r.is_err() {
            return r;
        }
        check_array("node ResidualMoment", &t.residual_moment, unit * 3)
    }

    fn check_deletion(&self) -> (r: Result<(), D3plotError>)
        requires
            self.lengths_countable(),
        ensures
            reports(r, self.deletion_error()),
    {
        let ns: usize = self.states.len();
        match &self.deletion {
            None => Ok(()),
            Some(Deletion::Node(d)) => check_length("node deletion", d.len(), ns * self.numnp),
            Some(Deletion::Element { solid, tshell, shell, beam }) => {
                let r: Result<(), D3plotError> = check_array(
                    "solid deletion",
                    solid,
                    ns * self.solids.len(),
                );
                if r.is_err() {
                    return r;
                }
                let r: Result<(), D3plotError> = check_array(
                    "tshell deletion",
                    tshell,
                    ns * self.tshells.len(),
                );
                if r.is_err() {
                    return r;
                }
                let r: Result<(), D3plotError> = check_array(
                    "shell deletion",
                    shell,
                    ns * self.shells.len(),
                );
                if r.is_err() {
                    return r;
                }
                check_array("beam deletion", beam, ns * self.beams.len())
            },
        }
    }

    fn check_sph(&self) -> (r: Result<(), D3plotError>)
        requires
            self.lengths_countable(),
        ensures
            reports(r, self.sph_error()),
    {
        match &self.sph {
            None => Ok(()),
            Some(s) => {
                if s.n_vars == 0 {
                    return Err(D3plotError::Unsupported(String::from_str("sph n_vars must be ≥ 1")));
                }
                check_length(
                    "sph results",
                    s.results.len(),
                    self.states.len() * s.materials.len() * s.n_vars,
                )
            },
        }
    }

    fn check_airbag(&self) -> (r: Result<(), D3plotError>)
        requires
            self.lengths_countable(),
        ensures
            reports(r, self.airbag_error()),
    {
        let ns: usize = self.states.len();
        match &self.airbag {
            None => Ok(()),
            Some(a) => {
                let r: Result<(), D3plotError> = check_length(
                    "airbag geom",
                    a.geom.len(),
                    a.n_airbags * a.n_geom_vars,
                );
                if r.is_err() {
                    return r;
                }
                let r: Result<(), D3plotError> = check_length(
                    "airbag state",
                    a.airbag_state.len(),
                    ns * a.n_airbags * a.n_airbag_vars,
                );
                if r.is_err() {
                    return r;
                }
                check_length(
                    "particle state",
                    a.particle_state.len(),
                    ns * a.n_particles * a.n_particle_vars,
                )
            },
        }
    }

    fn check_rigid(&self) -> (r: Result<(), D3plotError>)
        requires
            self.lengths_countable(),
        ensures
            reports(r, self.rigid_error()),
    {
        let ns: usize = self.states.len();
        if let Some(b) = &self.rigid_bodies {
            let width: usize = if self.rigid_road.is_some() { 12 } else { 24 };
            let ghost m = ns * b.bodies@.len();
            assert(0 <= m) by (nonlinear_arith)
                requires
                    m == ns * b.bodies@.len(),
            ;
            let r: Result<(), D3plotError> = check_length(
                "rigid_body motion",
                b.motion.len(),
                ns * b.bodies.len() * width,
            );
            if r.is_err() {
                return r;
            }
        }
        match &self.rigid_road {
            None => Ok(()),
            Some(x) => {
                let r: Result<(), D3plotError> = check_length(
                    "rigid_road node_coords",
                    x.node_coords.len(),
                    3 * x.node_ids.len(),
                );
                if r.is_err() {
                    return r;
                }
                let r: Result<(), D3plotError> = check_segments(&x.segments);
                if r.is_err() {
                    return r;
                }
                let ghost m = ns * x.segments@.len();
                assert(0 <= m) by (nonlinear_arith)
                    requires
                        m == ns * x.segments@.len(),
                ;
                check_length("rigid_road motion", x.motion.len(), ns * x.segments.len() * 6)
            },
        }
    }

    /// Checks the length of every array against the number of states and of its
    /// entities.
    pub fn validate(&self) -> (r: Result<(), D3plotError>)
        requires
            self.lengths_countable(),
        ensures
            reports(r, self.validation_error()),
    {
        let r: Result<(), D3plotError> = self.check_elements();
        if r.is_err() {
            return r;
        }
        let r: Result<(), D3plotError> = self.check_globals();
        if r.is_err() {
            return r;
        }
        let r: Result<(), D3plotError> = self.check_nodes();
        if r.is_err() {
            return r;
        }
        let r: Result<(), D3plotError> = self.check_deletion();
        if r.is_err() {
            return r;
        }
        let r: Result<(), D3plotError> = self.check_sph();
        if r.is_err() {
            return r;
        }
        let r: Result<(), D3plotError> = self.check_airbag();
        if r.is_err() {
            return r;
        }
        self.check_rigid()
    }

    /// Validates the arrays and gives the bytes of the database.
    pub fn checked_bytes(&self) -> (r: Result<Vec<u8>, D3plotError>)
        requires
            self.wf(),
            self.countable(),
            self.lengths_countable(),
        ensures
            match self.validation_error() {
                Some(m) => r matches Err(e) && e.says(m),
                None => r matches Ok(b) && b@ == self.image(),
            },
    {
        match self.validate() {
            Err(e) => Err(e),
            Ok(()) => {
                proof {
                    law_valid_is_complete(*self);
                }
                Ok(self.to_bytes())
            },
        }
    }
}

proof fn lemma_scalars_cover(s: Seq<Option<Vec<u64>>>, i: int, ns: nat)
    requires
        scalar_error(s, i, ns) is None,
        0 <= i,
    ensures
        forall|k: int| i <= k < s.len() ==> covers(#[trigger] s[k], ns, 1),
    decreases s.len() - i,
{
    if i < s.len() {
        lemma_scalars_cover(s, i + 1, ns);
    }
}

proof fn lemma_swap(a: nat, b: nat, c: nat)
    ensures
        a * b * c == a * (c * b),
        a * b * c == a * (b * c),
{
    assert(a * b * c == a * (c * b)) by (nonlinear_arith);
    assert(a * b * c == a * (b * c)) by (nonlinear_arith);
}

/// A writer whose arrays pass validation has all the values that its states need,
/// so its bytes can be produced.
pub proof fn law_valid_is_complete(w: D3plotWriter)
    requires
        w.wf(),
        w.validation_error() is None,
    ensures
        w.complete(),
{
    let ns = w.n_states();
    let n = w.numnp as nat;
    if let Some(x) = w.solid_results {
        lemma_swap(ns, w.solids@.len(), x.0 as nat);
    }
    if let Some(x) = w.tshell_results {
        lemma_swap(ns, w.tshells@.len(), x.0 as nat);
    }
    if let Some(x) = w.beam_results {
        lemma_swap(ns, w.beams@.len(), x.0 as nat);
    }
    if let Some(x) = w.shell_results {
        lemma_swap(ns, w.shells@.len(), x.0 as nat);
    }
    lemma_scalars_cover(w.globals.scalars@, 0, ns);
    if let Some(x) = w.globals.rigid_wall {
        lemma_swap(ns, 3, x.n_walls as nat);
    }
    lemma_swap(ns, n, 3);
    lemma_swap(ns, n, 1);
    if let Some(t) = w.node_thermal.temperature {
        let unit = ns * n;
        let len = t@.len();
        assert(ns > 0) by (nonlinear_arith)
            requires
                ns * n != 0,
        ;
        if len == 3 * unit {
            assert((3 * unit) / unit == 3) by (nonlinear_arith)
                requires
                    unit > 0,
            ;
        } else {
            assert(unit / unit == 1) by (nonlinear_arith)
                requires
                    unit > 0,
            ;
        }
    }
    if let Some(s) = w.sph {
        lemma_swap(ns, s.materials@.len(), s.n_vars as nat);
    }
    if let Some(a) = w.airbag {
        lemma_swap(ns, a.n_airbags as nat, a.n_airbag_vars as nat);
        lemma_swap(ns, a.n_particles as nat, a.n_particle_vars as nat);
    }
    if let Some(b) = w.rigid_bodies {
        lemma_swap(ns, b.bodies@.len(), w.rigid_width());
    }
    if let Some(r) = w.rigid_road {
        lemma_swap(ns, r.segments@.len(), 6);
    }
}

/// `a * b` is a machine number.
fn product_fits(a: usize, b: usize) -> (r: bool)
    ensures
        r == (a * b <= usize::MAX),
{
    assert(a * b <= 0xFFFF_FFFF_FFFF_FFFF * 0xFFFF_FFFF_FFFF_FFFF) by (nonlinear_arith)
        requires
            a <= 0xFFFF_FFFF_FFFF_FFFF,
            b <= 0xFFFF_FFFF_FFFF_FFFF,
    ;
    a as u128 * b as u128 <= usize::MAX as u128
}

/// `a * b` and `a * b * c` are machine numbers.
fn products_fit(a: usize, b: usize, c: usize) -> (r: bool)
    ensures
        r == (a * b <= usize::MAX && a * b * c <= usize::MAX),
{
    if !product_fits(a, b) {
        return false;
    }
    let p: usize = a * b;
    product_fits(p, c)
}

fn results_fit(r: &Option<(usize, Vec<u64>)>, ns: usize, count: usize) -> (res: bool)
    ensures
        res == results_countable(*r, ns as nat, count as nat),
{
    match r {
        Some(x) => products_fit(ns, count, x.0),
        None => true,
    }
}

impl D3plotWriter {
    /// The expected lengths are machine numbers.
    pub fn has_countable_lengths(&self) -> (r: bool)
        ensures
            r == self.lengths_countable(),
    {
        let ns: usize = self.states.len();
        results_fit(&self.solid_results, ns, self.solids.len()) && results_fit(
            &self.tshell_results,
            ns,
            self.tshells.len(),
        ) && results_fit(&self.beam_results, ns, self.beams.len()) && results_fit(
            &self.shell_results,
            ns,
            self.shells.len(),
        ) && self.part_lengths_fit() && self.node_lengths_fit() && self.deletion_lengths_fit()
            && self.wall_lengths_fit() && self.tail_lengths_fit()
    }

    fn part_lengths_fit(&self) -> (r: bool)
        ensures
            r == (self.globals.parts.some() ==> self.n_states() * (3 * self.n_parts())
                <= usize::MAX),
    {
        if !self.globals.parts.any() {
            return true;
        }
        let ns: usize = self.states.len();
        let np: usize = self.part_count();
        let width: u64 = 3 * np as u64;
        if width > usize::MAX as u64 {
            proof {
                if ns > 0 {
                    assert(width <= ns * width) by (nonlinear_arith)
                        requires
                            ns >= 1,
                            width >= 0,
                    ;
                }
            }
            return ns == 0;
        }
        product_fits(ns, width as usize)
    }

    fn node_lengths_fit(&self) -> (r: bool)
        ensures
            r == (self.n_states() * self.numnp as nat * 3 <= usize::MAX),
    {
        let ghost m = self.states@.len() * self.numnp;
        assert(m >= 0) by (nonlinear_arith)
            requires
                m == self.states@.len() * self.numnp,
        ;
        products_fit(self.states.len(), self.numnp, 3)
    }

    fn deletion_lengths_fit(&self) -> (r: bool)
        ensures
            r == (self.deletion matches Some(Deletion::Element { .. }) ==> self.n_states()
                * self.solids@.len() <= usize::MAX && self.n_states() * self.tshells@.len()
                <= usize::MAX && self.n_states() * self.shells@.len() <= usize::MAX
                && self.n_states() * self.beams@.len() <= usize::MAX),
    {
        let ns: usize = self.states.len();
        match &self.deletion {
            Some(Deletion::Element { .. }) => product_fits(ns, self.solids.len()) && product_fits(
                ns,
                self.tshells.len(),
            ) && product_fits(ns, self.shells.len()) && product_fits(ns, self.beams.len()),
            _ => true,
        }
    }

    fn wall_lengths_fit(&self) -> (r: bool)
        ensures
            r == (self.globals.rigid_wall matches Some(w) ==> self.n_states() * 3 * w.n_walls as nat
                <= usize::MAX),
    {
        let ns: usize = self.states.len();
        match &self.globals.rigid_wall {
            Some(w) => {
                if ns > usize::MAX / 3 {
                    proof {
                        let a = 3 * ns as nat;
                        let b = w.n_walls as nat;
                        if b > 0 {
                            assert(a <= a * b) by (nonlinear_arith)
                                requires
                                    b >= 1,
                            ;
                        }
                        assert(ns as nat * 3 * b == a * b);
                    }
                    return w.n_walls == 0;
                }
                product_fits(ns * 3, w.n_walls)
            },
            None => true,
        }
    }

    fn tail_lengths_fit(&self) -> (r: bool)
        ensures
            r == ({
                let ns = self.n_states();
                &&& (self.sph matches Some(s) ==> ns * s.materials@.len() <= usize::MAX && ns
                    * s.materials@.len() * s.n_vars as nat <= usize::MAX)
                &&& (self.airbag matches Some(a) ==> a.n_airbags as nat * a.n_geom_vars as nat
                    <= usize::MAX && ns * a.n_airbags as nat <= usize::MAX && ns
                    * a.n_airbags as nat * a.n_airbag_vars as nat <= usize::MAX && ns
                    * a.n_particles as nat <= usize::MAX && ns * a.n_particles as nat
                    * a.n_particle_vars as nat <= usize::MAX)
                &&& (self.rigid_bodies matches Some(b) ==> ns * b.bodies@.len() * 24 <= usize::MAX)
                &&& (self.rigid_road matches Some(r) ==> 3 * r.node_ids@.len() <= usize::MAX && ns
                    * r.segments@.len() * 6 <= usize::MAX)
            }),
    {
        let ns: usize = self.states.len();
        let sph: bool = match &self.sph {
            Some(s) => products_fit(ns, s.materials.len(), s.n_vars),
            None => true,
        };
        let airbag: bool = match &self.airbag {
            Some(a) => product_fits(a.n_airbags, a.n_geom_vars) && products_fit(
                ns,
                a.n_airbags,
                a.n_airbag_vars,
            ) && products_fit(ns, a.n_particles, a.n_particle_vars),
            None => true,
        };
        let bodies: bool = match &self.rigid_bodies {
            Some(b) => {
                let ghost m = ns * b.bodies@.len();
                assert(m >= 0) by (nonlinear_arith)
                    requires
                        m == ns * b.bodies@.len(),
                ;
                products_fit(ns, b.bodies.len(), 24)
            },
            None => true,
        };
        let road: bool = match &self.rigid_road {
            Some(r) => {
                let ghost m = ns * r.segments@.len();
                assert(m >= 0) by (nonlinear_arith)
                    requires
                        m == ns * r.segments@.len(),
                ;
                product_fits(3, r.node_ids.len()) && products_fit(ns, r.segments.len(), 6)
            },
            None => true,
        };
        sph && airbag && bodies && road
    }
}

} // verus!
