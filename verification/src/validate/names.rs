//! Names of keywords and of kinds of entities.

use crate::deck::schema::{EntityKind, Ref};
use crate::text::same_text;
use vstd::prelude::*;

verus! {

/// An ASCII letter in upper case; other characters as they are.
pub open spec fn upper_char(c: char) -> char {
    if 'a' <= c && c <= 'z' {
        ((c as u32) - 32) as char
    } else {
        c
    }
}

pub open spec fn upper_text(s: Seq<char>) -> Seq<char> {
    s.map_values(|c: char| upper_char(c))
}

/// The upper case of a small ASCII letter; other characters have none.
fn upper_letter(c: char) -> (r: Option<&'static str>)
    ensures
        r is Some <==> 'a' <= c && c <= 'z',
        r matches Some(t) ==> t@ == seq![upper_char(c)],
{
    proof {
        reveal_strlit("A");
        reveal_strlit("B");
        reveal_strlit("C");
        reveal_strlit("D");
        reveal_strlit("E");
        reveal_strlit("F");
        reveal_strlit("G");
        reveal_strlit("H");
        reveal_strlit("I");
        reveal_strlit("J");
        reveal_strlit("K");
        reveal_strlit("L");
        reveal_strlit("M");
        reveal_strlit("N");
        reveal_strlit("O");
        reveal_strlit("P");
        reveal_strlit("Q");
        reveal_strlit("R");
        reveal_strlit("S");
        reveal_strlit("T");
        reveal_strlit("U");
        reveal_strlit("V");
        reveal_strlit("W");
        reveal_strlit("X");
        reveal_strlit("Y");
        reveal_strlit("Z");
    }
    match c {
        'a' => Some("A"),
        'b' => Some("B"),
        'c' => Some("C"),
        'd' => Some("D"),
        'e' => Some("E"),
        'f' => Some("F"),
        'g' => Some("G"),
        'h' => Some("H"),
        'i' => Some("I"),
        'j' => Some("J"),
        'k' => Some("K"),
        'l' => Some("L"),
        'm' => Some("M"),
        'n' => Some("N"),
        'o' => Some("O"),
        'p' => Some("P"),
        'q' => Some("Q"),
        'r' => Some("R"),
        's' => Some("S"),
        't' => Some("T"),
        'u' => Some("U"),
        'v' => Some("V"),
        'w' => Some("W"),
        'x' => Some("X"),
        'y' => Some("Y"),
        'z' => Some("Z"),
        _ => None,
    }
}

/// `s` with its ASCII letters in upper case.
pub(crate) fn to_upper_text(s: &str) -> (r: String)
    ensures
        r@ == upper_text(s@),
{
    let mut out: String = String::new();
    let n: usize = s.unicode_len();
    for i in 0..n
        invariant
            n == s@.len(),
            out@ == upper_text(s@.take(i as int)),
    {
        let c: char = s.get_char(i);
        match upper_letter(c) {
            Some(t) => {
                out.append(t);
            },
            None => {
                out.append(s.substring_char(i, i + 1));
            },
        }
        assert(out@ =~= upper_text(s@.take(i + 1)));
    }
    assert(s@.take(n as int) =~= s@);
    out
}

/// `s` ends with `t`.
pub open spec fn ends_with(s: Seq<char>, t: Seq<char>) -> bool {
    s.len() >= t.len() && s.skip(s.len() - t.len()) == t
}

/// `s` without `t` at its end.
pub open spec fn without_suffix(s: Seq<char>, t: Seq<char>) -> Seq<char> {
    if ends_with(s, t) {
        s.take(s.len() - t.len())
    } else {
        s
    }
}

/// The keyword without options that only annotate it, in upper case.
pub open spec fn base_of(name: Seq<char>) -> Seq<char> {
    without_suffix(without_suffix(upper_text(name), "_TITLE"@), "_ID"@)
}

pub(crate) fn drop_suffix(s: &str, t: &str) -> (r: String)
    ensures
        r@ == without_suffix(s@, t@),
{
    let n: usize = s.unicode_len();
    let m: usize = t.unicode_len();
    if n >= m {
        let tail: &str = s.substring_char(n - m, n);
        assert(tail@ =~= s@.skip(n - m));
        if same_text(tail, t) {
            let head: &str = s.substring_char(0, n - m);
            assert(head@ =~= s@.take(n - m));
            return String::from_str(head);
        }
    }
    String::from_str(s)
}

/// The keyword without `_TITLE` and `_ID` behind it, in upper case, so that a rule on
/// a keyword reaches its annotated forms.
pub fn canonical_base(name: &str) -> (r: String)
    ensures
        r@ == base_of(name@),
{
    let up: String = to_upper_text(name);
    let a: String = drop_suffix(up.as_str(), "_TITLE");
    drop_suffix(a.as_str(), "_ID")
}

/// The base names of rigid materials.
pub open spec fn is_rigid_base(base: Seq<char>) -> bool {
    base == "MAT_RIGID"@ || base == "MAT_020"@ || base == "MAT_20"@
}

/// Tells whether a material's base name is that of a rigid one: material 20, under
/// its name or its number.
pub fn is_rigid_material(base: &str) -> (r: bool)
    ensures
        r == is_rigid_base(base@),
{
    same_text(base, "MAT_RIGID") || same_text(base, "MAT_020") || same_text(base, "MAT_20")
}

/// The name of a kind of entity.
pub open spec fn kind_text(k: EntityKind) -> Seq<char> {
    match k {
        EntityKind::Node => "Node"@,
        EntityKind::Element => "Element"@,
        EntityKind::Part => "Part"@,
        EntityKind::Material => "Material"@,
        EntityKind::ThermalMaterial => "ThermalMaterial"@,
        EntityKind::Section => "Section"@,
        EntityKind::Eos => "Eos"@,
        EntityKind::Hourglass => "Hourglass"@,
        EntityKind::Curve => "Curve"@,
        EntityKind::Coord => "Coord"@,
        EntityKind::Vector => "Vector"@,
        EntityKind::Box => "Box"@,
        EntityKind::Transform => "Transform"@,
        EntityKind::NodeSet => "NodeSet"@,
        EntityKind::PartSet => "PartSet"@,
        EntityKind::SegmentSet => "SegmentSet"@,
        EntityKind::ShellSet => "ShellSet"@,
        EntityKind::SolidSet => "SolidSet"@,
        EntityKind::BeamSet => "BeamSet"@,
        EntityKind::DiscreteSet => "DiscreteSet"@,
        EntityKind::Sensor => "Sensor"@,
        EntityKind::Define => "Define"@,
    }
}

/// The name of a kind of entity.
pub fn kind_name(k: EntityKind) -> (r: &'static str)
    ensures
        r@ == kind_text(k),
{
    match k {
        EntityKind::Node => "Node",
        EntityKind::Element => "Element",
        EntityKind::Part => "Part",
        EntityKind::Material => "Material",
        EntityKind::ThermalMaterial => "ThermalMaterial",
        EntityKind::Section => "Section",
        EntityKind::Eos => "Eos",
        EntityKind::Hourglass => "Hourglass",
        EntityKind::Curve => "Curve",
        EntityKind::Coord => "Coord",
        EntityKind::Vector => "Vector",
        EntityKind::Box => "Box",
        EntityKind::Transform => "Transform",
        EntityKind::NodeSet => "NodeSet",
        EntityKind::PartSet => "PartSet",
        EntityKind::SegmentSet => "SegmentSet",
        EntityKind::ShellSet => "ShellSet",
        EntityKind::SolidSet => "SolidSet",
        EntityKind::BeamSet => "BeamSet",
        EntityKind::DiscreteSet => "DiscreteSet",
        EntityKind::Sensor => "Sensor",
        EntityKind::Define => "Define",
    }
}

/// The first `n` kinds, with commas between them.
pub open spec fn kinds_text(s: Seq<EntityKind>, n: nat) -> Seq<char>
    decreases n,
{
    if n == 0 {
        Seq::empty()
    } else if n == 1 {
        kind_text(s[0])
    } else {
        kinds_text(s, (n - 1) as nat) + ", "@ + kind_text(s[n - 1])
    }
}

/// The name of what a reference points at.
pub open spec fn target_text(r: Ref) -> Seq<char> {
    match r {
        Ref::To(k) => kind_text(k),
        Ref::AnyOf(ks) => "["@ + kinds_text(ks@, ks@.len()) + "]"@,
        Ref::Nothing => Seq::empty(),
    }
}

/// The name of what a reference points at.
pub fn target_name(r: &Ref) -> (s: String)
    ensures
        s@ == target_text(*r),
{
    match r {
        Ref::To(k) => String::from_str(kind_name(*k)),
        Ref::AnyOf(ks) => {
            let mut s: String = String::from_str("[");
            assert(s@ =~= "["@ + kinds_text(ks@, 0));
            for i in 0..ks.len()
                invariant
                    s@ == "["@ + kinds_text(ks@, i as nat),
            {
                if i > 0 {
                    s.append(", ");
                }
                s.append(kind_name(ks[i]));
                assert(s@ =~= "["@ + kinds_text(ks@, (i + 1) as nat));
            }
            s.append("]");
            s
        },
        Ref::Nothing => {
            let s: String = String::from_str("");
            proof {
                reveal_strlit("");
                assert(s@ =~= Seq::<char>::empty());
            }
            s
        },
    }
}

/// What is at fault is named as in the manual: every kind by its own name.
pub proof fn law_kind_names(k: EntityKind)
    ensures
        k is Node ==> kind_text(k) == "Node"@,
        k is Element ==> kind_text(k) == "Element"@,
        k is Part ==> kind_text(k) == "Part"@,
        k is Material ==> kind_text(k) == "Material"@,
        k is ThermalMaterial ==> kind_text(k) == "ThermalMaterial"@,
        k is Section ==> kind_text(k) == "Section"@,
        k is Eos ==> kind_text(k) == "Eos"@,
        k is Hourglass ==> kind_text(k) == "Hourglass"@,
        k is Curve ==> kind_text(k) == "Curve"@,
        k is Coord ==> kind_text(k) == "Coord"@,
        k is Vector ==> kind_text(k) == "Vector"@,
        k is Box ==> kind_text(k) == "Box"@,
        k is Transform ==> kind_text(k) == "Transform"@,
        k is NodeSet ==> kind_text(k) == "NodeSet"@,
        k is PartSet ==> kind_text(k) == "PartSet"@,
        k is SegmentSet ==> kind_text(k) == "SegmentSet"@,
        k is ShellSet ==> kind_text(k) == "ShellSet"@,
        k is SolidSet ==> kind_text(k) == "SolidSet"@,
        k is BeamSet ==> kind_text(k) == "BeamSet"@,
        k is DiscreteSet ==> kind_text(k) == "DiscreteSet"@,
        k is Sensor ==> kind_text(k) == "Sensor"@,
        k is Define ==> kind_text(k) == "Define"@,
{
}

/// Several kinds are named in brackets, with commas between them.
pub proof fn law_target_names(k: EntityKind, s: Seq<EntityKind>, n: nat)
    requires
        1 <= n < s.len(),
    ensures
        target_text(Ref::To(k)) == kind_text(k),
        kinds_text(s, 1) == kind_text(s[0]),
        kinds_text(s, n + 1) == kinds_text(s, n) + ", "@ + kind_text(s[n as int]),
{
}

} // verus!
