//! The bytes of a file: numbers, types, records and where the values of a dataset are.

use crate::le::{byte_of, le_at, le_bytes, lemma_le_at_of_bytes, lemma_pow256_values, pow256, signed};
use crate::lsda::data::DataView;
use crate::lsda::diskfile::{command_at, value_at, Diskfile};
use crate::lsda::endian::{be_at, uint_at};
use crate::lsda::symbol::{decoded, elem_size, leaf_read, uints, ReadView};
use crate::lsda::tree::SymMeta;
use crate::lsda::table::entry_of;
use crate::lsda::write::{
    cd_record, data_record, group_data, lsda_image, symbol_table, variable_record, GroupView,
};
use crate::lsda::LsdaFault;
use vstd::prelude::*;

verus! {

/// A number of two, four or eight bytes has its lowest byte first in little-endian order
/// and last in big-endian order.
pub proof fn law_byte_order(b: Seq<u8>, o: int)
    ensures
        le_at(b, o, 1) == b[o],
        be_at(b, o, 1) == b[o],
        le_at(b, o, 2) == b[o] + 0x100 * b[o + 1],
        be_at(b, o, 2) == 0x100 * b[o] + b[o + 1],
        le_at(b, o, 4) == b[o] + 0x100 * b[o + 1] + 0x1_0000 * b[o + 2] + 0x100_0000 * b[o + 3],
        be_at(b, o, 4) == 0x100_0000 * b[o] + 0x1_0000 * b[o + 1] + 0x100 * b[o + 2] + b[o + 3],
        le_at(b, o, 8) == le_at(b, o, 4) + 0x1_0000_0000 * le_at(b, o + 4, 4),
        be_at(b, o, 8) == 0x1_0000_0000 * be_at(b, o, 4) + be_at(b, o + 4, 4),
        uint_at(b, o, 4, true) == le_at(b, o, 4),
        uint_at(b, o, 4, false) == be_at(b, o, 4),
{
    reveal_with_fuel(le_at, 9);
    reveal_with_fuel(be_at, 9);
}

/// A number whose highest bit is set is read as a negative one.
pub proof fn law_signs(u: nat)
    ensures
        u < 0x80 ==> signed(u, 1) == u,
        0x80 <= u < 0x100 ==> signed(u, 1) == u - 0x100,
        u < 0x8000 ==> signed(u, 2) == u,
        0x8000 <= u < 0x1_0000 ==> signed(u, 2) == u - 0x1_0000,
        u < 0x8000_0000 ==> signed(u, 4) == u,
        0x8000_0000 <= u < 0x1_0000_0000 ==> signed(u, 4) == u - 0x1_0000_0000,
        u < 0x8000_0000_0000_0000 ==> signed(u, 8) == u,
        0x8000_0000_0000_0000 <= u < 0x1_0000_0000_0000_0000 ==> signed(u, 8) == u
            - 0x1_0000_0000_0000_0000,
{
    lemma_pow256_values();
    assert(pow256(1) == 256 && pow256(2) == 65536) by {
        reveal_with_fuel(pow256, 3);
    }
}

/// Signed integers of one, two, four and eight bytes have the types 1 to 4, unsigned ones
/// the types 5 to 8, and floating-point numbers of four and eight bytes the types 9
/// and 10. Text is written as signed bytes.
pub proof fn law_type_codes(d: DataView)
    ensures
        d is I8 || d is Str <==> d.type_code() == 1,
        d is I16 <==> d.type_code() == 2,
        d is I32 <==> d.type_code() == 3,
        d is I64 <==> d.type_code() == 4,
        d is U8 <==> d.type_code() == 5,
        d is U16 <==> d.type_code() == 6,
        d is U32 <==> d.type_code() == 7,
        d is U64 <==> d.type_code() == 8,
        d is F32 <==> d.type_code() == 9,
        d is F64 <==> d.type_code() == 10,
        elem_size(1) == 1 && elem_size(2) == 2 && elem_size(3) == 4 && elem_size(4) == 8,
        elem_size(5) == 1 && elem_size(6) == 2 && elem_size(7) == 4 && elem_size(8) == 8,
        elem_size(9) == 4 && elem_size(10) == 8 && elem_size(11) == 1,
{
}

/// The values of a dataset stand one behind the other.
pub proof fn law_values(b: Seq<u8>, n: nat, le: bool, i: int)
    requires
        0 <= i < n,
    ensures
        decoded(b, 1, n, le) matches ReadView::I8(v) && v.len() == n && v[i] == signed(
            b[i] as nat,
            1,
        ) as i8,
        decoded(b, 2, n, le) matches ReadView::I16(v) && v.len() == n && v[i] == signed(
            uint_at(b, 2 * i, 2, le),
            2,
        ) as i16,
        decoded(b, 3, n, le) matches ReadView::I32(v) && v.len() == n && v[i] == signed(
            uint_at(b, 4 * i, 4, le),
            4,
        ) as i32,
        decoded(b, 4, n, le) matches ReadView::I64(v) && v.len() == n && v[i] == signed(
            uint_at(b, 8 * i, 8, le),
            8,
        ) as i64,
        decoded(b, 5, n, le) == ReadView::U8(b),
        decoded(b, 6, n, le) matches ReadView::U16(v) && v.len() == n && v[i] == uint_at(
            b,
            2 * i,
            2,
            le,
        ) as u16,
        decoded(b, 7, n, le) matches ReadView::U32(v) && v.len() == n && v[i] == uint_at(
            b,
            4 * i,
            4,
            le,
        ) as u32,
        decoded(b, 8, n, le) matches ReadView::U64(v) && v.len() == n && v[i] == uint_at(
            b,
            8 * i,
            8,
            le,
        ) as u64,
        decoded(b, 9, n, le) matches ReadView::F32(v) && v.len() == n && v[i] == uint_at(
            b,
            4 * i,
            4,
            le,
        ) as u32,
        decoded(b, 10, n, le) matches ReadView::F64(v) && v.len() == n && v[i] == uint_at(
            b,
            8 * i,
            8,
            le,
        ) as u64,
        decoded(b, 11, n, le) == ReadView::Link(b),
{
    assert(uints(b, n, 2, le)[i] == uint_at(b, 2 * i, 2, le));
    assert(uints(b, n, 4, le)[i] == uint_at(b, 4 * i, 4, le));
    assert(uints(b, n, 8, le)[i] == uint_at(b, 8 * i, 8, le));
    assert(decoded(b, 2, n, le)->I16_0[i] == signed(uints(b, n, 2, le)[i], 2) as i16);
    assert(decoded(b, 3, n, le)->I32_0[i] == signed(uints(b, n, 4, le)[i], 4) as i32);
    assert(decoded(b, 4, n, le)->I64_0[i] == signed(uints(b, n, 8, le)[i], 8) as i64);
}

/// The values of a dataset follow the head of its record: the length, the command, the
/// type, one byte for the length of the name, and the name. They are read where the file
/// has all of them.
pub proof fn law_dataset_place(m: SymMeta, files: Seq<Diskfile>)
    requires
        m.file_index < files.len(),
        files[m.file_index as int].wf(),
        m.length > 0,
        elem_size(m.type_) > 0,
    ensures
        ({
            let f = files[m.file_index as int];
            let head = f.length_size + f.command_size + f.type_size + 1;
            let at = m.offset + head + m.name_len;
            let end = at + m.length * elem_size(m.type_);
            &&& leaf_read(m, files) is Ok <==> end <= f.map@.len()
            &&& end <= f.map@.len() ==> leaf_read(m, files) == Ok::<ReadView, LsdaFault>(
                decoded(
                    f.map@.skip(at).take(end - at),
                    m.type_,
                    m.length as nat,
                    f.is_little_endian,
                ),
            )
        }),
{
    let f = files[m.file_index as int];
    let head = f.length_size + f.command_size + f.type_size + 1;
    let at = m.offset + head + m.name_len;
    let size = elem_size(m.type_);
    let end = at + m.length * size;
    assert(0 <= m.length * size) by (nonlinear_arith);
    if end <= f.map@.len() {
        assert(f.map@.skip(at).take(end - at) =~= f.map@.subrange(at, end));
    }
}

proof fn lemma_eight(v: nat, rest: Seq<u8>)
    requires
        v < 0x1_0000_0000_0000_0000,
    ensures
        (le_bytes(v, 8) + rest).len() == 8 + rest.len(),
        value_at(le_bytes(v, 8) + rest, 0, 8, true) == Ok::<u64, LsdaFault>(v as u64),
{
    assert((le_bytes(v, 8) + rest).subrange(0, 8) =~= le_bytes(v, 8));
    lemma_within(le_bytes(v, 8) + rest, 0, v);
}

/// Every record starts with its own length and its command: 2 for going to a directory, 3
/// for values and 4 for the declaration of a dataset. Behind the command stand the path;
/// the type, the length of the name, the name and the values; or the name, the type, the
/// place of the values and their number.
pub proof fn law_records(path: Seq<char>, name: Seq<u8>, d: DataView, offset: nat)
    requires
        path.len() < 0x1000_0000_0000,
        name.len() < 0x1000_0000_0000,
        d.bytes().len() < 0x1000_0000_0000,
    ensures
        ({
            let go = cd_record(path);
            let p = vstd::utf8::encode_utf8(path);
            let x = data_record(name, d);
            let v = variable_record(name, d, offset);
            &&& go.len() == 9 + p.len()
            &&& go[8] == 2
            &&& go.skip(9) == p
            &&& x.len() == 11 + name.len() + d.bytes().len()
            &&& x[8] == 3
            &&& x[9] == d.type_code()
            &&& name.len() < 256 ==> x[10] == name.len()
            &&& x.skip(11) == name + d.bytes()
            &&& v.len() == 26 + name.len()
            &&& v[8] == 4
            &&& v.subrange(9, 9 + name.len() as int) == name
            &&& v[9 + name.len() as int] == d.type_code()
            &&& v.skip(10 + name.len() as int) == le_bytes(offset, 8) + le_bytes(d.count(), 8)
            &&& p.len() < 0x1000_0000_0000 ==> value_at(go, 0, 8, true) == Ok::<u64, LsdaFault>(
                go.len() as u64,
            )
            &&& value_at(x, 0, 8, true) == Ok::<u64, LsdaFault>(x.len() as u64)
            &&& value_at(v, 0, 8, true) == Ok::<u64, LsdaFault>(v.len() as u64)
        }),
{
    let p = vstd::utf8::encode_utf8(path);
    let a = seq![2u8] + p;
    let b = seq![3u8, d.type_code(), (name.len() % 256) as u8] + name + d.bytes();
    let c = seq![4u8] + name + seq![d.type_code()] + le_bytes(offset, 8) + le_bytes(d.count(), 8);
    if p.len() < 0x1000_0000_0000 {
        lemma_eight(8 + a.len(), a);
    }
    lemma_eight(8 + b.len(), b);
    lemma_eight(8 + c.len(), c);
    assert(cd_record(path).skip(9) =~= p);
    assert(data_record(name, d).skip(11) =~= name + d.bytes());
    assert(variable_record(name, d, offset).subrange(9, 9 + name.len() as int) =~= name);
    assert(variable_record(name, d, offset).skip(10 + name.len() as int) =~= le_bytes(offset, 8)
        + le_bytes(d.count(), 8));
}

/// A file starts with its sizes: eight bytes for the header, for a length and for a place,
/// and one for a command and for a type; and with 1 for little-endian numbers. A record of
/// command 7 gives the place of the symbol table, which starts with command 5 and ends
/// with command 6 and a place of 0.
pub proof fn law_file_frame(g: Seq<GroupView>)
    requires
        lsda_image(g).len() < 0x1_0000_0000_0000_0000,
    ensures
        ({
            let b = lsda_image(g);
            let at = 25 + group_data(g).len();
            let n = b.len();
            &&& b.take(8) == seq![8u8, 8, 8, 1, 1, 1, 0, 0]
            &&& value_at(b, 8, 8, true) == Ok::<u64, LsdaFault>(17u64)
            &&& b[16] == 7
            &&& value_at(b, 17, 8, true) == Ok::<u64, LsdaFault>(at as u64)
            &&& b.subrange(25, at as int) == group_data(g)
            &&& value_at(b, at as int, 8, true) == Ok::<u64, LsdaFault>((n - at) as u64)
            &&& b[at as int + 8] == 5
            &&& value_at(b, n - 17, 8, true) == Ok::<u64, LsdaFault>(17u64)
            &&& b[n - 9] == 6
            &&& value_at(b, n - 8, 8, true) == Ok::<u64, LsdaFault>(0u64)
        }),
{
    let b = lsda_image(g);
    let at = 25 + group_data(g).len();
    let n = b.len();
    let t = symbol_table(g);
    assert(n == at + t.len());
    assert(b.take(8) =~= seq![8u8, 8, 8, 1, 1, 1, 0, 0]);
    assert(b.subrange(25, at as int) =~= group_data(g));
    assert(b.subrange(8, 16) =~= le_bytes(17, 8));
    assert(b.subrange(17, 25) =~= le_bytes(at, 8));
    assert(b.subrange(at as int, n as int) =~= t);
    assert(b.subrange(at as int, at as int + 8) =~= le_bytes(t.len(), 8));
    assert(b.subrange(n - 17, n - 9) =~= le_bytes(17, 8));
    assert(b.subrange(n - 8, n as int) =~= le_bytes(0, 8));
    lemma_within(b, 8, 17);
    lemma_within(b, 17, at);
    lemma_within(b, at as int, t.len());
    lemma_within(b, n - 17, 17);
    lemma_within(b, n - 8, 0);
}

proof fn lemma_within(b: Seq<u8>, o: int, v: nat)
    requires
        0 <= o,
        o + 8 <= b.len(),
        v < 0x1_0000_0000_0000_0000,
        b.subrange(o, o + 8) == le_bytes(v, 8),
    ensures
        value_at(b, o, 8, true) == Ok::<u64, LsdaFault>(v as u64),
{
    assert forall|j: int| 0 <= j < 8 implies #[trigger] b[o + j] == byte_of(v, j as nat) by {
        assert(b.subrange(o, o + 8)[j] == b[o + j]);
    }
    lemma_le_at_of_bytes(b, o, v, 8);
    lemma_pow256_values();
}

/// The last bytes of the declaration of a dataset are its type, its place and its length;
/// what stands in front of them is its name.
pub proof fn law_declarations(name: Seq<u8>, t: u8, offset: u64, length: u64, le: bool, x: Seq<u8>)
    requires
        x.len() == name.len() + 17,
        x.take(name.len() as int) == name,
        x[name.len() as int] == t,
        uint_at(x.skip(name.len() as int + 1), 0, 8, le) == offset,
        uint_at(x.skip(name.len() as int + 9), 0, 8, le) == length,
    ensures
        entry_of(x, 17, 1, 8, 8, le) matches Ok(e) && e.name == name && e.type_ == t && e.offset
            == offset && e.length == length,
{
}

/// A command stands right behind the length of its record.
pub proof fn law_commands(b: Seq<u8>, pos: int, n: u8, le: bool)
    requires
        0 <= pos,
        n == 1 || n == 2 || n == 4 || n == 8,
        pos + n < b.len(),
    ensures
        command_at(b, pos, n, le) == Ok::<(u64, u8), LsdaFault>(
            (uint_at(b, pos, n as nat, le) as u64, b[pos + n]),
        ),
{
}

} // verus!
