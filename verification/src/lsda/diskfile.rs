//! One file of an LSDA family: its header, and a position to read from.

use crate::lsda::endian::{is_field_size, lemma_uint_same, read_int, uint_at};
use crate::lsda::{LsdaError, LsdaFault};
use vstd::prelude::*;
use vstd::slice::{slice_subrange, slice_to_vec};

verus! {

/// A place in a file.
#[derive(Debug, Clone, Copy, PartialEq, Eq, Structural)]
pub enum SeekFrom {
    Start(u64),
    Current(i64),
    End(i64),
}

/// An LSDA file opened for reading: its bytes, the field sizes that its header
/// gives, and the position of the next read.
pub struct Diskfile {
    pub map: Vec<u8>,
    pub pos: usize,
    pub at_eof: bool,
    pub length_size: u8,
    pub offset_size: u8,
    pub command_size: u8,
    pub type_size: u8,
    pub is_little_endian: bool,
    pub comp1: usize,
    pub comp2: usize,
    pub last_offset: u64,
}

/// What a read behind the end of the file is answered with.
pub open spec fn past_end() -> LsdaFault {
    LsdaFault::Conversion("read past end of LSDA file"@)
}

fn past_end_error() -> (r: LsdaError)
    ensures
        r@ == past_end(),
{
    LsdaError::Conversion(String::from_str("read past end of LSDA file"))
}

/// A number of `size` bytes at position `pos` of `b`.
pub open spec fn value_at(b: Seq<u8>, pos: int, size: u8, le: bool) -> Result<u64, LsdaFault> {
    if pos + size > b.len() {
        Err(past_end())
    } else if !is_field_size(size as int) {
        Err(LsdaFault::InvalidDataTypeSize)
    } else {
        Ok(uint_at(b, pos, size as nat, le) as u64)
    }
}

/// A record header at position `pos`: the length of the record, and its command.
pub open spec fn command_at(b: Seq<u8>, pos: int, size: u8, le: bool) -> Result<
    (u64, u8),
    LsdaFault,
> {
    match value_at(b, pos, size, le) {
        Err(e) => Err(e),
        Ok(v) => if pos + size < b.len() {
            Ok((v, b[pos + size]))
        } else {
            Err(past_end())
        },
    }
}

impl Diskfile {
    /// The sums of field sizes are those of the header.
    pub open spec fn wf(self) -> bool {
        &&& self.comp1 == self.type_size + self.offset_size + self.length_size
        &&& self.comp2 == self.length_size + self.command_size + self.type_size + 1
    }

    /// The same file with the same header, at whatever position.
    pub open spec fn same_file(self, other: Self) -> bool {
        &&& self.map == other.map
        &&& self.length_size == other.length_size
        &&& self.offset_size == other.offset_size
        &&& self.command_size == other.command_size
        &&& self.type_size == other.type_size
        &&& self.is_little_endian == other.is_little_endian
        &&& self.comp1 == other.comp1
        &&& self.comp2 == other.comp2
    }

    /// The same file, and all but the position as it was.
    pub open spec fn moved(self, other: Self) -> bool {
        &&& self.same_file(other)
        &&& self.at_eof == other.at_eof
        &&& self.last_offset == other.last_offset
    }

    /// Takes the bytes of a file. The mode must be a reading one, and the file must
    /// have its header of eight bytes: the start of the data, the sizes of lengths,
    /// offsets, commands and types, and 1 for little-endian numbers.
    pub fn new(map: Vec<u8>, mode: &str) -> (r: Result<Self, LsdaError>)
        ensures
            r is Ok <==> mode@.len() > 0 && mode@[0] == 'r' && map@.len() >= 8,
            r matches Ok(f) ==> {
                &&& f.wf()
                &&& f.map == map
                &&& f.pos == if map@[0] > 8 {
                    map@[0]
                } else {
                    8
                }
                &&& !f.at_eof
                &&& f.length_size == map@[1]
                &&& f.offset_size == map@[2]
                &&& f.command_size == map@[3]
                &&& f.type_size == map@[4]
                &&& f.is_little_endian == (map@[5] == 1)
                &&& f.last_offset == 0
            },
            r matches Err(e) ==> e@ == (if mode@.len() > 0 && mode@[0] == 'r' {
                LsdaFault::Conversion("LSDA file shorter than its 8-byte header"@)
            } else {
                LsdaFault::InvalidPath("Diskfile is read-only"@)
            }),
    {
        if mode.unicode_len() == 0 || mode.get_char(0) != 'r' {
            return Err(LsdaError::InvalidPath(String::from_str("Diskfile is read-only")));
        }
        if map.len() < 8 {
            return Err(
                LsdaError::Conversion(
                    String::from_str("LSDA file shorter than its 8-byte header"),
                ),
            );
        }
        let length_size: u8 = map[1];
        let offset_size: u8 = map[2];
        let command_size: u8 = map[3];
        let type_size: u8 = map[4];
        let is_little_endian: bool = map[5] == 1;
        let pos: usize = if map[0] > 8 { map[0] as usize } else { 8 };
        let comp1: usize = type_size as usize + offset_size as usize + length_size as usize;
        let comp2: usize = length_size as usize + command_size as usize + type_size as usize + 1;
        Ok(
            Diskfile {
                map,
                pos,
                at_eof: false,
                length_size,
                offset_size,
                command_size,
                type_size,
                is_little_endian,
                comp1,
                comp2,
                last_offset: 0,
            },
        )
    }

    /// The bytes of the whole file.
    pub fn bytes(&self) -> (r: &[u8])
        ensures
            r@ == self.map@,
    {
        self.map.as_slice()
    }

    /// Reads a record header: the length of the record, then its command. Where the
    /// length can be read and the command cannot, the position is behind the
    /// length.
    pub fn read_command(&mut self) -> (r: Result<(u64, u8), LsdaError>)
        ensures
            final(self).moved(*old(self)),
            match r {
                Ok(v) => command_at(
                    old(self).map@,
                    old(self).pos as int,
                    old(self).length_size,
                    old(self).is_little_endian,
                ) == Ok::<(u64, u8), LsdaFault>(v) && final(self).pos == old(self).pos + old(self).length_size + 1,
                Err(e) => command_at(
                    old(self).map@,
                    old(self).pos as int,
                    old(self).length_size,
                    old(self).is_little_endian,
                ) == Err::<(u64, u8), LsdaFault>(e@) && final(self).pos == old(self).pos + if value_at(
                    old(self).map@,
                    old(self).pos as int,
                    old(self).length_size,
                    old(self).is_little_endian,
                ) is Ok {
                    old(self).length_size as int
                } else {
                    0
                },
            },
    {
        let size: u8 = self.length_size;
        match self.read_value(size) {
            Ok(length) => match self.read_u8() {
                Ok(command) => Ok((length, command)),
                Err(e) => Err(e),
            },
            Err(e) => Err(e),
        }
    }

    /// Reads an offset.
    pub fn read_offset(&mut self) -> (r: Result<u64, LsdaError>)
        ensures
            final(self).moved(*old(self)),
            match r {
                Ok(v) => value_at(
                    old(self).map@,
                    old(self).pos as int,
                    old(self).offset_size,
                    old(self).is_little_endian,
                ) == Ok::<u64, LsdaFault>(v) && final(self).pos == old(self).pos + old(self).offset_size,
                Err(e) => value_at(
                    old(self).map@,
                    old(self).pos as int,
                    old(self).offset_size,
                    old(self).is_little_endian,
                ) == Err::<u64, LsdaFault>(e@) && final(self).pos == old(self).pos,
            },
    {
        let size: u8 = self.offset_size;
        self.read_value(size)
    }

    /// Reads `len` bytes.
    pub fn read_slice(&mut self, len: usize) -> (r: Result<Vec<u8>, LsdaError>)
        ensures
            final(self).moved(*old(self)),
            r is Ok <==> old(self).pos + len <= old(self).map@.len(),
            match r {
                Ok(v) => v@ == old(self).map@.subrange(old(self).pos as int, old(self).pos + len)
                    && final(self).pos == old(self).pos + len,
                Err(e) => e@ == past_end() && final(self).pos == old(self).pos,
            },
    {
        let n: usize = self.map.len();
        if self.pos > n || len > n - self.pos {
            return Err(past_end_error());
        }
        let start: usize = self.pos;
        let end: usize = start + len;
        let out: Vec<u8> = slice_to_vec(slice_subrange(self.map.as_slice(), start, end));
        self.pos = end;
        Ok(out)
    }

    /// The position of the next read.
    pub fn tell(&mut self) -> (r: Result<u64, LsdaError>)
        ensures
            *final(self) == *old(self),
            r matches Ok(p) && p == old(self).pos,
    {
        Ok(self.pos as u64)
    }

    /// The position that a place stands for.
    pub open spec fn target(self, place: SeekFrom) -> int {
        match place {
            SeekFrom::Start(o) => o as int,
            SeekFrom::Current(o) => self.pos + o,
            SeekFrom::End(o) => self.map@.len() + o,
        }
    }

    /// Moves to a place, which must be in the file or at its end.
    pub fn seek(&mut self, place: SeekFrom) -> (r: Result<u64, LsdaError>)
        ensures
            final(self).moved(*old(self)),
            r is Ok <==> 0 <= old(self).target(place) <= old(self).map@.len(),
            match r {
                Ok(p) => p == old(self).target(place) && final(self).pos == p,
                Err(e) => e@ == LsdaFault::Conversion("seek out of range in LSDA file"@) && final(self).pos == old(self).pos,
            },
    {
        let new: i128 = match place {
            SeekFrom::Start(o) => o as i128,
            SeekFrom::Current(o) => self.pos as i128 + o as i128,
            SeekFrom::End(o) => self.map.len() as i128 + o as i128,
        };
        if new < 0 || new > self.map.len() as i128 {
            return Err(
                LsdaError::Conversion(String::from_str("seek out of range in LSDA file")),
            );
        }
        self.pos = new as usize;
        Ok(self.pos as u64)
    }

    fn read_u8(&mut self) -> (r: Result<u8, LsdaError>)
        ensures
            final(self).moved(*old(self)),
            r is Ok <==> old(self).pos < old(self).map@.len(),
            match r {
                Ok(b) => b == old(self).map@[old(self).pos as int] && final(self).pos == old(self).pos + 1,
                Err(e) => e@ == past_end() && final(self).pos == old(self).pos,
            },
    {
        if self.pos >= self.map.len() {
            return Err(past_end_error());
        }
        let b: u8 = self.map[self.pos];
        self.pos = self.pos + 1;
        Ok(b)
    }

    fn read_value(&mut self, size: u8) -> (r: Result<u64, LsdaError>)
        ensures
            final(self).moved(*old(self)),
            match r {
                Ok(v) => value_at(
                    old(self).map@,
                    old(self).pos as int,
                    size,
                    old(self).is_little_endian,
                ) == Ok::<u64, LsdaFault>(v) && final(self).pos == old(self).pos + size,
                Err(e) => value_at(
                    old(self).map@,
                    old(self).pos as int,
                    size,
                    old(self).is_little_endian,
                ) == Err::<u64, LsdaFault>(e@) && final(self).pos == old(self).pos,
            },
    {
        let n: usize = self.map.len();
        let s: usize = size as usize;
        if self.pos > n || s > n - self.pos {
            return Err(past_end_error());
        }
        let start: usize = self.pos;
        let end: usize = start + s;
        let part: &[u8] = slice_subrange(self.map.as_slice(), start, end);
        proof {
            assert forall|j: int| 0 <= j < s implies #[trigger] part@[0 + j] == self.map@[start
                + j] by {}
            lemma_uint_same(part@, 0, self.map@, start as int, s as nat, self.is_little_endian);
        }
        match read_int(part, size, self.is_little_endian) {
            Some(v) => {
                self.pos = end;
                Ok(v)
            },
            None => Err(LsdaError::InvalidDataTypeSize),
        }
    }
}

} // verus!
