//! Reading the headers of an ELF file.
//!
//! The parsing itself is done by the `xmas_elf` crate; this module hands its
//! results on as plain values and says when a file can be read at all.

use vstd::prelude::*;

verus! {

/// The fields of the ELF header that loading needs.
#[derive(Clone, Copy, Debug, PartialEq, Eq, Structural)]
pub struct ElfHeader {
    /// Whether the file is of the 64-bit class (else of the 32-bit class).
    pub class64: bool,
    pub entry_point: u64,
    /// Offset of the program-header table in the file.
    pub ph_offset: u64,
    /// Size of one entry of the program-header table.
    pub ph_entry_size: u16,
    /// Number of entries of the program-header table.
    pub ph_count: u16,
}

/// One entry of the program-header table.
#[derive(Clone, Copy, Debug, PartialEq, Eq, Structural)]
pub struct ProgramHeader {
    /// Whether the type of the segment is one the parser knows.
    pub type_ok: bool,
    /// Whether the segment is to be loaded.
    pub load: bool,
    pub virtual_addr: u64,
    pub mem_size: u64,
    pub offset: u64,
    pub file_size: u64,
    /// The permission bits of the segment: 1 execute, 2 write, 4 read.
    pub flags: u32,
}

/// Permission bit of a segment: it may be executed.
pub const SEGMENT_X: u32 = 1;

/// Permission bit of a segment: it may be written.
pub const SEGMENT_W: u32 = 2;

/// Permission bit of a segment: it may be read.
pub const SEGMENT_R: u32 = 4;

impl ProgramHeader {
    pub open spec fn spec_is_read(&self) -> bool {
        self.flags & SEGMENT_R == SEGMENT_R
    }

    pub open spec fn spec_is_write(&self) -> bool {
        self.flags & SEGMENT_W == SEGMENT_W
    }

    pub open spec fn spec_is_execute(&self) -> bool {
        self.flags & SEGMENT_X == SEGMENT_X
    }

    #[verifier::when_used_as_spec(spec_is_read)]
    pub fn is_read(&self) -> (r: bool)
        ensures
            r == self.spec_is_read(),
    {
        self.flags & SEGMENT_R == SEGMENT_R
    }

    #[verifier::when_used_as_spec(spec_is_write)]
    pub fn is_write(&self) -> (r: bool)
        ensures
            r == self.spec_is_write(),
    {
        self.flags & SEGMENT_W == SEGMENT_W
    }

    #[verifier::when_used_as_spec(spec_is_execute)]
    pub fn is_execute(&self) -> (r: bool)
        ensures
            r == self.spec_is_execute(),
    {
        self.flags & SEGMENT_X == SEGMENT_X
    }
}

/// What loading needs of an ELF file: the entry point and the program headers.
pub struct ElfImage {
    pub entry_point: u64,
    pub segments: Vec<ProgramHeader>,
}

/// The mathematical value of an [`ElfImage`].
pub struct ElfImageView {
    pub entry_point: u64,
    pub segments: Seq<ProgramHeader>,
}

impl View for ElfImage {
    type V = ElfImageView;

    open spec fn view(&self) -> ElfImageView {
        ElfImageView { entry_point: self.entry_point, segments: self.segments@ }
    }
}

/// The header that `xmas_elf` reads from the bytes `input`, if it accepts them.
pub uninterp spec fn elf_header_of(input: Seq<u8>) -> Option<ElfHeader>;

/// The program header `index` that `xmas_elf` reads from the bytes `input`,
/// if it finds one.
pub uninterp spec fn elf_program_header_of(input: Seq<u8>, index: u16) -> Option<ProgramHeader>;

/// Whether a file begins with the four magic bytes of ELF.
pub open spec fn has_elf_magic(input: Seq<u8>) -> bool {
    input.len() >= 4 && input[0] == 0x7f && input[1] == 0x45 && input[2] == 0x4c && input[3] == 0x46
}

/// Whether entry `index` of the program-header table lies within a file of
/// `len` bytes, is large enough for its class and is aligned for it.
pub open spec fn ph_readable(h: ElfHeader, len: int, index: u16) -> bool {
    let start = h.ph_offset + index * h.ph_entry_size;
    &&& index < h.ph_count
    &&& h.ph_offset > 0
    &&& h.ph_entry_size > 0
    &&& start + h.ph_entry_size <= len
    &&& h.ph_entry_size >= (if h.class64 {
        56int
    } else {
        32int
    })
    &&& start % (if h.class64 {
        8int
    } else {
        4int
    }) == 0
}

/// `ElfFile::new` of `xmas_elf`, with the header fields that loading needs
/// copied out. The call is made on a copy of `input` that starts at an
/// address divisible by 8, as the parser demands of a 64-bit header; with at
/// least 64 bytes it has all the bytes that it reads of either class. How
/// far that address lies into the copy is asked of `align_offset`, which
/// finds it for a pointer to bytes in a running program. The
/// parser reads each field in the byte order of the machine, so the result
/// is taken to depend on the bytes alone on one kind of machine only: the
/// little-endian ones, which the kernel's targets are.
#[verifier::external_body]
fn parse_header(input: &[u8]) -> (r: Option<ElfHeader>)
    requires
        input@.len() >= 64,
    ensures
        r == elf_header_of(input@),
{
    let mut buf = vec![0u8; input.len() + 8];
    let off = buf.as_ptr().align_offset(8);
    buf[off..off + input.len()].copy_from_slice(input);
    let elf = xmas_elf::ElfFile::new(&buf[off..off + input.len()]).ok()?;
    let h = elf.header.pt2;
    Some(ElfHeader {
        class64: matches!(elf.header.pt1.class(), xmas_elf::header::Class::SixtyFour),
        entry_point: h.entry_point(),
        ph_offset: h.ph_offset(),
        ph_entry_size: h.ph_entry_size(),
        ph_count: h.ph_count(),
    })
}

/// `ElfFile::program_header` of `xmas_elf`, with the fields of the entry
/// copied out. The call is made on a copy of `input` that starts at an
/// address divisible by 8; the entry must be readable, so that the parser
/// neither leaves the file nor meets a misaligned entry. The parser
/// refuses an entry only where the table has none with that index, which
/// a readable entry rules out, so it always finds one. The result is
/// taken to depend on the bytes and the index alone, on little-endian
/// machines as for the header.
#[verifier::external_body]
fn parse_program_header(input: &[u8], index: u16) -> (r: Option<ProgramHeader>)
    requires
        input@.len() >= 64,
        elf_header_of(input@) matches Some(h) && ph_readable(h, input@.len() as int, index),
    ensures
        r == elf_program_header_of(input@, index),
        r.is_some(),
{
    let mut buf = vec![0u8; input.len() + 8];
    let off = buf.as_ptr().align_offset(8);
    buf[off..off + input.len()].copy_from_slice(input);
    let elf = xmas_elf::ElfFile::new(&buf[off..off + input.len()]).ok()?;
    let ph = elf.program_header(index).ok()?;
    Some(ProgramHeader {
        type_ok: ph.get_type().is_ok(),
        load: matches!(ph.get_type(), Ok(xmas_elf::program::Type::Load)),
        virtual_addr: ph.virtual_addr(),
        mem_size: ph.mem_size(),
        offset: ph.offset(),
        file_size: ph.file_size(),
        flags: ph.flags().0,
    })
}

/// What [`read_elf`] makes of the bytes `input`: the image of a file that
/// has the magic bytes and at least 64 bytes, whose header the parser
/// accepts and whose program headers are all readable and found.
pub open spec fn elf_image_of(input: Seq<u8>) -> Option<ElfImageView> {
    if input.len() >= 64 && has_elf_magic(input) && elf_header_of(input).is_some() && (forall|
        i: u16,
    |
        i < elf_header_of(input).unwrap().ph_count ==> ph_readable(
            elf_header_of(input).unwrap(),
            input.len() as int,
            i,
        ) && (#[trigger] elf_program_header_of(input, i)).is_some()) {
        Some(
            ElfImageView {
                entry_point: elf_header_of(input).unwrap().entry_point,
                segments: Seq::new(
                    elf_header_of(input).unwrap().ph_count as nat,
                    |i: int| elf_program_header_of(input, i as u16).unwrap(),
                ),
            },
        )
    } else {
        None
    }
}

fn check_readable(h: &ElfHeader, len: usize, index: u16) -> (r: bool)
    ensures
        r == ph_readable(*h, len as int, index),
{
    if !(index < h.ph_count && h.ph_offset > 0 && h.ph_entry_size > 0) {
        return false;
    }
    assert(index as u64 * h.ph_entry_size as u64 <= 0xffff * 0xffff) by (nonlinear_arith)
        requires
            index <= 0xffff,
            h.ph_entry_size <= 0xffff,
    ;
    let step: u64 = index as u64 * h.ph_entry_size as u64;
    if h.ph_offset > u64::MAX - step - h.ph_entry_size as u64 {
        return false;
    }
    let start: u64 = h.ph_offset + step;
    let end: u64 = start + h.ph_entry_size as u64;
    if end > len as u64 {
        return false;
    }
    let (size, align): (u16, u64) = if h.class64 {
        (56, 8)
    } else {
        (32, 4)
    };
    h.ph_entry_size >= size && start % align == 0
}

/// Reads the header and all program headers of the ELF file `input`.
pub fn read_elf(input: &[u8]) -> (r: Option<ElfImage>)
    ensures
        match r {
            Some(image) => elf_image_of(input@) == Some(image@),
            None => elf_image_of(input@).is_none(),
        },
{
    if input.len() < 64 {
        return None;
    }
    if !(input[0] == 0x7f && input[1] == 0x45 && input[2] == 0x4c && input[3] == 0x46) {
        return None;
    }
    let header = match parse_header(input) {
        Some(h) => h,
        None => {
            return None;
        },
    };
    let mut segments: Vec<ProgramHeader> = Vec::new();
    let mut i: u16 = 0;
    while i < header.ph_count
        invariant
            i <= header.ph_count,
            input@.len() >= 64,
            has_elf_magic(input@),
            elf_header_of(input@) == Some(header),
            segments@.len() == i,
            forall|j: u16|
                j < i ==> ph_readable(header, input@.len() as int, j) && (
                #[trigger] elf_program_header_of(input@, j)) == Some(segments@[j as int]),
        decreases header.ph_count - i,
    {
        let ghost found = elf_program_header_of(input@, i);
        if !check_readable(&header, input.len(), i) {
            assert(!(ph_readable(header, input@.len() as int, i) && found.is_some()));
            return None;
        }
        let ph = parse_program_header(input, i).unwrap();
        segments.push(ph);
        i += 1;
    }
    let image = ElfImage { entry_point: header.entry_point, segments };
    proof {
        assert(image@.segments =~= Seq::new(
            header.ph_count as nat,
            |i: int| elf_program_header_of(input@, i as u16).unwrap(),
        ));
    }
    Some(image)
}

} // verus!
